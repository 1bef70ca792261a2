use constat::author::{AuthorCollection, AuthorIndex, AuthorStat, OLDER_CODE, UNKNOWN_AUTHOR};

#[test]
fn first_name_gets_id_zero_and_ids_ascend() {
    let mut authors = AuthorCollection::new();
    assert_eq!(authors.query_id("Alice"), 0);
    assert_eq!(authors.query_id("Bob"), 1);
    assert_eq!(authors.query_id("Carol"), 2);
    assert_eq!(authors.len(), 3);
}

#[test]
fn known_name_keeps_its_id() {
    let mut authors = AuthorCollection::new();
    authors.query_id("Alice");
    authors.query_id("Bob");
    assert_eq!(authors.query_id("Alice"), 0);
    assert_eq!(authors.try_query_id("Bob"), Some(1));
    assert_eq!(authors.len(), 2);
}

#[test]
fn names_are_found_by_id() {
    let mut authors = AuthorCollection::new();
    authors.query_id("Alice");
    authors.query_id(OLDER_CODE);
    assert_eq!(authors.query_name(0), Some("Alice"));
    assert_eq!(authors.query_name(1), Some("Older Code"));
    assert_eq!(authors.query_name(2), None);
}

#[test]
fn reserved_names() {
    assert_eq!(OLDER_CODE, "Older Code");
    assert_eq!(UNKNOWN_AUTHOR, "<Unknown>");
}

#[test]
fn names_differing_in_case_or_space_are_different_authors() {
    let mut authors = AuthorCollection::new();
    assert_eq!(authors.query_id("alice"), 0);
    assert_eq!(authors.query_id("Alice"), 1);
    assert_eq!(authors.query_id("Alice "), 2);
    assert_eq!(authors.query_id(""), 3);
}

#[test]
fn author_index_interns_names() {
    let mut index = AuthorIndex::new();
    assert_eq!(index.num_authors(), 0);
    assert_eq!(index.get_id_by_name("Alice"), 0);
    assert_eq!(index.get_id_by_name("Bob"), 1);
    assert_eq!(index.get_id_by_name("Alice"), 0);
    assert_eq!(index.num_authors(), 2);
    assert_eq!(index.get_name_by_id(1), Some("Bob"));
    assert_eq!(index.get_name_by_id(2), None);
}

#[test]
fn author_stat_counts_up_and_down() {
    let mut stat = AuthorStat::new();
    assert_eq!(stat.stats(), &[] as &[usize]);
    stat.incrment_author(2, 1);
    stat.incrment_author(2, 5);
    stat.incrment_author(0, 1);
    assert_eq!(stat.stats(), &[1, 0, 2]);
    stat.incrment_author(2, -1);
    stat.incrment_author(0, 0);
    assert_eq!(stat.stats(), &[0, 0, 1]);
}
