use constat::commits::{CommitInfo, CommitTable};
use constat::history::{sorted_nodes, GitCommit, HistoryGraph};

fn commit(_label: &str, timestamp: i64, author: &str, parents: &[usize]) -> CommitInfo {
    CommitInfo {
        timestamp,
        author: Some(author.to_string()),
        parents: parents.to_vec(),
        recurse: true,
    }
}

fn table(commits: Vec<CommitInfo>) -> CommitTable {
    CommitTable::new(commits).unwrap()
}

fn graph(table: &CommitTable, head: usize) -> HistoryGraph {
    GitCommit { table, place: Some(head) }.topological_sort()
}

fn nodes(g: &HistoryGraph) -> Vec<usize> {
    (0..g.len()).map(|i| g.get_commit(i).unwrap()).collect()
}

fn parents(g: &HistoryGraph) -> Vec<Vec<usize>> {
    (0..g.len()).map(|i| g.get_parent_idx(i).unwrap().to_vec()).collect()
}

fn expired(g: &HistoryGraph) -> Vec<Vec<usize>> {
    g.plan().into_iter().map(|s| s.expired).collect()
}

fn diamond() -> CommitTable {
    table(vec![
        commit("c0", 40, "M", &[1, 2]),
        commit("a1", 30, "A", &[3]),
        commit("b2", 20, "B", &[3]),
        commit("d3", 10, "R", &[]),
    ])
}

#[test]
fn table_needs_parents_behind_children() {
    assert!(CommitTable::new(vec![commit("a", 1, "A", &[1]), commit("b", 0, "B", &[])]).is_some());
    assert!(CommitTable::new(vec![commit("a", 1, "A", &[0])]).is_none());
    assert!(CommitTable::new(vec![commit("a", 1, "A", &[1])]).is_none());
    assert!(CommitTable::new(vec![commit("a", 1, "A", &[]), commit("b", 0, "B", &[0])]).is_none());
    assert!(CommitTable::new(vec![]).is_some());
}

#[test]
fn linear_history_is_processed_oldest_first() {
    let t = table(vec![
        commit("c3", 3, "A", &[1]),
        commit("c2", 2, "B", &[2]),
        commit("c1", 1, "A", &[]),
    ]);
    let g = graph(&t, 0);
    assert_eq!(nodes(&g), vec![2, 1, 0]);
    assert_eq!(parents(&g), vec![vec![], vec![0], vec![1]]);
    assert_eq!(g.get_parent_commits(2), vec![1]);
    assert_eq!(g.get_parent_commits(0), Vec::<usize>::new());
    assert_eq!(g.get_parent_commits(7), Vec::<usize>::new());
    assert_eq!(g.get_commit(3), None);
    assert!(g.get_parent_idx(3).is_none());
}

#[test]
fn every_parent_comes_before_its_child() {
    let t = diamond();
    let g = graph(&t, 0);
    assert_eq!(nodes(&g), vec![3, 1, 2, 0]);
    assert_eq!(parents(&g), vec![vec![], vec![0], vec![0], vec![1, 2]]);
    for (i, row) in parents(&g).iter().enumerate() {
        for &j in row {
            assert!(j < i);
        }
    }
}

#[test]
fn walk_from_inner_commit_sees_only_its_ancestors() {
    let t = diamond();
    let g = graph(&t, 2);
    assert_eq!(nodes(&g), vec![3, 2]);
    assert_eq!(parents(&g), vec![vec![], vec![0]]);
}

#[test]
fn scratch_gives_empty_graph() {
    let t = diamond();
    let head = GitCommit { table: &t, place: Some(0) };
    let g = head.scratch().topological_sort();
    assert_eq!(g.len(), 0);
    assert!(g.plan().is_empty());
    assert_eq!(head.scratch().get_timestamp(), None);
    assert!(head.scratch().is_initial_commit());
    assert_eq!(head.scratch().author_name(), "<Unknown>");
}

#[test]
fn plan_drops_each_tree_after_its_last_use() {
    let t = diamond();
    let g = graph(&t, 0);
    let plan = g.plan();
    let steps: Vec<usize> = plan.iter().map(|s| s.processing).collect();
    assert_eq!(steps, vec![0, 1, 2, 3]);
    assert_eq!(expired(&g), vec![vec![], vec![], vec![0], vec![2, 1]]);
}

#[test]
fn every_node_but_the_last_expires_exactly_once() {
    let t = table(vec![
        commit("h", 9, "A", &[1, 2, 3]),
        commit("x", 8, "B", &[4]),
        commit("y", 7, "C", &[4]),
        commit("z", 6, "D", &[5]),
        commit("p", 5, "E", &[5]),
        commit("r", 4, "F", &[]),
    ]);
    let g = graph(&t, 0);
    let mut all: Vec<usize> = expired(&g).into_iter().flatten().collect();
    all.sort();
    assert_eq!(all, (0..g.len() - 1).collect::<Vec<_>>());
}

#[test]
fn parent_of_same_time_and_author_is_skipped() {
    let t = table(vec![
        commit("c", 5, "A", &[1]),
        commit("p", 5, "A", &[2, 3]),
        commit("g", 4, "A", &[]),
        commit("q", 5, "B", &[]),
    ]);
    assert_eq!(t.find_effective_ancestors(0), vec![2, 3]);
    assert_eq!(t.find_effective_ancestors(1), vec![2, 3]);
    let g = graph(&t, 0);
    assert_eq!(nodes(&g), vec![2, 3, 0]);
    assert_eq!(parents(&g), vec![vec![], vec![], vec![0, 1]]);
}

#[test]
fn skipping_goes_on_through_a_chain_level_by_level() {
    let t = table(vec![
        commit("c", 5, "A", &[1, 2]),
        commit("p", 5, "A", &[3]),
        commit("o", 1, "B", &[]),
        commit("q", 5, "A", &[4]),
        commit("r", 2, "A", &[]),
    ]);
    assert_eq!(t.find_effective_ancestors(0), vec![2, 4]);
}

#[test]
fn ancestor_reached_twice_is_listed_twice_and_recorded_once() {
    let t = table(vec![
        commit("c", 5, "A", &[1, 2]),
        commit("p", 5, "A", &[3]),
        commit("q", 5, "A", &[3]),
        commit("r", 2, "A", &[]),
    ]);
    assert_eq!(t.find_effective_ancestors(0), vec![3, 3]);
    let g = graph(&t, 0);
    assert_eq!(nodes(&g), vec![3, 0]);
    assert_eq!(parents(&g), vec![vec![], vec![0]]);
}

#[test]
fn commit_whose_parents_are_all_skipped_starts_the_history() {
    let t = table(vec![
        commit("c", 5, "A", &[1]),
        commit("p", 5, "A", &[]),
        commit("x", 5, "B", &[]),
    ]);
    assert!(GitCommit { table: &t, place: Some(0) }.is_initial_commit());
    assert!(GitCommit { table: &t, place: Some(1) }.is_initial_commit());
    let t = diamond();
    assert!(!GitCommit { table: &t, place: Some(0) }.is_initial_commit());
    assert!(GitCommit { table: &t, place: Some(3) }.is_initial_commit());
}

#[test]
fn same_time_with_other_author_is_not_skipped() {
    let mut nameless = commit("p", 5, "", &[]);
    nameless.author = None;
    let t = table(vec![commit("c", 5, "", &[1, 2]), nameless, commit("q", 6, "", &[])]);
    assert_eq!(t.find_effective_ancestors(0), vec![1, 2]);
}

#[test]
fn commits_without_author_name_count_as_same_author() {
    let mut a = commit("c", 5, "", &[1]);
    a.author = None;
    let mut b = commit("p", 5, "", &[2]);
    b.author = None;
    let t = table(vec![a, b, commit("g", 1, "G", &[])]);
    assert_eq!(t.find_effective_ancestors(0), vec![2]);
    assert_eq!(GitCommit { table: &t, place: Some(0) }.author_name(), "<Unknown>");
    assert_eq!(GitCommit { table: &t, place: Some(2) }.author_name(), "G");
    assert_eq!(GitCommit { table: &t, place: Some(2) }.get_timestamp(), Some(1));
}

#[test]
fn filter_cuts_the_walk_behind_the_boundary_commit() {
    let mut boundary = commit("c2", 2, "B", &[2]);
    boundary.recurse = false;
    let t = table(vec![commit("c3", 3, "A", &[1]), boundary, commit("c1", 1, "A", &[])]);
    let g = graph(&t, 0);
    assert_eq!(nodes(&g), vec![1, 0]);
    assert_eq!(parents(&g), vec![vec![], vec![0]]);
}

#[test]
fn boundary_commit_records_no_parent_finished_before_it() {
    let mut boundary = commit("x", 3, "X", &[3]);
    boundary.recurse = false;
    let t = table(vec![
        commit("h", 9, "H", &[1, 2]),
        commit("q", 2, "Q", &[3]),
        boundary,
        commit("p", 1, "P", &[]),
    ]);
    let g = graph(&t, 0);
    assert_eq!(nodes(&g), vec![3, 1, 2, 0]);
    assert_eq!(parents(&g), vec![vec![], vec![0], vec![], vec![1, 2]]);
}

#[test]
fn boundary_commit_does_not_record_parent_finished_after_it() {
    let mut boundary = commit("x", 3, "X", &[3]);
    boundary.recurse = false;
    let t = table(vec![
        commit("h", 9, "H", &[1, 2]),
        boundary,
        commit("q", 2, "Q", &[3]),
        commit("p", 1, "P", &[]),
    ]);
    let g = graph(&t, 0);
    assert_eq!(nodes(&g), vec![1, 3, 2, 0]);
    assert_eq!(parents(&g), vec![vec![], vec![], vec![1], vec![0, 2]]);
}

#[test]
fn first_parent_is_walked_first() {
    let t = table(vec![
        commit("h", 9, "H", &[1, 2, 3]),
        commit("a", 3, "A", &[]),
        commit("b", 2, "B", &[]),
        commit("c", 1, "C", &[]),
    ]);
    let g = graph(&t, 0);
    assert_eq!(nodes(&g), vec![1, 2, 3, 0]);
    assert_eq!(g.get_parent_commits(3), vec![1, 2, 3]);
}

#[test]
fn recorded_parents_are_in_ascending_order_each_once() {
    assert_eq!(sorted_nodes(&vec![3, 1, 2, 1, 3]), vec![1, 2, 3]);
    assert_eq!(sorted_nodes(&vec![]), Vec::<usize>::new());
    let t = table(vec![
        commit("h", 9, "H", &[1, 2, 3, 2]),
        commit("zz", 3, "X", &[]),
        commit("aa", 2, "Q", &[]),
        commit("mm", 1, "P", &[]),
    ]);
    let g = graph(&t, 0);
    assert_eq!(nodes(&g), vec![1, 2, 3, 0]);
    assert_eq!(parents(&g), vec![vec![], vec![], vec![], vec![0, 1, 2]]);
    assert_eq!(g.get_parent_commits(3), vec![1, 2, 3]);
}

#[test]
fn commit_authors_are_registered_by_name() {
    let mut nameless = commit("n", 1, "", &[]);
    nameless.author = None;
    let t = table(vec![commit("a", 3, "Alice", &[1]), commit("b", 2, "Bob", &[2]), nameless]);
    let mut authors = constat::author::AuthorCollection::new();
    assert_eq!(GitCommit { table: &t, place: Some(1) }.author_id(&mut authors), Some(0));
    assert_eq!(GitCommit { table: &t, place: Some(0) }.author_id(&mut authors), Some(1));
    assert_eq!(GitCommit { table: &t, place: Some(2) }.author_id(&mut authors), Some(2));
    assert_eq!(GitCommit { table: &t, place: None }.author_id(&mut authors), Some(2));
    assert_eq!(GitCommit { table: &t, place: Some(1) }.author_id(&mut authors), Some(0));
    let head = GitCommit { table: &t, place: Some(0) };
    assert_eq!(head.get_author_by_name(&mut authors, "Older Code"), Some(3));
    assert_eq!(head.get_author_by_name(&mut authors, "Bob"), Some(0));
    assert_eq!(authors.query_name(2), Some("<Unknown>"));
}

#[test]
fn commit_cut_off_by_the_filter_records_no_parent_on_any_way() {
    let mut boundary = commit("x", 3, "X", &[2]);
    boundary.recurse = false;
    let t = table(vec![commit("h", 9, "H", &[2, 1]), boundary, commit("p", 1, "P", &[])]);
    let g = graph(&t, 0);
    assert_eq!(nodes(&g), vec![2, 1, 0]);
    assert_eq!(parents(&g), vec![vec![], vec![], vec![0, 1]]);
}

#[test]
fn head_is_the_last_node_and_nodes_record_their_effective_ancestors() {
    let t = table(vec![
        commit("h", 9, "H", &[1, 2]),
        commit("a", 9, "H", &[3, 4]),
        commit("b", 5, "B", &[4]),
        commit("c", 3, "C", &[5]),
        commit("d", 2, "D", &[5]),
        commit("r", 1, "R", &[]),
    ]);
    let g = graph(&t, 0);
    let order = nodes(&g);
    assert_eq!(*order.last().unwrap(), 0);
    for i in 0..g.len() {
        let mut recorded = g.get_parent_commits(i);
        let mut expected = t.find_effective_ancestors(order[i]);
        recorded.sort();
        expected.sort();
        expected.dedup();
        assert_eq!(recorded, expected);
    }
}

#[test]
fn effective_ancestors_of_a_commit_without_repeating_parent_are_its_parents() {
    let t = diamond();
    assert_eq!(t.find_effective_ancestors(0), vec![1, 2]);
    assert_eq!(t.find_effective_ancestors(1), vec![3]);
    assert_eq!(t.find_effective_ancestors(3), Vec::<usize>::new());
}
