use constat::blocks::LineBlock;
use constat::tree::{FileLines, Tree};

fn block(author_id: u32, size: u32) -> LineBlock {
    LineBlock { author_id, size }
}

fn listed(path: &str, lines: u32) -> FileLines {
    FileLines { path: path.to_string(), lines }
}

fn at(tree: &Tree, path: &str) -> Option<Vec<LineBlock>> {
    tree.get(path).map(|b| b.to_vec())
}

#[test]
fn empty_tree_holds_nothing() {
    let tree = Tree::empty();
    assert_eq!(tree.len(), 0);
    assert_eq!(at(&tree, "a"), None);
    assert!(!tree.contains("a"));
    assert_eq!(tree.stat(|_| true), Some(vec![]));
}

#[test]
fn insert_normalizes_and_replaces() {
    let mut tree = Tree::empty();
    assert!(tree.insert("a", vec![block(1, 2), block(1, 3), block(2, 1)]));
    assert_eq!(at(&tree, "a"), Some(vec![block(1, 5), block(2, 1)]));
    assert!(tree.insert("a", vec![block(3, 1)]));
    assert_eq!(at(&tree, "a"), Some(vec![block(3, 1)]));
    assert_eq!(tree.len(), 1);
    assert!(tree.insert("b", vec![]));
    assert_eq!(at(&tree, "b"), Some(vec![]));
    assert_eq!(tree.len(), 2);
}

#[test]
fn insert_refuses_more_lines_than_a_line_number_counts() {
    let mut tree = Tree::empty();
    assert!(tree.insert("a", vec![block(1, 1)]));
    assert!(!tree.insert("a", vec![block(1, u32::MAX), block(2, 1)]));
    assert_eq!(at(&tree, "a"), Some(vec![block(1, 1)]));
    assert!(tree.insert("a", vec![block(1, u32::MAX - 1), block(2, 1)]));
}

#[test]
fn remove_takes_file_out() {
    let mut tree = Tree::empty();
    tree.insert("a", vec![block(1, 1)]);
    tree.insert("b", vec![block(2, 2)]);
    tree.insert("c", vec![block(3, 3)]);
    assert_eq!(tree.remove("b"), Some(vec![block(2, 2)]));
    assert_eq!(tree.remove("b"), None);
    assert_eq!(tree.len(), 2);
    assert_eq!(at(&tree, "a"), Some(vec![block(1, 1)]));
    assert_eq!(at(&tree, "c"), Some(vec![block(3, 3)]));
}

#[test]
fn clone_is_independent_of_its_source() {
    let mut tree = Tree::empty();
    tree.insert("a", vec![block(1, 1)]);
    let copy = tree.clone();
    tree.insert("a", vec![block(2, 2)]);
    tree.remove("a");
    assert_eq!(at(&copy, "a"), Some(vec![block(1, 1)]));
    assert_eq!(copy.len(), 1);
}

#[test]
fn paths_are_listed_in_storage_order() {
    let mut tree = Tree::empty();
    tree.insert("z", vec![]);
    tree.insert("a", vec![]);
    assert_eq!(tree.paths(), vec!["z".to_string(), "a".to_string()]);
}

#[test]
fn from_commit_gives_one_block_per_file() {
    let tree = Tree::from_commit(&[listed("a", 3), listed("b", 0), listed("a", 7)], 4);
    assert_eq!(tree.len(), 2);
    assert_eq!(at(&tree, "a"), Some(vec![block(4, 7)]));
    assert_eq!(at(&tree, "b"), Some(vec![block(4, 0)]));
}

#[test]
fn copy_from_old_tree_renames() {
    let mut base = Tree::empty();
    base.insert("old", vec![block(1, 4)]);
    base.insert("keep", vec![block(2, 1)]);
    let mut tree = base.clone();
    tree.copy_from_old_tree(&base, Some("old"), Some("new"));
    assert_eq!(at(&tree, "old"), None);
    assert_eq!(at(&tree, "new"), Some(vec![block(1, 4)]));
    assert_eq!(at(&tree, "keep"), Some(vec![block(2, 1)]));
}

#[test]
fn copy_from_old_tree_creates_keeps_and_deletes() {
    let mut base = Tree::empty();
    base.insert("a", vec![block(1, 4)]);
    let mut tree = base.clone();
    tree.copy_from_old_tree(&base, None, Some("a"));
    assert_eq!(at(&tree, "a"), Some(vec![]));
    let mut tree = base.clone();
    tree.copy_from_old_tree(&base, Some("a"), Some("a"));
    assert_eq!(at(&tree, "a"), Some(vec![block(1, 4)]));
    tree.copy_from_old_tree(&base, Some("b"), Some("b"));
    assert_eq!(at(&tree, "b"), Some(vec![]));
    tree.copy_from_old_tree(&base, Some("missing"), Some("c"));
    assert_eq!(at(&tree, "c"), Some(vec![]));
    tree.copy_from_old_tree(&base, Some("a"), None);
    assert_eq!(at(&tree, "a"), None);
    tree.copy_from_old_tree(&base, None, None);
    assert_eq!(tree.len(), 2);
}

#[test]
fn stat_sums_lines_per_author() {
    let mut tree = Tree::empty();
    tree.insert("a", vec![block(0, 3), block(2, 1), block(0, 2)]);
    tree.insert("b", vec![block(2, 4)]);
    assert_eq!(tree.stat(|_| true), Some(vec![5, 0, 5]));
}

#[test]
fn stat_counts_only_selected_files() {
    let mut tree = Tree::empty();
    tree.insert("src/a.rs", vec![block(0, 3)]);
    tree.insert("doc/b.md", vec![block(4, 9)]);
    assert_eq!(tree.stat(|p| p.starts_with("src/")), Some(vec![3]));
    assert_eq!(tree.stat(|_| false), Some(vec![]));
    assert_eq!(tree.stat_selected(&[false, true]), Some(vec![0, 0, 0, 0, 9]));
}

#[test]
fn stat_spans_authors_of_empty_blocks() {
    let tree = Tree::from_commit(&[listed("a", 0)], 2);
    assert_eq!(tree.stat(|_| true), Some(vec![0, 0, 0]));
}

#[test]
fn stat_sums_beyond_32_bits() {
    let mut tree = Tree::empty();
    tree.insert("a", vec![block(0, u32::MAX)]);
    tree.insert("b", vec![block(0, u32::MAX)]);
    assert_eq!(tree.stat(|_| true), Some(vec![2 * (u32::MAX as u64)]));
}

#[test]
fn patterns_select_files_for_stat() {
    let patterns = vec![
        glob::Pattern::new("src/**/*.rs").unwrap(),
        glob::Pattern::new("*.md").unwrap(),
    ];
    assert!(constat::filter::should_tracking(&patterns, "src/a/b.rs"));
    assert!(constat::filter::should_tracking(&patterns, "README.md"));
    assert!(!constat::filter::should_tracking(&patterns, "src/a/b.c"));
    assert!(!constat::filter::should_tracking(&[], "README.md"));
    let mut tree = Tree::empty();
    tree.insert("src/x.rs", vec![block(0, 3)]);
    tree.insert("notes.txt", vec![block(1, 9)]);
    assert_eq!(tree.stat(|p| constat::filter::should_tracking(&patterns, p)), Some(vec![3]));
}

#[test]
fn lines_are_counted_by_line_feeds() {
    use_count_lines(b"", 0);
    use_count_lines(b"\n", 1);
    use_count_lines(b"a", 1);
    use_count_lines(b"a\n", 1);
    use_count_lines(b"a\nb", 2);
    use_count_lines(b"a\n\nb\n", 3);
    use_count_lines(b"\r\n\r\n", 2);
}

fn use_count_lines(content: &[u8], expected: usize) {
    assert_eq!(constat::tree::count_lines(content), expected);
}

#[test]
fn blocks_can_be_shared_between_trees() {
    let mut first = Tree::empty();
    first.insert("a", vec![block(1, 2), block(2, 1)]);
    let shared = first.get_shared("a").unwrap();
    assert!(first.get_shared("b").is_none());
    let mut second = Tree::empty();
    second.store_shared("b", shared.clone());
    assert_eq!(at(&second, "b"), Some(vec![block(1, 2), block(2, 1)]));
    first.insert("a", vec![block(3, 3)]);
    assert_eq!(at(&second, "b"), Some(vec![block(1, 2), block(2, 1)]));
    assert_eq!(second.remove("b"), Some(vec![block(1, 2), block(2, 1)]));
    assert_eq!(*shared, vec![block(1, 2), block(2, 1)]);
}

#[test]
fn clone_shares_blocks_until_one_tree_replaces_them() {
    let mut tree = Tree::empty();
    tree.insert("a", vec![block(1, 2)]);
    let copy = tree.clone();
    let held = tree.get_shared("a").unwrap();
    assert!(std::rc::Rc::ptr_eq(&held, &copy.get_shared("a").unwrap()));
    tree.store("a", vec![block(2, 2)]);
    assert!(!std::rc::Rc::ptr_eq(&tree.get_shared("a").unwrap(), &copy.get_shared("a").unwrap()));
    assert_eq!(at(&copy, "a"), Some(vec![block(1, 2)]));
}

#[test]
fn any_match_says_whether_some_answer_is_yes() {
    assert!(!constat::filter::any_match(&[]));
    assert!(!constat::filter::any_match(&[false, false]));
    assert!(constat::filter::any_match(&[false, true, false]));
    assert!(constat::filter::any_match(&[true]));
}

#[test]
fn later_pattern_still_matches_after_earlier_ones_fail() {
    let patterns = vec![
        glob::Pattern::new("*.c").unwrap(),
        glob::Pattern::new("*.h").unwrap(),
        glob::Pattern::new("docs/*").unwrap(),
    ];
    assert!(constat::filter::should_tracking(&patterns, "docs/a.txt"));
    assert!(constat::filter::should_tracking(&patterns, "x.c"));
    assert!(!constat::filter::should_tracking(&patterns, "x.rs"));
}
