use constat::analysis::get_related_authors;
use constat::blocks::LineBlock;
use constat::patch::{FilePatch, LinePatch, TreePatch};
use constat::touched::get_patch_filename_list;
use constat::tree::Tree;

const ALICE: u32 = 0;
const BOB: u32 = 1;
const CAROL: u32 = 2;

fn block(author_id: u32, size: u32) -> LineBlock {
    LineBlock { author_id, size }
}

fn file(old: Option<&str>, new: Option<&str>, patch: Vec<LinePatch>) -> FilePatch {
    FilePatch { old_path: old.map(str::to_string), new_path: new.map(str::to_string), patch }
}

fn diff(new_author: u32, old_author: Option<u32>, files: Vec<FilePatch>) -> TreePatch {
    let mut patch = TreePatch::empty(new_author, old_author);
    patch.files = files;
    patch.sort_patches();
    patch
}

fn inserts(lines: std::ops::Range<u32>) -> Vec<LinePatch> {
    lines.map(LinePatch::Insert).collect()
}

fn create(author: u32, path: &str, lines: u32) -> Tree {
    let empty = Tree::empty();
    let patch = diff(author, None, vec![file(None, Some(path), inserts(0..lines))]);
    Tree::try_analyze_patch(&[&empty], &[patch], author).unwrap()
}

fn blocks_at(tree: &Tree, path: &str) -> Option<Vec<LineBlock>> {
    tree.get(path).map(|b| b.to_vec())
}

#[test]
fn initial_commit_gives_one_block_per_file() {
    let tree = create(ALICE, "a.txt", 3);
    assert_eq!(tree.len(), 1);
    assert_eq!(blocks_at(&tree, "a.txt"), Some(vec![block(ALICE, 3)]));
}

#[test]
fn linear_history_splits_block_at_inserted_line() {
    let c1 = create(ALICE, "a.txt", 3);
    let patch = diff(BOB, Some(ALICE), vec![file(Some("a.txt"), Some("a.txt"), vec![LinePatch::Insert(1)])]);
    let c2 = Tree::try_analyze_patch(&[&c1], &[patch], BOB).unwrap();
    assert_eq!(
        blocks_at(&c2, "a.txt"),
        Some(vec![block(ALICE, 1), block(BOB, 1), block(ALICE, 2)])
    );
    assert_eq!(c2.stat(|_| true), Some(vec![3, 1]));
}

#[test]
fn pure_rename_carries_blocks_to_new_path() {
    let c1 = create(ALICE, "x.txt", 5);
    let patch = diff(BOB, Some(ALICE), vec![file(Some("x.txt"), Some("y.txt"), vec![])]);
    let c2 = Tree::try_analyze_patch(&[&c1], &[patch], BOB).unwrap();
    assert_eq!(c2.len(), 1);
    assert_eq!(blocks_at(&c2, "y.txt"), Some(vec![block(ALICE, 5)]));
    assert_eq!(blocks_at(&c2, "x.txt"), None);
}

#[test]
fn deletion_removes_path() {
    let c1 = create(ALICE, "a.txt", 2);
    let patch = diff(
        BOB,
        Some(ALICE),
        vec![file(Some("a.txt"), None, vec![LinePatch::Delete(0), LinePatch::Delete(1)])],
    );
    let c2 = Tree::try_analyze_patch(&[&c1], &[patch], BOB).unwrap();
    assert_eq!(c2.len(), 0);
    assert_eq!(blocks_at(&c2, "a.txt"), None);
    assert_eq!(c2.stat(|_| true), Some(vec![]));
}

#[test]
fn merge_attributes_novel_line_to_merger() {
    let ours_tree = create(ALICE, "f.txt", 3);
    let theirs_tree = create(BOB, "f.txt", 3);
    let ours_diff = diff(CAROL, Some(ALICE), vec![file(Some("f.txt"), Some("f.txt"), inserts(3..7))]);
    let theirs_diff = diff(CAROL, Some(BOB), vec![file(Some("f.txt"), Some("f.txt"), inserts(0..4))]);
    let c = Tree::try_analyze_patch(&[&ours_tree, &theirs_tree], &[ours_diff, theirs_diff], CAROL).unwrap();
    assert_eq!(
        blocks_at(&c, "f.txt"),
        Some(vec![block(ALICE, 3), block(CAROL, 1), block(BOB, 3)])
    );
}

#[test]
fn merge_attributes_line_of_one_parent_to_its_author() {
    let ours_tree = create(ALICE, "f.txt", 3);
    let theirs_tree = create(BOB, "f.txt", 3);
    let ours_diff = diff(CAROL, Some(ALICE), vec![file(Some("f.txt"), Some("f.txt"), inserts(3..6))]);
    let theirs_diff = diff(CAROL, Some(BOB), vec![file(Some("f.txt"), Some("f.txt"), inserts(0..3))]);
    let c = Tree::try_analyze_patch(&[&ours_tree, &theirs_tree], &[ours_diff, theirs_diff], CAROL).unwrap();
    assert_eq!(blocks_at(&c, "f.txt"), Some(vec![block(ALICE, 3), block(BOB, 3)]));
}

fn sample_tree() -> Tree {
    let mut tree = Tree::empty();
    tree.insert("a.txt", vec![block(ALICE, 2), block(BOB, 3)]);
    tree.insert("b.txt", vec![block(BOB, 1)]);
    tree
}

fn all_blocks(tree: &Tree) -> Vec<(String, Vec<LineBlock>)> {
    let mut files: Vec<_> =
        tree.paths().into_iter().map(|p| (p.clone(), blocks_at(tree, &p).unwrap())).collect();
    files.sort_by(|a, b| a.0.cmp(&b.0));
    files
}

#[test]
fn empty_patch_returns_clone_of_tree() {
    let parent = sample_tree();
    let patch = diff(CAROL, Some(ALICE), vec![]);
    let child = Tree::try_analyze_patch(&[&parent], &[patch], CAROL).unwrap();
    assert_eq!(all_blocks(&child), all_blocks(&parent));
}

#[test]
fn merge_without_changes_returns_first_parent() {
    let first = sample_tree();
    let mut second = sample_tree();
    second.insert("c.txt", vec![block(CAROL, 9)]);
    let patches = vec![diff(CAROL, Some(ALICE), vec![]), diff(CAROL, Some(BOB), vec![])];
    let child = Tree::try_analyze_patch(&[&first, &second], &patches, CAROL).unwrap();
    assert_eq!(all_blocks(&child), all_blocks(&first));
    let twin = sample_tree();
    let patches = vec![diff(CAROL, Some(ALICE), vec![]), diff(CAROL, Some(ALICE), vec![])];
    let child = Tree::try_analyze_patch(&[&first, &twin], &patches, CAROL).unwrap();
    assert_eq!(all_blocks(&child), all_blocks(&first));
}

#[test]
fn file_without_line_edits_keeps_its_blocks() {
    let parent = sample_tree();
    let patch = diff(CAROL, Some(ALICE), vec![file(Some("a.txt"), Some("a.txt"), vec![])]);
    let child = Tree::try_analyze_patch(&[&parent], &[patch], CAROL).unwrap();
    assert_eq!(all_blocks(&child), all_blocks(&parent));
}

#[test]
fn file_without_line_edits_loses_empty_block() {
    let parent = Tree::from_commit(
        &[constat::tree::FileLines { path: "e".to_string(), lines: 0 }],
        ALICE,
    );
    assert_eq!(blocks_at(&parent, "e"), Some(vec![block(ALICE, 0)]));
    let patch = diff(BOB, Some(ALICE), vec![file(Some("e"), Some("e"), vec![])]);
    let child = Tree::try_analyze_patch(&[&parent], &[patch], BOB).unwrap();
    assert_eq!(blocks_at(&child, "e"), Some(vec![]));
}

#[test]
fn several_files_deleted_by_one_commit_are_all_absent() {
    let mut parent = sample_tree();
    parent.insert("c.txt", vec![block(CAROL, 1)]);
    let patch = diff(
        CAROL,
        Some(ALICE),
        vec![
            file(Some("c.txt"), None, vec![LinePatch::Delete(0)]),
            file(Some("a.txt"), None, vec![]),
        ],
    );
    let child = Tree::try_analyze_patch(&[&parent], &[patch], CAROL).unwrap();
    assert_eq!(child.paths(), vec!["b.txt".to_string()]);
}

#[test]
fn rename_with_edits_moves_and_updates_blocks() {
    let parent = sample_tree();
    let patch = diff(
        CAROL,
        Some(ALICE),
        vec![file(Some("a.txt"), Some("z.txt"), vec![LinePatch::Delete(3), LinePatch::Insert(3)])],
    );
    let child = Tree::try_analyze_patch(&[&parent], &[patch], CAROL).unwrap();
    assert_eq!(blocks_at(&child, "a.txt"), None);
    assert_eq!(
        blocks_at(&child, "z.txt"),
        Some(vec![block(ALICE, 2), block(BOB, 1), block(CAROL, 1), block(BOB, 1)])
    );
    assert_eq!(blocks_at(&child, "b.txt"), Some(vec![block(BOB, 1)]));
}

#[test]
fn created_empty_file_has_no_block() {
    let parent = Tree::empty();
    let patch = diff(ALICE, None, vec![file(None, Some("empty"), vec![])]);
    let child = Tree::try_analyze_patch(&[&parent], &[patch], ALICE).unwrap();
    assert_eq!(blocks_at(&child, "empty"), Some(vec![]));
}

#[test]
fn initial_commit_with_several_files() {
    let parent = Tree::empty();
    let patch = diff(
        BOB,
        None,
        vec![
            file(None, Some("b"), inserts(0..2)),
            file(None, Some("a"), inserts(0..7)),
            file(None, Some("c/d"), inserts(0..1)),
        ],
    );
    let child = Tree::try_analyze_patch(&[&parent], &[patch], BOB).unwrap();
    assert_eq!(
        all_blocks(&child),
        vec![
            ("a".to_string(), vec![block(BOB, 7)]),
            ("b".to_string(), vec![block(BOB, 2)]),
            ("c/d".to_string(), vec![block(BOB, 1)]),
        ]
    );
}

#[test]
fn file_changed_only_against_second_parent_keeps_first_parents_authors() {
    let mut first = Tree::empty();
    first.insert("f", vec![block(ALICE, 4)]);
    let mut second = Tree::empty();
    second.insert("f", vec![block(BOB, 2)]);
    let ours = diff(CAROL, Some(ALICE), vec![]);
    let theirs = diff(CAROL, Some(BOB), vec![file(Some("f"), Some("f"), inserts(2..4))]);
    let child = Tree::try_analyze_patch(&[&first, &second], &[ours, theirs], CAROL).unwrap();
    assert_eq!(blocks_at(&child, "f"), Some(vec![block(ALICE, 4)]));
}

#[test]
fn block_position_moves_one_block_for_each_added_line() {
    let mut first = Tree::empty();
    first.insert("f", vec![block(ALICE, 2), block(BOB, 2)]);
    let mut second = Tree::empty();
    second.insert("f", vec![block(ALICE, 2)]);
    let ours = diff(CAROL, Some(ALICE), vec![]);
    let theirs = diff(CAROL, Some(BOB), vec![file(Some("f"), Some("f"), inserts(2..4))]);
    let child = Tree::try_analyze_patch(&[&first, &second], &[ours, theirs], CAROL).unwrap();
    assert_eq!(blocks_at(&child, "f"), Some(vec![block(ALICE, 3), block(BOB, 1)]));
}

#[test]
fn file_known_only_to_second_parents_diff_starts_empty() {
    let first = Tree::empty();
    let second = Tree::empty();
    let ours = diff(CAROL, Some(ALICE), vec![]);
    let theirs = diff(CAROL, Some(BOB), vec![file(None, Some("g"), inserts(0..3))]);
    let child = Tree::try_analyze_patch(&[&first, &second], &[ours, theirs], CAROL).unwrap();
    assert_eq!(blocks_at(&child, "g"), Some(vec![]));
}

#[test]
fn first_parents_rename_wins() {
    let mut first = Tree::empty();
    first.insert("x", vec![block(ALICE, 3)]);
    let mut second = Tree::empty();
    second.insert("y", vec![block(BOB, 3)]);
    let ours = diff(CAROL, Some(ALICE), vec![file(Some("x"), Some("n"), vec![])]);
    let theirs = diff(CAROL, Some(BOB), vec![file(Some("y"), Some("n"), vec![])]);
    let child = Tree::try_analyze_patch(&[&first, &second], &[ours, theirs], CAROL).unwrap();
    assert_eq!(all_blocks(&child), vec![("n".to_string(), vec![block(ALICE, 3)])]);
}

#[test]
fn analysis_needs_one_diff_for_each_parent() {
    let parent = sample_tree();
    assert!(Tree::try_analyze_patch(&[], &[], CAROL).is_none());
    assert!(Tree::try_analyze_patch(&[&parent], &[], CAROL).is_none());
    let patches = vec![diff(CAROL, None, vec![]), diff(CAROL, None, vec![])];
    assert!(Tree::try_analyze_patch(&[&parent], &patches, CAROL).is_none());
}

#[test]
fn analysis_refuses_file_that_outgrows_line_numbers() {
    let mut parent = Tree::empty();
    parent.insert("big", vec![block(ALICE, u32::MAX)]);
    let patch = diff(BOB, Some(ALICE), vec![file(Some("big"), Some("big"), vec![LinePatch::Insert(5)])]);
    assert!(Tree::try_analyze_patch(&[&parent], &[patch], BOB).is_none());
}

#[test]
fn analyze_patch_agrees_with_try_analyze_patch() {
    let parent = sample_tree();
    let make = || diff(CAROL, Some(ALICE), vec![file(Some("b.txt"), Some("b.txt"), vec![LinePatch::Insert(1)])]);
    let a = Tree::analyze_patch(&[&parent], &[make()], CAROL);
    let b = Tree::try_analyze_patch(&[&parent], &[make()], CAROL).unwrap();
    assert_eq!(all_blocks(&a), all_blocks(&b));
    assert_eq!(blocks_at(&a, "b.txt"), Some(vec![block(BOB, 1), block(CAROL, 1)]));
}

#[test]
fn analysis_twice_gives_identical_trees() {
    let ours_tree = create(ALICE, "f.txt", 3);
    let theirs_tree = create(BOB, "f.txt", 3);
    let run = || {
        let ours_diff = diff(CAROL, Some(ALICE), vec![file(Some("f.txt"), Some("f.txt"), inserts(3..7))]);
        let theirs_diff = diff(CAROL, Some(BOB), vec![file(Some("f.txt"), Some("f.txt"), inserts(0..4))]);
        Tree::try_analyze_patch(&[&ours_tree, &theirs_tree], &[ours_diff, theirs_diff], CAROL).unwrap()
    };
    assert_eq!(all_blocks(&run()), all_blocks(&run()));
}

#[test]
fn analysis_leaves_no_equal_neighbours_and_no_new_authors() {
    let parent = sample_tree();
    let patch = diff(
        CAROL,
        Some(ALICE),
        vec![
            file(Some("a.txt"), Some("a.txt"), vec![LinePatch::Delete(2), LinePatch::Insert(1), LinePatch::Insert(4)]),
            file(None, Some("n"), inserts(0..3)),
        ],
    );
    let child = Tree::try_analyze_patch(&[&parent], &[patch], CAROL).unwrap();
    for (_, blocks) in all_blocks(&child) {
        for pair in blocks.windows(2) {
            assert_ne!(pair[0].author_id, pair[1].author_id);
        }
        for b in blocks {
            assert!(b.author_id <= CAROL);
        }
    }
    assert_eq!(
        blocks_at(&child, "a.txt"),
        Some(vec![block(ALICE, 1), block(CAROL, 1), block(BOB, 2), block(CAROL, 1), block(BOB, 1)])
    );
}

#[test]
fn touched_files_are_sorted_and_deduplicated() {
    let ours_diff = diff(CAROL, Some(ALICE), vec![file(Some("x"), Some("b"), vec![]), file(Some("q"), None, vec![])]);
    let theirs_diff = diff(
        CAROL,
        Some(BOB),
        vec![file(Some("x"), Some("b"), vec![]), file(None, Some("a"), vec![]), file(Some("y"), Some("b"), vec![])],
    );
    let patches = vec![ours_diff, theirs_diff];
    let pairs: Vec<(Option<&str>, Option<&str>)> =
        get_patch_filename_list(&patches).iter().map(|p| (p.old, p.new)).collect();
    assert_eq!(pairs, vec![(None, Some("a")), (Some("x"), Some("b")), (Some("q"), None)]);
    assert!(get_patch_filename_list(&[]).is_empty());
}

#[test]
fn first_diff_decides_the_old_path_of_a_new_path() {
    let ours_diff = diff(CAROL, Some(ALICE), vec![file(Some("a"), Some("c"), vec![])]);
    let theirs_diff = diff(CAROL, Some(BOB), vec![file(Some("b"), Some("c"), vec![])]);
    let patches = vec![ours_diff, theirs_diff];
    let pairs: Vec<(Option<&str>, Option<&str>)> =
        get_patch_filename_list(&patches).iter().map(|p| (p.old, p.new)).collect();
    assert_eq!(pairs, vec![(Some("a"), Some("c"))]);

    let ours_diff = diff(CAROL, Some(ALICE), vec![file(Some("b"), Some("c"), vec![])]);
    let theirs_diff = diff(CAROL, Some(BOB), vec![file(Some("a"), Some("c"), vec![])]);
    let patches = vec![ours_diff, theirs_diff];
    let pairs: Vec<(Option<&str>, Option<&str>)> =
        get_patch_filename_list(&patches).iter().map(|p| (p.old, p.new)).collect();
    assert_eq!(pairs, vec![(Some("b"), Some("c"))]);
}

#[test]
fn each_deleted_file_is_touched_once() {
    let ours_diff =
        diff(CAROL, Some(ALICE), vec![file(Some("a"), None, vec![]), file(Some("b"), None, vec![])]);
    let theirs_diff = diff(
        CAROL,
        Some(BOB),
        vec![file(Some("a"), None, vec![]), file(Some("b"), None, vec![]), file(Some("c"), None, vec![])],
    );
    let patches = vec![ours_diff, theirs_diff];
    let pairs: Vec<(Option<&str>, Option<&str>)> =
        get_patch_filename_list(&patches).iter().map(|p| (p.old, p.new)).collect();
    assert_eq!(pairs, vec![(Some("a"), None), (Some("b"), None), (Some("c"), None)]);
}

#[test]
fn rename_of_the_first_parent_wins_over_that_of_the_second() {
    let mut first = Tree::empty();
    first.insert("a", vec![block(ALICE, 3)]);
    first.insert("b", vec![block(BOB, 2)]);
    let second = first.clone();
    let ours = diff(CAROL, Some(ALICE), vec![file(Some("a"), Some("c"), vec![])]);
    let theirs = diff(CAROL, Some(BOB), vec![file(Some("b"), Some("c"), vec![])]);
    let child = Tree::try_analyze_patch(&[&first, &second], &[ours, theirs], CAROL).unwrap();
    assert_eq!(blocks_at(&child, "c"), Some(vec![block(ALICE, 3)]));
    assert_eq!(blocks_at(&child, "a"), None);
    assert_eq!(blocks_at(&child, "b"), Some(vec![block(BOB, 2)]));
}

#[test]
fn related_authors_fall_back_to_new_author() {
    let patches = vec![TreePatch::empty(5, Some(3)), TreePatch::empty(5, None)];
    assert_eq!(get_related_authors(&patches), vec![3, 5]);
}

#[test]
fn file_deleted_only_against_second_parent_is_absent() {
    let mut first = Tree::empty();
    first.insert("x", vec![block(ALICE, 3)]);
    first.insert("y", vec![block(ALICE, 1)]);
    let second = first.clone();
    let ours = diff(CAROL, Some(ALICE), vec![]);
    let theirs = diff(CAROL, Some(BOB), vec![file(Some("x"), None, vec![])]);
    let child = Tree::try_analyze_patch(&[&first, &second], &[ours, theirs], CAROL).unwrap();
    assert_eq!(child.paths(), vec!["y".to_string()]);
}

#[test]
fn file_without_edits_keeps_its_blocks_beside_edited_files_of_a_merge() {
    let mut first = Tree::empty();
    first.insert("keep", vec![block(ALICE, 2), block(BOB, 3)]);
    first.insert("edit", vec![block(ALICE, 4)]);
    let mut second = Tree::empty();
    second.insert("keep", vec![block(BOB, 5)]);
    second.insert("edit", vec![block(BOB, 4)]);
    let ours = diff(
        CAROL,
        Some(ALICE),
        vec![
            file(Some("edit"), Some("edit"), vec![LinePatch::Insert(2)]),
            file(Some("keep"), Some("keep"), vec![]),
        ],
    );
    let theirs = diff(
        CAROL,
        Some(BOB),
        vec![
            file(Some("edit"), Some("edit"), vec![LinePatch::Insert(2)]),
            file(Some("keep"), Some("keep"), vec![]),
            file(None, Some("new"), inserts(0..2)),
        ],
    );
    let child = Tree::try_analyze_patch(&[&first, &second], &[ours, theirs], CAROL).unwrap();
    assert_eq!(blocks_at(&child, "keep"), Some(vec![block(ALICE, 2), block(BOB, 3)]));
    assert!(blocks_at(&child, "edit").is_some());
    assert!(blocks_at(&child, "new").is_some());
}

#[test]
fn every_author_of_the_result_is_one_of_the_inputs() {
    let mut first = Tree::empty();
    first.insert("f", vec![block(7, 2), block(9, 2)]);
    let mut second = Tree::empty();
    second.insert("f", vec![block(11, 3)]);
    let ours = diff(20, Some(13), vec![file(Some("f"), Some("f"), vec![LinePatch::Insert(1), LinePatch::Insert(4)])]);
    let theirs = diff(20, Some(15), vec![file(Some("f"), Some("f"), vec![LinePatch::Insert(0), LinePatch::Insert(1)])]);
    let child = Tree::try_analyze_patch(&[&first, &second], &[ours, theirs], 20).unwrap();
    let inputs = [7, 9, 11, 13, 15, 20];
    for (_, blocks) in all_blocks(&child) {
        for b in blocks {
            assert!(inputs.contains(&b.author_id));
        }
    }
}
