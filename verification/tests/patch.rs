use constat::order::{path_less, path_same, str_less};
use constat::patch::{FileDelta, FilePatch, LineInfo, LinePatch, TreePatch};

fn delta(old: Option<&str>, new: Option<&str>) -> FileDelta {
    FileDelta { old_path: old.map(str::to_string), new_path: new.map(str::to_string) }
}

fn line(origin: char, old: Option<u32>, new: Option<u32>) -> LineInfo {
    LineInfo { origin, old_lineno: old, new_lineno: new }
}

fn new_paths(patch: &TreePatch) -> Vec<Option<String>> {
    patch.files().iter().map(|f| f.new_path().map(str::to_string)).collect()
}

#[test]
fn added_line_becomes_insert_counted_from_zero() {
    assert_eq!(LinePatch::from_git2_object(&line('+', None, Some(1))), Some(LinePatch::Insert(0)));
    assert_eq!(LinePatch::from_git2_object(&line('+', Some(9), Some(7))), Some(LinePatch::Insert(6)));
}

#[test]
fn removed_line_becomes_delete_counted_from_zero() {
    assert_eq!(LinePatch::from_git2_object(&line('-', Some(1), None)), Some(LinePatch::Delete(0)));
    assert_eq!(LinePatch::from_git2_object(&line('-', Some(5), Some(2))), Some(LinePatch::Delete(4)));
}

#[test]
fn context_line_is_dropped() {
    assert_eq!(LinePatch::from_git2_object(&line(' ', Some(3), Some(3))), None);
    assert_eq!(LinePatch::from_git2_object(&line('=', Some(3), Some(3))), None);
}

#[test]
fn line_without_its_number_is_dropped() {
    assert_eq!(LinePatch::from_git2_object(&line('+', Some(3), None)), None);
    assert_eq!(LinePatch::from_git2_object(&line('-', None, Some(3))), None);
    assert_eq!(LinePatch::from_git2_object(&line('+', None, Some(0))), None);
    assert_eq!(LinePatch::from_git2_object(&line('-', Some(0), None)), None);
}

#[test]
fn line_numbers_of_edits() {
    assert_eq!(LinePatch::Insert(4).new_lineno(), Some(4));
    assert_eq!(LinePatch::Insert(4).old_lineno(), None);
    assert_eq!(LinePatch::Delete(2).old_lineno(), Some(2));
    assert_eq!(LinePatch::Delete(2).new_lineno(), None);
}

#[test]
fn file_patch_keeps_paths_and_starts_without_edits() {
    let fp = FilePatch::from_git2_object(&delta(Some("a"), Some("b")));
    assert_eq!(fp.old_path(), Some("a"));
    assert_eq!(fp.new_path(), Some("b"));
    assert!(fp.patch.is_empty());
    let created = FilePatch::from_git2_object(&delta(None, Some("b")));
    assert_eq!(created.old_path(), None);
    let deleted = FilePatch::from_git2_object(&delta(Some("a"), None));
    assert_eq!(deleted.new_path(), None);
}

#[test]
fn push_line_diff_appends_edits_in_order_and_skips_context() {
    let mut fp = FilePatch::from_git2_object(&delta(Some("a"), Some("a")));
    fp.push_line_diff(&line('-', Some(2), None));
    fp.push_line_diff(&line(' ', Some(3), Some(2)));
    fp.push_line_diff(&line('+', None, Some(3)));
    fp.push_line_diff(&line('+', None, None));
    assert_eq!(fp.patch, vec![LinePatch::Delete(1), LinePatch::Insert(2)]);
}

#[test]
fn tree_patch_starts_empty_and_collects_files() {
    let mut patch = TreePatch::empty(3, Some(1));
    assert_eq!(patch.new_author, 3);
    assert_eq!(patch.old_author, Some(1));
    assert!(patch.files().is_empty());
    patch.push_file(&delta(None, Some("x")));
    patch.push_file(&delta(Some("y"), Some("y")));
    assert_eq!(patch.files().len(), 2);
    patch.files_mut().last_mut().unwrap().push_line_diff(&line('+', None, Some(1)));
    assert_eq!(patch.files()[1].patch, vec![LinePatch::Insert(0)]);
    assert!(patch.files()[0].patch.is_empty());
}

#[test]
fn sort_patches_orders_by_new_path_with_deletions_last() {
    let mut patch = TreePatch::empty(0, None);
    patch.push_file(&delta(Some("gone"), None));
    patch.push_file(&delta(None, Some("b")));
    patch.push_file(&delta(Some("a"), Some("a")));
    patch.push_file(&delta(Some("z"), Some("a/b")));
    patch.sort_patches();
    assert_eq!(
        new_paths(&patch),
        vec![Some("a".to_string()), Some("a/b".to_string()), Some("b".to_string()), None]
    );
}

#[test]
fn sort_patches_keeps_order_of_equal_new_paths() {
    let mut patch = TreePatch::empty(0, None);
    patch.push_file(&delta(Some("second"), None));
    patch.push_file(&delta(Some("x"), Some("m")));
    patch.push_file(&delta(Some("first"), None));
    patch.push_file(&delta(Some("y"), Some("m")));
    patch.sort_patches();
    let olds: Vec<_> = patch.files().iter().map(|f| f.old_path().unwrap().to_string()).collect();
    assert_eq!(olds, vec!["x", "y", "second", "first"]);
}

#[test]
fn paths_compare_by_their_bytes() {
    assert!(str_less("a", "b"));
    assert!(str_less("a", "ab"));
    assert!(!str_less("ab", "a"));
    assert!(!str_less("a", "a"));
    assert!(str_less("a.b", "a/b"));
    assert!(str_less("Z", "a"));
    assert!(str_less("z", "\u{e9}"));
}

#[test]
fn absent_path_sorts_after_every_path() {
    assert!(path_less(Some("zzz"), None));
    assert!(!path_less(None, Some("a")));
    assert!(!path_less(None, None));
    assert!(path_same(None, None));
    assert!(!path_same(None, Some("a")));
    assert!(path_same(Some("a"), Some("a")));
}
