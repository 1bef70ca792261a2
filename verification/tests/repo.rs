use constat::author::AuthorStat;
use constat::file::LineEdit;
use constat::repo::GitRepo;
use glob::Pattern;

fn insert(line: usize) -> LineEdit {
    LineEdit { old_line: None, new_line: Some(line) }
}

fn remove(line: usize) -> LineEdit {
    LineEdit { old_line: Some(line), new_line: None }
}

fn lines_at(repo: &GitRepo, path: &str) -> Option<Vec<u16>> {
    repo.get(path).map(|f| f.iter().to_vec())
}

fn sources() -> Vec<Pattern> {
    vec![Pattern::new("src/*").unwrap()]
}

#[test]
fn new_file_counts_if_a_pattern_matches() {
    let patterns = sources();
    let mut repo = GitRepo::empty(&patterns);
    let mut stat = AuthorStat::new();
    assert!(repo.apply_file_diff(1, None, Some("src/a"), &[insert(0), insert(1)], &mut stat));
    assert!(repo.apply_file_diff(2, None, Some("doc/b"), &[insert(0)], &mut stat));
    assert_eq!(lines_at(&repo, "src/a"), Some(vec![1, 1]));
    assert_eq!(lines_at(&repo, "doc/b"), Some(vec![2]));
    assert!(repo.get("src/a").unwrap().is_tracking());
    assert!(!repo.get("doc/b").unwrap().is_tracking());
    assert_eq!(stat.stats(), &[0, 2]);
    assert!(repo.should_tracking("src/x"));
    assert!(!repo.should_tracking("x"));
}

#[test]
fn changed_file_moves_counts_between_authors() {
    let patterns = sources();
    let mut repo = GitRepo::empty(&patterns);
    let mut stat = AuthorStat::new();
    repo.apply_file_diff(1, None, Some("src/a"), &[insert(0), insert(1), insert(2)], &mut stat);
    let patch = [LineEdit { old_line: Some(1), new_line: Some(1) }, remove(2)];
    assert!(repo.apply_file_diff(3, Some("src/a"), Some("src/a"), &patch, &mut stat));
    assert_eq!(lines_at(&repo, "src/a"), Some(vec![1, 3]));
    assert_eq!(stat.stats(), &[0, 1, 0, 1]);
}

#[test]
fn deleted_file_stops_to_count() {
    let patterns = sources();
    let mut repo = GitRepo::empty(&patterns);
    let mut stat = AuthorStat::new();
    repo.apply_file_diff(1, None, Some("src/a"), &[insert(0), insert(1)], &mut stat);
    assert!(repo.apply_file_diff(2, Some("src/a"), None, &[remove(0), remove(1)], &mut stat));
    assert_eq!(lines_at(&repo, "src/a"), None);
    assert_eq!(stat.stats(), &[0, 0]);
    assert!(repo.apply_file_diff(2, Some("never/there"), None, &[], &mut stat));
    assert_eq!(stat.stats(), &[0, 0]);
}

#[test]
fn renamed_file_takes_the_flag_of_its_new_path() {
    let patterns = sources();
    let mut repo = GitRepo::empty(&patterns);
    let mut stat = AuthorStat::new();
    repo.apply_file_diff(1, None, Some("doc/a"), &[insert(0), insert(1)], &mut stat);
    repo.apply_file_diff(2, None, Some("src/old"), &[insert(0)], &mut stat);
    assert_eq!(stat.stats(), &[0, 0, 1]);
    assert!(repo.apply_file_diff(3, Some("doc/a"), Some("src/old"), &[insert(2)], &mut stat));
    assert_eq!(lines_at(&repo, "doc/a"), None);
    assert_eq!(lines_at(&repo, "src/old"), Some(vec![1, 1, 3]));
    assert_eq!(stat.stats(), &[0, 2, 0, 1]);
    assert!(repo.apply_file_diff(3, Some("src/old"), Some("doc/z"), &[], &mut stat));
    assert_eq!(lines_at(&repo, "doc/z"), Some(vec![1, 1, 3]));
    assert_eq!(stat.stats(), &[0, 0, 0, 0]);
}

#[test]
fn change_that_cannot_be_made_changes_nothing() {
    let patterns = sources();
    let mut repo = GitRepo::empty(&patterns);
    let mut stat = AuthorStat::new();
    repo.apply_file_diff(1, None, Some("src/a"), &[insert(0)], &mut stat);
    assert!(!repo.apply_file_diff(2, None, None, &[], &mut stat));
    assert!(!repo.apply_file_diff(2, Some("src/a"), Some("src/a"), &[remove(1), remove(0)], &mut stat));
    let mut other = AuthorStat::new();
    assert!(!repo.apply_file_diff(2, Some("src/a"), None, &[], &mut other));
    assert!(!repo.apply_file_diff(2, Some("src/a"), Some("src/b"), &[], &mut other));
    assert_eq!(lines_at(&repo, "src/a"), Some(vec![1]));
    assert_eq!(stat.stats(), &[0, 1]);
    assert!(other.stats().is_empty());
}

#[test]
fn change_with_given_flags() {
    let patterns: Vec<Pattern> = vec![];
    let mut repo = GitRepo::empty(&patterns);
    let mut stat = AuthorStat::new();
    assert!(repo.apply_file_diff_with(4, None, Some("f"), &[insert(0)], &mut stat, true, false));
    assert!(repo.get("f").unwrap().is_tracking());
    assert_eq!(stat.stats(), &[0, 0, 0, 0, 1]);
    assert!(repo.apply_file_diff_with(4, Some("f"), Some("g"), &[], &mut stat, true, false));
    assert!(!repo.get("g").unwrap().is_tracking());
    assert_eq!(stat.stats(), &[0, 0, 0, 0, 0]);
}
