use constat::blocks::LineBlock;
use constat::commits::{CommitInfo, CommitTable};
use constat::driver::{Driver, Request, StepError};
use constat::history::GitCommit;
use constat::patch::{FileDelta, LineInfo, TreePatch};
use constat::tree::{FileLines, Tree};

fn block(author_id: u32, size: u32) -> LineBlock {
    LineBlock { author_id, size }
}

fn commit(_label: &str, timestamp: i64, author: &str, parents: &[usize], recurse: bool) -> CommitInfo {
    CommitInfo {
        timestamp,
        author: Some(author.to_string()),
        parents: parents.to_vec(),
        recurse,
    }
}

fn change(patch: &mut TreePatch, old: Option<&str>, new: Option<&str>, lines: &[(char, u32)]) {
    patch.push_file(&FileDelta {
        old_path: old.map(str::to_string),
        new_path: new.map(str::to_string),
    });
    for &(origin, number) in lines {
        let info = if origin == '+' {
            LineInfo { origin, old_lineno: None, new_lineno: Some(number) }
        } else {
            LineInfo { origin, old_lineno: Some(number), new_lineno: None }
        };
        patch.files_mut().last_mut().unwrap().push_line_diff(&info);
    }
}

fn at(tree: &Tree, path: &str) -> Option<Vec<LineBlock>> {
    tree.get(path).map(|b| b.to_vec())
}

fn two_commits() -> CommitTable {
    CommitTable::new(vec![
        commit("c2", 20, "Bob", &[1], true),
        commit("c1", 10, "Alice", &[], true),
    ])
    .unwrap()
}

fn ten_commits() -> CommitTable {
    let names = ["J", "I", "H", "G", "F", "E", "D", "C", "B", "A"];
    let commits = (0..10)
        .map(|i| {
            let parents: Vec<usize> = if i < 9 { vec![i + 1] } else { vec![] };
            commit(&format!("c{:02}", 10 - i), 100 - i as i64, names[i], &parents, i < 5)
        })
        .collect();
    CommitTable::new(commits).unwrap()
}

#[test]
fn driver_replays_linear_history() {
    let table = two_commits();
    let mut driver = Driver::new(GitCommit { table: &table, place: Some(0) });
    assert_eq!(driver.total(), 2);
    assert_eq!(driver.step_index(), 0);
    assert_eq!(driver.current_commit(), Some(1));
    assert!(matches!(driver.next_request(), Request::DiffWithNothing { commit: 1 }));

    let mut patch = driver.begin_patch(None, 1).unwrap();
    assert_eq!((patch.new_author, patch.old_author), (0, None));
    change(&mut patch, None, Some("a.txt"), &[('+', 1), ('+', 2), ('+', 3)]);
    patch.sort_patches();
    assert_eq!(driver.supply_patches(vec![patch]), Ok(()));
    assert_eq!(at(driver.pending_tree().unwrap(), "a.txt"), Some(vec![block(0, 3)]));
    assert!(driver.finish_step());

    assert_eq!(driver.step_index(), 1);
    match driver.next_request() {
        Request::DiffWithParents { commit, parents } => {
            assert_eq!(commit, 0);
            assert_eq!(parents, vec![1]);
        }
        other => panic!("unexpected request {:?}", other),
    }
    let mut patch = driver.begin_patch(Some(1), 0).unwrap();
    assert_eq!((patch.new_author, patch.old_author), (1, Some(0)));
    change(&mut patch, Some("a.txt"), Some("a.txt"), &[('+', 2)]);
    patch.sort_patches();
    assert_eq!(driver.supply_patches(vec![patch]), Ok(()));
    let tree = driver.pending_tree().unwrap();
    assert_eq!(at(tree, "a.txt"), Some(vec![block(0, 1), block(1, 1), block(0, 2)]));
    assert_eq!(tree.stat(|_| true), Some(vec![3, 1]));
    assert!(driver.finish_step());

    assert!(matches!(driver.next_request(), Request::Finished));
    assert_eq!(driver.current_commit(), None);
    assert_eq!(driver.registry().query_name(0), Some("Alice"));
    assert_eq!(driver.registry().query_name(1), Some("Bob"));
}

#[test]
fn driver_holds_trees_until_their_last_use() {
    let table = two_commits();
    let mut driver = Driver::new(GitCommit { table: &table, place: Some(0) });
    assert!(driver.tree(0).is_none());
    let patch = driver.begin_patch(None, 1).unwrap();
    driver.supply_patches(vec![patch]).unwrap();
    assert!(driver.tree(0).is_none());
    driver.finish_step();
    assert!(driver.tree(0).is_some());
    assert!(driver.pending_tree().is_none());
    let patch = driver.begin_patch(Some(1), 0).unwrap();
    driver.supply_patches(vec![patch]).unwrap();
    driver.finish_step();
    assert!(driver.tree(0).is_none());
    assert!(driver.tree(1).is_some());
    assert!(driver.tree(2).is_none());
}

#[test]
fn boundary_commit_is_attributed_to_older_code() {
    let table = ten_commits();
    let mut driver = Driver::new(GitCommit { table: &table, place: Some(0) });
    assert_eq!(driver.total(), 6);
    assert!(matches!(driver.next_request(), Request::ListFiles { commit: 5 }));
    let files = vec![
        FileLines { path: "a.txt".to_string(), lines: 10 },
        FileLines { path: "empty".to_string(), lines: 0 },
    ];
    assert_eq!(driver.supply_files(files), Ok(()));
    assert_eq!(driver.registry().query_name(0), Some("Older Code"));
    let tree = driver.pending_tree().unwrap();
    assert_eq!(at(tree, "a.txt"), Some(vec![block(0, 10)]));
    assert_eq!(at(tree, "empty"), Some(vec![block(0, 0)]));
    assert!(driver.finish_step());

    match driver.next_request() {
        Request::DiffWithParents { commit, parents } => {
            assert_eq!((commit, parents), (4, vec![5]));
        }
        other => panic!("unexpected request {:?}", other),
    }
    let mut patch = driver.begin_patch(Some(5), 4).unwrap();
    assert_eq!(driver.registry().query_name(1), Some("E"));
    assert_eq!(driver.registry().query_name(2), Some("F"));
    change(&mut patch, Some("a.txt"), Some("a.txt"), &[('-', 3), ('+', 3), ('+', 4)]);
    patch.sort_patches();
    assert_eq!(driver.supply_patches(vec![patch]), Ok(()));
    let tree = driver.pending_tree().unwrap();
    assert_eq!(at(tree, "a.txt"), Some(vec![block(0, 2), block(2, 2), block(0, 7)]));
    assert_eq!(tree.stat(|_| true), Some(vec![9, 0, 2]));
    assert!(driver.finish_step());

    for commit in (0..4).rev() {
        match driver.next_request() {
            Request::DiffWithParents { commit: c, parents } => {
                assert_eq!((c, parents), (commit, vec![commit + 1]));
            }
            other => panic!("unexpected request {:?}", other),
        }
        let patch = driver.begin_patch(Some(commit + 1), commit).unwrap();
        assert_eq!(driver.supply_patches(vec![patch]), Ok(()));
        assert_eq!(
            at(driver.pending_tree().unwrap(), "a.txt"),
            Some(vec![block(0, 2), block(2, 2), block(0, 7)])
        );
        assert!(driver.finish_step());
    }
    assert!(matches!(driver.next_request(), Request::Finished));
}

#[test]
fn later_boundary_commit_is_diffed_against_the_first() {
    let table = CommitTable::new(vec![
        commit("h", 9, "H", &[1, 2], true),
        commit("x", 5, "X", &[3], false),
        commit("y", 4, "Y", &[3], false),
        commit("r", 1, "R", &[], true),
    ])
    .unwrap();
    let mut driver = Driver::new(GitCommit { table: &table, place: Some(0) });
    assert_eq!(driver.total(), 3);
    assert!(matches!(driver.next_request(), Request::ListFiles { commit: 1 }));
    driver.supply_files(vec![FileLines { path: "f".to_string(), lines: 4 }]).unwrap();
    driver.finish_step();
    assert!(matches!(driver.next_request(), Request::DiffWithBaseline { commit: 2, base: 1 }));
    let mut patch = driver.begin_patch(Some(1), 2).unwrap();
    change(&mut patch, Some("f"), Some("f"), &[('+', 2)]);
    change(&mut patch, None, Some("g"), &[('+', 1), ('+', 2)]);
    patch.sort_patches();
    assert_eq!(driver.supply_patches(vec![patch]), Ok(()));
    let tree = driver.pending_tree().unwrap();
    assert_eq!(at(tree, "f"), Some(vec![block(0, 5)]));
    assert_eq!(at(tree, "g"), Some(vec![block(0, 2)]));
    driver.finish_step();
    match driver.next_request() {
        Request::DiffWithParents { commit, parents } => {
            assert_eq!((commit, parents), (0, vec![1, 2]));
        }
        other => panic!("unexpected request {:?}", other),
    }
}

#[test]
fn empty_history_is_finished_at_once() {
    let table = two_commits();
    let head = GitCommit { table: &table, place: None };
    let mut driver = Driver::new(head);
    assert_eq!(driver.total(), 0);
    assert!(matches!(driver.next_request(), Request::Finished));
    assert_eq!(driver.supply_patches(vec![]), Err(StepError::OutOfTurn));
    assert!(!driver.finish_step());
}

#[test]
fn supplying_out_of_turn_is_refused() {
    let table = two_commits();
    let mut driver = Driver::new(GitCommit { table: &table, place: Some(0) });
    assert_eq!(driver.supply_files(vec![]), Err(StepError::OutOfTurn));
    assert!(!driver.finish_step());
    let patch = driver.begin_patch(None, 1).unwrap();
    assert_eq!(driver.supply_patches(vec![patch]), Ok(()));
    let again = driver.begin_patch(None, 1).unwrap();
    assert_eq!(driver.supply_patches(vec![again]), Err(StepError::OutOfTurn));
    assert_eq!(driver.step_index(), 0);

    let table = ten_commits();
    let mut driver = Driver::new(GitCommit { table: &table, place: Some(0) });
    assert_eq!(driver.supply_patches(vec![]), Err(StepError::OutOfTurn));
}

#[test]
fn diff_with_unregistered_author_is_refused() {
    let table = two_commits();
    let mut driver = Driver::new(GitCommit { table: &table, place: Some(0) });
    assert_eq!(
        driver.supply_patches(vec![TreePatch::empty(1, None)]),
        Err(StepError::UnknownAuthor)
    );
    assert_eq!(
        driver.supply_patches(vec![TreePatch::empty(0, Some(7))]),
        Err(StepError::UnknownAuthor)
    );
    assert!(driver.pending_tree().is_none());
    assert_eq!(driver.supply_patches(vec![TreePatch::empty(0, Some(0))]), Ok(()));
}

#[test]
fn wrong_number_of_diffs_is_refused() {
    let table = two_commits();
    let mut driver = Driver::new(GitCommit { table: &table, place: Some(0) });
    assert_eq!(driver.supply_patches(vec![]), Err(StepError::LineCount));
    let a = driver.begin_patch(None, 1).unwrap();
    let b = driver.begin_patch(None, 1).unwrap();
    assert_eq!(driver.supply_patches(vec![a, b]), Err(StepError::LineCount));
}

#[test]
fn begin_patch_refuses_commit_outside_table() {
    let table = two_commits();
    let mut driver = Driver::new(GitCommit { table: &table, place: Some(0) });
    assert!(driver.begin_patch(None, 2).is_none());
    assert!(driver.begin_patch(Some(2), 0).is_none());
    assert_eq!(driver.registry().len(), 0);
}

#[test]
fn nameless_author_is_registered_as_unknown() {
    let mut first = commit("c1", 10, "", &[], true);
    first.author = None;
    let table = CommitTable::new(vec![first]).unwrap();
    let mut driver = Driver::new(GitCommit { table: &table, place: Some(0) });
    let mut patch = driver.begin_patch(None, 0).unwrap();
    change(&mut patch, None, Some("a"), &[('+', 1)]);
    driver.supply_patches(vec![patch]).unwrap();
    assert_eq!(driver.registry().query_name(0), Some("<Unknown>"));
    assert_eq!(at(driver.pending_tree().unwrap(), "a"), Some(vec![block(0, 1)]));
}

#[test]
fn labels_of_baseline_and_unknown_author_can_be_chosen() {
    let mut boundary = commit("c2", 2, "", &[2], false);
    boundary.author = None;
    let table = CommitTable::new(vec![
        commit("c3", 3, "A", &[1], true),
        boundary,
        commit("c1", 1, "A", &[], true),
    ])
    .unwrap();
    let head = GitCommit { table: &table, place: Some(0) };
    let mut driver = Driver::with_labels(head, "Before".to_string(), "Nobody".to_string());
    assert!(matches!(driver.next_request(), Request::ListFiles { commit: 1 }));
    driver.supply_files(vec![FileLines { path: "f".to_string(), lines: 2 }]).unwrap();
    assert_eq!(driver.registry().query_name(0), Some("Before"));
    driver.finish_step();
    let patch = driver.begin_patch(Some(1), 0).unwrap();
    assert_eq!(driver.registry().query_name(1), Some("Nobody"));
    assert_eq!(driver.registry().query_name(2), Some("A"));
    assert_eq!((patch.new_author, patch.old_author), (2, Some(1)));
}

fn run_merge(against_first: &[(char, u32)], against_second: &[(char, u32)]) -> Vec<LineBlock> {
    let table = CommitTable::new(vec![
        commit("merge", 30, "Carol", &[1, 2], true),
        commit("first", 20, "Alice", &[], true),
        commit("second", 10, "Bob", &[], true),
    ])
    .unwrap();
    let mut driver = Driver::new(GitCommit { table: &table, place: Some(0) });
    let three: [(char, u32); 3] = [('+', 1), ('+', 2), ('+', 3)];
    for _ in 0..2 {
        let commit = match driver.next_request() {
            Request::DiffWithNothing { commit } => commit,
            other => panic!("unexpected request {:?}", other),
        };
        let mut patch = driver.begin_patch(None, commit).unwrap();
        change(&mut patch, None, Some("f.txt"), &three);
        driver.supply_patches(vec![patch]).unwrap();
        driver.finish_step();
    }
    let parents = match driver.next_request() {
        Request::DiffWithParents { commit: 0, parents } => parents,
        other => panic!("unexpected request {:?}", other),
    };
    assert_eq!(parents, vec![1, 2]);
    let mut patches = Vec::new();
    for (parent, edits) in parents.iter().zip([against_first, against_second]) {
        let mut patch = driver.begin_patch(Some(*parent), 0).unwrap();
        change(&mut patch, Some("f.txt"), Some("f.txt"), edits);
        patches.push(patch);
    }
    driver.supply_patches(patches).unwrap();
    at(driver.pending_tree().unwrap(), "f.txt").unwrap()
}

#[test]
fn merge_of_two_histories_attributes_novel_line_to_the_merger() {
    let blocks = run_merge(
        &[('+', 4), ('+', 5), ('+', 6), ('+', 7)],
        &[('+', 1), ('+', 2), ('+', 3), ('+', 4)],
    );
    assert_eq!(blocks, vec![block(0, 3), block(2, 1), block(1, 3)]);
}

#[test]
fn merge_of_two_histories_keeps_the_authors_of_both() {
    let blocks = run_merge(&[('+', 4), ('+', 5), ('+', 6)], &[('+', 1), ('+', 2), ('+', 3)]);
    assert_eq!(blocks, vec![block(0, 3), block(1, 3)]);
}
