use constat::author::AuthorStat;
use constat::file::{patch_fits, LineEdit, RepoFile};
use constat::timeline::{day_of, DayCount, Timeline};

fn edit(old_line: Option<usize>, new_line: Option<usize>) -> LineEdit {
    LineEdit { old_line, new_line }
}

fn file_of(lines: &[u16], stat: &mut AuthorStat) -> RepoFile {
    let mut file = RepoFile::empty(false);
    let mut patch = Vec::new();
    let mut author = None;
    for (i, &a) in lines.iter().enumerate() {
        if author != Some(a) && !patch.is_empty() {
            assert!(file.update(author.unwrap(), &patch, stat));
            patch.clear();
        }
        author = Some(a);
        patch.push(edit(None, Some(i)));
    }
    if let Some(a) = author {
        assert!(file.update(a, &patch, stat));
    }
    assert_eq!(file.iter(), lines);
    file
}

#[test]
fn empty_file_has_no_lines() {
    let file = RepoFile::empty(true);
    assert!(file.iter().is_empty());
    assert!(file.is_tracking());
    assert!(!RepoFile::empty(false).is_tracking());
}

#[test]
fn update_inserts_lines_of_author() {
    let mut stat = AuthorStat::new();
    let mut file = RepoFile::empty(true);
    assert!(file.update(3, &[edit(None, Some(0)), edit(None, Some(1))], &mut stat));
    assert_eq!(file.iter(), &[3, 3]);
    assert_eq!(stat.stats(), &[0, 0, 0, 2]);
    assert!(file.update(1, &[edit(None, Some(1))], &mut stat));
    assert_eq!(file.iter(), &[3, 1, 3]);
    assert_eq!(stat.stats(), &[0, 1, 0, 2]);
}

#[test]
fn update_changes_and_removes_lines() {
    let mut stat = AuthorStat::new();
    let mut file = file_of(&[1, 1, 2, 2, 3], &mut stat);
    assert!(file.set_tracking_flag(true, Some(&mut stat)));
    assert_eq!(stat.stats(), &[0, 2, 2, 1]);
    let patch = [edit(Some(1), Some(1)), edit(Some(3), None)];
    assert!(file.update(4, &patch, &mut stat));
    assert_eq!(file.iter(), &[1, 4, 2, 3]);
    assert_eq!(stat.stats(), &[0, 1, 1, 1, 1]);
}

#[test]
fn update_of_untracked_file_leaves_statistics() {
    let mut stat = AuthorStat::new();
    let mut file = RepoFile::empty(false);
    assert!(file.update(2, &[edit(None, Some(0))], &mut stat));
    assert_eq!(file.iter(), &[2]);
    assert!(stat.stats().is_empty());
}

#[test]
fn update_beyond_end_of_file_keeps_what_is_there() {
    let mut stat = AuthorStat::new();
    let mut file = file_of(&[1, 1], &mut stat);
    assert!(file.update(5, &[edit(Some(4), None), edit(None, Some(6))], &mut stat));
    assert_eq!(file.iter(), &[1, 1, 5]);
}

#[test]
fn edit_without_lines_changes_nothing() {
    let mut stat = AuthorStat::new();
    let mut file = file_of(&[1, 2], &mut stat);
    assert!(file.update(9, &[edit(None, None)], &mut stat));
    assert_eq!(file.iter(), &[1, 2]);
}

#[test]
fn patch_that_goes_back_does_not_fit() {
    assert!(patch_fits(&[edit(Some(1), None), edit(Some(2), None)]));
    assert!(!patch_fits(&[edit(Some(2), None), edit(Some(2), None)]));
    assert!(!patch_fits(&[edit(None, Some(3)), edit(None, Some(3))]));
    assert!(!patch_fits(&[edit(Some(usize::MAX), None)]));
    assert!(patch_fits(&[]));
    let mut stat = AuthorStat::new();
    let mut file = file_of(&[1, 2, 3], &mut stat);
    assert!(!file.update(9, &[edit(Some(2), None), edit(Some(0), None)], &mut stat));
    assert_eq!(file.iter(), &[1, 2, 3]);
}

#[test]
fn update_refuses_statistics_that_lack_the_old_lines() {
    let mut stat = AuthorStat::new();
    let mut file = file_of(&[1, 1], &mut stat);
    assert!(file.set_tracking_flag(true, None));
    assert!(!file.update(2, &[edit(Some(0), None)], &mut stat));
    assert_eq!(file.iter(), &[1, 1]);
    assert!(stat.stats().is_empty());
}

#[test]
fn tracking_flag_adds_and_takes_lines() {
    let mut stat = AuthorStat::new();
    let mut file = file_of(&[0, 2, 2], &mut stat);
    assert!(file.set_tracking_flag(true, Some(&mut stat)));
    assert!(file.is_tracking());
    assert_eq!(stat.stats(), &[1, 0, 2]);
    assert!(file.set_tracking_flag(true, Some(&mut stat)));
    assert_eq!(stat.stats(), &[1, 0, 2]);
    assert!(file.set_tracking_flag(false, Some(&mut stat)));
    assert!(!file.is_tracking());
    assert_eq!(stat.stats(), &[0, 0, 0]);
    assert!(file.set_tracking_flag(true, None));
    assert!(!file.set_tracking_flag(false, Some(&mut stat)));
    assert!(file.is_tracking());
}

#[test]
fn day_is_time_divided_by_seconds_of_a_day_rounded_down() {
    assert_eq!(day_of(0), 0);
    assert_eq!(day_of(86399), 0);
    assert_eq!(day_of(86400), 1);
    assert_eq!(day_of(1_700_000_000), 19675);
    assert_eq!(day_of(-1), -1);
    assert_eq!(day_of(-86400), -1);
    assert_eq!(day_of(-86401), -2);
    assert_eq!(day_of(i64::MIN), -106751991167301);
    assert_eq!(day_of(i64::MAX), 106751991167300);
}

#[test]
fn timeline_keeps_largest_count_of_a_day() {
    let mut timeline = Timeline::new();
    timeline.record(1, 10, 5);
    timeline.record(1, 10, 3);
    timeline.record(1, 10, 8);
    assert_eq!(timeline.series(1), Some(&[DayCount { day: 10, count: 8 }][..]));
    assert_eq!(timeline.series(0), Some(&[][..]));
    assert_eq!(timeline.series(2), None);
    assert_eq!(timeline.num_authors(), 2);
}

#[test]
fn timeline_orders_days() {
    let mut timeline = Timeline::new();
    for (day, count) in [(5, 1), (3, 2), (9, 3), (4, 4), (3, 1), (-2, 7)] {
        timeline.record(0, day, count);
    }
    let days: Vec<(i64, u64)> =
        timeline.series(0).unwrap().iter().map(|d| (d.day, d.count)).collect();
    assert_eq!(days, vec![(-2, 7), (3, 2), (4, 4), (5, 1), (9, 3)]);
}

#[test]
fn timeline_records_statistics_of_a_commit() {
    let mut timeline = Timeline::new();
    timeline.record_stat(7, &[3, 0, 1]);
    timeline.record_stat(7, &[2, 5]);
    timeline.record_stat(8, &[]);
    assert_eq!(timeline.series(0), Some(&[DayCount { day: 7, count: 3 }][..]));
    assert_eq!(timeline.series(1), Some(&[DayCount { day: 7, count: 5 }][..]));
    assert_eq!(timeline.series(2), Some(&[DayCount { day: 7, count: 1 }][..]));
}

#[test]
fn copies_of_files_and_counts_are_independent() {
    let mut stat = AuthorStat::new();
    let mut file = file_of(&[1, 2], &mut stat);
    let copy = file.clone();
    assert!(file.update(3, &[edit(None, Some(0))], &mut stat));
    assert_eq!(copy.iter(), &[1, 2]);
    assert_eq!(copy.is_tracking(), false);
    stat.incrment_author(1, 1);
    let counts = stat.duplicate();
    stat.incrment_author(1, 1);
    assert_eq!(counts.stats(), &[0, 1]);
    assert_eq!(stat.stats(), &[0, 2]);
}
