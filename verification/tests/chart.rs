use constat::chart::{select_series, ChartSeries, SeriesLabel};
use constat::rank::sort_by_score;
use constat::timeline::{DayCount, Timeline};

fn timeline(rows: &[&[(i64, u64)]]) -> Timeline {
    let mut timeline = Timeline::new();
    for (author, row) in rows.iter().enumerate() {
        for &(day, count) in row.iter() {
            timeline.record(author as u32, day, count);
        }
    }
    timeline
}

fn shown(series: &[ChartSeries]) -> Vec<(SeriesLabel, Vec<(i64, u64)>)> {
    series.iter().map(|s| (s.label, s.points.iter().map(|p| (p.day, p.count)).collect())).collect()
}

#[test]
fn authors_with_most_lines_get_a_series_and_the_rest_is_summed() {
    let t = timeline(&[
        &[(1, 5), (2, 6)],
        &[(2, 1), (3, 2)],
        &[(1, 9)],
        &[(3, 4), (4, 1)],
    ]);
    let series = select_series(&t, None, &[], 2, false).unwrap();
    assert_eq!(
        shown(&series),
        vec![
            (SeriesLabel::Author(2), vec![(1, 9)]),
            (SeriesLabel::Author(0), vec![(1, 5), (2, 6)]),
            (SeriesLabel::Others, vec![(2, 1), (3, 6), (4, 1)]),
        ]
    );
}

#[test]
fn authors_of_equal_rank_go_by_id() {
    let t = timeline(&[&[(5, 3)], &[(4, 3)], &[(3, 3)]]);
    let series = select_series(&t, None, &[], 2, true).unwrap();
    assert_eq!(
        shown(&series),
        vec![(SeriesLabel::Author(1), vec![(4, 3)]), (SeriesLabel::Author(0), vec![(5, 3)])]
    );
}

#[test]
fn pinned_author_gets_a_series_whatever_the_rank() {
    let t = timeline(&[&[(1, 9)], &[(1, 1)], &[(1, 2)]]);
    let series = select_series(&t, None, &[false, true], 1, false).unwrap();
    assert_eq!(
        shown(&series),
        vec![
            (SeriesLabel::Author(0), vec![(1, 9)]),
            (SeriesLabel::Author(1), vec![(1, 1)]),
            (SeriesLabel::Others, vec![(1, 2)]),
        ]
    );
}

#[test]
fn author_left_out_is_neither_shown_nor_summed() {
    let t = timeline(&[&[(1, 100)], &[(2, 1)], &[(3, 2)]]);
    let series = select_series(&t, Some(0), &[], 1, false).unwrap();
    assert_eq!(
        shown(&series),
        vec![(SeriesLabel::Others, vec![(2, 1)]), (SeriesLabel::Author(2), vec![(3, 2)])]
    );
}

#[test]
fn sum_of_others_can_be_left_out() {
    let t = timeline(&[&[(1, 9)], &[(1, 1)]]);
    let series = select_series(&t, None, &[], 1, true).unwrap();
    assert_eq!(shown(&series), vec![(SeriesLabel::Author(0), vec![(1, 9)])]);
    let series = select_series(&t, None, &[], 5, false).unwrap();
    assert_eq!(series.len(), 2);
    let series = select_series(&t, None, &[], 0, false).unwrap();
    assert_eq!(shown(&series), vec![(SeriesLabel::Others, vec![(1, 10)])]);
}

#[test]
fn authors_without_counts_are_not_shown() {
    let t = timeline(&[&[], &[(1, 1)], &[]]);
    let series = select_series(&t, None, &[], 5, false).unwrap();
    assert_eq!(shown(&series), vec![(SeriesLabel::Author(1), vec![(1, 1)])]);
    let empty = Timeline::new();
    assert!(select_series(&empty, None, &[], 5, false).unwrap().is_empty());
}

#[test]
fn sum_that_outgrows_64_bits_is_refused() {
    let t = timeline(&[&[(1, u64::MAX)], &[(1, 1)]]);
    assert!(select_series(&t, None, &[], 0, false).is_none());
    assert!(select_series(&t, None, &[], 1, false).is_some());
}

#[test]
fn series_are_sorted_by_first_day() {
    let mut series: Vec<ChartSeries> = [5, 1, 3, 1]
        .iter()
        .enumerate()
        .map(|(i, &day)| ChartSeries {
            label: SeriesLabel::Author(i as u32),
            points: vec![DayCount { day, count: 1 }],
        })
        .collect();
    sort_by_score(&mut series);
    let order: Vec<SeriesLabel> = series.iter().map(|s| s.label).collect();
    assert_eq!(
        order,
        vec![
            SeriesLabel::Author(1),
            SeriesLabel::Author(3),
            SeriesLabel::Author(2),
            SeriesLabel::Author(0)
        ]
    );
}

fn series(label: SeriesLabel, points: &[(i64, u64)]) -> ChartSeries {
    ChartSeries {
        label,
        points: points.iter().map(|&(day, count)| DayCount { day, count }).collect(),
    }
}

fn line(points: &[constat::stack::ChartPoint]) -> Vec<(i64, u64)> {
    points.iter().map(|p| (p.day, p.height)).collect()
}

#[test]
fn single_series_holds_each_count_up_to_the_next_day() {
    let data = [series(SeriesLabel::Author(0), &[(10, 3), (12, 5)])];
    let chart = constat::stack::stack_series(&data).unwrap();
    assert_eq!((chart.first_day, chart.last_day, chart.height), (10, 12, 5));
    assert_eq!(chart.layers.len(), 1);
    assert_eq!(line(&chart.layers[0].upper), vec![(10, 3), (11, 3)]);
    assert_eq!(line(&chart.layers[0].lower), vec![(10, 0), (11, 0)]);
}

#[test]
fn series_are_stacked_on_a_common_axis() {
    let data = [
        series(SeriesLabel::Author(0), &[(10, 3), (12, 5)]),
        series(SeriesLabel::Others, &[(11, 2), (14, 1)]),
    ];
    let chart = constat::stack::stack_series(&data).unwrap();
    assert_eq!((chart.first_day, chart.last_day, chart.height), (10, 14, 7));
    assert_eq!(line(&chart.layers[0].upper), vec![(10, 3), (11, 3), (12, 5), (13, 5)]);
    assert_eq!(line(&chart.layers[0].lower), vec![(10, 0), (11, 0), (12, 0), (13, 0)]);
    assert_eq!(line(&chart.layers[1].upper), vec![(11, 5), (12, 7), (13, 7)]);
    assert_eq!(line(&chart.layers[1].lower), vec![(11, 3), (12, 5), (13, 5)]);
    assert_eq!(chart.layers[1].label, SeriesLabel::Others);
}

#[test]
fn series_that_cannot_be_stacked_are_refused() {
    assert!(constat::stack::stack_series(&[]).is_none());
    assert!(constat::stack::stack_series(&[series(SeriesLabel::Others, &[])]).is_none());
    let first_day = [series(SeriesLabel::Others, &[(i64::MIN, 1)])];
    assert!(constat::stack::stack_series(&first_day).is_none());
    let tall = [
        series(SeriesLabel::Author(0), &[(1, u64::MAX)]),
        series(SeriesLabel::Author(1), &[(1, 1)]),
    ];
    assert!(constat::stack::stack_series(&tall).is_none());
}
