//! The geometry of a stacked chart: for each series the line above its
//! area and the line below, on a common axis of days.

use crate::chart::{largest_count, most_of, ChartSeries, SeriesLabel};
use crate::timeline::DayCount;
use vstd::prelude::*;

verus! {

/// A point of a line of the chart.
#[derive(Debug, Clone, Copy, PartialEq, Eq, Structural)]
pub struct ChartPoint {
    pub day: i64,
    pub height: u64,
}

/// The area of one series: the line above it and the line below it, both
/// from left to right.
#[derive(Debug)]
pub struct Layer {
    pub label: SeriesLabel,
    pub upper: Vec<ChartPoint>,
    pub lower: Vec<ChartPoint>,
}

/// A layer, with its lines as sequences.
pub struct LayerView {
    pub label: SeriesLabel,
    pub upper: Seq<ChartPoint>,
    pub lower: Seq<ChartPoint>,
}

impl View for Layer {
    type V = LayerView;

    open spec fn view(&self) -> LayerView {
        LayerView { label: self.label, upper: self.upper@, lower: self.lower@ }
    }
}

/// A stacked chart: the range of its days, a height that no line
/// exceeds, and its layers from the bottom up.
#[derive(Debug)]
pub struct Stacked {
    pub first_day: i64,
    pub last_day: i64,
    pub height: u64,
    pub layers: Vec<Layer>,
}

/// The place among the first `n` days behind the last day before `day`.
pub open spec fn day_place(days: Seq<i64>, day: i64, n: int) -> int
    decreases n,
{
    if n <= 0 {
        0
    } else if days[n - 1] < day {
        n
    } else {
        day_place(days, day, n - 1)
    }
}

/// The ascending days with `day` among them.
pub open spec fn with_day(days: Seq<i64>, day: i64) -> Seq<i64> {
    let at = day_place(days, day, days.len() as int);
    if at < days.len() && days[at] == day {
        days
    } else {
        days.take(at).push(day) + days.skip(at)
    }
}

/// The days with the day of each of the first `n` points and the day
/// before it among them. `None` if a point lies on the first day that
/// can be counted.
pub open spec fn with_points(days: Seq<i64>, points: Seq<DayCount>, n: int) -> Option<Seq<i64>>
    decreases n,
{
    if n <= 0 {
        Some(days)
    } else {
        match with_points(days, points, n - 1) {
            None => None,
            Some(so_far) => if points[n - 1].day == i64::MIN {
                None
            } else {
                Some(with_day(with_day(so_far, (points[n - 1].day - 1) as i64), points[n - 1].day))
            },
        }
    }
}

/// The axis of the first `n` series: the days of all their points and
/// the days before them, in ascending order.
pub open spec fn axis(series: Seq<ChartSeries>, n: int) -> Option<Seq<i64>>
    decreases n,
{
    if n <= 0 {
        Some(Seq::empty())
    } else {
        match axis(series, n - 1) {
            None => None,
            Some(days) => with_points(days, series[n - 1].points@, series[n - 1].points@.len() as int),
        }
    }
}

/// What is drawn of a layer so far, over the heights reached.
pub struct Drawn {
    pub heights: Seq<u64>,
    pub upper: Seq<ChartPoint>,
    pub lower: Seq<ChartPoint>,
}

/// A count stacked onto the places `idx..end` of the axis: at each place
/// the line below stands at the height reached, and the line above at
/// that height and the count. `None` if a height outgrows 64 bits.
pub open spec fn stack_span(d: Drawn, days: Seq<i64>, idx: int, end: int, count: u64) -> Option<
    Drawn,
>
    decreases end - idx,
{
    if idx >= end || idx < 0 || idx >= days.len() || idx >= d.heights.len() {
        Some(d)
    } else if d.heights[idx] + count > u64::MAX {
        None
    } else {
        stack_span(
            Drawn {
                heights: d.heights.update(idx, (d.heights[idx] + count) as u64),
                upper: d.upper.push(
                    ChartPoint { day: days[idx], height: (d.heights[idx] + count) as u64 },
                ),
                lower: d.lower.push(ChartPoint { day: days[idx], height: d.heights[idx] }),
            },
            days,
            idx + 1,
            end,
            count,
        )
    }
}

/// Where the count of point `k` ends on the axis: at the day of the next
/// point, or before the last day of the axis for the last point.
pub open spec fn span_end(days: Seq<i64>, points: Seq<DayCount>, k: int) -> int {
    if k + 1 < points.len() {
        day_place(days, points[k + 1].day, days.len() as int)
    } else {
        days.len() - 1
    }
}

/// The points from `k` on stacked onto the axis, each from its day to the
/// day of the next point.
pub open spec fn stack_points(d: Drawn, days: Seq<i64>, points: Seq<DayCount>, k: int) -> Option<
    Drawn,
>
    decreases points.len() - k,
{
    if k < 0 || k >= points.len() {
        Some(d)
    } else {
        match stack_span(
            d,
            days,
            day_place(days, points[k].day, days.len() as int),
            span_end(days, points, k),
            points[k].count,
        ) {
            None => None,
            Some(next) => stack_points(next, days, points, k + 1),
        }
    }
}

/// The layers of the series from `i` on, stacked onto the heights
/// reached, and appended to the layers so far.
pub open spec fn stack_layers(
    layers: Seq<LayerView>,
    heights: Seq<u64>,
    days: Seq<i64>,
    series: Seq<ChartSeries>,
    i: int,
) -> Option<Seq<LayerView>>
    decreases series.len() - i,
{
    if i < 0 || i >= series.len() {
        Some(layers)
    } else {
        match stack_points(
            Drawn { heights, upper: Seq::empty(), lower: Seq::empty() },
            days,
            series[i].points@,
            0,
        ) {
            None => None,
            Some(d) => stack_layers(
                layers.push(LayerView { label: series[i].label, upper: d.upper, lower: d.lower }),
                d.heights,
                days,
                series,
                i + 1,
            ),
        }
    }
}

/// The largest last day among the first `n` series; a series without
/// points does not count.
pub open spec fn last_day_of(series: Seq<ChartSeries>, n: int) -> i64
    decreases n,
{
    if n <= 0 {
        i64::MIN
    } else {
        let rest = last_day_of(series, n - 1);
        let points = series[n - 1].points@;
        if points.len() > 0 && points.last().day > rest {
            points.last().day
        } else {
            rest
        }
    }
}

/// The sum of the largest counts of the first `n` series.
pub open spec fn height_of(series: Seq<ChartSeries>, n: int) -> int
    decreases n,
{
    if n <= 0 {
        0
    } else {
        height_of(series, n - 1) + most_of(
            series[n - 1].points@,
            series[n - 1].points@.len() as int,
        )
    }
}

/// The layers of a chart, as sequences.
pub open spec fn layer_views(s: Seq<Layer>) -> Seq<LayerView> {
    s.map_values(|l: Layer| l@)
}

/// Whether the series can be stacked: there is a series, the first has a
/// point, no point lies on the first day that can be counted, and no
/// height outgrows 64 bits.
pub open spec fn stackable(series: Seq<ChartSeries>) -> bool {
    &&& series.len() > 0
    &&& series[0].points@.len() > 0
    &&& height_of(series, series.len() as int) <= u64::MAX
    &&& axis(series, series.len() as int) matches Some(days) && stack_layers(
        Seq::empty(),
        Seq::new(days.len(), |i: int| 0u64),
        days,
        series,
        0,
    ) is Some
}

fn place_of_day(days: &Vec<i64>, day: i64) -> (at: usize)
    ensures
        at == day_place(days@, day, days@.len() as int),
        at <= days@.len(),
{
    let n = days.len();
    let mut at: usize = n;
    while at > 0 && days[at - 1] >= day
        invariant
            at <= n,
            n == days@.len(),
            day_place(days@, day, n as int) == day_place(days@, day, at as int),
        decreases at,
    {
        at -= 1;
    }
    at
}

fn add_day(days: &mut Vec<i64>, day: i64)
    ensures
        final(days)@ == with_day(old(days)@, day),
{
    let at = place_of_day(days, day);
    let ghost before = days@;
    if at < days.len() && days[at] == day {
    } else {
        days.insert(at, day);
        assert(days@ =~= before.take(at as int).push(day) + before.skip(at as int));
    }
}

/// The axis of the series.
fn axis_of(series: &[ChartSeries]) -> (r: Option<Vec<i64>>)
    ensures
        r is Some <==> axis(series@, series@.len() as int) is Some,
        r matches Some(days) ==> Some(days@) == axis(series@, series@.len() as int),
{
    let mut days: Vec<i64> = Vec::new();
    let mut i: usize = 0;
    while i < series.len()
        invariant
            i <= series@.len(),
            axis(series@, i as int) == Some(days@),
        decreases series.len() - i,
    {
        let points = &series[i].points;
        let ghost start = days@;
        let mut k: usize = 0;
        while k < points.len()
            invariant
                k <= points@.len(),
                i < series@.len(),
                *points == series@[i as int].points,
                axis(series@, i as int) == Some(start),
                with_points(start, points@, k as int) == Some(days@),
            decreases points.len() - k,
        {
            let day = points[k].day;
            if day == i64::MIN {
                proof {
                    lemma_with_points_fails(start, points@, k + 1, points@.len() as int);
                    lemma_axis_fails(series@, i + 1, series@.len() as int);
                }
                return None;
            }
            add_day(&mut days, day - 1);
            add_day(&mut days, day);
            k += 1;
        }
        i += 1;
    }
    Some(days)
}

proof fn lemma_with_points_fails(days: Seq<i64>, points: Seq<DayCount>, k: int, n: int)
    requires
        0 <= k <= n,
        with_points(days, points, k) is None,
    ensures
        with_points(days, points, n) is None,
    decreases n - k,
{
    if k < n {
        lemma_with_points_fails(days, points, k, n - 1);
    }
}

proof fn lemma_axis_fails(series: Seq<ChartSeries>, k: int, n: int)
    requires
        0 <= k <= n,
        axis(series, k) is None,
    ensures
        axis(series, n) is None,
    decreases n - k,
{
    if k < n {
        lemma_axis_fails(series, k, n - 1);
    }
}

/// Stacks the points of one series onto the heights reached.
fn stack_one(heights: &mut Vec<u64>, days: &Vec<i64>, series: &ChartSeries) -> (r: Option<Layer>)
    ensures
        match stack_points(
            Drawn { heights: old(heights)@, upper: Seq::empty(), lower: Seq::empty() },
            days@,
            series.points@,
            0,
        ) {
            Some(d) => r matches Some(layer) && layer@ == (LayerView {
                label: series.label,
                upper: d.upper,
                lower: d.lower,
            }) && final(heights)@ == d.heights,
            None => r is None,
        },
{
    let mut upper: Vec<ChartPoint> = Vec::new();
    let mut lower: Vec<ChartPoint> = Vec::new();
    let ghost start = Drawn { heights: heights@, upper: Seq::empty(), lower: Seq::empty() };
    let points = &series.points;
    let mut k: usize = 0;
    while k < points.len()
        invariant
            k <= points@.len(),
            *points == series.points,
            start == (Drawn { heights: old(heights)@, upper: Seq::empty(), lower: Seq::empty() }),
            stack_points(start, days@, points@, 0) == stack_points(
                Drawn { heights: heights@, upper: upper@, lower: lower@ },
                days@,
                points@,
                k as int,
            ),
        decreases points.len() - k,
    {
        let first = place_of_day(days, points[k].day);
        let end: usize = if k + 1 < points.len() {
            place_of_day(days, points[k + 1].day)
        } else if days.len() > 0 {
            days.len() - 1
        } else {
            0
        };
        let count = points[k].count;
        let ghost at_point = Drawn { heights: heights@, upper: upper@, lower: lower@ };
        let ghost end_spec = span_end(days@, points@, k as int);
        assert(end as int == end_spec || (days@.len() == 0 && end_spec == -1));
        let mut idx: usize = first;
        while idx < end && idx < days.len() && idx < heights.len()
            invariant
                first <= idx,
                k < points@.len(),
                *points == series.points,
                start == (Drawn {
                    heights: old(heights)@,
                    upper: Seq::empty(),
                    lower: Seq::empty(),
                }),
                count == points@[k as int].count,
                first == day_place(days@, points@[k as int].day, days@.len() as int),
                end_spec == span_end(days@, points@, k as int),
                end as int == end_spec || (days@.len() == 0 && end_spec == -1),
                stack_points(start, days@, points@, 0) == stack_points(
                    at_point,
                    days@,
                    points@,
                    k as int,
                ),
                stack_span(at_point, days@, first as int, end_spec, count) == stack_span(
                    Drawn { heights: heights@, upper: upper@, lower: lower@ },
                    days@,
                    idx as int,
                    end_spec,
                    count,
                ),
            decreases end - idx,
        {
            let below = heights[idx];
            match below.checked_add(count) {
                None => {
                    proof {
                        let now = Drawn { heights: heights@, upper: upper@, lower: lower@ };
                        assert(stack_span(now, days@, idx as int, end_spec, count) is None);
                        assert(stack_points(at_point, days@, points@, k as int) is None);
                    }
                    return None;
                },
                Some(above) => {
                    lower.push(ChartPoint { day: days[idx], height: below });
                    upper.push(ChartPoint { day: days[idx], height: above });
                    heights[idx] = above;
                },
            }
            idx += 1;
        }
        k += 1;
    }
    Some(Layer { label: series.label, upper, lower })
}

/// Stacks the series of a chart, the first at the bottom: each count
/// holds from its day up to the day of the series' next point, the last
/// count of a series up to the last day of the axis. Gives `None` for
/// series that cannot be stacked.
pub fn stack_series(series: &[ChartSeries]) -> (r: Option<Stacked>)
    ensures
        r is Some <==> stackable(series@),
        r matches Some(chart) ==> {
            &&& chart.first_day == series@[0].points@[0].day
            &&& chart.last_day == last_day_of(series@, series@.len() as int)
            &&& chart.height == height_of(series@, series@.len() as int)
            &&& axis(series@, series@.len() as int) matches Some(days) && Some(
                layer_views(chart.layers@),
            ) == stack_layers(
                Seq::empty(),
                Seq::new(days.len(), |i: int| 0u64),
                days,
                series@,
                0,
            )
        },
{
    if series.len() == 0 || series[0].points.len() == 0 {
        return None;
    }
    let first_day = series[0].points[0].day;
    let mut last_day: i64 = i64::MIN;
    let mut height: u64 = 0;
    let mut i: usize = 0;
    while i < series.len()
        invariant
            i <= series@.len(),
            last_day == last_day_of(series@, i as int),
            height == height_of(series@, i as int),
        decreases series.len() - i,
    {
        let points = &series[i].points;
        let n = points.len();
        if n > 0 && points[n - 1].day > last_day {
            last_day = points[n - 1].day;
        }
        let most = largest_count(points.as_slice());
        match height.checked_add(most) {
            None => {
                proof {
                    lemma_height_grows(series@, i + 1, series@.len() as int);
                }
                return None;
            },
            Some(sum) => {
                height = sum;
            },
        }
        i += 1;
    }
    let days = match axis_of(series) {
        None => {
            return None;
        },
        Some(days) => days,
    };
    let mut heights: Vec<u64> = Vec::new();
    let mut h: usize = 0;
    while h < days.len()
        invariant
            h <= days@.len(),
            heights@.len() == h,
            forall|t: int| 0 <= t < h ==> heights@[t] == 0,
        decreases days.len() - h,
    {
        heights.push(0);
        h += 1;
    }
    assert(heights@ =~= Seq::new(days@.len(), |i: int| 0u64));
    let ghost zero = heights@;
    let mut layers: Vec<Layer> = Vec::new();
    let mut j: usize = 0;
    assert(layer_views(layers@) =~= Seq::<LayerView>::empty());
    while j < series.len()
        invariant
            j <= series@.len(),
            axis(series@, series@.len() as int) == Some(days@),
            zero == Seq::new(days@.len(), |i: int| 0u64),
            stack_layers(Seq::empty(), zero, days@, series@, 0) == stack_layers(
                layer_views(layers@),
                heights@,
                days@,
                series@,
                j as int,
            ),
        decreases series.len() - j,
    {
        match stack_one(&mut heights, &days, &series[j]) {
            None => {
                return None;
            },
            Some(layer) => {
                let ghost prev = layers@;
                layers.push(layer);
                assert(layer_views(layers@) =~= layer_views(prev).push(layer@));
            },
        }
        j += 1;
    }
    Some(Stacked { first_day, last_day, height, layers })
}

proof fn lemma_height_grows(series: Seq<ChartSeries>, k: int, n: int)
    requires
        0 <= k <= n,
    ensures
        height_of(series, k) <= height_of(series, n),
    decreases n - k,
{
    if k < n {
        lemma_height_grows(series, k, n - 1);
    }
}

} // verus!
