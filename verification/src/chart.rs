//! The choice of what a chart shows: the authors with the most lines, the
//! pinned ones, and the sum of all others.

use crate::rank::{lemma_score_sorted_map, score_sorted, sort_by_score, Scored, SpecScored};
use crate::timeline::{place_of, DayCount, Timeline};
use vstd::prelude::*;

verus! {

/// What a series of the chart stands for.
#[derive(Debug, Clone, Copy, PartialEq, Eq, Structural)]
pub enum SeriesLabel {
    /// The author of this id.
    Author(u32),
    /// All authors that have no series of their own.
    Others,
}

/// A series of the chart: counts of lines by day, in the order of the
/// days.
#[derive(Debug)]
pub struct ChartSeries {
    pub label: SeriesLabel,
    pub points: Vec<DayCount>,
}

/// A series, with its points as a sequence.
pub struct SeriesView {
    pub label: SeriesLabel,
    pub points: Seq<DayCount>,
}

impl View for ChartSeries {
    type V = SeriesView;

    open spec fn view(&self) -> SeriesView {
        SeriesView { label: self.label, points: self.points@ }
    }
}

/// An author with the largest count of the author's days.
#[derive(Debug, Clone, Copy, PartialEq, Eq, Structural)]
pub struct Candidate {
    pub author: u32,
    pub most: u64,
}

impl SpecScored for Candidate {
    /// The larger count sorts first.
    open spec fn score(&self) -> int {
        -(self.most as int)
    }
}

impl Scored for Candidate {
    fn scores_below(&self, other: &Self) -> (r: bool) {
        self.most > other.most
    }
}

impl SpecScored for SeriesView {
    /// The earlier first day sorts first.
    open spec fn score(&self) -> int {
        if self.points.len() > 0 {
            self.points[0].day as int
        } else {
            0
        }
    }
}

impl SpecScored for ChartSeries {
    open spec fn score(&self) -> int {
        self@.score()
    }
}

impl Scored for ChartSeries {
    fn scores_below(&self, other: &Self) -> (r: bool) {
        let mine: i64 = if self.points.len() > 0 {
            self.points[0].day
        } else {
            0
        };
        let theirs: i64 = if other.points.len() > 0 {
            other.points[0].day
        } else {
            0
        };
        mine < theirs
    }
}

/// The largest count among the first `n` points; 0 without points.
pub open spec fn most_of(row: Seq<DayCount>, n: int) -> u64
    decreases n,
{
    if n <= 0 {
        0
    } else {
        let rest = most_of(row, n - 1);
        if row[n - 1].count > rest {
            row[n - 1].count
        } else {
            rest
        }
    }
}

/// Whether author `a` stands for choice: the author has counts and is
/// not left out.
pub open spec fn stands(rows: Seq<Seq<DayCount>>, excluded: Option<u32>, a: int) -> bool {
    rows[a].len() > 0 && excluded != Some(a as u32)
}

/// The authors below `n` that stand for choice, in the order of their
/// ids, each with the largest of its counts.
pub open spec fn candidates(rows: Seq<Seq<DayCount>>, excluded: Option<u32>, n: int) -> Seq<
    Candidate,
>
    decreases n,
{
    if n <= 0 {
        Seq::empty()
    } else {
        let rest = candidates(rows, excluded, n - 1);
        if stands(rows, excluded, n - 1) {
            rest.push(
                Candidate {
                    author: (n - 1) as u32,
                    most: most_of(rows[n - 1], rows[n - 1].len() as int),
                },
            )
        } else {
            rest
        }
    }
}

/// Whether the author is pinned; an author without a flag is not.
pub open spec fn is_pinned(pinned: Seq<bool>, author: u32) -> bool {
    author < pinned.len() && pinned[author as int]
}

/// The pinned among the candidates `from..n`, in their order.
pub open spec fn pinned_rest(ranked: Seq<Candidate>, pinned: Seq<bool>, from: int, n: int) -> Seq<
    Candidate,
>
    decreases n - from,
{
    if n <= from {
        Seq::empty()
    } else {
        let rest = pinned_rest(ranked, pinned, from, n - 1);
        if is_pinned(pinned, ranked[n - 1].author) {
            rest.push(ranked[n - 1])
        } else {
            rest
        }
    }
}

/// The candidates that get a series of their own: the first `top` of the
/// ranking, and the pinned among the others.
pub open spec fn kept(ranked: Seq<Candidate>, pinned: Seq<bool>, top: int) -> Seq<Candidate> {
    let first = if top < ranked.len() {
        top
    } else {
        ranked.len() as int
    };
    ranked.take(first) + pinned_rest(ranked, pinned, first, ranked.len() as int)
}

/// For each author whether one of the first `k` kept candidates is the
/// author.
pub open spec fn marks(keep: Seq<Candidate>, authors: int, k: int) -> Seq<bool>
    decreases k,
{
    if k <= 0 {
        Seq::new(authors as nat, |a: int| false)
    } else {
        let rest = marks(keep, authors, k - 1);
        if keep[k - 1].author < authors {
            rest.update(keep[k - 1].author as int, true)
        } else {
            rest
        }
    }
}

/// The sums with the count of a point added to the sum of its day.
/// `None` if the sum outgrows 64 bits.
pub open spec fn add_point(acc: Seq<DayCount>, p: DayCount) -> Option<Seq<DayCount>> {
    let at = place_of(acc, p.day, acc.len() as int);
    if at < acc.len() && acc[at].day == p.day {
        if acc[at].count + p.count > u64::MAX {
            None
        } else {
            Some(acc.update(at, DayCount { day: p.day, count: (acc[at].count + p.count) as u64 }))
        }
    } else {
        Some(acc.take(at).push(p) + acc.skip(at))
    }
}

/// The sums with the first `n` points of a row added.
pub open spec fn add_row(acc: Seq<DayCount>, row: Seq<DayCount>, n: int) -> Option<Seq<DayCount>>
    decreases n,
{
    if n <= 0 {
        Some(acc)
    } else {
        match add_row(acc, row, n - 1) {
            None => None,
            Some(sums) => add_point(sums, row[n - 1]),
        }
    }
}

/// The sums by day of the counts of the authors below `n` that stand
/// for choice and have no series of their own.
pub open spec fn others_sum(
    rows: Seq<Seq<DayCount>>,
    excluded: Option<u32>,
    own: Seq<bool>,
    n: int,
) -> Option<Seq<DayCount>>
    decreases n,
{
    if n <= 0 {
        Some(Seq::empty())
    } else {
        match others_sum(rows, excluded, own, n - 1) {
            None => None,
            Some(sums) => if stands(rows, excluded, n - 1) && !own[n - 1] {
                add_row(sums, rows[n - 1], rows[n - 1].len() as int)
            } else {
                Some(sums)
            },
        }
    }
}

/// The series of the first `k` kept candidates.
pub open spec fn own_series(rows: Seq<Seq<DayCount>>, keep: Seq<Candidate>, k: int) -> Seq<
    SeriesView,
>
    decreases k,
{
    if k <= 0 {
        Seq::empty()
    } else {
        own_series(rows, keep, k - 1).push(
            SeriesView {
                label: SeriesLabel::Author(keep[k - 1].author),
                points: rows[keep[k - 1].author as int],
            },
        )
    }
}

/// What the chart shows. The authors that have counts, but for the one
/// left out, are ranked by the largest of their counts, the larger first
/// and equal ones in the order of their ids. The first `top` of them and
/// the pinned among the rest get a series each; the counts of the others
/// are summed by day into one series more, unless that is empty or not
/// wanted. The series come in the order of their first days. `None` if a
/// sum outgrows 64 bits.
pub open spec fn selected(
    rows: Seq<Seq<DayCount>>,
    excluded: Option<u32>,
    pinned: Seq<bool>,
    top: int,
    top_only: bool,
) -> Option<Seq<SeriesView>> {
    let ranked = score_sorted(candidates(rows, excluded, rows.len() as int));
    let keep = kept(ranked, pinned, top);
    let own = marks(keep, rows.len() as int, keep.len() as int);
    match others_sum(rows, excluded, own, rows.len() as int) {
        None => None,
        Some(others) => {
            let listed = own_series(rows, keep, keep.len() as int);
            Some(
                score_sorted(
                    if others.len() > 0 && !top_only {
                        listed.push(SeriesView { label: SeriesLabel::Others, points: others })
                    } else {
                        listed
                    },
                ),
            )
        },
    }
}

/// The series as sequences.
pub open spec fn series_views(s: Seq<ChartSeries>) -> Seq<SeriesView> {
    s.map_values(|c: ChartSeries| c@)
}

/// Every candidate is an author of the rows.
pub open spec fn candidates_within(s: Seq<Candidate>, authors: int) -> bool {
    forall|i: int| 0 <= i < s.len() ==> (#[trigger] s[i]).author < authors
}

proof fn lemma_candidates_within(rows: Seq<Seq<DayCount>>, excluded: Option<u32>, n: int)
    requires
        0 <= n <= rows.len(),
        rows.len() <= u32::MAX as nat + 1,
    ensures
        candidates_within(candidates(rows, excluded, n), n),
        candidates(rows, excluded, n).len() <= n,
    decreases n,
{
    if n > 0 {
        lemma_candidates_within(rows, excluded, n - 1);
    }
}

proof fn lemma_sorted_within(s: Seq<Candidate>, authors: int)
    requires
        candidates_within(s, authors),
    ensures
        candidates_within(score_sorted(s), authors),
{
    broadcast use vstd::seq_lib::group_to_multiset_ensures;

    crate::rank::lemma_score_sorted(s);
    let sorted = score_sorted(s);
    assert forall|i: int| 0 <= i < sorted.len() implies (#[trigger] sorted[i]).author < authors by {
        assert(sorted.to_multiset().count(sorted[i]) > 0);
        assert(s.to_multiset().count(sorted[i]) > 0);
        let t = choose|t: int| 0 <= t < s.len() && s[t] == sorted[i];
        assert(s[t].author < authors);
    }
}

proof fn lemma_pinned_rest_within(
    ranked: Seq<Candidate>,
    pinned: Seq<bool>,
    from: int,
    n: int,
    authors: int,
)
    requires
        0 <= from <= n <= ranked.len(),
        candidates_within(ranked, authors),
    ensures
        candidates_within(pinned_rest(ranked, pinned, from, n), authors),
    decreases n - from,
{
    if n > from {
        lemma_pinned_rest_within(ranked, pinned, from, n - 1, authors);
    }
}

/// The largest count of a row; 0 for a row without points.
pub fn largest_count(row: &[DayCount]) -> (r: u64)
    ensures
        r == most_of(row@, row@.len() as int),
{
    let mut most: u64 = 0;
    let mut i: usize = 0;
    while i < row.len()
        invariant
            i <= row@.len(),
            most == most_of(row@, i as int),
        decreases row.len() - i,
    {
        if row[i].count > most {
            most = row[i].count;
        }
        i += 1;
    }
    most
}

fn is_left_out(excluded: Option<u32>, author: u32) -> (r: bool)
    ensures
        r == (excluded == Some(author)),
{
    match excluded {
        Some(e) => e == author,
        None => false,
    }
}

/// Adds the count of a point to the sum of its day.
fn add_to_sums(sums: &mut Vec<DayCount>, p: DayCount) -> (done: bool)
    ensures
        done == (add_point(old(sums)@, p) is Some),
        done ==> Some(final(sums)@) == add_point(old(sums)@, p),
{
    let n = sums.len();
    let ghost before = sums@;
    let mut at: usize = n;
    while at > 0 && sums[at - 1].day >= p.day
        invariant
            at <= n,
            n == sums@.len(),
            sums@ == before,
            place_of(before, p.day, n as int) == place_of(before, p.day, at as int),
        decreases at,
    {
        at -= 1;
    }
    if at < n && sums[at].day == p.day {
        match sums[at].count.checked_add(p.count) {
            Some(sum) => {
                sums[at] = DayCount { day: p.day, count: sum };
                true
            },
            None => false,
        }
    } else {
        sums.insert(at, p);
        assert(sums@ =~= before.take(at as int).push(p) + before.skip(at as int));
        true
    }
}

fn copy_points(row: &[DayCount]) -> (r: Vec<DayCount>)
    ensures
        r@ == row@,
{
    let mut out: Vec<DayCount> = Vec::new();
    let mut i: usize = 0;
    while i < row.len()
        invariant
            i <= row@.len(),
            out@ == row@.take(i as int),
        decreases row.len() - i,
    {
        out.push(row[i]);
        assert(out@ =~= row@.take(i + 1));
        i += 1;
    }
    assert(row@.take(i as int) =~= row@);
    out
}

/// Ranks the authors that stand for choice.
fn rank_candidates(timeline: &Timeline, excluded: Option<u32>) -> (r: Vec<Candidate>)
    requires
        timeline.wf(),
    ensures
        r@ == score_sorted(candidates(timeline@, excluded, timeline@.len() as int)),
        candidates_within(r@, timeline@.len() as int),
{
    let n = timeline.num_authors();
    let mut list: Vec<Candidate> = Vec::new();
    let mut a: usize = 0;
    while a < n
        invariant
            a <= n,
            n == timeline@.len(),
            timeline.wf(),
            list@ == candidates(timeline@, excluded, a as int),
        decreases n - a,
    {
        let author = a as u32;
        match timeline.series(author) {
            Some(row) => {
                if row.len() > 0 && !is_left_out(excluded, author) {
                    list.push(Candidate { author, most: largest_count(row) });
                }
            },
            None => {},
        }
        a += 1;
    }
    proof {
        lemma_candidates_within(timeline@, excluded, n as int);
        lemma_sorted_within(list@, n as int);
    }
    sort_by_score(&mut list);
    list
}

/// Picks the candidates that get a series of their own.
fn keep_candidates(ranked: &Vec<Candidate>, pinned: &[bool], top: usize) -> (r: Vec<Candidate>)
    ensures
        r@ == kept(ranked@, pinned@, top as int),
{
    let n = ranked.len();
    let first = if top < n {
        top
    } else {
        n
    };
    let mut keep: Vec<Candidate> = Vec::new();
    let mut i: usize = 0;
    while i < first
        invariant
            i <= first,
            first <= ranked@.len(),
            keep@ == ranked@.take(i as int),
        decreases first - i,
    {
        keep.push(ranked[i]);
        assert(keep@ =~= ranked@.take(i + 1));
        i += 1;
    }
    let ghost head = keep@;
    assert(head + pinned_rest(ranked@, pinned@, first as int, first as int) =~= head);
    while i < n
        invariant
            first <= i <= n,
            n == ranked@.len(),
            head == ranked@.take(first as int),
            keep@ == head + pinned_rest(ranked@, pinned@, first as int, i as int),
        decreases n - i,
    {
        let c = ranked[i];
        let flagged = (c.author as usize) < pinned.len() && pinned[c.author as usize];
        if flagged {
            keep.push(c);
            assert(keep@ =~= head + pinned_rest(ranked@, pinned@, first as int, i + 1));
        }
        i += 1;
    }
    keep
}

/// Marks the authors that get a series of their own.
fn mark_kept(keep: &Vec<Candidate>, authors: usize) -> (r: Vec<bool>)
    ensures
        r@ == marks(keep@, authors as int, keep@.len() as int),
        r@.len() == authors,
{
    let mut own: Vec<bool> = Vec::new();
    let mut a: usize = 0;
    while a < authors
        invariant
            a <= authors,
            own@.len() == a,
            forall|i: int| 0 <= i < a ==> !own@[i],
        decreases authors - a,
    {
        own.push(false);
        a += 1;
    }
    assert(own@ =~= marks(keep@, authors as int, 0));
    let mut k: usize = 0;
    while k < keep.len()
        invariant
            k <= keep@.len(),
            own@.len() == authors,
            own@ == marks(keep@, authors as int, k as int),
        decreases keep.len() - k,
    {
        let author = keep[k].author as usize;
        if author < authors {
            own[author] = true;
        }
        k += 1;
    }
    own
}

/// Sums the counts of the authors without a series of their own.
fn sum_others(timeline: &Timeline, excluded: Option<u32>, own: &Vec<bool>) -> (r: Option<
    Vec<DayCount>,
>)
    requires
        timeline.wf(),
        own@.len() == timeline@.len(),
    ensures
        r is Some <==> others_sum(timeline@, excluded, own@, timeline@.len() as int) is Some,
        r matches Some(v) ==> Some(v@) == others_sum(
            timeline@,
            excluded,
            own@,
            timeline@.len() as int,
        ),
{
    let n = timeline.num_authors();
    let mut sums: Vec<DayCount> = Vec::new();
    let mut a: usize = 0;
    while a < n
        invariant
            a <= n,
            n == timeline@.len(),
            timeline.wf(),
            own@.len() == n,
            others_sum(timeline@, excluded, own@, a as int) == Some(sums@),
        decreases n - a,
    {
        let author = a as u32;
        match timeline.series(author) {
            Some(row) => {
                if row.len() > 0 && !is_left_out(excluded, author) && !own[a] {
                    let ghost start = sums@;
                    let mut i: usize = 0;
                    while i < row.len()
                        invariant
                            i <= row@.len(),
                            a < n,
                            n == timeline@.len(),
                            own@.len() == n,
                            row@ == timeline@[a as int],
                            stands(timeline@, excluded, a as int) && !own@[a as int],
                            others_sum(timeline@, excluded, own@, a as int) == Some(start),
                            add_row(start, row@, i as int) == Some(sums@),
                        decreases row.len() - i,
                    {
                        if !add_to_sums(&mut sums, row[i]) {
                            proof {
                                lemma_add_row_fails(start, row@, i + 1, row@.len() as int);
                                lemma_others_fail(
                                    timeline@,
                                    excluded,
                                    own@,
                                    a + 1,
                                    timeline@.len() as int,
                                );
                            }
                            return None;
                        }
                        i += 1;
                    }
                }
            },
            None => {},
        }
        a += 1;
    }
    Some(sums)
}

proof fn lemma_add_row_fails(acc: Seq<DayCount>, row: Seq<DayCount>, k: int, n: int)
    requires
        0 <= k <= n,
        add_row(acc, row, k) is None,
    ensures
        add_row(acc, row, n) is None,
    decreases n - k,
{
    if k < n {
        lemma_add_row_fails(acc, row, k, n - 1);
    }
}

proof fn lemma_others_fail(
    rows: Seq<Seq<DayCount>>,
    excluded: Option<u32>,
    own: Seq<bool>,
    k: int,
    n: int,
)
    requires
        0 <= k <= n,
        others_sum(rows, excluded, own, k) is None,
    ensures
        others_sum(rows, excluded, own, n) is None,
    decreases n - k,
{
    if k < n {
        lemma_others_fail(rows, excluded, own, k, n - 1);
    }
}

/// Chooses what the chart shows of a timeline: `excluded` is the author
/// to leave out, `pinned` says by author id who gets a series whatever
/// the rank, `top` is the number of authors to show by rank, and
/// `top_only` keeps the sum of the others out.
pub fn select_series(
    timeline: &Timeline,
    excluded: Option<u32>,
    pinned: &[bool],
    top: usize,
    top_only: bool,
) -> (r: Option<Vec<ChartSeries>>)
    requires
        timeline.wf(),
    ensures
        r is Some <==> selected(timeline@, excluded, pinned@, top as int, top_only) is Some,
        r matches Some(v) ==> Some(series_views(v@)) == selected(
            timeline@,
            excluded,
            pinned@,
            top as int,
            top_only,
        ),
{
    let n = timeline.num_authors();
    let ranked = rank_candidates(timeline, excluded);
    let keep = keep_candidates(&ranked, pinned, top);
    proof {
        let first = if top < ranked@.len() {
            top as int
        } else {
            ranked@.len() as int
        };
        lemma_pinned_rest_within(ranked@, pinned@, first, ranked@.len() as int, n as int);
        assert(candidates_within(keep@, n as int)) by {
            let rest = pinned_rest(ranked@, pinned@, first, ranked@.len() as int);
            assert forall|i: int| 0 <= i < keep@.len() implies (#[trigger] keep@[i]).author
                < n by {
                if i < first {
                    assert(keep@[i] == ranked@[i]);
                } else {
                    assert(keep@[i] == rest[i - first]);
                }
            }
        }
    }
    let own = mark_kept(&keep, n);
    let others = match sum_others(timeline, excluded, &own) {
        None => {
            return None;
        },
        Some(sums) => sums,
    };
    let mut list: Vec<ChartSeries> = Vec::new();
    let mut k: usize = 0;
    assert(series_views(list@) =~= own_series(timeline@, keep@, 0));
    while k < keep.len()
        invariant
            k <= keep@.len(),
            n == timeline@.len(),
            timeline.wf(),
            candidates_within(keep@, n as int),
            series_views(list@) == own_series(timeline@, keep@, k as int),
        decreases keep.len() - k,
    {
        let author = keep[k].author;
        assert(keep@[k as int].author < n);
        let row = timeline.series(author).unwrap();
        let series = ChartSeries { label: SeriesLabel::Author(author), points: copy_points(row) };
        let ghost prev = list@;
        list.push(series);
        assert(series_views(list@) =~= series_views(prev).push(series@));
        k += 1;
    }
    if others.len() > 0 && !top_only {
        let series = ChartSeries { label: SeriesLabel::Others, points: others };
        let ghost prev = list@;
        list.push(series);
        assert(series_views(list@) =~= series_views(prev).push(series@));
    }
    let ghost unsorted = list@;
    proof {
        lemma_score_sorted_map(unsorted, |c: ChartSeries| c@);
    }
    sort_by_score(&mut list);
    Some(list)
}

} // verus!
