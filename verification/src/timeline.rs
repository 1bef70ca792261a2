//! Lines per author over time: for each author and each day the largest
//! count that a commit of that day gave.

use vstd::prelude::*;

verus! {

/// The number of an author's lines on a day, counted in days since the
/// epoch.
#[derive(Debug, Clone, Copy, PartialEq, Eq, Structural)]
pub struct DayCount {
    pub day: i64,
    pub count: u64,
}

/// The day of a time given in seconds since the epoch: the time divided
/// by the seconds of a day, rounded down.
pub open spec fn day_of_spec(timestamp: i64) -> int {
    timestamp as int / 86400
}

/// The day of a time given in seconds since the epoch.
pub fn day_of(timestamp: i64) -> (day: i64)
    ensures
        day == day_of_spec(timestamp),
{
    if timestamp >= 0 {
        let seconds = timestamp as u64;
        (seconds / 86400) as i64
    } else {
        let before = (-(timestamp + 1)) as u64;
        -((before / 86400) as i64) - 1
    }
}

/// The days of the row ascend strictly.
pub open spec fn days_ascend(row: Seq<DayCount>) -> bool {
    forall|i: int, j: int| 0 <= i < j < row.len() ==> (#[trigger] row[i]).day < (#[trigger] row[j]).day
}

/// The place among the first `n` entries behind the last entry of an
/// earlier day: where an entry of `day` belongs in an ascending row.
pub open spec fn place_of(row: Seq<DayCount>, day: i64, n: int) -> int
    decreases n,
{
    if n <= 0 {
        0
    } else if row[n - 1].day < day {
        n
    } else {
        place_of(row, day, n - 1)
    }
}

/// The row with `count` recorded for `day`: the larger of `count` and the
/// count that the day had, at the day's place in the order of days.
pub open spec fn recorded(row: Seq<DayCount>, day: i64, count: u64) -> Seq<DayCount> {
    let at = place_of(row, day, row.len() as int);
    if at < row.len() && row[at].day == day {
        row.update(
            at,
            DayCount {
                day,
                count: if row[at].count < count {
                    count
                } else {
                    row[at].count
                },
            },
        )
    } else {
        row.take(at).push(DayCount { day, count }) + row.skip(at)
    }
}

/// The rows, extended by empty rows so that `author` has one.
pub open spec fn rows_for(rows: Seq<Seq<DayCount>>, author: int) -> Seq<Seq<DayCount>> {
    if author < rows.len() {
        rows
    } else {
        rows + Seq::new((author + 1 - rows.len()) as nat, |i: int| Seq::<DayCount>::empty())
    }
}

/// The place of a day in an ascending row lies behind every earlier day and
/// before every other.
pub proof fn lemma_place_of(row: Seq<DayCount>, day: i64, n: int)
    requires
        days_ascend(row),
        0 <= n <= row.len(),
    ensures
        0 <= place_of(row, day, n) <= n,
        forall|i: int| 0 <= i < place_of(row, day, n) ==> (#[trigger] row[i]).day < day,
        forall|i: int| place_of(row, day, n) <= i < n ==> (#[trigger] row[i]).day >= day,
    decreases n,
{
    if n > 0 {
        lemma_place_of(row, day, n - 1);
        if row[n - 1].day < day {
            assert forall|i: int| 0 <= i < n implies (#[trigger] row[i]).day < day by {
                if i < n - 1 {
                    assert(row[i].day < row[n - 1].day);
                }
            }
        }
    }
}

/// Recording keeps the days in ascending order, and changes the count of
/// no other day.
pub proof fn lemma_recorded(row: Seq<DayCount>, day: i64, count: u64)
    requires
        days_ascend(row),
    ensures
        days_ascend(recorded(row, day, count)),
        exists|i: int|
            0 <= i < recorded(row, day, count).len() && (#[trigger] recorded(row, day, count)[i]).day
                == day && recorded(row, day, count)[i].count >= count,
        forall|i: int|
            0 <= i < row.len() && row[i].day != day ==> recorded(row, day, count).contains(
                #[trigger] row[i],
            ),
{
    let at = place_of(row, day, row.len() as int);
    lemma_place_of(row, day, row.len() as int);
    let out = recorded(row, day, count);
    if at < row.len() && row[at].day == day {
        assert(out[at].day == day);
        assert forall|i: int, j: int| 0 <= i < j < out.len() implies (#[trigger] out[i]).day < (
        #[trigger] out[j]).day by {
            assert(row[i].day < row[j].day);
        }
        assert forall|i: int| 0 <= i < row.len() && row[i].day != day implies out.contains(
            #[trigger] row[i],
        ) by {
            assert(out[i] == row[i]);
        }
    } else {
        assert(out[at].day == day);
        assert forall|i: int, j: int| 0 <= i < j < out.len() implies (#[trigger] out[i]).day < (
        #[trigger] out[j]).day by {
            let di = if i < at {
                row[i].day
            } else if i == at {
                day
            } else {
                row[i - 1].day
            };
            assert(out[i].day == di);
            if i < at && j > at {
                assert(row[i].day < day);
                assert(row[j - 1].day >= day);
            } else if i < at && j < at {
                assert(row[i].day < row[j].day);
            } else if i > at {
                assert(row[i - 1].day < row[j - 1].day);
            } else if i == at {
                assert(row[j - 1].day >= day);
                if at < row.len() {
                    assert(row[at].day != day);
                    if j - 1 > at {
                        assert(row[at].day < row[j - 1].day);
                    }
                }
            }
        }
        assert forall|i: int| 0 <= i < row.len() && row[i].day != day implies out.contains(
            #[trigger] row[i],
        ) by {
            if i < at {
                assert(out[i] == row[i]);
            } else {
                assert(out[i + 1] == row[i]);
            }
        }
    }
}

/// For each author id the counts of the author's days, in the order of
/// the days.
pub struct Timeline {
    rows: Vec<Vec<DayCount>>,
}

/// The rows as sequences.
pub open spec fn row_views(rows: Seq<Vec<DayCount>>) -> Seq<Seq<DayCount>> {
    Seq::new(rows.len(), |i: int| rows[i]@)
}

impl View for Timeline {
    type V = Seq<Seq<DayCount>>;

    closed spec fn view(&self) -> Seq<Seq<DayCount>> {
        row_views(self.rows@)
    }
}

impl Timeline {
    /// In every row the days ascend strictly, and every row belongs to
    /// an author id.
    pub open spec fn wf(&self) -> bool {
        &&& self@.len() <= u32::MAX as nat + 1
        &&& forall|a: int| 0 <= a < self@.len() ==> days_ascend(#[trigger] self@[a])
    }

    /// A timeline without counts.
    pub fn new() -> (r: Timeline)
        ensures
            r@ == Seq::<Seq<DayCount>>::empty(),
            r.wf(),
    {
        let r = Timeline { rows: Vec::new() };
        assert(r@ =~= Seq::<Seq<DayCount>>::empty());
        r
    }

    /// The number of authors that have a row.
    pub fn num_authors(&self) -> (n: usize)
        ensures
            n == self@.len(),
    {
        self.rows.len()
    }

    /// The counts of `author`, in the order of the days.
    pub fn series(&self, author: u32) -> (r: Option<&[DayCount]>)
        ensures
            match r {
                Some(row) => author < self@.len() && row@ == self@[author as int],
                None => author >= self@.len(),
            },
    {
        if (author as usize) < self.rows.len() {
            Some(self.rows[author as usize].as_slice())
        } else {
            None
        }
    }

    /// Records that `author` had `count` lines after a commit of `day`:
    /// the day keeps the largest count recorded for it.
    pub fn record(&mut self, author: u32, day: i64, count: u64)
        requires
            old(self).wf(),
        ensures
            final(self).wf(),
            final(self)@ == rows_for(old(self)@, author as int).update(
                author as int,
                recorded(rows_for(old(self)@, author as int)[author as int], day, count),
            ),
    {
        let ghost before = self@;
        while self.rows.len() <= author as usize
            invariant
                self.rows@.len() >= before.len(),
                self.rows@.len() <= author + 1 || self.rows@.len() == before.len(),
                forall|i: int| 0 <= i < before.len() ==> self.rows@[i]@ == before[i],
                forall|i: int|
                    before.len() <= i < self.rows@.len() ==> self.rows@[i]@
                        == Seq::<DayCount>::empty(),
            decreases author + 1 - self.rows.len(),
        {
            self.rows.push(Vec::new());
        }
        assert(self@ =~= rows_for(before, author as int));
        let ghost grown = self@;
        let ghost row = grown[author as int];
        proof {
            if author < before.len() {
                assert(days_ascend(before[author as int]));
            }
            lemma_recorded(row, day, count);
        }
        let n = self.rows[author as usize].len();
        let mut at: usize = n;
        while at > 0 && self.rows[author as usize][at - 1].day >= day
            invariant
                at <= n,
                n == row.len(),
                author < self.rows@.len(),
                self.rows@[author as int]@ == row,
                place_of(row, day, n as int) == place_of(row, day, at as int),
            decreases at,
        {
            at -= 1;
        }
        if at < n && self.rows[author as usize][at].day == day {
            let had = self.rows[author as usize][at].count;
            let most = if had < count {
                count
            } else {
                had
            };
            self.rows[author as usize][at] = DayCount { day, count: most };
        } else {
            self.rows[author as usize].insert(at, DayCount { day, count });
            assert(self.rows@[author as int]@ =~= recorded(row, day, count));
        }
        proof {
            assert(self@ =~= grown.update(author as int, recorded(row, day, count)));
            assert forall|a: int| 0 <= a < self@.len() implies days_ascend(#[trigger] self@[a]) by {
                if a != author {
                    if a < before.len() {
                        assert(self@[a] == before[a]);
                        assert(days_ascend(before[a]));
                    } else {
                        assert(self@[a] =~= Seq::<DayCount>::empty());
                    }
                }
            }
        }
    }

    /// Records the statistics of a commit of `day`: the entry at an
    /// author's id is the number of that author's lines.
    pub fn record_stat(&mut self, day: i64, counts: &[u64])
        requires
            old(self).wf(),
            counts@.len() <= u32::MAX,
        ensures
            final(self).wf(),
            final(self)@ == with_stat(old(self)@, day, counts@, counts@.len() as int),
    {
        let mut a: usize = 0;
        while a < counts.len()
            invariant
                a <= counts@.len(),
                counts@.len() <= u32::MAX,
                self.wf(),
                self@ == with_stat(old(self)@, day, counts@, a as int),
            decreases counts.len() - a,
        {
            self.record(a as u32, day, counts[a]);
            a += 1;
        }
    }
}

/// The rows after the counts of the first `n` authors are recorded for
/// `day`.
pub open spec fn with_stat(rows: Seq<Seq<DayCount>>, day: i64, counts: Seq<u64>, n: int) -> Seq<
    Seq<DayCount>,
>
    decreases n,
{
    if n <= 0 {
        rows
    } else {
        let before = with_stat(rows, day, counts, n - 1);
        rows_for(before, n - 1).update(
            n - 1,
            recorded(rows_for(before, n - 1)[n - 1], day, counts[n - 1]),
        )
    }
}

} // verus!
