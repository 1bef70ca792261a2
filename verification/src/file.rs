//! A file as the list of the authors of its lines, with line-by-line
//! patches and a running count of lines per author.

use crate::author::AuthorStat;
use vstd::prelude::*;

verus! {

/// One edit of a line-by-line patch: the 0-based line in the old file
/// and in the new file. Both given: the line changes; only the new one:
/// a line is inserted; only the old one: the line is removed.
pub struct LineEdit {
    pub old_line: Option<usize>,
    pub new_line: Option<usize>,
}

/// The number of lines of author `a`.
pub open spec fn occurrences(lines: Seq<u16>, a: int) -> int
    decreases lines.len(),
{
    if lines.len() == 0 {
        0
    } else {
        occurrences(lines.drop_last(), a) + (if lines.last() == a {
            1int
        } else {
            0int
        })
    }
}

/// The count that the statistics hold for author `a`.
pub open spec fn tally(counts: Seq<usize>, a: int) -> int {
    if 0 <= a < counts.len() {
        counts[a] as int
    } else {
        0
    }
}

/// The lines `from..to` of the old file, as far as it has them.
pub open spec fn chunk(lines: Seq<u16>, from: int, to: int) -> Seq<u16> {
    let a = if from < lines.len() {
        from
    } else {
        lines.len() as int
    };
    let b = if to < lines.len() {
        to
    } else {
        lines.len() as int
    };
    if 0 <= a <= b {
        lines.subrange(a, b)
    } else {
        Seq::empty()
    }
}

/// The new file from the edit `k` on, the old file read up to `old_pos`
/// and the new file written up to `new_pos`: before each edit the lines
/// up to the edit's place are kept; a changed or inserted line is of
/// `author`; and after the last edit the rest of the old file is kept.
pub open spec fn updated_from(
    lines: Seq<u16>,
    author: u16,
    patch: Seq<LineEdit>,
    k: int,
    old_pos: int,
    new_pos: int,
) -> Seq<u16>
    decreases patch.len() - k,
{
    if k < 0 || k >= patch.len() {
        chunk(lines, old_pos, lines.len() as int)
    } else {
        match (patch[k].old_line, patch[k].new_line) {
            (Some(o), Some(_)) => chunk(lines, old_pos, o as int).push(author) + updated_from(
                lines,
                author,
                patch,
                k + 1,
                o + 1,
                new_pos + (o - old_pos) + 1,
            ),
            (None, Some(n)) => chunk(lines, old_pos, old_pos + (n - new_pos)).push(author)
                + updated_from(lines, author, patch, k + 1, old_pos + (n - new_pos), n + 1),
            (Some(o), None) => chunk(lines, old_pos, o as int) + updated_from(
                lines,
                author,
                patch,
                k + 1,
                o + 1,
                new_pos + (o - old_pos),
            ),
            (None, None) => updated_from(lines, author, patch, k + 1, old_pos, new_pos),
        }
    }
}

/// Whether the edits from `k` on fit: each lies at or behind the place
/// that the edits before it have reached, and no place outgrows a machine
/// word.
pub open spec fn fits_from(patch: Seq<LineEdit>, k: int, old_pos: int, new_pos: int) -> bool
    decreases patch.len() - k,
{
    if k < 0 || k >= patch.len() {
        true
    } else {
        match (patch[k].old_line, patch[k].new_line) {
            (Some(o), Some(_)) => old_pos <= o && o + 1 <= usize::MAX && new_pos + (o - old_pos)
                + 1 <= usize::MAX && fits_from(
                patch,
                k + 1,
                o + 1,
                new_pos + (o - old_pos) + 1,
            ),
            (None, Some(n)) => new_pos <= n && n + 1 <= usize::MAX && old_pos + (n - new_pos)
                <= usize::MAX && fits_from(patch, k + 1, old_pos + (n - new_pos), n + 1),
            (Some(o), None) => old_pos <= o && o + 1 <= usize::MAX && new_pos + (o - old_pos)
                <= usize::MAX && fits_from(patch, k + 1, o + 1, new_pos + (o - old_pos)),
            (None, None) => fits_from(patch, k + 1, old_pos, new_pos),
        }
    }
}

/// The file after the patch.
pub open spec fn updated(lines: Seq<u16>, author: u16, patch: Seq<LineEdit>) -> Seq<u16> {
    updated_from(lines, author, patch, 0, 0, 0)
}

/// Whether the patch fits a file.
pub open spec fn fits(patch: Seq<LineEdit>) -> bool {
    fits_from(patch, 0, 0, 0)
}

/// One more than the largest author among the lines; 0 without lines.
pub open spec fn span(lines: Seq<u16>) -> int
    decreases lines.len(),
{
    if lines.len() == 0 {
        0
    } else {
        let rest = span(lines.drop_last());
        if lines.last() + 1 > rest {
            lines.last() + 1
        } else {
            rest
        }
    }
}

/// The number of lines of each author, up to the largest author among
/// the lines.
pub open spec fn line_counts(lines: Seq<u16>) -> Seq<usize> {
    Seq::new(span(lines) as nat, |a: int| occurrences(lines, a) as usize)
}

/// Whether each count can grow by the count at its place in `more`.
pub open spec fn can_plus(counts: Seq<usize>, more: Seq<usize>) -> bool {
    forall|a: int| 0 <= a < more.len() ==> tally(counts, a) + (#[trigger] more[a]) <= usize::MAX
}

/// Whether each count is at least the count at its place in `less`.
pub open spec fn can_minus(counts: Seq<usize>, less: Seq<usize>) -> bool {
    forall|a: int| 0 <= a < less.len() ==> tally(counts, a) >= #[trigger] less[a]
}

/// The counts, each grown by the count at its place in `more`.
pub open spec fn counts_plus(counts: Seq<usize>, more: Seq<usize>) -> Seq<usize> {
    Seq::new(
        if counts.len() > more.len() {
            counts.len()
        } else {
            more.len()
        },
        |a: int| (tally(counts, a) + tally(more, a)) as usize,
    )
}

/// The counts, each less by the count at its place in `less`.
pub open spec fn counts_minus(counts: Seq<usize>, less: Seq<usize>) -> Seq<usize> {
    Seq::new(counts.len(), |a: int| (tally(counts, a) - tally(less, a)) as usize)
}

/// The statistics can count the given lines more: no count outgrows a
/// machine word.
pub open spec fn can_add(counts: Seq<usize>, lines: Seq<u16>) -> bool {
    can_plus(counts, line_counts(lines))
}

/// The statistics can count the given lines less: no count drops below
/// zero.
pub open spec fn can_take(counts: Seq<usize>, lines: Seq<u16>) -> bool {
    can_minus(counts, line_counts(lines))
}

/// The statistics with the given lines counted more.
pub open spec fn added(counts: Seq<usize>, lines: Seq<u16>) -> Seq<usize> {
    counts_plus(counts, line_counts(lines))
}

/// The statistics with the given lines counted less.
pub open spec fn taken(counts: Seq<usize>, lines: Seq<u16>) -> Seq<usize> {
    counts_minus(counts, line_counts(lines))
}

/// Whether a file's flag can be set to `flag` under the statistics: a
/// file that starts to count needs room for its lines, one that stops
/// needs them to be held.
pub open spec fn flag_feasible(counts: Seq<usize>, lines: Seq<u16>, counted: bool, flag: bool) -> bool {
    if !counted && flag {
        can_add(counts, lines)
    } else if counted && !flag {
        can_take(counts, lines)
    } else {
        true
    }
}

/// The statistics after a file's flag is set to `flag`.
pub open spec fn with_flag(counts: Seq<usize>, lines: Seq<u16>, counted: bool, flag: bool) -> Seq<
    usize,
> {
    if !counted && flag {
        added(counts, lines)
    } else if counted && !flag {
        taken(counts, lines)
    } else {
        counts
    }
}

/// Whether a patch can be applied to a file under the statistics: the
/// patch fits, and if the file counts, the statistics hold its lines and
/// have room for the new ones.
pub open spec fn update_feasible(
    counts: Seq<usize>,
    lines: Seq<u16>,
    counted: bool,
    author: u16,
    patch: Seq<LineEdit>,
) -> bool {
    fits(patch) && (counted ==> can_take(counts, lines) && can_add(
        taken(counts, lines),
        updated(lines, author, patch),
    ))
}

/// The statistics after a patch is applied to a file: if the file counts,
/// they lose its old lines and gain its new ones.
pub open spec fn with_update(
    counts: Seq<usize>,
    lines: Seq<u16>,
    counted: bool,
    author: u16,
    patch: Seq<LineEdit>,
) -> Seq<usize> {
    if counted {
        added(taken(counts, lines), updated(lines, author, patch))
    } else {
        counts
    }
}

/// Lines and span of a part of a file are no more than those of the whole, and
/// one line more counts for its author.
pub proof fn lemma_occurrences(lines: Seq<u16>, i: int, a: int)
    requires
        0 <= i <= lines.len(),
    ensures
        0 <= occurrences(lines.take(i), a) <= occurrences(lines, a),
        occurrences(lines, a) <= lines.len(),
        0 <= span(lines.take(i)) <= span(lines),
        i < lines.len() ==> occurrences(lines.take(i + 1), a) == occurrences(lines.take(i), a) + (
        if lines[i] == a {
            1int
        } else {
            0int
        }),
        i < lines.len() ==> span(lines.take(i + 1)) == (if lines[i] + 1 > span(lines.take(i)) {
            lines[i] + 1
        } else {
            span(lines.take(i))
        }),
        !(0 <= a < span(lines)) ==> occurrences(lines, a) == 0,
    decreases lines.len() - i,
{
    lemma_occurrences_base(lines.take(i), a);
    lemma_occurrences_base(lines, a);
    if i < lines.len() {
        assert(lines.take(i + 1).drop_last() =~= lines.take(i));
        lemma_occurrences(lines, i + 1, a);
    } else {
        assert(lines.take(i) =~= lines);
    }
}

/// An author has no more lines than the file, and none beyond the span.
pub proof fn lemma_occurrences_base(lines: Seq<u16>, a: int)
    ensures
        0 <= occurrences(lines, a) <= lines.len(),
        0 <= span(lines) <= u16::MAX + 1,
        !(0 <= a < span(lines)) ==> occurrences(lines, a) == 0,
    decreases lines.len(),
{
    if lines.len() > 0 {
        lemma_occurrences_base(lines.drop_last(), a);
    }
}

/// The count of an author after lines are counted more, or less, is the
/// count before with the author's lines added, or taken away.
pub proof fn lemma_counts(counts: Seq<usize>, lines: Seq<u16>, a: int)
    requires
        lines.len() <= usize::MAX,
    ensures
        tally(line_counts(lines), a) == occurrences(lines, a),
        can_add(counts, lines) ==> tally(added(counts, lines), a) == tally(counts, a)
            + occurrences(lines, a),
        can_take(counts, lines) ==> tally(taken(counts, lines), a) == tally(counts, a)
            - occurrences(lines, a),
        can_add(counts, lines) ==> tally(counts, a) + occurrences(lines, a) <= usize::MAX,
        can_take(counts, lines) ==> tally(counts, a) >= occurrences(lines, a),
{
    lemma_occurrences_base(lines, a);
    let more = line_counts(lines);
    if 0 <= a < more.len() {
        assert(more[a] == occurrences(lines, a));
    }
}

/// The number of lines of each author.
fn line_tally(lines: &[u16]) -> (r: Vec<usize>)
    ensures
        r@ == line_counts(lines@),
{
    let mut out: Vec<usize> = Vec::new();
    let mut i: usize = 0;
    assert(lines@.take(0) =~= Seq::<u16>::empty());
    assert(out@ =~= line_counts(lines@.take(0)));
    while i < lines.len()
        invariant
            i <= lines@.len(),
            out@ == line_counts(lines@.take(i as int)),
        decreases lines.len() - i,
    {
        let author = lines[i] as usize;
        let ghost before = out@;
        while out.len() <= author
            invariant
                out@.len() >= before.len(),
                out@.len() <= author + 1 || out@.len() == before.len(),
                forall|a: int| 0 <= a < before.len() ==> out@[a] == before[a],
                forall|a: int| before.len() <= a < out@.len() ==> out@[a] == 0,
            decreases author + 1 - out.len(),
        {
            out.push(0);
        }
        let ghost grown = out@;
        proof {
            lemma_occurrences(lines@, i as int, author as int);
            lemma_occurrences_base(lines@.take(i as int), author as int);
            if author < before.len() {
                assert(grown[author as int] == before[author as int]);
                assert(before[author as int] == occurrences(
                    lines@.take(i as int),
                    author as int,
                ) as usize);
            } else {
                assert(grown[author as int] == 0);
            }
        }
        let count = out[author];
        out[author] = count + 1;
        proof {
            let next = line_counts(lines@.take(i + 1));
            assert(out@.len() == next.len());
            assert forall|a: int| 0 <= a < out@.len() implies out@[a] == next[a] by {
                lemma_occurrences(lines@, i as int, a);
                lemma_occurrences_base(lines@.take(i as int), a);
                if a != author {
                    assert(out@[a] == grown[a]);
                }
                if a < before.len() {
                    assert(grown[a] == before[a]);
                }
            }
            assert(out@ =~= next);
        }
        i += 1;
    }
    assert(lines@.take(i as int) =~= lines@);
    out
}

impl AuthorStat {
    /// Whether every count can grow by the given count.
    fn has_room(&self, more: &Vec<usize>) -> (r: bool)
        ensures
            r == can_plus(self.0@, more@),
    {
        let mut a: usize = 0;
        while a < more.len()
            invariant
                a <= more@.len(),
                forall|b: int| 0 <= b < a ==> tally(self.0@, b) + (#[trigger] more@[b]) <= usize::MAX,
            decreases more.len() - a,
        {
            let have = if a < self.0.len() {
                self.0[a]
            } else {
                0
            };
            if more[a] > usize::MAX - have {
                assert(tally(self.0@, a as int) + more@[a as int] > usize::MAX);
                return false;
            }
            a += 1;
        }
        true
    }

    /// Whether every count is at least the given count.
    fn holds(&self, less: &Vec<usize>) -> (r: bool)
        ensures
            r == can_minus(self.0@, less@),
    {
        let mut a: usize = 0;
        while a < less.len()
            invariant
                a <= less@.len(),
                forall|b: int| 0 <= b < a ==> tally(self.0@, b) >= #[trigger] less@[b],
            decreases less.len() - a,
        {
            let have = if a < self.0.len() {
                self.0[a]
            } else {
                0
            };
            if less[a] > have {
                assert(tally(self.0@, a as int) < less@[a as int]);
                return false;
            }
            a += 1;
        }
        true
    }

    /// Counts the given lines more.
    fn add_all(&mut self, more: &Vec<usize>)
        requires
            can_plus(old(self).0@, more@),
        ensures
            final(self).0@ == counts_plus(old(self).0@, more@),
    {
        let ghost before = self.0@;
        while self.0.len() < more.len()
            invariant
                self.0@.len() >= before.len(),
                self.0@.len() <= more@.len() || self.0@.len() == before.len(),
                forall|a: int| 0 <= a < before.len() ==> self.0@[a] == before[a],
                forall|a: int| before.len() <= a < self.0@.len() ==> self.0@[a] == 0,
            decreases more.len() - self.0.len(),
        {
            self.0.push(0);
        }
        let ghost grown = self.0@;
        let mut a: usize = 0;
        while a < more.len()
            invariant
                a <= more@.len(),
                self.0@.len() == grown.len(),
                grown.len() >= more@.len(),
                can_plus(before, more@),
                forall|b: int| 0 <= b < grown.len() ==> grown[b] == tally(before, b),
                forall|b: int| 0 <= b < a ==> self.0@[b] == grown[b] + more@[b],
                forall|b: int| a <= b < grown.len() ==> self.0@[b] == grown[b],
            decreases more.len() - a,
        {
            assert(tally(before, a as int) + more@[a as int] <= usize::MAX);
            let have = self.0[a];
            self.0[a] = have + more[a];
            a += 1;
        }
        assert(self.0@ =~= counts_plus(before, more@));
    }

    /// Counts the given lines less.
    fn take_all(&mut self, less: &Vec<usize>)
        requires
            can_minus(old(self).0@, less@),
        ensures
            final(self).0@ == counts_minus(old(self).0@, less@),
    {
        let ghost before = self.0@;
        let mut a: usize = 0;
        while a < less.len() && a < self.0.len()
            invariant
                a <= less@.len(),
                a <= before.len(),
                self.0@.len() == before.len(),
                can_minus(before, less@),
                forall|b: int| 0 <= b < a ==> self.0@[b] == before[b] - less@[b],
                forall|b: int| a <= b < before.len() ==> self.0@[b] == before[b],
            decreases less.len() - a,
        {
            assert(tally(before, a as int) >= less@[a as int]);
            let have = self.0[a];
            self.0[a] = have - less[a];
            a += 1;
        }
        assert(self.0@ =~= counts_minus(before, less@));
    }
}

/// A file: the author of each of its lines, and whether its lines count
/// in the statistics.
pub struct RepoFile {
    author: Vec<u16>,
    tracking: bool,
}

impl RepoFile {
    /// The authors of the lines, in order.
    pub closed spec fn lines(&self) -> Seq<u16> {
        self.author@
    }

    /// Whether the lines count in the statistics.
    pub closed spec fn counted(&self) -> bool {
        self.tracking
    }

    /// The authors of the lines, in order.
    pub fn iter(&self) -> (r: &[u16])
        ensures
            r@ == self.lines(),
    {
        self.author.as_slice()
    }

    /// Whether the lines count in the statistics.
    pub fn is_tracking(&self) -> (r: bool)
        ensures
            r == self.counted(),
    {
        self.tracking
    }

    /// A file without lines.
    pub fn empty(tracking: bool) -> (r: RepoFile)
        ensures
            r.lines() == Seq::<u16>::empty(),
            r.counted() == tracking,
    {
        RepoFile { author: Vec::new(), tracking }
    }

    /// Sets whether the lines count. Given statistics, a file that
    /// starts to count adds its lines to them, and one that stops takes
    /// them away. Says by `false`, and changes nothing, if the statistics
    /// cannot take that.
    pub fn set_tracking_flag(&mut self, flag: bool, stat: Option<&mut AuthorStat>) -> (done: bool)
        ensures
            final(self).lines() == old(self).lines(),
            final(self).counted() == (if done {
                flag
            } else {
                old(self).counted()
            }),
            match stat {
                Some(s) => {
                    &&& done == flag_feasible(s.0@, old(self).lines(), old(self).counted(), flag)
                    &&& final(s).0@ == (if done {
                        with_flag(s.0@, old(self).lines(), old(self).counted(), flag)
                    } else {
                        s.0@
                    })
                },
                None => done,
            },
    {
        match stat {
            Some(s) => {
                if self.tracking != flag {
                    let counts = line_tally(self.author.as_slice());
                    if flag {
                        if !s.has_room(&counts) {
                            return false;
                        }
                        s.add_all(&counts);
                    } else {
                        if !s.holds(&counts) {
                            return false;
                        }
                        s.take_all(&counts);
                    }
                }
            },
            None => {},
        }
        self.tracking = flag;
        true
    }

    /// Applies a line-by-line patch: the lines between the edits are
    /// kept, a changed or inserted line is of `author`, a removed line is
    /// gone. If the lines count, the statistics follow: they lose the old
    /// lines and gain the new ones. Says by `false`, and changes nothing,
    /// if the patch does not fit or the statistics cannot follow.
    pub fn update(&mut self, author: u16, patch: &[LineEdit], stat: &mut AuthorStat) -> (done: bool)
        ensures
            final(self).counted() == old(self).counted(),
            done == update_feasible(
                old(stat).0@,
                old(self).lines(),
                old(self).counted(),
                author,
                patch@,
            ),
            final(self).lines() == (if done {
                updated(old(self).lines(), author, patch@)
            } else {
                old(self).lines()
            }),
            final(stat).0@ == (if done {
                with_update(old(stat).0@, old(self).lines(), old(self).counted(), author, patch@)
            } else {
                old(stat).0@
            }),
    {
        if !patch_fits(patch) {
            return false;
        }
        let ghost lines = self.author@;
        let mut out: Vec<u16> = Vec::new();
        let mut old_pos: usize = 0;
        let mut new_pos: usize = 0;
        let mut k: usize = 0;
        proof {
            assert(out@ + updated_from(lines, author, patch@, 0, 0, 0) =~= updated(
                lines,
                author,
                patch@,
            ));
        }
        while k < patch.len()
            invariant
                k <= patch@.len(),
                lines == self.author@,
                fits_from(patch@, k as int, old_pos as int, new_pos as int),
                updated(lines, author, patch@) == out@ + updated_from(
                    lines,
                    author,
                    patch@,
                    k as int,
                    old_pos as int,
                    new_pos as int,
                ),
            decreases patch.len() - k,
        {
            match (patch[k].old_line, patch[k].new_line) {
                (Some(o), Some(_)) => {
                    copy_chunk(self.author.as_slice(), old_pos, o, &mut out);
                    out.push(author);
                    new_pos = new_pos + (o - old_pos) + 1;
                    old_pos = o + 1;
                },
                (None, Some(n)) => {
                    let to = old_pos + (n - new_pos);
                    copy_chunk(self.author.as_slice(), old_pos, to, &mut out);
                    out.push(author);
                    old_pos = to;
                    new_pos = n + 1;
                },
                (Some(o), None) => {
                    copy_chunk(self.author.as_slice(), old_pos, o, &mut out);
                    new_pos = new_pos + (o - old_pos);
                    old_pos = o + 1;
                },
                (None, None) => {},
            }
            proof {
                let tail = updated_from(
                    lines,
                    author,
                    patch@,
                    k + 1,
                    old_pos as int,
                    new_pos as int,
                );
                assert(updated(lines, author, patch@) =~= out@ + tail);
            }
            k += 1;
        }
        let n = self.author.len();
        copy_chunk(self.author.as_slice(), old_pos, n, &mut out);
        assert(out@ == updated(lines, author, patch@));
        if self.tracking {
            let old_counts = line_tally(self.author.as_slice());
            let new_counts = line_tally(out.as_slice());
            if !stat.holds(&old_counts) {
                return false;
            }
            let mut work = stat.duplicate();
            work.take_all(&old_counts);
            if !work.has_room(&new_counts) {
                return false;
            }
            work.add_all(&new_counts);
            *stat = work;
        }
        self.author = out;
        true
    }
}

impl Clone for RepoFile {
    /// A copy with the same lines and the same flag.
    fn clone(&self) -> (r: RepoFile)
        ensures
            r.lines() == self.lines(),
            r.counted() == self.counted(),
    {
        let author = self.author.clone();
        assert(author@ =~= self.author@);
        RepoFile { author, tracking: self.tracking }
    }
}

/// Appends the lines `from..to` of a file, as far as it has them.
fn copy_chunk(lines: &[u16], from: usize, to: usize, out: &mut Vec<u16>)
    ensures
        final(out)@ == old(out)@ + chunk(lines@, from as int, to as int),
{
    let n = lines.len();
    let start = if from < n {
        from
    } else {
        n
    };
    let end = if to < n {
        to
    } else {
        n
    };
    let ghost before = out@;
    if start > end {
        assert(before + Seq::<u16>::empty() =~= before);
        return;
    }
    let mut i: usize = start;
    assert(before + lines@.subrange(start as int, start as int) =~= before);
    while i < end
        invariant
            start <= i <= end,
            end <= lines@.len(),
            out@ == before + lines@.subrange(start as int, i as int),
        decreases end - i,
    {
        out.push(lines[i]);
        assert(out@ =~= before + lines@.subrange(start as int, i + 1));
        i += 1;
    }
}

/// Whether a patch fits a file: each edit lies at or behind the place that
/// the edits before it have reached.
pub fn patch_fits(patch: &[LineEdit]) -> (r: bool)
    ensures
        r == fits(patch@),
{
    let mut old_pos: usize = 0;
    let mut new_pos: usize = 0;
    let mut k: usize = 0;
    while k < patch.len()
        invariant
            k <= patch@.len(),
            fits(patch@) == fits_from(patch@, k as int, old_pos as int, new_pos as int),
        decreases patch.len() - k,
    {
        match (patch[k].old_line, patch[k].new_line) {
            (Some(o), Some(_)) => {
                if o < old_pos || o == usize::MAX {
                    return false;
                }
                let skip = o - old_pos;
                if new_pos > usize::MAX - skip || new_pos + skip == usize::MAX {
                    return false;
                }
                new_pos = new_pos + skip + 1;
                old_pos = o + 1;
            },
            (None, Some(n)) => {
                if n < new_pos || n == usize::MAX {
                    return false;
                }
                let skip = n - new_pos;
                if old_pos > usize::MAX - skip {
                    return false;
                }
                old_pos = old_pos + skip;
                new_pos = n + 1;
            },
            (Some(o), None) => {
                if o < old_pos || o == usize::MAX {
                    return false;
                }
                let skip = o - old_pos;
                if new_pos > usize::MAX - skip {
                    return false;
                }
                new_pos = new_pos + skip;
                old_pos = o + 1;
            },
            (None, None) => {},
        }
        k += 1;
    }
    true
}

} // verus!
