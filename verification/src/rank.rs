//! Stable sorting by a number.

use vstd::prelude::*;

verus! {

/// A value that is sorted by a number, the smaller number first.
pub trait SpecScored {
    /// The number that the value is sorted by.
    spec fn score(&self) -> int;
}

/// A value whose number can be compared when the program runs.
pub trait Scored: SpecScored + Sized {
    /// Whether `self` sorts strictly before `other`.
    fn scores_below(&self, other: &Self) -> (r: bool)
        ensures
            r == (self.score() < other.score()),
    ;
}

/// `x` put into `s` behind every element that does not sort after it.
pub open spec fn score_insert<T: SpecScored>(s: Seq<T>, x: T) -> Seq<T>
    decreases s.len(),
{
    if s.len() > 0 && x.score() < s.last().score() {
        score_insert(s.drop_last(), x).push(s.last())
    } else {
        s.push(x)
    }
}

/// The elements of `s` in the order of their scores, elements of one
/// score in the order they had.
pub open spec fn score_sorted<T: SpecScored>(s: Seq<T>) -> Seq<T>
    decreases s.len(),
{
    if s.len() == 0 {
        s
    } else {
        score_insert(score_sorted(s.drop_last()), s.last())
    }
}

/// No element has a smaller score than an earlier one.
pub open spec fn scores_ascend<T: SpecScored>(s: Seq<T>) -> bool {
    forall|i: int, j: int|
        0 <= i <= j < s.len() ==> (#[trigger] s[i]).score() <= (#[trigger] s[j]).score()
}

/// Where `score_insert` puts `x`: everything from `j` on sorts after `x`,
/// and the element before `j`, if any, does not.
pub proof fn lemma_score_insert_at<T: SpecScored>(s: Seq<T>, x: T, j: int)
    requires
        0 <= j <= s.len(),
        forall|t: int| j <= t < s.len() ==> x.score() < (#[trigger] s[t]).score(),
        j > 0 ==> !(x.score() < s[j - 1].score()),
    ensures
        score_insert(s, x) == s.take(j).push(x) + s.skip(j),
    decreases s.len(),
{
    if j == s.len() {
        assert(s.take(j) =~= s);
        assert(s.take(j).push(x) + s.skip(j) =~= s.push(x));
    } else {
        assert(x.score() < s[s.len() - 1].score());
        let rest = s.drop_last();
        assert(forall|t: int| j <= t < rest.len() ==> rest[t] == s[t]);
        lemma_score_insert_at(rest, x, j);
        assert((rest.take(j).push(x) + rest.skip(j)).push(s.last()) =~= s.take(j).push(x) + s.skip(
            j,
        ));
    }
}

/// Inserting keeps an ascending sequence ascending, and adds one element.
pub proof fn lemma_score_insert<T: SpecScored>(s: Seq<T>, x: T)
    requires
        scores_ascend(s),
    ensures
        scores_ascend(score_insert(s, x)),
        score_insert(s, x).len() == s.len() + 1,
        score_insert(s, x).to_multiset() == s.to_multiset().insert(x),
    decreases s.len(),
{
    broadcast use vstd::seq_lib::group_to_multiset_ensures;

    if s.len() > 0 && x.score() < s.last().score() {
        let rest = s.drop_last();
        assert(forall|t: int| 0 <= t < rest.len() ==> rest[t] == s[t]);
        lemma_score_insert(rest, x);
        let ins = score_insert(rest, x);
        let r = ins.push(s.last());
        assert(rest.push(s.last()) =~= s);
        assert forall|i: int, j: int| 0 <= i <= j < r.len() implies (#[trigger] r[i]).score() <= (
        #[trigger] r[j]).score() by {
            if j < ins.len() {
                assert(ins[i].score() <= ins[j].score());
            } else if i < ins.len() {
                assert(ins.to_multiset().count(ins[i]) > 0);
                if ins[i] != x {
                    assert(rest.to_multiset().count(ins[i]) > 0);
                    let t = choose|t: int| 0 <= t < rest.len() && rest[t] == ins[i];
                    assert(s[t].score() <= s[s.len() - 1].score());
                }
            }
        }
    } else {
        let r = s.push(x);
        assert forall|i: int, j: int| 0 <= i <= j < r.len() implies (#[trigger] r[i]).score() <= (
        #[trigger] r[j]).score() by {
            if j < s.len() {
                assert(s[i].score() <= s[j].score());
            } else if i < s.len() {
                assert(s[i].score() <= s[s.len() - 1].score());
            }
        }
    }
}

/// A stable sort gives the same elements, in the order of their scores.
pub proof fn lemma_score_sorted<T: SpecScored>(s: Seq<T>)
    ensures
        scores_ascend(score_sorted(s)),
        score_sorted(s).len() == s.len(),
        score_sorted(s).to_multiset() == s.to_multiset(),
    decreases s.len(),
{
    broadcast use vstd::seq_lib::group_to_multiset_ensures;

    if s.len() > 0 {
        lemma_score_sorted(s.drop_last());
        lemma_score_insert(score_sorted(s.drop_last()), s.last());
        assert(s.drop_last().push(s.last()) =~= s);
    }
}

/// Sorts `v` by score; elements of one score keep their order.
pub fn sort_by_score<T: Scored>(v: &mut Vec<T>)
    ensures
        final(v)@ == score_sorted(old(v)@),
{
    let ghost orig = v@;
    let n = v.len();
    let mut i: usize = 0;
    assert(orig.take(0) =~= Seq::<T>::empty());
    assert(score_sorted(orig.take(0)) + orig.skip(0) =~= orig);
    proof {
        lemma_score_sorted(orig.take(0));
    }
    while i < n
        invariant
            i <= n,
            n == orig.len(),
            v@ == score_sorted(orig.take(i as int)) + orig.skip(i as int),
            score_sorted(orig.take(i as int)).len() == i,
        decreases n - i,
    {
        let ghost done = score_sorted(orig.take(i as int));
        let x = v.remove(i);
        assert(x == orig[i as int]);
        assert(v@ =~= done + orig.skip(i + 1));
        let mut j: usize = i;
        while j > 0 && x.scores_below(&v[j - 1])
            invariant
                j <= i,
                i < n,
                n == orig.len(),
                v@ == done + orig.skip(i + 1),
                done.len() == i,
                forall|t: int| j <= t < i ==> x.score() < (#[trigger] done[t]).score(),
            decreases j,
        {
            j -= 1;
        }
        v.insert(j, x);
        proof {
            lemma_score_insert_at(done, x, j as int);
            assert(orig.take(i + 1).drop_last() =~= orig.take(i as int));
            assert(orig.take(i + 1).last() == x);
            assert(v@ =~= score_sorted(orig.take(i + 1)) + orig.skip(i + 1));
            lemma_score_sorted(orig.take(i + 1));
        }
        i += 1;
    }
    assert(orig.take(n as int) =~= orig);
    assert(score_sorted(orig) + orig.skip(n as int) =~= score_sorted(orig));
}

/// Sorting commutes with a change of representation that keeps the
/// scores.
pub proof fn lemma_score_insert_map<T: SpecScored, U: SpecScored>(s: Seq<T>, x: T, f: spec_fn(T) -> U)
    requires
        forall|t: T| (#[trigger] f(t)).score() == t.score(),
    ensures
        score_insert(s.map_values(f), f(x)) == score_insert(s, x).map_values(f),
    decreases s.len(),
{
    if s.len() > 0 && x.score() < s.last().score() {
        lemma_score_insert_map(s.drop_last(), x, f);
        assert(s.map_values(f).drop_last() =~= s.drop_last().map_values(f));
        assert(score_insert(s.drop_last(), x).push(s.last()).map_values(f) =~= score_insert(
            s.drop_last(),
            x,
        ).map_values(f).push(f(s.last())));
    } else {
        assert(s.push(x).map_values(f) =~= s.map_values(f).push(f(x)));
    }
}

/// Sorting commutes with a change of representation that keeps the scores.
pub proof fn lemma_score_sorted_map<T: SpecScored, U: SpecScored>(s: Seq<T>, f: spec_fn(T) -> U)
    requires
        forall|t: T| (#[trigger] f(t)).score() == t.score(),
    ensures
        score_sorted(s.map_values(f)) == score_sorted(s).map_values(f),
    decreases s.len(),
{
    if s.len() == 0 {
        assert(s.map_values(f) =~= score_sorted(s).map_values(f));
    } else {
        lemma_score_sorted_map(s.drop_last(), f);
        assert(s.map_values(f).drop_last() =~= s.drop_last().map_values(f));
        lemma_score_insert_map(score_sorted(s.drop_last()), s.last(), f);
    }
}

} // verus!
