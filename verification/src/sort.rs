//! Stable sorting by a path key.

use crate::order::{
    lemma_path_le_transitive, lemma_path_lt_irreflexive, lemma_path_lt_total, path_le, path_lt,
};
use vstd::prelude::*;

verus! {

/// A value that is sorted by an optional path.
pub trait SpecKeyed {
    /// The path that the value is sorted by.
    spec fn path_key(&self) -> Option<Seq<char>>;
}

/// A value whose sort key can be compared when the program runs.
pub trait PathKeyed: SpecKeyed + Sized {
    /// Whether `self` sorts strictly before `other`.
    fn key_precedes(&self, other: &Self) -> (r: bool)
        ensures
            r == path_lt(self.path_key(), other.path_key()),
    ;
}

/// `x` put into `s` behind every element that does not sort after it.
pub open spec fn stable_insert<T: SpecKeyed>(s: Seq<T>, x: T) -> Seq<T>
    decreases s.len(),
{
    if s.len() > 0 && path_lt(x.path_key(), s.last().path_key()) {
        stable_insert(s.drop_last(), x).push(s.last())
    } else {
        s.push(x)
    }
}

/// The elements of `s` in the order of their keys, elements of one key in
/// the order they had.
pub open spec fn stable_sorted<T: SpecKeyed>(s: Seq<T>) -> Seq<T>
    decreases s.len(),
{
    if s.len() == 0 {
        s
    } else {
        stable_insert(stable_sorted(s.drop_last()), s.last())
    }
}

/// No element sorts before an earlier one.
pub open spec fn sorted_by_key<T: SpecKeyed>(s: Seq<T>) -> bool {
    forall|i: int, j: int|
        0 <= i <= j < s.len() ==> path_le((#[trigger] s[i]).path_key(), (#[trigger] s[j]).path_key())
}

/// Where `stable_insert` puts `x`: everything from `j` on sorts after `x`,
/// and the element before `j`, if any, does not.
pub proof fn lemma_stable_insert_at<T: SpecKeyed>(s: Seq<T>, x: T, j: int)
    requires
        0 <= j <= s.len(),
        forall|t: int| j <= t < s.len() ==> path_lt(x.path_key(), (#[trigger] s[t]).path_key()),
        j > 0 ==> !path_lt(x.path_key(), s[j - 1].path_key()),
    ensures
        stable_insert(s, x) == s.take(j).push(x) + s.skip(j),
    decreases s.len(),
{
    if j == s.len() {
        assert(s.take(j) =~= s);
        assert(s.take(j).push(x) + s.skip(j) =~= s.push(x));
    } else {
        assert(path_lt(x.path_key(), s[s.len() - 1].path_key()));
        let rest = s.drop_last();
        assert(forall|t: int| j <= t < rest.len() ==> rest[t] == s[t]);
        lemma_stable_insert_at(rest, x, j);
        assert((rest.take(j).push(x) + rest.skip(j)).push(s.last()) =~= s.take(j).push(x) + s.skip(
            j,
        ));
    }
}

/// Inserting keeps a sorted sequence sorted, and adds one element.
pub proof fn lemma_stable_insert_sorted<T: SpecKeyed>(s: Seq<T>, x: T)
    requires
        sorted_by_key(s),
    ensures
        sorted_by_key(stable_insert(s, x)),
        stable_insert(s, x).len() == s.len() + 1,
        stable_insert(s, x).to_multiset() == s.to_multiset().insert(x),
    decreases s.len(),
{
    broadcast use vstd::seq_lib::group_to_multiset_ensures;

    if s.len() > 0 && path_lt(x.path_key(), s.last().path_key()) {
        let rest = s.drop_last();
        assert(forall|t: int| 0 <= t < rest.len() ==> rest[t] == s[t]);
        lemma_stable_insert_sorted(rest, x);
        let ins = stable_insert(rest, x);
        let r = ins.push(s.last());
        assert(rest.push(s.last()) =~= s);
        assert forall|i: int, j: int| 0 <= i <= j < r.len() implies path_le(
            (#[trigger] r[i]).path_key(),
            (#[trigger] r[j]).path_key(),
        ) by {
            if j < ins.len() {
                assert(path_le(ins[i].path_key(), ins[j].path_key()));
            } else if i < ins.len() {
                // every element of `ins` is `x` or an element of `rest`
                assert(ins.to_multiset().count(ins[i]) > 0);
                if ins[i] == x {
                    lemma_path_lt_total(x.path_key(), s.last().path_key());
                    lemma_path_lt_irreflexive(x.path_key());
                    if path_lt(s.last().path_key(), x.path_key()) {
                        lemma_asymmetric(x.path_key(), s.last().path_key());
                    }
                } else {
                    assert(rest.to_multiset().count(ins[i]) > 0);
                    let t = choose|t: int| 0 <= t < rest.len() && rest[t] == ins[i];
                    assert(path_le(s[t].path_key(), s[s.len() - 1].path_key()));
                }
            } else {
                lemma_path_lt_irreflexive(r[i].path_key());
            }
        }
    } else {
        let r = s.push(x);
        assert forall|i: int, j: int| 0 <= i <= j < r.len() implies path_le(
            (#[trigger] r[i]).path_key(),
            (#[trigger] r[j]).path_key(),
        ) by {
            if j < s.len() {
                assert(path_le(s[i].path_key(), s[j].path_key()));
            } else if i < s.len() {
                assert(path_le(s[i].path_key(), s[s.len() - 1].path_key()));
                lemma_path_le_transitive(s[i].path_key(), s.last().path_key(), x.path_key());
            } else {
                lemma_path_lt_irreflexive(x.path_key());
            }
        }
    }
}

proof fn lemma_asymmetric(a: Option<Seq<char>>, b: Option<Seq<char>>)
    requires
        path_lt(a, b),
    ensures
        !path_lt(b, a),
{
    if path_lt(b, a) {
        crate::order::lemma_path_lt_transitive(a, b, a);
        lemma_path_lt_irreflexive(a);
    }
}

/// A stable sort gives the same elements, in the order of their keys.
pub proof fn lemma_stable_sorted<T: SpecKeyed>(s: Seq<T>)
    ensures
        sorted_by_key(stable_sorted(s)),
        stable_sorted(s).len() == s.len(),
        stable_sorted(s).to_multiset() == s.to_multiset(),
    decreases s.len(),
{
    broadcast use vstd::seq_lib::group_to_multiset_ensures;

    if s.len() > 0 {
        lemma_stable_sorted(s.drop_last());
        lemma_stable_insert_sorted(stable_sorted(s.drop_last()), s.last());
        assert(s.drop_last().push(s.last()) =~= s);
    }
}

/// A sequence that is sorted already is left as it is.
pub proof fn lemma_stable_sorted_of_sorted<T: SpecKeyed>(s: Seq<T>)
    requires
        sorted_by_key(s),
    ensures
        stable_sorted(s) == s,
    decreases s.len(),
{
    if s.len() > 0 {
        let rest = s.drop_last();
        assert(forall|t: int| 0 <= t < rest.len() ==> rest[t] == s[t]);
        lemma_stable_sorted_of_sorted(rest);
        if rest.len() > 0 {
            assert(path_le(s[rest.len() - 1].path_key(), s[s.len() - 1].path_key()));
        }
        assert(rest.push(s.last()) =~= s);
    }
}

/// Sorts `v` by key; elements of one key keep their order.
pub fn stable_sort<T: PathKeyed>(v: &mut Vec<T>)
    ensures
        final(v)@ == stable_sorted(old(v)@),
{
    let ghost orig = v@;
    let n = v.len();
    let mut i: usize = 0;
    assert(orig.take(0) =~= Seq::<T>::empty());
    assert(stable_sorted(orig.take(0)) + orig.skip(0) =~= orig);
    while i < n
        invariant
            i <= n,
            n == orig.len(),
            v@ == stable_sorted(orig.take(i as int)) + orig.skip(i as int),
            stable_sorted(orig.take(i as int)).len() == i,
        decreases n - i,
    {
        let ghost done = stable_sorted(orig.take(i as int));
        let ghost before = v@;
        let x = v.remove(i);
        assert(x == orig[i as int]);
        assert(v@ =~= done + orig.skip(i + 1));
        let mut j: usize = i;
        while j > 0 && x.key_precedes(&v[j - 1])
            invariant
                j <= i,
                i < n,
                n == orig.len(),
                v@ == done + orig.skip(i + 1),
                done.len() == i,
                forall|t: int| j <= t < i ==> path_lt(x.path_key(), (#[trigger] done[t]).path_key()),
            decreases j,
        {
            j -= 1;
        }
        v.insert(j, x);
        proof {
            lemma_stable_insert_at(done, x, j as int);
            assert(orig.take(i + 1).drop_last() =~= orig.take(i as int));
            assert(orig.take(i + 1).last() == x);
            assert(v@ =~= stable_sorted(orig.take(i + 1)) + orig.skip(i + 1));
        }
        i += 1;
    }
    assert(orig.take(n as int) =~= orig);
    assert(stable_sorted(orig) + orig.skip(n as int) =~= stable_sorted(orig));
}

/// Sorting commutes with a change of representation that keeps the keys.
pub proof fn lemma_stable_insert_map<T: SpecKeyed, U: SpecKeyed>(s: Seq<T>, x: T, f: spec_fn(T) -> U)
    requires
        forall|t: T| (#[trigger] f(t)).path_key() == t.path_key(),
    ensures
        stable_insert(s.map_values(f), f(x)) == stable_insert(s, x).map_values(f),
    decreases s.len(),
{
    if s.len() > 0 && path_lt(x.path_key(), s.last().path_key()) {
        lemma_stable_insert_map(s.drop_last(), x, f);
        assert(s.map_values(f).drop_last() =~= s.drop_last().map_values(f));
        assert(stable_insert(s.drop_last(), x).push(s.last()).map_values(f) =~= stable_insert(
            s.drop_last(),
            x,
        ).map_values(f).push(f(s.last())));
    } else {
        assert(s.push(x).map_values(f) =~= s.map_values(f).push(f(x)));
    }
}

/// Sorting commutes with a change of representation that keeps the keys.
pub proof fn lemma_stable_sorted_map<T: SpecKeyed, U: SpecKeyed>(s: Seq<T>, f: spec_fn(T) -> U)
    requires
        forall|t: T| (#[trigger] f(t)).path_key() == t.path_key(),
    ensures
        stable_sorted(s.map_values(f)) == stable_sorted(s).map_values(f),
    decreases s.len(),
{
    if s.len() == 0 {
        assert(s.map_values(f) =~= stable_sorted(s).map_values(f));
    } else {
        lemma_stable_sorted_map(s.drop_last(), f);
        assert(s.map_values(f).drop_last() =~= s.drop_last().map_values(f));
        lemma_stable_insert_map(stable_sorted(s.drop_last()), s.last(), f);
    }
}

} // verus!
