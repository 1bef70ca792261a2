//! The files that a commit touches: the pairs of old and new path in the
//! diffs against all parents, sorted by new path, one pair for each new
//! path and one for each deleted file.

use crate::order::{
    lemma_path_lt_irreflexive, lemma_path_lt_total, opt_str_view, path_le, path_less, path_lt,
    path_same,
};
use crate::patch::{FilePatch, TreePatch};
use crate::sort::{
    lemma_stable_sorted, lemma_stable_sorted_map, sorted_by_key, stable_insert, stable_sort,
    stable_sorted, PathKeyed, SpecKeyed,
};
use vstd::prelude::*;

verus! {

/// The path of a file before and after a change.
#[derive(Debug, Clone, Copy)]
pub struct PathPair<'a> {
    pub old: Option<&'a str>,
    pub new: Option<&'a str>,
}

/// The characters of a pair of paths.
pub struct PathPairView {
    pub old: Option<Seq<char>>,
    pub new: Option<Seq<char>>,
}

impl<'a> View for PathPair<'a> {
    type V = PathPairView;

    open spec fn view(&self) -> PathPairView {
        PathPairView { old: opt_str_view(self.old), new: opt_str_view(self.new) }
    }
}

impl SpecKeyed for PathPairView {
    open spec fn path_key(&self) -> Option<Seq<char>> {
        self.new
    }
}

impl<'a> SpecKeyed for PathPair<'a> {
    open spec fn path_key(&self) -> Option<Seq<char>> {
        self@.new
    }
}

impl<'a> PathKeyed for PathPair<'a> {
    fn key_precedes(&self, other: &Self) -> (r: bool) {
        path_less(self.new, other.new)
    }
}

/// The characters of each pair.
pub open spec fn pair_views(s: Seq<PathPair<'_>>) -> Seq<PathPairView> {
    s.map_values(|p: PathPair| p@)
}

/// The path pairs of the files of one diff, in the diff's order.
pub open spec fn pairs_of(files: Seq<FilePatch>) -> Seq<PathPairView> {
    files.map_values(|f: FilePatch| PathPairView { old: f@.old_path, new: f@.new_path })
}

/// The path pairs of all diffs, one diff after the other.
pub open spec fn all_pairs(patches: Seq<TreePatch>) -> Seq<PathPairView>
    decreases patches.len(),
{
    if patches.len() == 0 {
        Seq::empty()
    } else {
        all_pairs(patches.drop_last()) + pairs_of(patches.last().files@)
    }
}

/// Whether `acc` holds the file of `x` already. A file that the commit
/// has is known by its new path: the pair kept last has it. A deleted
/// file is known by its old path: some pair kept is the same.
pub open spec fn repeats(acc: Seq<PathPairView>, x: PathPairView) -> bool {
    match x.new {
        Some(_) => acc.len() > 0 && acc.last().new == x.new,
        None => acc.contains(x),
    }
}

/// Appends `x` unless `acc` holds its file already.
pub open spec fn dedup_push(acc: Seq<PathPairView>, x: PathPairView) -> Seq<PathPairView> {
    if repeats(acc, x) {
        acc
    } else {
        acc.push(x)
    }
}

/// The pairs of `s` in their order, each file once: of the pairs of one
/// file the first is kept.
pub open spec fn deduped(s: Seq<PathPairView>) -> Seq<PathPairView>
    decreases s.len(),
{
    if s.len() == 0 {
        s
    } else {
        dedup_push(deduped(s.drop_last()), s.last())
    }
}

/// The files that the diffs touch: all their path pairs, sorted by new
/// path (pairs of one new path stay in the order of the diffs), each
/// file once. Where the diffs give a new path several old paths, the
/// first diff that has the file decides; each deleted file stands once.
pub open spec fn touched_files(patches: Seq<TreePatch>) -> Seq<PathPairView> {
    deduped(stable_sorted(all_pairs(patches)))
}

/// Diffs without files touch nothing.
pub proof fn lemma_touched_nothing(patches: Seq<TreePatch>)
    requires
        forall|k: int| 0 <= k < patches.len() ==> (#[trigger] patches[k]).files@.len() == 0,
    ensures
        all_pairs(patches) == Seq::<PathPairView>::empty(),
        touched_files(patches) == Seq::<PathPairView>::empty(),
    decreases patches.len(),
{
    if patches.len() > 0 {
        assert(forall|k: int|
            0 <= k < patches.len() - 1 ==> patches.drop_last()[k] == patches[k]);
        lemma_touched_nothing(patches.drop_last());
        assert(patches[patches.len() - 1].files@.len() == 0);
        assert(all_pairs(patches) =~= Seq::<PathPairView>::empty());
    }
}

/// Whether two pairs stand for one file: a file that the commit has is
/// known by its new path, a deleted file by its old path.
pub open spec fn same_file(a: PathPairView, b: PathPairView) -> bool {
    a.new == b.new && (a.new is None ==> a.old == b.old)
}

/// The first pair of `s` that stands for the file of `x`.
pub open spec fn first_of(s: Seq<PathPairView>, x: PathPairView) -> Option<PathPairView>
    decreases s.len(),
{
    if s.len() == 0 {
        None
    } else {
        match first_of(s.drop_last(), x) {
            Some(y) => Some(y),
            None => if same_file(s.last(), x) {
                Some(s.last())
            } else {
                None
            },
        }
    }
}

/// The first pair of a file is a pair of the sequence and stands for that
/// file; there is none only if no pair stands for it.
pub proof fn lemma_first_of(s: Seq<PathPairView>, x: PathPairView)
    ensures
        first_of(s, x) matches Some(y) ==> s.contains(y) && same_file(y, x),
        first_of(s, x) is None ==> forall|i: int| 0 <= i < s.len() ==> !same_file(#[trigger] s[i], x),
    decreases s.len(),
{
    if s.len() > 0 {
        let rest = s.drop_last();
        lemma_first_of(rest, x);
        match first_of(rest, x) {
            Some(y) => {
                let t = choose|t: int| 0 <= t < rest.len() && rest[t] == y;
                assert(s[t] == y);
            },
            None => {
                if same_file(s.last(), x) {
                    assert(s[s.len() - 1] == s.last());
                } else {
                    assert forall|i: int| 0 <= i < s.len() implies !same_file(#[trigger] s[i], x) by {
                        if i < rest.len() {
                            assert(rest[i] == s[i]);
                        }
                    }
                }
            },
        }
    }
}

/// Putting a pair at its place in the order leaves the first pair of
/// every file what it is when the pair is put at the end.
pub proof fn lemma_insert_first(s: Seq<PathPairView>, y: PathPairView, x: PathPairView)
    ensures
        first_of(stable_insert(s, y), x) == first_of(s.push(y), x),
    decreases s.len(),
{
    assert(s.push(y).drop_last() =~= s);
    if s.len() > 0 && path_lt(y.path_key(), s.last().path_key()) {
        let rest = s.drop_last();
        let l = s.last();
        lemma_insert_first(rest, y, x);
        let ins = stable_insert(rest, y);
        assert(stable_insert(s, y) == ins.push(l));
        assert(ins.push(l).drop_last() =~= ins);
        assert(rest.push(y).drop_last() =~= rest);
        let before = first_of(rest, x);
        assert(first_of(rest.push(y), x) == (match before {
            Some(f) => Some(f),
            None => if same_file(y, x) {
                Some(y)
            } else {
                None
            },
        }));
        assert(first_of(ins.push(l), x) == (match first_of(ins, x) {
            Some(f) => Some(f),
            None => if same_file(l, x) {
                Some(l)
            } else {
                None
            },
        }));
        assert(first_of(s, x) == (match before {
            Some(f) => Some(f),
            None => if same_file(l, x) {
                Some(l)
            } else {
                None
            },
        }));
        assert(first_of(s.push(y), x) == (match first_of(s, x) {
            Some(f) => Some(f),
            None => if same_file(y, x) {
                Some(y)
            } else {
                None
            },
        }));
        if same_file(y, x) && same_file(l, x) {
            lemma_path_lt_irreflexive(y.new);
        }
    }
}

/// Sorting by new path leaves the first pair of every file what it is.
pub proof fn lemma_sorted_first(s: Seq<PathPairView>, x: PathPairView)
    ensures
        first_of(stable_sorted(s), x) == first_of(s, x),
    decreases s.len(),
{
    if s.len() > 0 {
        let rest = s.drop_last();
        lemma_sorted_first(rest, x);
        lemma_insert_first(stable_sorted(rest), s.last(), x);
        assert(stable_sorted(rest).push(s.last()).drop_last() =~= stable_sorted(rest));
    }
}

/// Of sorted pairs, `deduped` keeps for every file its first pair and no
/// other, in their order.
pub proof fn lemma_deduped(s: Seq<PathPairView>)
    requires
        sorted_by_key(s),
    ensures
        sorted_by_key(deduped(s)),
        forall|i: int| 0 <= i < deduped(s).len() ==> s.contains(#[trigger] deduped(s)[i]),
        forall|i: int, j: int|
            0 <= i < j < deduped(s).len() ==> !same_file(
                #[trigger] deduped(s)[i],
                #[trigger] deduped(s)[j],
            ),
        forall|x: PathPairView| #[trigger] first_of(deduped(s), x) == first_of(s, x),
    decreases s.len(),
{
    if s.len() > 0 {
        let rest = s.drop_last();
        let l = s.last();
        assert(forall|t: int| 0 <= t < rest.len() ==> rest[t] == s[t]);
        lemma_deduped(rest);
        let acc = deduped(rest);
        let out = deduped(s);
        assert(s[s.len() - 1] == l);
        assert forall|i: int| 0 <= i < acc.len() implies s.contains(#[trigger] acc[i]) && path_le(
            acc[i].new,
            l.new,
        ) by {
            let t = choose|t: int| 0 <= t < rest.len() && rest[t] == acc[i];
            assert(s[t] == acc[i]);
            assert(path_le(s[t].path_key(), s[s.len() - 1].path_key()));
        }
        if repeats(acc, l) {
            let e = if l.new is Some {
                acc.last()
            } else {
                l
            };
            assert(acc.contains(e) && same_file(e, l)) by {
                if l.new is Some {
                    assert(acc[acc.len() - 1] == e);
                }
            }
            let at = choose|t: int| 0 <= t < acc.len() && acc[t] == e;
            assert forall|x: PathPairView| #[trigger] first_of(out, x) == first_of(s, x) by {
                assert(first_of(acc, x) == first_of(rest, x));
                if first_of(rest, x) is None && same_file(l, x) {
                    lemma_first_of(acc, x);
                    assert(same_file(acc[at], x));
                }
            }
        } else {
            assert(out == acc.push(l));
            assert(out.drop_last() =~= acc);
            assert forall|i: int| 0 <= i < acc.len() implies !same_file(#[trigger] acc[i], l) by {
                if same_file(acc[i], l) {
                    if l.new is Some {
                        let last = acc[acc.len() - 1];
                        assert(path_le(acc[i].path_key(), last.path_key()));
                        assert(path_le(last.new, l.new));
                        lemma_path_lt_total(last.new, l.new);
                        assert(last.new == l.new);
                    } else {
                        assert(acc[i] == l);
                    }
                }
            }
            assert forall|i: int, j: int| 0 <= i <= j < out.len() implies path_le(
                (#[trigger] out[i]).path_key(),
                (#[trigger] out[j]).path_key(),
            ) by {
                if j < acc.len() {
                    assert(path_le(acc[i].path_key(), acc[j].path_key()));
                } else if i < acc.len() {
                    assert(path_le(acc[i].new, l.new));
                } else {
                    lemma_path_lt_irreflexive(l.new);
                }
            }
            assert forall|i: int| 0 <= i < out.len() implies s.contains(#[trigger] out[i]) by {
                if i < acc.len() {
                    assert(out[i] == acc[i]);
                }
            }
            assert forall|i: int, j: int| 0 <= i < j < out.len() implies !same_file(
                #[trigger] out[i],
                #[trigger] out[j],
            ) by {
                if j < acc.len() {
                    assert(!same_file(acc[i], acc[j]));
                } else {
                    assert(!same_file(acc[i], l));
                }
            }
            assert forall|x: PathPairView| #[trigger] first_of(out, x) == first_of(s, x) by {
                assert(first_of(acc, x) == first_of(rest, x));
            }
        }
    }
}

/// The files that the diffs touch stand in the order of their new paths,
/// files without new path last; every file of every diff stands there,
/// and none twice; and the pair of a file is the first that the diffs
/// have for it, taken in the order of the diffs: where they give a new
/// path several old paths, the first diff that has the file decides.
pub proof fn lemma_touched_files(patches: Seq<TreePatch>)
    ensures
        sorted_by_key(touched_files(patches)),
        forall|i: int, j: int|
            0 <= i < j < touched_files(patches).len() ==> !same_file(
                #[trigger] touched_files(patches)[i],
                #[trigger] touched_files(patches)[j],
            ),
        forall|i: int|
            0 <= i < touched_files(patches).len() ==> all_pairs(patches).contains(
                #[trigger] touched_files(patches)[i],
            ),
        forall|x: PathPairView|
            #[trigger] first_of(touched_files(patches), x) == first_of(all_pairs(patches), x),
        forall|x: PathPairView|
            (#[trigger] all_pairs(patches).contains(x)) ==> exists|i: int|
                0 <= i < touched_files(patches).len() && same_file(
                    #[trigger] touched_files(patches)[i],
                    x,
                ),
{
    broadcast use vstd::seq_lib::group_to_multiset_ensures;

    let all = all_pairs(patches);
    let sorted = stable_sorted(all);
    let out = touched_files(patches);
    lemma_stable_sorted(all);
    lemma_deduped(sorted);
    assert forall|i: int| 0 <= i < out.len() implies all.contains(#[trigger] out[i]) by {
        assert(sorted.contains(out[i]));
        assert(sorted.to_multiset().count(out[i]) > 0);
        assert(all.to_multiset().count(out[i]) > 0);
    }
    assert forall|x: PathPairView| #[trigger] first_of(out, x) == first_of(all, x) by {
        assert(first_of(deduped(sorted), x) == first_of(sorted, x));
        lemma_sorted_first(all, x);
    }
    assert forall|x: PathPairView| #[trigger] all.contains(x) implies exists|i: int|
        0 <= i < out.len() && same_file(#[trigger] out[i], x) by {
        let t = choose|t: int| 0 <= t < all.len() && all[t] == x;
        lemma_first_of(all, x);
        assert(same_file(all[t], x));
        assert(first_of(out, x) == first_of(all, x));
        lemma_first_of(out, x);
        let y = first_of(out, x).unwrap();
        let i = choose|i: int| 0 <= i < out.len() && out[i] == y;
        assert(same_file(out[i], x));
    }
}

fn same_pair(a: &PathPair, b: &PathPair) -> (r: bool)
    ensures
        r == (a@ == b@),
{
    path_same(a.new, b.new) && path_same(a.old, b.old)
}

fn holds_pair(kept: &Vec<PathPair>, pair: &PathPair) -> (r: bool)
    ensures
        r == pair_views(kept@).contains(pair@),
{
    let mut i: usize = 0;
    while i < kept.len()
        invariant
            i <= kept.len(),
            forall|j: int| 0 <= j < i ==> pair_views(kept@)[j] != pair@,
        decreases kept.len() - i,
    {
        if same_pair(&kept[i], pair) {
            assert(pair_views(kept@)[i as int] == pair@);
            return true;
        }
        i += 1;
    }
    false
}

/// Lists the files that the diffs touch.
pub fn get_patch_filename_list<'a>(patch: &'a [TreePatch]) -> (r: Vec<PathPair<'a>>)
    ensures
        pair_views(r@) == touched_files(patch@),
{
    let mut all: Vec<PathPair<'a>> = Vec::new();
    let mut i: usize = 0;
    assert(patch@.take(0) =~= Seq::<TreePatch>::empty());
    assert(pair_views(all@) =~= Seq::<PathPairView>::empty());
    while i < patch.len()
        invariant
            i <= patch.len(),
            pair_views(all@) == all_pairs(patch@.take(i as int)),
        decreases patch.len() - i,
    {
        let files = patch[i].files();
        let ghost before = pair_views(all@);
        let mut j: usize = 0;
        assert(pairs_of(files@.take(0)) =~= Seq::<PathPairView>::empty());
        assert(before + Seq::<PathPairView>::empty() =~= before);
        while j < files.len()
            invariant
                j <= files.len(),
                pair_views(all@) == before + pairs_of(files@.take(j as int)),
            decreases files.len() - j,
        {
            let pair = PathPair { old: files[j].old_path(), new: files[j].new_path() };
            let ghost prev = all@;
            all.push(pair);
            proof {
                assert(pair_views(all@) =~= pair_views(prev).push(pair@));
                let ghost view = PathPairView { old: files@[j as int]@.old_path, new: files@[j as int]@.new_path };
                assert(pair@ == view);
                assert(pairs_of(files@.take(j + 1)) =~= pairs_of(files@.take(j as int)).push(view));
                assert(pair_views(all@) =~= before + pairs_of(files@.take(j + 1)));
            }
            j += 1;
        }
        proof {
            assert(files@.take(j as int) =~= files@);
            assert(patch@.take(i + 1).drop_last() =~= patch@.take(i as int));
            assert(patch@.take(i + 1).last() == patch@[i as int]);
        }
        i += 1;
    }
    assert(patch@.take(i as int) =~= patch@);
    let ghost unsorted = all@;
    stable_sort(&mut all);
    proof {
        lemma_stable_sorted_map(unsorted, |p: PathPair| p@);
    }
    let mut out: Vec<PathPair<'a>> = Vec::new();
    let mut k: usize = 0;
    assert(pair_views(all@).take(0) =~= Seq::<PathPairView>::empty());
    assert(pair_views(out@) =~= Seq::<PathPairView>::empty());
    while k < all.len()
        invariant
            k <= all.len(),
            pair_views(out@) == deduped(pair_views(all@).take(k as int)),
        decreases all.len() - k,
    {
        let pair = all[k];
        let n = out.len();
        proof {
            assert(pair_views(all@).take(k + 1).drop_last() =~= pair_views(all@).take(k as int));
            assert(pair_views(all@).take(k + 1).last() == pair@);
            if n > 0 {
                assert(pair_views(out@).last() == out@[n - 1]@);
            }
        }
        let known = match pair.new {
            Some(_) => n > 0 && path_same(out[n - 1].new, pair.new),
            None => holds_pair(&out, &pair),
        };
        assert(known == repeats(pair_views(out@), pair@));
        if !known {
            let ghost prev = out@;
            out.push(pair);
            assert(pair_views(out@) =~= pair_views(prev).push(pair@));
            assert(pair_views(out@) =~= deduped(pair_views(all@).take(k as int)).push(pair@));
        }
        k += 1;
    }
    assert(pair_views(all@).take(k as int) =~= pair_views(all@));
    out
}

} // verus!
