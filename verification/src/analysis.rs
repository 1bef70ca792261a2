//! The tree of a commit, from the trees of its parents and its diffs
//! against them.

use crate::blocks::{lemma_compressed, total_lines, Addition, LineBlock};
use crate::merge::{ints, merge_file_patch, merge_input, merged_additions, tree_blocks, MergeInput};
use crate::order::{opt_str_view, path_less, path_lt, path_same};
use crate::overlay::{apply_author_diff_to_file, overlaid, overlay_raw};
use crate::patch::{FilePatch, LinePatch, TreePatch};
use crate::replay::{lemma_replayed, replay_ops, replayed};
use crate::touched::{get_patch_filename_list, pair_views, touched_files, PathPair, PathPairView};
use crate::tree::{map_wf, Tree};
use vstd::prelude::*;

verus! {

/// The tree after the file at `old` has moved to `new`: a renamed file
/// leaves `old` and takes to `new` the blocks that `base` holds at `old`
/// (none if it holds none there); a file that stays keeps its blocks, or
/// starts without blocks if the tree lacks it; a created file starts
/// without blocks; a deleted file leaves the tree.
pub open spec fn relocated(
    ret: Map<Seq<char>, Seq<LineBlock>>,
    base: Map<Seq<char>, Seq<LineBlock>>,
    old: Option<Seq<char>>,
    new: Option<Seq<char>>,
) -> Map<Seq<char>, Seq<LineBlock>> {
    match (old, new) {
        (Some(o), Some(n)) => if o != n {
            ret.remove(o).insert(
                n,
                if base.contains_key(o) {
                    base[o]
                } else {
                    Seq::empty()
                },
            )
        } else if ret.contains_key(n) {
            ret
        } else {
            ret.insert(n, Seq::empty())
        },
        (None, Some(n)) => ret.insert(n, Seq::empty()),
        (Some(o), None) => ret.remove(o),
        (None, None) => ret,
    }
}

/// The first position from `pos` on whose file does not sort before the
/// path `new`.
pub open spec fn seek(files: Seq<FilePatch>, pos: int, new: Option<Seq<char>>) -> int
    decreases files.len() - pos,
{
    if 0 <= pos < files.len() && path_lt(files[pos]@.new_path, new) {
        seek(files, pos + 1, new)
    } else {
        pos
    }
}

/// Whether the walk through `files`, standing at `pos`, finds a file of
/// the new path `new`.
pub open spec fn finds(files: Seq<FilePatch>, pos: int, new: Option<Seq<char>>) -> bool {
    0 <= seek(files, pos, new) < files.len() && files[seek(files, pos, new)]@.new_path == new
}

/// The edits of the file that the walk finds, if it finds one.
pub open spec fn pick(files: Seq<FilePatch>, pos: int, new: Option<Seq<char>>) -> Option<
    Seq<LinePatch>,
> {
    if finds(files, pos, new) {
        Some(files[seek(files, pos, new)].patch@)
    } else {
        None
    }
}

/// Where the walk stands afterwards: behind the file it found, or at the
/// first file that sorts after `new`.
pub open spec fn after_pick(files: Seq<FilePatch>, pos: int, new: Option<Seq<char>>) -> int {
    if finds(files, pos, new) {
        seek(files, pos, new) + 1
    } else {
        seek(files, pos, new)
    }
}

/// For each diff, the edits of its file of the new path `new`.
pub open spec fn picks(patches: Seq<TreePatch>, pos: Seq<int>, new: Option<Seq<char>>) -> Seq<
    Option<Seq<LinePatch>>,
> {
    Seq::new(patches.len(), |k: int| pick(patches[k].files@, pos[k], new))
}

/// For each diff, where its walk stands afterwards.
pub open spec fn after_picks(patches: Seq<TreePatch>, pos: Seq<int>, new: Option<Seq<char>>) -> Seq<
    int,
> {
    Seq::new(patches.len(), |k: int| after_pick(patches[k].files@, pos[k], new))
}

/// For each diff, the author that stands in for lines of the parent side.
pub open spec fn related_authors(patches: Seq<TreePatch>) -> Seq<u32> {
    Seq::new(patches.len(), |k: int| patches[k].base_author())
}

/// What the additions of the file at `old` are computed from.
pub open spec fn file_merge_input(
    parents: Seq<Map<Seq<char>, Seq<LineBlock>>>,
    sel: Seq<Option<Seq<LinePatch>>>,
    authors: Seq<u32>,
    merger: u32,
    old: Option<Seq<char>>,
) -> MergeInput {
    MergeInput {
        ops: Seq::new(
            sel.len(),
            |k: int|
                match sel[k] {
                    Some(ops) => ops,
                    None => Seq::empty(),
                },
        ),
        trees: Seq::new(
            parents.len(),
            |k: int|
                match old {
                    Some(o) => if parents[k].contains_key(o) {
                        Some(parents[k][o])
                    } else {
                        None
                    },
                    None => None,
                },
        ),
        authors,
        merger,
    }
}

/// The tree after the first parent's edits of one file are replayed:
/// where the first parent's diff has the file, the file moves from `old`
/// to `new` and its blocks follow the edits. A deleted file leaves the
/// tree whether the first parent's diff has it or not. `None` if the
/// replay leaves the range of line counts.
pub open spec fn base_step(
    ret: Map<Seq<char>, Seq<LineBlock>>,
    base: Map<Seq<char>, Seq<LineBlock>>,
    first: Option<Seq<LinePatch>>,
    merger: u32,
    pair: PathPairView,
) -> Option<Map<Seq<char>, Seq<LineBlock>>> {
    match first {
        Some(ops) => {
            let moved = relocated(ret, base, pair.old, pair.new);
            match pair.new {
                Some(n) => match replayed(moved[n], ops, merger) {
                    Some(b) => Some(moved.insert(n, b)),
                    None => None,
                },
                None => Some(moved),
            }
        },
        None => match pair.new {
            Some(_) => Some(ret),
            None => Some(relocated(ret, base, pair.old, pair.new)),
        },
    }
}

/// The tree after the additions of one file are applied to the file at
/// its new path; a file that the tree lacks there starts without blocks.
/// A deleted file takes no additions. `None` if the result would count
/// more lines than a line number can.
pub open spec fn overlay_step(
    staged: Map<Seq<char>, Seq<LineBlock>>,
    adds: Seq<Addition>,
    new: Option<Seq<char>>,
) -> Option<Map<Seq<char>, Seq<LineBlock>>> {
    match new {
        None => Some(staged),
        Some(n) => {
            let base = if staged.contains_key(n) {
                staged[n]
            } else {
                Seq::empty()
            };
            if total_lines(overlay_raw(base, adds)) <= u32::MAX {
                Some(staged.insert(n, overlaid(base, adds)))
            } else {
                None
            }
        },
    }
}

/// The tree after one touched file is dealt with.
pub open spec fn file_step(
    ret: Map<Seq<char>, Seq<LineBlock>>,
    parents: Seq<Map<Seq<char>, Seq<LineBlock>>>,
    sel: Seq<Option<Seq<LinePatch>>>,
    authors: Seq<u32>,
    merger: u32,
    pair: PathPairView,
) -> Option<Map<Seq<char>, Seq<LineBlock>>> {
    match base_step(ret, parents[0], sel[0], merger, pair) {
        None => None,
        Some(staged) => overlay_step(
            staged,
            merged_additions(file_merge_input(parents, sel, authors, merger, pair.old)),
            pair.new,
        ),
    }
}

/// The tree after the touched files from `i` on are dealt with, each
/// diff's walk through its files standing at `pos`.
pub open spec fn analyze_from(
    ret: Map<Seq<char>, Seq<LineBlock>>,
    parents: Seq<Map<Seq<char>, Seq<LineBlock>>>,
    patches: Seq<TreePatch>,
    merger: u32,
    files: Seq<PathPairView>,
    i: int,
    pos: Seq<int>,
) -> Option<Map<Seq<char>, Seq<LineBlock>>>
    decreases files.len() - i,
{
    if 0 <= i < files.len() {
        let sel = picks(patches, pos, files[i].new);
        match file_step(ret, parents, sel, related_authors(patches), merger, files[i]) {
            None => None,
            Some(next) => analyze_from(
                next,
                parents,
                patches,
                merger,
                files,
                i + 1,
                after_picks(patches, pos, files[i].new),
            ),
        }
    } else {
        Some(ret)
    }
}

/// The tree of a commit by `merger` whose diff against `parents[k]` is
/// `patches[k]`: the first parent's tree, with every touched file dealt
/// with in turn. `None` if there is no parent, if parents and diffs differ
/// in number, or if a line count leaves its range.
pub open spec fn analyzed(
    parents: Seq<Map<Seq<char>, Seq<LineBlock>>>,
    patches: Seq<TreePatch>,
    merger: u32,
) -> Option<Map<Seq<char>, Seq<LineBlock>>> {
    if parents.len() == 0 || parents.len() != patches.len() {
        None
    } else {
        analyze_from(
            parents[0],
            parents,
            patches,
            merger,
            touched_files(patches),
            0,
            Seq::new(patches.len(), |k: int| 0int),
        )
    }
}

/// The maps of a list of trees.
pub open spec fn tree_maps(trees: Seq<&Tree>) -> Seq<Map<Seq<char>, Seq<LineBlock>>> {
    Seq::new(trees.len(), |k: int| trees[k]@)
}

/// For each diff, the author that stands in for lines of the parent side:
/// the parent's author, or the commit's own where there is no parent.
pub fn get_related_authors(patches: &[TreePatch]) -> (r: Vec<u32>)
    ensures
        r@ == related_authors(patches@),
{
    let mut out: Vec<u32> = Vec::new();
    let mut k: usize = 0;
    while k < patches.len()
        invariant
            k <= patches.len(),
            out@.len() == k,
            forall|j: int| 0 <= j < k ==> out@[j] == (#[trigger] patches@[j]).base_author(),
        decreases patches.len() - k,
    {
        let author = match patches[k].old_author {
            Some(a) => a,
            None => patches[k].new_author,
        };
        out.push(author);
        k += 1;
    }
    assert(out@ =~= related_authors(patches@));
    out
}

impl Tree {
    /// Moves the file at `from` to `to`, taking a renamed file's blocks
    /// from `other`.
    pub fn copy_from_old_tree(&mut self, other: &Tree, from: Option<&str>, to: Option<&str>)
        requires
            old(self).wf(),
            other.wf(),
        ensures
            final(self).wf(),
            final(self)@ == relocated(old(self)@, other@, opt_str_view(from), opt_str_view(to)),
    {
        match (from, to) {
            (Some(o), Some(n)) => {
                if !crate::order::str_same(o, n) {
                    self.remove(o);
                    match other.get_shared(o) {
                        Some(blocks) => self.store_shared(n, blocks),
                        None => self.store(n, Vec::new()),
                    }
                } else if !self.contains(n) {
                    self.store(n, Vec::new());
                }
            },
            (None, Some(n)) => {
                self.store(n, Vec::new());
            },
            (Some(o), None) => {
                self.remove(o);
            },
            (None, None) => {},
        }
    }
}

/// The edits of a file patch, if there is one.
pub open spec fn opt_ops(p: Option<&FilePatch>) -> Option<Seq<LinePatch>> {
    match p {
        Some(fp) => Some(fp.patch@),
        None => None,
    }
}

/// Every walk stands within its diff's files.
pub open spec fn walks_ok(patches: Seq<TreePatch>, pos: Seq<usize>) -> bool {
    &&& pos.len() == patches.len()
    &&& forall|k: int| 0 <= k < pos.len() ==> (#[trigger] pos[k]) <= patches[k].files@.len()
}

/// Lets each diff's walk look for its file of the new path `new`.
fn select_patches<'a>(patch: &'a [TreePatch], pos: &mut Vec<usize>, new: Option<&str>) -> (r: Vec<
    Option<&'a FilePatch>,
>)
    requires
        walks_ok(patch@, old(pos)@),
    ensures
        r@.len() == patch@.len(),
        forall|k: int|
            0 <= k < r@.len() ==> opt_ops(#[trigger] r@[k]) == picks(
                patch@,
                ints(old(pos)@),
                opt_str_view(new),
            )[k],
        ints(final(pos)@) == after_picks(patch@, ints(old(pos)@), opt_str_view(new)),
        walks_ok(patch@, final(pos)@),
{
    let n = patch.len();
    let ghost pos0 = pos@;
    let ghost target = opt_str_view(new);
    let mut out: Vec<Option<&'a FilePatch>> = Vec::new();
    let mut k: usize = 0;
    while k < n
        invariant
            k <= n,
            n == patch.len(),
            pos.len() == n,
            pos0.len() == n,
            out@.len() == k,
            target == opt_str_view(new),
            forall|j: int| 0 <= j < n ==> (#[trigger] pos@[j]) <= patch@[j].files@.len(),
            forall|j: int| k <= j < n ==> pos@[j] == pos0[j],
            forall|j: int|
                0 <= j < k ==> pos@[j] == after_pick(patch@[j].files@, pos0[j] as int, target),
            forall|j: int|
                0 <= j < k ==> opt_ops(#[trigger] out@[j]) == pick(
                    patch@[j].files@,
                    pos0[j] as int,
                    target,
                ),
        decreases n - k,
    {
        let files = patch[k].files();
        let mut p: usize = pos[k];
        let ghost start = p as int;
        while p < files.len() && path_less(files[p].new_path(), new)
            invariant
                p <= files.len(),
                target == opt_str_view(new),
                seek(files@, start, target) == seek(files@, p as int, target),
            decreases files.len() - p,
        {
            p += 1;
        }
        if p < files.len() && path_same(files[p].new_path(), new) {
            out.push(Some(&files[p]));
            p += 1;
        } else {
            out.push(None);
        }
        pos[k] = p;
        k += 1;
    }
    assert(ints(pos@) =~= after_picks(patch@, ints(pos0), target));
    assert forall|j: int| 0 <= j < out@.len() implies opt_ops(#[trigger] out@[j]) == picks(
        patch@,
        ints(pos0),
        target,
    )[j] by {
        assert(ints(pos0)[j] == pos0[j]);
    }
    out
}

/// The blocks that each parent holds at the old path of a file.
fn old_blocks<'a>(trees: &[&'a Tree], from: Option<&str>) -> (r: Vec<Option<&'a [LineBlock]>>)
    requires
        forall|k: int| 0 <= k < trees@.len() ==> (#[trigger] trees@[k]).wf(),
    ensures
        r@.len() == trees@.len(),
        forall|k: int|
            0 <= k < r@.len() ==> (#[trigger] r@[k] matches Some(t) ==> total_lines(t@) <= u32::MAX),
        tree_blocks(r@) == Seq::new(
            trees@.len(),
            |k: int|
                match opt_str_view(from) {
                    Some(o) => if tree_maps(trees@)[k].contains_key(o) {
                        Some(tree_maps(trees@)[k][o])
                    } else {
                        None
                    },
                    None => None,
                },
        ),
{
    let mut out: Vec<Option<&'a [LineBlock]>> = Vec::new();
    let mut k: usize = 0;
    while k < trees.len()
        invariant
            k <= trees.len(),
            out@.len() == k,
            forall|j: int| 0 <= j < trees@.len() ==> (#[trigger] trees@[j]).wf(),
            forall|j: int|
                0 <= j < k ==> (#[trigger] out@[j] matches Some(t) ==> total_lines(t@) <= u32::MAX),
            forall|j: int|
                0 <= j < k ==> tree_blocks(out@)[j] == (match opt_str_view(from) {
                    Some(o) => if trees@[j]@.contains_key(o) {
                        Some(trees@[j]@[o])
                    } else {
                        None
                    },
                    None => None,
                }),
        decreases trees.len() - k,
    {
        let found: Option<&'a [LineBlock]> = match from {
            Some(o) => {
                let tree: &'a Tree = trees[k];
                tree.get(o)
            },
            None => None,
        };
        let ghost prev = out@;
        out.push(found);
        proof {
            assert forall|j: int| 0 <= j < k + 1 implies tree_blocks(out@)[j] == (match opt_str_view(
                from,
            ) {
                Some(o) => if trees@[j]@.contains_key(o) {
                    Some(trees@[j]@[o])
                } else {
                    None
                },
                None => None,
            }) by {
                if j < k {
                    assert(tree_blocks(prev)[j] == tree_blocks(out@)[j]);
                }
            }
        }
        k += 1;
    }
    assert(tree_blocks(out@) =~= Seq::new(
        trees@.len(),
        |k: int|
            match opt_str_view(from) {
                Some(o) => if tree_maps(trees@)[k].contains_key(o) {
                    Some(tree_maps(trees@)[k][o])
                } else {
                    None
                },
                None => None,
            },
    ));
    out
}

/// Replays the first parent's edits of one file, where its diff has the
/// file, and takes a deleted file out of the tree. Says by `false` that
/// the replay left the range of line counts.
fn replay_base(
    ret: &mut Tree,
    parent: &Tree,
    first: Option<&FilePatch>,
    merger: u32,
    pair: &PathPair,
) -> (done: bool)
    requires
        old(ret).wf(),
        parent.wf(),
    ensures
        final(ret).wf(),
        match base_step(old(ret)@, parent@, opt_ops(first), merger, pair@) {
            Some(m) => done && final(ret)@ == m,
            None => !done,
        },
{
    match first {
        Some(fp) => {
            ret.copy_from_old_tree(parent, pair.old, pair.new);
            match pair.new {
                Some(n) => {
                    let replay = match ret.get(n) {
                        Some(b) => {
                            proof {
                                lemma_replayed(b@, fp.patch@, merger);
                            }
                            replay_ops(b, fp.patch.as_slice(), merger)
                        },
                        None => None,
                    };
                    match replay {
                        Some(blocks) => {
                            ret.store(n, blocks);
                            true
                        },
                        None => false,
                    }
                },
                None => true,
            }
        },
        None => {
            if pair.new.is_none() {
                ret.copy_from_old_tree(parent, pair.old, pair.new);
            }
            true
        },
    }
}

/// Applies the additions of one file to the file at its new path. Says by
/// `false` that the result would count more lines than a line number can.
fn overlay_file(ret: &mut Tree, adds: &[Addition], to: Option<&str>) -> (done: bool)
    requires
        old(ret).wf(),
    ensures
        final(ret).wf(),
        match overlay_step(old(ret)@, adds@, opt_str_view(to)) {
            Some(m) => done && final(ret)@ == m,
            None => !done,
        },
{
    match to {
        None => true,
        Some(n) => {
            let ghost base = if ret@.contains_key(n@) {
                ret@[n@]
            } else {
                Seq::empty()
            };
            let applied = match ret.get(n) {
                Some(b) => apply_author_diff_to_file(b, adds),
                None => {
                    let none: Vec<LineBlock> = Vec::new();
                    apply_author_diff_to_file(none.as_slice(), adds)
                },
            };
            match applied {
                Some(blocks) => {
                    proof {
                        lemma_compressed(overlay_raw(base, adds@));
                    }
                    ret.store(n, blocks);
                    true
                },
                None => false,
            }
        },
    }
}

impl Tree {
    /// Computes the tree of a commit by `merger` from the trees of its
    /// parents and its diffs against them, `patch[k]` being the diff
    /// against `trees[k]`. Each file that a diff touches is dealt with in
    /// turn: the first parent's edits are replayed over the first parent's
    /// blocks, then every line that the commit adds goes to its author.
    /// Gives `None` if there is no parent, if trees and diffs differ in
    /// number, or if a line count leaves its range on the way.
    pub fn try_analyze_patch(trees: &[&Tree], patch: &[TreePatch], merger: u32) -> (r: Option<Tree>)
        requires
            forall|k: int| 0 <= k < trees@.len() ==> (#[trigger] trees@[k]).wf(),
        ensures
            match r {
                Some(t) => t.wf() && map_wf(t@) && analyzed(tree_maps(trees@), patch@, merger)
                    == Some(t@),
                None => analyzed(tree_maps(trees@), patch@, merger) is None,
            },
    {
        if trees.len() == 0 || trees.len() != patch.len() {
            return None;
        }
        let n = patch.len();
        let files = get_patch_filename_list(patch);
        let authors = get_related_authors(patch);
        let mut pos: Vec<usize> = vec![0usize; n];
        let mut ret: Tree = trees[0].clone();
        let ghost parents = tree_maps(trees@);
        let mut i: usize = 0;
        assert(ints(pos@) =~= Seq::new(patch@.len(), |k: int| 0int));
        while i < files.len()
            invariant
                i <= files.len(),
                n == patch.len(),
                trees.len() == n,
                n > 0,
                parents == tree_maps(trees@),
                forall|k: int| 0 <= k < trees@.len() ==> (#[trigger] trees@[k]).wf(),
                pair_views(files@) == touched_files(patch@),
                authors@ == related_authors(patch@),
                walks_ok(patch@, pos@),
                ret.wf(),
                analyzed(parents, patch@, merger) == analyze_from(
                    ret@,
                    parents,
                    patch@,
                    merger,
                    pair_views(files@),
                    i as int,
                    ints(pos@),
                ),
            decreases files.len() - i,
        {
            let pair = files[i];
            assert(pair_views(files@)[i as int] == pair@);
            let ghost pos0 = ints(pos@);
            let ghost sel = picks(patch@, pos0, pair@.new);
            let file_patch = select_patches(patch, &mut pos, pair.new);
            assert(opt_ops(file_patch@[0]) == sel[0]);
            if !replay_base(&mut ret, trees[0], file_patch[0], merger, &pair) {
                return None;
            }
            let old_files = old_blocks(trees, pair.old);
            let merged = merge_file_patch(
                authors.as_slice(),
                file_patch.as_slice(),
                old_files.as_slice(),
                merger,
            );
            proof {
                let mine = merge_input(authors@, file_patch@, old_files@, merger);
                let theirs = file_merge_input(parents, sel, authors@, merger, pair@.old);
                assert(mine.ops =~= theirs.ops) by {
                    assert forall|k: int| 0 <= k < mine.ops.len() implies mine.ops[k]
                        == theirs.ops[k] by {
                        assert(opt_ops(file_patch@[k]) == sel[k]);
                    }
                }
                assert(mine.trees =~= theirs.trees);
                assert(mine == theirs);
            }
            if !overlay_file(&mut ret, merged.as_slice(), pair.new) {
                return None;
            }
            i += 1;
        }
        proof {
            ret.lemma_wf();
        }
        Some(ret)
    }

    /// Computes the tree of a commit by `merger` from the trees of its
    /// parents and its diffs against them, for inputs on which no line
    /// count leaves its range.
    pub fn analyze_patch(trees: &[&Tree], patch: &[TreePatch], merger: u32) -> (r: Tree)
        requires
            forall|k: int| 0 <= k < trees@.len() ==> (#[trigger] trees@[k]).wf(),
            analyzed(tree_maps(trees@), patch@, merger) is Some,
        ensures
            r.wf(),
            map_wf(r@),
            analyzed(tree_maps(trees@), patch@, merger) == Some(r@),
    {
        Tree::try_analyze_patch(trees, patch, merger).unwrap()
    }
}

} // verus!
