//! What holds of the tree that the analysis gives, whatever the inputs.

use crate::analysis::{
    after_picks, analyze_from, analyzed, base_step, file_merge_input, file_step, pick, picks,
    related_authors, relocated, seek,
};
use crate::blocks::{
    authors_below, authors_within, blocks_wf, compressed, lemma_compressed, lemma_total_nonneg,
    no_empty_block, normalized, total_lines, Addition, LineBlock,
};
use crate::merge::{
    advanced, cursors_ok, head_line, hit_ordinals, lemma_merge_from_within, lemma_merge_nothing,
    lemma_ordinal_sum_step, lemma_round_progress, lemma_skip_deletes, merge_from,
    merge_input_within, merged_additions, min_head, moved, ordinal_sum, skip_deletes, skipped,
    MergeInput,
};
use crate::order::{lemma_path_lt_irreflexive, path_lt};
use crate::overlay::{
    additions_ascend, lemma_overlaid_authors, lemma_overlaid_nothing, lemma_overlaid_total,
    overlay_block, overlay_from, overlay_raw,
};
use crate::patch::{FilePatch, LinePatch, TreePatch};
use crate::replay::{
    count_inserts, lemma_replayed, lemma_replayed_from_scratch, lemma_replayed_nothing,
};
use crate::sort::{stable_sorted, SpecKeyed};
use crate::touched::{
    all_pairs, deduped, lemma_touched_files, lemma_touched_nothing, pairs_of, touched_files,
    PathPairView,
};
use vstd::prelude::*;

verus! {

/// Every author of a block of the tree is below `bound`.
pub open spec fn tree_below(m: Map<Seq<char>, Seq<LineBlock>>, bound: int) -> bool {
    forall|p: Seq<char>| m.contains_key(p) ==> authors_below(#[trigger] m[p], bound)
}

/// Every author of a block of the tree is one of `allowed`.
pub open spec fn tree_within(m: Map<Seq<char>, Seq<LineBlock>>, allowed: Set<u32>) -> bool {
    forall|p: Seq<char>| m.contains_key(p) ==> authors_within(#[trigger] m[p], allowed)
}

/// The ids below `bound`.
pub open spec fn ids_below(bound: int) -> Set<u32> {
    Set::new(|a: u32| a < bound)
}

/// The authors that the analysis starts from: the commit's author, the
/// fallback author of each diff, and the author of every block of every
/// parent's tree.
pub open spec fn input_authors(
    parents: Seq<Map<Seq<char>, Seq<LineBlock>>>,
    patches: Seq<TreePatch>,
    merger: u32,
) -> Set<u32> {
    Set::new(
        |a: u32|
            a == merger || (exists|k: int|
                0 <= k < patches.len() && (#[trigger] patches[k]).base_author() == a) || (exists|
                k: int,
                p: Seq<char>,
                b: int,
            |
                0 <= k < parents.len() && parents[k].contains_key(p) && 0 <= b < parents[k][p].len()
                    && (#[trigger] parents[k][p][b]).author_id == a),
    )
}

/// One touched file brings in no author beyond the commit's, the
/// parents' fallback authors, and those of the parents' trees.
pub proof fn lemma_file_step_within(
    ret: Map<Seq<char>, Seq<LineBlock>>,
    parents: Seq<Map<Seq<char>, Seq<LineBlock>>>,
    sel: Seq<Option<Seq<LinePatch>>>,
    authors: Seq<u32>,
    merger: u32,
    pair: PathPairView,
    allowed: Set<u32>,
)
    requires
        parents.len() > 0,
        sel.len() == parents.len(),
        authors.len() == parents.len(),
        tree_within(ret, allowed),
        forall|k: int| 0 <= k < parents.len() ==> tree_within(#[trigger] parents[k], allowed),
        forall|k: int| 0 <= k < authors.len() ==> allowed.contains(#[trigger] authors[k]),
        allowed.contains(merger),
    ensures
        file_step(ret, parents, sel, authors, merger, pair) matches Some(m) ==> tree_within(
            m,
            allowed,
        ),
{
    assert(tree_within(parents[0], allowed));
    let staged = base_step(ret, parents[0], sel[0], merger, pair);
    if let Some(st) = staged {
        assert(tree_within(st, allowed)) by {
            match sel[0] {
                Some(ops) => {
                    let moved = relocated(ret, parents[0], pair.old, pair.new);
                    assert(tree_within(moved, allowed)) by {
                        assert forall|p: Seq<char>| moved.contains_key(p) implies authors_within(
                            #[trigger] moved[p],
                            allowed,
                        ) by {
                            if ret.contains_key(p) && moved[p] == ret[p] {
                                assert(authors_within(ret[p], allowed));
                            } else if pair.old is Some && parents[0].contains_key(pair.old.unwrap())
                                && moved[p] == parents[0][pair.old.unwrap()] {
                                assert(authors_within(parents[0][pair.old.unwrap()], allowed));
                            } else {
                                assert(moved[p] == Seq::<LineBlock>::empty());
                            }
                        }
                    }
                    if let Some(n) = pair.new {
                        lemma_replayed(moved[n], ops, merger);
                        assert(authors_within(moved[n], allowed));
                    }
                },
                None => {
                    assert forall|p: Seq<char>| st.contains_key(p) implies authors_within(
                        #[trigger] st[p],
                        allowed,
                    ) by {
                        assert(ret.contains_key(p) && st[p] == ret[p]);
                    }
                },
            }
        }
        let inp = file_merge_input(parents, sel, authors, merger, pair.old);
        let adds = merged_additions(inp);
        assert(merge_input_within(inp, allowed)) by {
            assert forall|k: int, b: int|
                0 <= k < inp.trees.len() && inp.trees[k] is Some && 0 <= b
                    < inp.trees[k].unwrap().len() implies allowed.contains(
                (#[trigger] inp.trees[k].unwrap()[b]).author_id,
            ) by {
                assert(tree_within(parents[k], allowed));
                assert(authors_within(parents[k][pair.old.unwrap()], allowed));
            }
        }
        let zero = Seq::new(inp.ops.len(), |k: int| 0int);
        lemma_merge_from_within(Seq::empty(), inp, zero, zero, allowed);
        if let Some(n) = pair.new {
            let base = if st.contains_key(n) {
                st[n]
            } else {
                Seq::empty()
            };
            if st.contains_key(n) {
                assert(authors_within(st[n], allowed));
            }
            if total_lines(overlay_raw(base, adds)) <= u32::MAX {
                lemma_overlaid_authors(base, adds, allowed);
            }
        }
    }
}

/// The analysis brings in no author beyond the commit's, the parents'
/// fallback authors, and those of the parents' trees.
pub proof fn lemma_analyze_from_within(
    ret: Map<Seq<char>, Seq<LineBlock>>,
    parents: Seq<Map<Seq<char>, Seq<LineBlock>>>,
    patches: Seq<TreePatch>,
    merger: u32,
    files: Seq<PathPairView>,
    i: int,
    pos: Seq<int>,
    allowed: Set<u32>,
)
    requires
        parents.len() > 0,
        patches.len() == parents.len(),
        0 <= i <= files.len(),
        tree_within(ret, allowed),
        forall|k: int| 0 <= k < parents.len() ==> tree_within(#[trigger] parents[k], allowed),
        forall|k: int|
            0 <= k < patches.len() ==> allowed.contains((#[trigger] patches[k]).base_author()),
        allowed.contains(merger),
    ensures
        analyze_from(ret, parents, patches, merger, files, i, pos) matches Some(m) ==> tree_within(
            m,
            allowed,
        ),
    decreases files.len() - i,
{
    if i < files.len() {
        let sel = picks(patches, pos, files[i].new);
        let authors = related_authors(patches);
        lemma_file_step_within(ret, parents, sel, authors, merger, files[i], allowed);
        if let Some(next) = file_step(ret, parents, sel, authors, merger, files[i]) {
            lemma_analyze_from_within(
                next,
                parents,
                patches,
                merger,
                files,
                i + 1,
                after_picks(patches, pos, files[i].new),
                allowed,
            );
        }
    }
}

/// Every author id in the tree of a commit is one of `allowed` if those
/// of the parents' trees, the commit's author and the fallback authors
/// of the diffs are.
pub proof fn lemma_analyzed_within(
    parents: Seq<Map<Seq<char>, Seq<LineBlock>>>,
    patches: Seq<TreePatch>,
    merger: u32,
    allowed: Set<u32>,
)
    requires
        forall|k: int| 0 <= k < parents.len() ==> tree_within(#[trigger] parents[k], allowed),
        forall|k: int|
            0 <= k < patches.len() ==> allowed.contains((#[trigger] patches[k]).base_author()),
        allowed.contains(merger),
    ensures
        analyzed(parents, patches, merger) matches Some(m) ==> tree_within(m, allowed),
{
    if parents.len() == 0 || parents.len() != patches.len() {
    } else {
        assert(tree_within(parents[0], allowed));
        lemma_analyze_from_within(
            parents[0],
            parents,
            patches,
            merger,
            touched_files(patches),
            0,
            Seq::new(patches.len(), |k: int| 0int),
            allowed,
        );
    }
}

/// The analysis invents no author: every author id in the tree of a
/// commit is the commit's author, the fallback author of a diff, or the
/// author of a block of a parent's tree.
pub proof fn lemma_analyzed_from_inputs(
    parents: Seq<Map<Seq<char>, Seq<LineBlock>>>,
    patches: Seq<TreePatch>,
    merger: u32,
)
    ensures
        analyzed(parents, patches, merger) matches Some(m) ==> tree_within(
            m,
            input_authors(parents, patches, merger),
        ),
{
    let allowed = input_authors(parents, patches, merger);
    assert forall|k: int| 0 <= k < parents.len() implies tree_within(
        #[trigger] parents[k],
        allowed,
    ) by {
        assert forall|p: Seq<char>| parents[k].contains_key(p) implies authors_within(
            #[trigger] parents[k][p],
            allowed,
        ) by {
            assert forall|b: int| 0 <= b < parents[k][p].len() implies allowed.contains(
                (#[trigger] parents[k][p][b]).author_id,
            ) by {
                let a = parents[k][p][b].author_id;
                assert(0 <= k < parents.len() && parents[k].contains_key(p) && 0 <= b
                    < parents[k][p].len() && parents[k][p][b].author_id == a);
            }
        }
    }
    assert forall|k: int| 0 <= k < patches.len() implies allowed.contains(
        (#[trigger] patches[k]).base_author(),
    ) by {
        let a = patches[k].base_author();
        assert(0 <= k < patches.len() && patches[k].base_author() == a);
    }
    lemma_analyzed_within(parents, patches, merger, allowed);
}

/// Every author id in the tree of a commit is below `bound` if those of
/// the parents' trees, the commit's author and the authors of the diffs
/// are: a registry that holds these authors holds every author of the
/// tree.
pub proof fn lemma_analyzed_authors(
    parents: Seq<Map<Seq<char>, Seq<LineBlock>>>,
    patches: Seq<TreePatch>,
    merger: u32,
    bound: int,
)
    requires
        forall|k: int| 0 <= k < parents.len() ==> tree_below(#[trigger] parents[k], bound),
        forall|k: int| 0 <= k < patches.len() ==> (#[trigger] patches[k]).base_author() < bound,
        merger < bound,
    ensures
        analyzed(parents, patches, merger) matches Some(m) ==> tree_below(m, bound),
{
    let allowed = ids_below(bound);
    assert forall|k: int| 0 <= k < parents.len() implies tree_within(
        #[trigger] parents[k],
        allowed,
    ) by {
        assert(tree_below(parents[k], bound));
        assert forall|p: Seq<char>| parents[k].contains_key(p) implies authors_within(
            #[trigger] parents[k][p],
            allowed,
        ) by {
            assert(authors_below(parents[k][p], bound));
        }
    }
    lemma_analyzed_within(parents, patches, merger, allowed);
    if let Some(m) = analyzed(parents, patches, merger) {
        assert forall|p: Seq<char>| m.contains_key(p) implies authors_below(
            #[trigger] m[p],
            bound,
        ) by {
            assert(authors_within(m[p], allowed));
        }
    }
}

/// No file of the tree has two neighbouring blocks of one author.
pub open spec fn tree_normalized(m: Map<Seq<char>, Seq<LineBlock>>) -> bool {
    forall|p: Seq<char>| m.contains_key(p) ==> normalized(#[trigger] m[p])
}

/// One touched file leaves every file's blocks normalized.
pub proof fn lemma_file_step_normalized(
    ret: Map<Seq<char>, Seq<LineBlock>>,
    parents: Seq<Map<Seq<char>, Seq<LineBlock>>>,
    sel: Seq<Option<Seq<LinePatch>>>,
    authors: Seq<u32>,
    merger: u32,
    pair: PathPairView,
)
    requires
        parents.len() > 0,
        tree_normalized(ret),
        tree_normalized(parents[0]),
    ensures
        file_step(ret, parents, sel, authors, merger, pair) matches Some(m) ==> tree_normalized(m),
{
    let staged = base_step(ret, parents[0], sel[0], merger, pair);
    if let Some(st) = staged {
        assert(tree_normalized(st)) by {
            let moved = relocated(ret, parents[0], pair.old, pair.new);
            assert forall|p: Seq<char>| moved.contains_key(p) implies normalized(
                #[trigger] moved[p],
            ) by {
                if ret.contains_key(p) && moved[p] == ret[p] {
                    assert(normalized(ret[p]));
                } else if pair.old is Some && parents[0].contains_key(pair.old.unwrap())
                    && moved[p] == parents[0][pair.old.unwrap()] {
                    assert(normalized(parents[0][pair.old.unwrap()]));
                } else {
                    assert(moved[p] == Seq::<LineBlock>::empty());
                }
            }
            match sel[0] {
                Some(ops) => {
                    if let Some(n) = pair.new {
                        assert(moved.contains_key(n));
                        lemma_replayed(moved[n], ops, merger);
                    }
                },
                None => {},
            }
        }
        let adds = merged_additions(file_merge_input(parents, sel, authors, merger, pair.old));
        if let Some(n) = pair.new {
            let base = if st.contains_key(n) {
                st[n]
            } else {
                Seq::empty()
            };
            if total_lines(overlay_raw(base, adds)) <= u32::MAX {
                lemma_compressed(overlay_raw(base, adds));
            }
        }
    }
}

/// The touched files from `i` on leave every file's blocks normalized.
pub proof fn lemma_analyze_from_normalized(
    ret: Map<Seq<char>, Seq<LineBlock>>,
    parents: Seq<Map<Seq<char>, Seq<LineBlock>>>,
    patches: Seq<TreePatch>,
    merger: u32,
    files: Seq<PathPairView>,
    i: int,
    pos: Seq<int>,
)
    requires
        parents.len() > 0,
        0 <= i <= files.len(),
        tree_normalized(ret),
        tree_normalized(parents[0]),
    ensures
        analyze_from(ret, parents, patches, merger, files, i, pos) matches Some(m)
            ==> tree_normalized(m),
    decreases files.len() - i,
{
    if i < files.len() {
        let sel = picks(patches, pos, files[i].new);
        let authors = related_authors(patches);
        lemma_file_step_normalized(ret, parents, sel, authors, merger, files[i]);
        if let Some(next) = file_step(ret, parents, sel, authors, merger, files[i]) {
            lemma_analyze_from_normalized(
                next,
                parents,
                patches,
                merger,
                files,
                i + 1,
                after_picks(patches, pos, files[i].new),
            );
        }
    }
}

/// In the tree of a commit no file has two neighbouring blocks of one
/// author, if no file of the first parent's tree has: whatever the
/// diffs, and whatever the trees of the other parents.
pub proof fn lemma_analyzed_normalized(
    parents: Seq<Map<Seq<char>, Seq<LineBlock>>>,
    patches: Seq<TreePatch>,
    merger: u32,
)
    requires
        parents.len() > 0 ==> tree_normalized(parents[0]),
    ensures
        analyzed(parents, patches, merger) matches Some(m) ==> tree_normalized(m),
{
    if parents.len() == 0 || parents.len() != patches.len() {
    } else {
        lemma_analyze_from_normalized(
            parents[0],
            parents,
            patches,
            merger,
            touched_files(patches),
            0,
            Seq::new(patches.len(), |k: int| 0int),
        );
    }
}

/// Diffs without files leave the first parent's tree as it is, whatever
/// the number of parents.
pub proof fn lemma_analyzed_nothing(
    parents: Seq<Map<Seq<char>, Seq<LineBlock>>>,
    patches: Seq<TreePatch>,
    merger: u32,
)
    requires
        parents.len() > 0,
        patches.len() == parents.len(),
        forall|k: int| 0 <= k < patches.len() ==> (#[trigger] patches[k]).files@.len() == 0,
    ensures
        analyzed(parents, patches, merger) == Some(parents[0]),
{
    lemma_touched_nothing(patches);
}

/// A commit with one parent whose diff holds one file is the one step
/// for that file.
pub proof fn lemma_single_file(
    parent: Map<Seq<char>, Seq<LineBlock>>,
    patch: TreePatch,
    merger: u32,
)
    requires
        patch.files@.len() == 1,
    ensures
        analyzed(seq![parent], seq![patch], merger) == file_step(
            parent,
            seq![parent],
            seq![Some(patch.files@[0].patch@)],
            seq![patch.base_author()],
            merger,
            PathPairView { old: patch.files@[0]@.old_path, new: patch.files@[0]@.new_path },
        ),
{
    let fp = patch.files@[0];
    let pair = PathPairView { old: fp@.old_path, new: fp@.new_path };
    let patches = seq![patch];
    let parents = seq![parent];
    assert(patches.drop_last() =~= Seq::<TreePatch>::empty());
    assert(all_pairs(patches.drop_last()) =~= Seq::<PathPairView>::empty());
    assert(pairs_of(patch.files@) =~= seq![pair]);
    assert(all_pairs(patches) =~= seq![pair]);
    let one = seq![pair];
    assert(one.drop_last() =~= Seq::<PathPairView>::empty());
    assert(stable_sorted(one.drop_last()) =~= Seq::<PathPairView>::empty());
    assert(stable_sorted(one) =~= one);
    assert(deduped(one.drop_last()) =~= Seq::<PathPairView>::empty());
    assert(deduped(one) =~= one);
    assert(touched_files(patches) == one);
    let zero = Seq::new(patches.len(), |k: int| 0int);
    lemma_path_lt_irreflexive(pair.new);
    assert(seek(patch.files@, 0, pair.new) == 0);
    assert(picks(patches, zero, pair.new) =~= seq![Some(fp.patch@)]);
    assert(related_authors(patches) =~= seq![patch.base_author()]);
    let sel = seq![Some(fp.patch@)];
    let step = file_step(parent, parents, sel, seq![patch.base_author()], merger, pair);
    assert(analyze_from(parent, parents, patches, merger, one, 0, zero) == (match step {
        None => None,
        Some(next) => analyze_from(
            next,
            parents,
            patches,
            merger,
            one,
            1,
            after_picks(patches, zero, pair.new),
        ),
    }));
}

/// A deleted file is absent from the tree of the commit; the other files
/// stay as they are.
pub proof fn lemma_delete_file(
    parent: Map<Seq<char>, Seq<LineBlock>>,
    patch: TreePatch,
    merger: u32,
    path: Seq<char>,
)
    requires
        patch.files@.len() == 1,
        patch.files@[0]@.old_path == Some(path),
        patch.files@[0]@.new_path is None,
    ensures
        analyzed(seq![parent], seq![patch], merger) == Some(parent.remove(path)),
        !analyzed(seq![parent], seq![patch], merger).unwrap().contains_key(path),
{
    lemma_single_file(parent, patch, merger);
}

/// A file renamed without line edits carries its blocks to the new path,
/// and the old path is absent, if none of its blocks is empty.
pub proof fn lemma_rename_file(
    parent: Map<Seq<char>, Seq<LineBlock>>,
    patch: TreePatch,
    merger: u32,
    from: Seq<char>,
    to: Seq<char>,
)
    requires
        patch.files@.len() == 1,
        patch.files@[0]@.old_path == Some(from),
        patch.files@[0]@.new_path == Some(to),
        patch.files@[0]@.ops.len() == 0,
        from != to,
        parent.contains_key(from),
        blocks_wf(parent[from]),
        no_empty_block(parent[from]),
    ensures
        analyzed(seq![parent], seq![patch], merger) == Some(
            parent.remove(from).insert(to, parent[from]),
        ),
{
    lemma_single_file(parent, patch, merger);
    let fp = patch.files@[0];
    let pair = PathPairView { old: Some(from), new: Some(to) };
    let moved = relocated(parent, parent, pair.old, pair.new);
    assert(fp.patch@ =~= Seq::<LinePatch>::empty());
    lemma_replayed_nothing(parent[from], merger);
    assert(moved.insert(to, parent[from]) =~= moved);
    let sel = seq![Some(fp.patch@)];
    let inp = file_merge_input(seq![parent], sel, seq![patch.base_author()], merger, pair.old);
    lemma_merge_nothing(inp);
    lemma_overlaid_nothing(parent[from]);
}

/// A file whose diff holds no line edit keeps its blocks, if none of
/// them is empty.
pub proof fn lemma_untouched_file(
    parent: Map<Seq<char>, Seq<LineBlock>>,
    patch: TreePatch,
    merger: u32,
    path: Seq<char>,
)
    requires
        patch.files@.len() == 1,
        patch.files@[0]@.old_path == Some(path),
        patch.files@[0]@.new_path == Some(path),
        patch.files@[0]@.ops.len() == 0,
        parent.contains_key(path),
        blocks_wf(parent[path]),
        no_empty_block(parent[path]),
    ensures
        analyzed(seq![parent], seq![patch], merger) == Some(parent),
{
    lemma_single_file(parent, patch, merger);
    let fp = patch.files@[0];
    let pair = PathPairView { old: Some(path), new: Some(path) };
    assert(fp.patch@ =~= Seq::<LinePatch>::empty());
    lemma_replayed_nothing(parent[path], merger);
    assert(parent.insert(path, parent[path]) =~= parent);
    let sel = seq![Some(fp.patch@)];
    let inp = file_merge_input(seq![parent], sel, seq![patch.base_author()], merger, pair.old);
    lemma_merge_nothing(inp);
    lemma_overlaid_nothing(parent[path]);
}

/// Whether the diffs leave the file at `path` where it is and as it is:
/// every entry with the path as new path has it as old path too and
/// holds no line edit, and no entry moves or deletes the file.
pub open spec fn leaves_file(patches: Seq<TreePatch>, path: Seq<char>) -> bool {
    forall|k: int, f: int|
        0 <= k < patches.len() && 0 <= f < patches[k].files@.len() ==> {
            let e = (#[trigger] patches[k].files@[f])@;
            &&& e.new_path == Some(path) ==> e.old_path == Some(path) && e.ops.len() == 0
            &&& e.old_path == Some(path) ==> e.new_path == Some(path)
        }
}

/// Whether the pairs leave the file at `path` where it is.
pub open spec fn pairs_leave(files: Seq<PathPairView>, path: Seq<char>) -> bool {
    forall|j: int|
        0 <= j < files.len() ==> ((#[trigger] files[j]).new == Some(path) <==> files[j].old == Some(
            path,
        ))
}

/// Every pair of the diffs is the pair of one of their entries.
pub proof fn lemma_all_pairs(patches: Seq<TreePatch>, x: PathPairView)
    requires
        all_pairs(patches).contains(x),
    ensures
        exists|k: int, f: int|
            0 <= k < patches.len() && 0 <= f < patches[k].files@.len() && x.old == (
            #[trigger] patches[k].files@[f])@.old_path && x.new == patches[k].files@[f]@.new_path,
    decreases patches.len(),
{
    if patches.len() > 0 {
        let rest = patches.drop_last();
        let own = pairs_of(patches.last().files@);
        let all = all_pairs(patches);
        let t = choose|t: int| 0 <= t < all.len() && all[t] == x;
        if t < all_pairs(rest).len() {
            assert(all_pairs(rest)[t] == x);
            lemma_all_pairs(rest, x);
            let (k, f) = choose|k: int, f: int|
                0 <= k < rest.len() && 0 <= f < rest[k].files@.len() && x.old == (
                #[trigger] rest[k].files@[f])@.old_path && x.new == rest[k].files@[f]@.new_path;
            assert(patches[k] == rest[k]);
            assert(x.old == patches[k].files@[f]@.old_path);
        } else {
            let f = t - all_pairs(rest).len();
            assert(own[f] == x);
            let k = patches.len() - 1;
            assert(x.old == patches[k].files@[f]@.old_path);
        }
    }
}

/// The touched files from `i` on leave the file at `path` with its
/// blocks, if the diffs leave it where it is and as it is.
pub proof fn lemma_analyze_from_leaves(
    ret: Map<Seq<char>, Seq<LineBlock>>,
    parents: Seq<Map<Seq<char>, Seq<LineBlock>>>,
    patches: Seq<TreePatch>,
    merger: u32,
    files: Seq<PathPairView>,
    i: int,
    pos: Seq<int>,
    path: Seq<char>,
)
    requires
        parents.len() > 0,
        patches.len() == parents.len(),
        pos.len() == patches.len(),
        0 <= i <= files.len(),
        leaves_file(patches, path),
        pairs_leave(files, path),
        ret.contains_key(path),
        blocks_wf(ret[path]),
        no_empty_block(ret[path]),
    ensures
        analyze_from(ret, parents, patches, merger, files, i, pos) matches Some(m)
            ==> m.contains_key(path) && m[path] == ret[path],
    decreases files.len() - i,
{
    if i < files.len() {
        let pair = files[i];
        let sel = picks(patches, pos, pair.new);
        let authors = related_authors(patches);
        let blocks = ret[path];
        let staged = base_step(ret, parents[0], sel[0], merger, pair);
        let inp = file_merge_input(parents, sel, authors, merger, pair.old);
        if let Some(next) = file_step(ret, parents, sel, authors, merger, pair) {
            let st = staged.unwrap();
            assert(next.contains_key(path) && next[path] == blocks) by {
                if pair.new == Some(path) {
                    assert(pair.old == Some(path));
                    assert forall|k: int| 0 <= k < inp.ops.len() implies (#[trigger] inp.ops[k]).len()
                        == 0 by {
                        let fs = patches[k].files@;
                        let at = seek(fs, pos[k], pair.new);
                        assert(sel[k] == pick(fs, pos[k], pair.new));
                        if sel[k] is Some {
                            assert(fs[at]@.new_path == Some(path));
                            assert(patches[k].files@[at]@.ops.len() == 0);
                        }
                    }
                    lemma_merge_nothing(inp);
                    lemma_overlaid_nothing(blocks);
                    match sel[0] {
                        Some(ops) => {
                            assert(inp.ops[0] == ops);
                            assert(ops =~= Seq::<LinePatch>::empty());
                            lemma_replayed_nothing(blocks, merger);
                            assert(relocated(ret, parents[0], pair.old, pair.new) == ret);
                            assert(st[path] == blocks);
                        },
                        None => {
                            assert(st == ret);
                        },
                    }
                } else {
                    assert(pair.old != Some(path));
                    let moved = relocated(ret, parents[0], pair.old, pair.new);
                    assert(moved.contains_key(path) && moved[path] == blocks);
                    assert(st.contains_key(path) && st[path] == blocks);
                }
            }
            lemma_analyze_from_leaves(
                next,
                parents,
                patches,
                merger,
                files,
                i + 1,
                after_picks(patches, pos, pair.new),
                path,
            );
        }
    }
}

/// A file that the diffs leave where it is and as it is keeps the blocks
/// that it has in the first parent's tree, if none of them is empty:
/// whatever the number of parents, and whatever else the diffs hold.
pub proof fn lemma_unedited_file(
    parents: Seq<Map<Seq<char>, Seq<LineBlock>>>,
    patches: Seq<TreePatch>,
    merger: u32,
    path: Seq<char>,
)
    requires
        parents.len() > 0,
        leaves_file(patches, path),
        parents[0].contains_key(path),
        blocks_wf(parents[0][path]),
        no_empty_block(parents[0][path]),
    ensures
        analyzed(parents, patches, merger) matches Some(m) ==> m.contains_key(path) && m[path]
            == parents[0][path],
{
    if parents.len() == patches.len() {
        let files = touched_files(patches);
        lemma_touched_files(patches);
        assert forall|j: int| 0 <= j < files.len() implies ((#[trigger] files[j]).new == Some(path)
            <==> files[j].old == Some(path)) by {
            lemma_all_pairs(patches, files[j]);
        }
        lemma_analyze_from_leaves(
            parents[0],
            parents,
            patches,
            merger,
            files,
            0,
            Seq::new(patches.len(), |k: int| 0int),
            path,
        );
    }
}

/// The additions that the insertions from `k` on give a commit with one
/// parent: each inserted line, for the commit's author.
pub open spec fn insert_additions(ops: Seq<LinePatch>, k: int, merger: u32) -> Seq<Addition>
    decreases ops.len() - k,
{
    if k < 0 || k >= ops.len() {
        Seq::empty()
    } else {
        match ops[k] {
            LinePatch::Insert(line) => seq![Addition { author: merger, line }] + insert_additions(
                ops,
                k + 1,
                merger,
            ),
            LinePatch::Delete(_) => insert_additions(ops, k + 1, merger),
        }
    }
}

/// The lines of the insertions ascend strictly.
pub open spec fn inserts_ascend(ops: Seq<LinePatch>) -> bool {
    forall|i: int, j: int|
        0 <= i < j < ops.len() && ops[i] is Insert && ops[j] is Insert ==> (
        #[trigger] ops[i]).spec_new_lineno().unwrap() < (#[trigger] ops[j]).spec_new_lineno().unwrap()
}

/// Every block is of author `a`.
pub open spec fn all_by(blocks: Seq<LineBlock>, a: u32) -> bool {
    forall|i: int| 0 <= i < blocks.len() ==> (#[trigger] blocks[i]).author_id == a
}

/// Deletions in front add nothing to the additions.
pub proof fn lemma_insert_additions_skip(ops: Seq<LinePatch>, k: int, merger: u32)
    requires
        0 <= k <= ops.len(),
    ensures
        insert_additions(ops, k, merger) == insert_additions(ops, skip_deletes(ops, k), merger),
    decreases ops.len() - k,
{
    if k < ops.len() && ops[k] is Delete {
        lemma_insert_additions_skip(ops, k + 1, merger);
    }
}

/// With one parent, every inserted line is an addition for the commit's
/// author.
pub proof fn lemma_merge_single(acc: Seq<Addition>, inp: MergeInput, c: int, blk: Seq<int>)
    requires
        inp.ops.len() == 1,
        0 <= c <= inp.ops[0].len(),
    ensures
        merge_from(acc, inp, seq![c], blk) == acc + insert_additions(inp.ops[0], c, inp.merger),
    decreases inp.ops[0].len() - c,
{
    let ops = inp.ops[0];
    let cur = seq![c];
    assert(cursors_ok(inp.ops, cur));
    lemma_round_progress(inp.ops, cur);
    lemma_skip_deletes(ops, c);
    lemma_insert_additions_skip(ops, c, inp.merger);
    let cur1 = skipped(inp.ops, cur);
    let c1 = skip_deletes(ops, c);
    assert(cur1 =~= seq![c1]);
    assert(min_head(inp.ops, cur1, 0) is None);
    assert(min_head(inp.ops, cur1, 1) == head_line(ops, c1));
    match min_head(inp.ops, cur1, 1) {
        None => {
            assert(c1 >= ops.len());
            assert(acc + insert_additions(ops, c1, inp.merger) =~= acc);
        },
        Some(line) => {
            let cur2 = advanced(inp.ops, cur1, line);
            assert(cur2 =~= seq![c1 + 1]);
            let blk2 = moved(inp, cur2, blk, line);
            assert(hit_ordinals(inp.ops, cur1, line, 0) == 0);
            assert(hit_ordinals(inp.ops, cur1, line, 1) == 1);
            lemma_ordinal_sum_step(1);
            assert(ordinal_sum(1) == 1);
            let add = Addition { author: inp.merger, line };
            lemma_merge_single(acc.push(add), inp, c1 + 1, blk2);
            assert(merge_from(acc, inp, cur, blk) == merge_from(acc.push(add), inp, cur2, blk2));
            assert(acc.push(add) + insert_additions(ops, c1 + 1, inp.merger) =~= acc + (seq![add]
                + insert_additions(ops, c1 + 1, inp.merger)));
        },
    }
}

/// Insertions in ascending order give additions in ascending order, all
/// for the commit's author.
pub proof fn lemma_insert_additions(ops: Seq<LinePatch>, k: int, merger: u32, from: int)
    requires
        0 <= k <= ops.len(),
        inserts_ascend(ops),
        forall|j: int|
            k <= j < ops.len() && ops[j] is Insert ==> from <= (#[trigger] ops[j]).spec_new_lineno().unwrap(),
    ensures
        additions_ascend(insert_additions(ops, k, merger), 0, from),
        forall|j: int|
            0 <= j < insert_additions(ops, k, merger).len() ==> (#[trigger] insert_additions(
                ops,
                k,
                merger,
            )[j]).author == merger,
        insert_additions(ops, k, merger).len() == count_inserts(ops, k),
    decreases ops.len() - k,
{
    if k < ops.len() {
        match ops[k] {
            LinePatch::Insert(line) => {
                assert forall|j: int| k + 1 <= j < ops.len() && ops[j] is Insert implies line + 1 <= (
                #[trigger] ops[j]).spec_new_lineno().unwrap() by {
                    assert(ops[k].spec_new_lineno().unwrap() < ops[j].spec_new_lineno().unwrap());
                }
                lemma_insert_additions(ops, k + 1, merger, line + 1);
                let rest = insert_additions(ops, k + 1, merger);
                let all = insert_additions(ops, k, merger);
                assert(all =~= seq![Addition { author: merger, line }] + rest);
                assert forall|j: int| 0 <= j < all.len() implies from <= (#[trigger] all[j]).line by {
                    if j > 0 {
                        assert(all[j] == rest[j - 1]);
                    }
                }
                assert forall|a: int, b: int| 0 <= a < b < all.len() implies (#[trigger] all[a]).line < (
                #[trigger] all[b]).line by {
                    assert(all[b] == rest[b - 1]);
                    if a > 0 {
                        assert(all[a] == rest[a - 1]);
                    }
                }
                assert forall|j: int| 0 <= j < all.len() implies (#[trigger] all[j]).author
                    == merger by {
                    if j > 0 {
                        assert(all[j] == rest[j - 1]);
                    }
                }
            },
            LinePatch::Delete(_) => {
                lemma_insert_additions(ops, k + 1, merger, from);
            },
        }
    }
}

/// A block of an author cut at additions of the same author gives pieces of
/// that author.
pub proof fn lemma_overlay_block_by(
    buf: Seq<LineBlock>,
    author: u32,
    begin: int,
    end: int,
    diff: Seq<Addition>,
    idx: int,
)
    requires
        all_by(buf, author),
        forall|j: int| 0 <= j < diff.len() ==> (#[trigger] diff[j]).author == author,
    ensures
        all_by(overlay_block(buf, author, begin, end, diff, idx).0, author),
    decreases diff.len() - idx,
{
    if 0 <= idx < diff.len() && diff[idx].line < end {
        let line = diff[idx].line as int;
        let pre = if begin < line {
            buf.push(LineBlock { author_id: author, size: (line - begin) as u32 })
        } else {
            buf
        };
        let one = LineBlock { author_id: diff[idx].author, size: 1 };
        lemma_overlay_block_by(pre.push(one), author, line + 1, end, diff, idx + 1);
    }
}

/// Blocks of an author cut at additions of the same author give pieces of that
/// author.
pub proof fn lemma_overlay_from_by(
    buf: Seq<LineBlock>,
    blocks: Seq<LineBlock>,
    i: int,
    base: int,
    diff: Seq<Addition>,
    idx: int,
    author: u32,
)
    requires
        all_by(buf, author),
        all_by(blocks, author),
        forall|j: int| 0 <= j < diff.len() ==> (#[trigger] diff[j]).author == author,
    ensures
        all_by(overlay_from(buf, blocks, i, base, diff, idx), author),
    decreases blocks.len() - i,
{
    if 0 <= i < blocks.len() {
        let end = base + blocks[i].size;
        lemma_overlay_block_by(buf, blocks[i].author_id, base, end, diff, idx);
        let cut = overlay_block(buf, blocks[i].author_id, base, end, diff, idx);
        lemma_overlay_from_by(cut.0, blocks, i + 1, end, diff, cut.1, author);
    }
}

/// Blocks of one author, some of them not empty, compress to one block.
pub proof fn lemma_compressed_by(blocks: Seq<LineBlock>, a: u32)
    requires
        all_by(blocks, a),
        blocks.len() > 0,
        total_lines(blocks) <= u32::MAX,
    ensures
        compressed(blocks) == seq![LineBlock { author_id: a, size: total_lines(blocks) as u32 }],
    decreases blocks.len(),
{
    let rest = blocks.drop_last();
    lemma_total_nonneg(rest);
    assert(blocks[blocks.len() - 1].author_id == a);
    if rest.len() > 0 {
        assert(forall|i: int| 0 <= i < rest.len() ==> rest[i] == blocks[i]);
        lemma_compressed_by(rest, a);
        let acc = compressed(rest);
        assert(compressed(blocks) =~= seq![
            LineBlock { author_id: a, size: total_lines(blocks) as u32 },
        ]);
    } else {
        assert(compressed(rest) =~= Seq::<LineBlock>::empty());
        assert(compressed(blocks) =~= seq![
            LineBlock { author_id: a, size: total_lines(blocks) as u32 },
        ]);
    }
}

/// The step for a created file whose lines are inserted in ascending
/// order puts one block of the commit's author at the file's path, as
/// large as the number of its lines.
pub proof fn lemma_create_step(
    ret: Map<Seq<char>, Seq<LineBlock>>,
    parent: Map<Seq<char>, Seq<LineBlock>>,
    ops: Seq<LinePatch>,
    fallback: u32,
    merger: u32,
    path: Seq<char>,
)
    requires
        inserts_ascend(ops),
        0 < count_inserts(ops, 0) <= u32::MAX,
    ensures
        file_step(
            ret,
            seq![parent],
            seq![Some(ops)],
            seq![fallback],
            merger,
            PathPairView { old: None, new: Some(path) },
        ) == Some(
            ret.insert(
                path,
                seq![LineBlock { author_id: merger, size: count_inserts(ops, 0) as u32 }],
            ),
        ),
{
    let n = count_inserts(ops, 0);
    let pair = PathPairView { old: None, new: Some(path) };
    let one = LineBlock { author_id: merger, size: n as u32 };
    let moved = relocated(ret, parent, pair.old, pair.new);
    lemma_replayed_from_scratch(ops, merger);
    let staged = moved.insert(path, seq![one]);
    let sel = seq![Some(ops)];
    let inp = file_merge_input(seq![parent], sel, seq![fallback], merger, pair.old);
    let zero = Seq::new(inp.ops.len(), |k: int| 0int);
    assert(zero =~= seq![0int]);
    lemma_merge_single(Seq::empty(), inp, 0, zero);
    let adds = insert_additions(ops, 0, merger);
    assert(Seq::<Addition>::empty() + adds =~= adds);
    assert(merged_additions(inp) == adds);
    lemma_insert_additions(ops, 0, merger, 0);
    let base = seq![one];
    assert(Seq::<LineBlock>::empty().push(one) =~= base);
    crate::blocks::lemma_total_push(Seq::<LineBlock>::empty(), one);
    assert(total_lines(base) == n);
    lemma_overlaid_total(base, adds);
    assert(all_by(base, merger));
    lemma_overlay_from_by(Seq::empty(), base, 0, 0, adds, 0, merger);
    let raw = overlay_raw(base, adds);
    if raw.len() == 0 {
        assert(total_lines(raw) == 0);
    }
    lemma_compressed_by(raw, merger);
    assert(staged.insert(path, seq![one]) =~= ret.insert(path, seq![one]));
}

/// A file that a commit with one parent creates, with its lines inserted
/// in ascending order, is one block of the commit's author, as large as
/// the number of its lines.
pub proof fn lemma_create_file(
    parent: Map<Seq<char>, Seq<LineBlock>>,
    patch: TreePatch,
    merger: u32,
    path: Seq<char>,
)
    requires
        patch.files@.len() == 1,
        patch.files@[0]@.old_path is None,
        patch.files@[0]@.new_path == Some(path),
        inserts_ascend(patch.files@[0]@.ops),
        0 < count_inserts(patch.files@[0]@.ops, 0) <= u32::MAX,
    ensures
        analyzed(seq![parent], seq![patch], merger) == Some(
            parent.insert(
                path,
                seq![
                    LineBlock {
                        author_id: merger,
                        size: count_inserts(patch.files@[0]@.ops, 0) as u32,
                    },
                ],
            ),
        ),
{
    lemma_single_file(parent, patch, merger);
    lemma_create_step(parent, parent, patch.files@[0].patch@, patch.base_author(), merger, path);
}

/// The tree with the first `n` of the files created: each is one block of
/// `merger`, as large as the number of its inserted lines.
pub open spec fn created(
    parent: Map<Seq<char>, Seq<LineBlock>>,
    files: Seq<FilePatch>,
    merger: u32,
    n: int,
) -> Map<Seq<char>, Seq<LineBlock>>
    decreases n,
{
    if n <= 0 {
        parent
    } else {
        created(parent, files, merger, n - 1).insert(
            files[n - 1]@.new_path.unwrap(),
            seq![
                LineBlock {
                    author_id: merger,
                    size: count_inserts(files[n - 1]@.ops, 0) as u32,
                },
            ],
        )
    }
}

/// The files are created ones, in the strict order of their paths, each
/// with its lines inserted in ascending order.
pub open spec fn creates_files(files: Seq<FilePatch>) -> bool {
    &&& forall|i: int, j: int|
        0 <= i < j < files.len() ==> path_lt(
            (#[trigger] files[i])@.new_path,
            (#[trigger] files[j])@.new_path,
        )
    &&& forall|i: int|
        0 <= i < files.len() ==> {
            &&& (#[trigger] files[i])@.old_path is None
            &&& files[i]@.new_path is Some
            &&& inserts_ascend(files[i]@.ops)
            &&& 0 < count_inserts(files[i]@.ops, 0) <= u32::MAX
        }
}

proof fn lemma_deduped_distinct(s: Seq<PathPairView>)
    requires
        forall|i: int| 0 <= i < s.len() ==> (#[trigger] s[i]).new is Some,
        forall|i: int| 0 <= i < s.len() - 1 ==> (#[trigger] s[i]).new != s[i + 1].new,
    ensures
        deduped(s) == s,
    decreases s.len(),
{
    if s.len() > 0 {
        let rest = s.drop_last();
        assert(forall|i: int| 0 <= i < rest.len() ==> rest[i] == s[i]);
        lemma_deduped_distinct(rest);
        if rest.len() > 0 {
            assert(s[rest.len() - 1].new != s[rest.len() - 1 + 1].new);
            assert(rest.last() == s[rest.len() - 1]);
        }
        assert(s[s.len() - 1].new is Some);
        assert(!crate::touched::repeats(rest, s.last()));
        assert(rest.push(s.last()) =~= s);
    }
}

proof fn lemma_create_from(
    parent: Map<Seq<char>, Seq<LineBlock>>,
    patch: TreePatch,
    merger: u32,
    i: int,
)
    requires
        creates_files(patch.files@),
        0 <= i <= patch.files@.len(),
    ensures
        analyze_from(
            created(parent, patch.files@, merger, i),
            seq![parent],
            seq![patch],
            merger,
            pairs_of(patch.files@),
            i,
            seq![i],
        ) == Some(created(parent, patch.files@, merger, patch.files@.len() as int)),
    decreases patch.files@.len() - i,
{
    let files = patch.files@;
    let pairs = pairs_of(files);
    let patches = seq![patch];
    if i < files.len() {
        let pair = pairs[i];
        let path = files[i]@.new_path.unwrap();
        lemma_path_lt_irreflexive(pair.new);
        assert(seek(files, i, pair.new) == i);
        assert(picks(patches, seq![i], pair.new) =~= seq![Some(files[i].patch@)]);
        assert(after_picks(patches, seq![i], pair.new) =~= seq![i + 1]);
        assert(related_authors(patches) =~= seq![patch.base_author()]);
        lemma_create_step(
            created(parent, files, merger, i),
            parent,
            files[i].patch@,
            patch.base_author(),
            merger,
            path,
        );
        assert(pair == PathPairView { old: None, new: Some(path) });
        lemma_create_from(parent, patch, merger, i + 1);
    }
}

/// A commit with one parent that creates files, each with its lines
/// inserted in ascending order, maps every one of them to one block of
/// the commit's author, as large as the file has lines. For a commit that
/// starts the history the parent's tree is empty, and these are all its
/// files.
pub proof fn lemma_create_files(
    parent: Map<Seq<char>, Seq<LineBlock>>,
    patch: TreePatch,
    merger: u32,
)
    requires
        creates_files(patch.files@),
    ensures
        analyzed(seq![parent], seq![patch], merger) == Some(
            created(parent, patch.files@, merger, patch.files@.len() as int),
        ),
{
    let files = patch.files@;
    let pairs = pairs_of(files);
    let patches = seq![patch];
    assert(patches.drop_last() =~= Seq::<TreePatch>::empty());
    assert(all_pairs(patches.drop_last()) =~= Seq::<PathPairView>::empty());
    assert(all_pairs(patches) =~= pairs);
    assert(crate::sort::sorted_by_key(pairs)) by {
        assert forall|i: int, j: int| 0 <= i <= j < pairs.len() implies crate::order::path_le(
            (#[trigger] pairs[i]).path_key(),
            (#[trigger] pairs[j]).path_key(),
        ) by {
            if i < j {
                assert(path_lt(files[i]@.new_path, files[j]@.new_path));
                if path_lt(files[j]@.new_path, files[i]@.new_path) {
                    crate::order::lemma_path_lt_transitive(
                        files[i]@.new_path,
                        files[j]@.new_path,
                        files[i]@.new_path,
                    );
                }
            }
            lemma_path_lt_irreflexive(files[i]@.new_path);
        }
    }
    crate::sort::lemma_stable_sorted_of_sorted(pairs);
    assert forall|i: int| 0 <= i < pairs.len() - 1 implies (#[trigger] pairs[i]).new != pairs[i
        + 1].new by {
        assert(path_lt(files[i]@.new_path, files[i + 1]@.new_path));
        lemma_path_lt_irreflexive(files[i]@.new_path);
    }
    assert forall|i: int| 0 <= i < pairs.len() implies (#[trigger] pairs[i]).new is Some by {
        assert(files[i]@.new_path is Some);
    }
    lemma_deduped_distinct(pairs);
    assert(Seq::new(patches.len(), |k: int| 0int) =~= seq![0int]);
    lemma_create_from(parent, patch, merger, 0);
}

} // verus!
