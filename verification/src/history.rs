//! The walk through the history: from the head commit, depth first along
//! effective ancestors, into a processing order in which every recorded
//! parent comes before its child.

use crate::author::AuthorCollection;
use crate::commits::{effective_ancestors, table_wf, CommitInfo, CommitTable};
use crate::descent::{all_recorded, lemma_walk_records};
use vstd::prelude::*;

verus! {

/// The nodes of the sequence ascend strictly.
pub open spec fn strictly_ascending(s: Seq<usize>) -> bool {
    forall|i: int, j: int| 0 <= i < j < s.len() ==> s[i] < s[j]
}

/// The place among the first `n` nodes behind the last node below `x`:
/// where `x` belongs in an ascending sequence.
pub open spec fn place_in(s: Seq<usize>, x: usize, n: int) -> int
    decreases n,
{
    if n <= 0 {
        0
    } else if s[n - 1] < x {
        n
    } else {
        place_in(s, x, n - 1)
    }
}

/// The ascending sequence with `x` in it, at its place; as it was if it
/// held `x` already.
pub open spec fn with_node(s: Seq<usize>, x: usize) -> Seq<usize> {
    let at = place_in(s, x, s.len() as int);
    if at < s.len() && s[at] == x {
        s
    } else {
        s.take(at).push(x) + s.skip(at)
    }
}

/// The first `n` nodes of the list in ascending order, each once.
pub open spec fn ascending(list: Seq<usize>, n: int) -> Seq<usize>
    decreases n,
{
    if n <= 0 {
        Seq::empty()
    } else {
        with_node(ascending(list, n - 1), list[n - 1])
    }
}

/// The place of a node in an ascending sequence lies behind every smaller node
/// and before every other.
pub proof fn lemma_place_in(s: Seq<usize>, x: usize, n: int)
    requires
        strictly_ascending(s),
        0 <= n <= s.len(),
    ensures
        0 <= place_in(s, x, n) <= n,
        forall|i: int| 0 <= i < place_in(s, x, n) ==> s[i] < x,
        forall|i: int| place_in(s, x, n) <= i < n ==> s[i] >= x,
    decreases n,
{
    if n > 0 {
        lemma_place_in(s, x, n - 1);
    }
}

/// Putting a node into an ascending sequence keeps it ascending, and adds
/// just that node.
pub proof fn lemma_with_node(s: Seq<usize>, x: usize)
    requires
        strictly_ascending(s),
    ensures
        strictly_ascending(with_node(s, x)),
        forall|y: usize| (#[trigger] with_node(s, x).contains(y)) <==> (s.contains(y) || y == x),
{
    let at = place_in(s, x, s.len() as int);
    lemma_place_in(s, x, s.len() as int);
    let out = with_node(s, x);
    if at < s.len() && s[at] == x {
        assert forall|y: usize| (#[trigger] out.contains(y)) <==> (s.contains(y) || y == x) by {
            if y == x {
                assert(s[at] == y);
            }
        }
    } else {
        assert(out[at] == x);
        assert forall|i: int, j: int| 0 <= i < j < out.len() implies out[i] < out[j] by {
            let vi = if i < at {
                s[i]
            } else if i == at {
                x
            } else {
                s[i - 1]
            };
            let vj = if j < at {
                s[j]
            } else if j == at {
                x
            } else {
                s[j - 1]
            };
            assert(out[i] == vi);
            assert(out[j] == vj);
            if i < at && j > at {
                assert(s[i] < x);
                assert(s[j - 1] >= x);
            } else if i == at {
                assert(s[j - 1] >= x);
                if j - 1 > at {
                    assert(s[at] < s[j - 1]);
                }
            }
        }
        assert forall|y: usize| (#[trigger] out.contains(y)) <==> (s.contains(y) || y == x) by {
            if out.contains(y) {
                let t = choose|t: int| 0 <= t < out.len() && out[t] == y;
                if t < at {
                    assert(s[t] == y);
                } else if t > at {
                    assert(s[t - 1] == y);
                }
            }
            if s.contains(y) {
                let t = choose|t: int| 0 <= t < s.len() && s[t] == y;
                if t < at {
                    assert(out[t] == y);
                } else {
                    assert(out[t + 1] == y);
                }
            }
        }
    }
}

/// The ascending form of a list ascends strictly and holds just the
/// nodes of the list.
pub proof fn lemma_ascending(list: Seq<usize>, n: int)
    requires
        0 <= n <= list.len(),
    ensures
        strictly_ascending(ascending(list, n)),
        forall|y: usize|
            (#[trigger] ascending(list, n).contains(y)) <==> list.take(n).contains(y),
    decreases n,
{
    if n > 0 {
        lemma_ascending(list, n - 1);
        lemma_with_node(ascending(list, n - 1), list[n - 1]);
        assert forall|y: usize| (#[trigger] ascending(list, n).contains(y)) <==> list.take(
            n,
        ).contains(y) by {
            let before = list.take(n - 1);
            let now = list.take(n);
            if before.contains(y) {
                let t = choose|t: int| 0 <= t < before.len() && before[t] == y;
                assert(now[t] == y);
            }
            if now.contains(y) && y != list[n - 1] {
                let t = choose|t: int| 0 <= t < now.len() && now[t] == y;
                assert(before[t] == y);
            }
            if y == list[n - 1] {
                assert(now[n - 1] == y);
            }
        }
    } else {
        assert forall|y: usize| !(#[trigger] ascending(list, n).contains(y)) by {}
        assert(list.take(n) =~= Seq::<usize>::empty());
    }
}

/// Every node of the ascending form is below `bound` if those of the list
/// are.
pub proof fn lemma_ascending_bound(list: Seq<usize>, bound: int)
    requires
        forall|i: int| 0 <= i < list.len() ==> (#[trigger] list[i]) < bound,
    ensures
        forall|i: int|
            0 <= i < ascending(list, list.len() as int).len() ==> (#[trigger] ascending(
                list,
                list.len() as int,
            )[i]) < bound,
{
    let out = ascending(list, list.len() as int);
    lemma_ascending(list, list.len() as int);
    assert(list.take(list.len() as int) =~= list);
    assert forall|i: int| 0 <= i < out.len() implies (#[trigger] out[i]) < bound by {
        assert(out.contains(out[i]));
        let t = choose|t: int| 0 <= t < list.len() && list[t] == out[i];
        assert(list[t] < bound);
    }
}

/// How far the walk has come with a commit.
#[derive(Debug, Clone, Copy, PartialEq, Eq, Structural)]
pub enum Mark {
    /// Not reached yet.
    Unseen,
    /// Reached; its ancestors are being walked.
    Open,
    /// Finished, as the node of this index.
    Done(usize),
}

/// The state of the walk: the commits still to look at, the mark of each
/// commit, and the nodes finished so far with their recorded parents.
pub struct WalkState {
    pub stack: Seq<usize>,
    pub marks: Seq<Mark>,
    pub nodes: Seq<usize>,
    pub adj: Seq<Seq<usize>>,
}

/// The stack with the unseen among the ancestors from `j` on pushed, the
/// last of them first: the first ancestor comes to lie on top.
pub open spec fn push_unseen(stack: Seq<usize>, marks: Seq<Mark>, anc: Seq<usize>, j: int) -> Seq<
    usize,
>
    decreases anc.len() - j,
{
    if j < 0 || j >= anc.len() {
        stack
    } else {
        let rest = push_unseen(stack, marks, anc, j + 1);
        if marks[anc[j] as int] is Unseen {
            rest.push(anc[j])
        } else {
            rest
        }
    }
}

/// The node indices of those among the first `j` commits that are
/// finished.
pub open spec fn done_places(marks: Seq<Mark>, sorted: Seq<usize>, j: int) -> Seq<usize>
    decreases j,
{
    if j <= 0 {
        Seq::empty()
    } else {
        let rest = done_places(marks, sorted, j - 1);
        match marks[sorted[j - 1] as int] {
            Mark::Done(node) => rest.push(node),
            _ => rest,
        }
    }
}

/// The parents recorded for the commit `root` when it is finished. A
/// commit into which the walk goes on records those of its effective
/// ancestors that are finished already, as nodes in ascending order, each
/// once. A commit at which the walk stops records none, whether or not
/// the walk has finished an ancestor of it on another way.
pub open spec fn recorded_parents(commits: Seq<CommitInfo>, marks: Seq<Mark>, root: usize) -> Seq<
    usize,
> {
    if commits[root as int].recurse {
        let anc = effective_ancestors(commits, root);
        let done = done_places(marks, anc, anc.len() as int);
        ascending(done, done.len() as int)
    } else {
        Seq::empty()
    }
}

/// One step of the walk. An unseen commit is opened and comes back onto
/// the stack, below its unseen effective ancestors if the walk goes on
/// into them, the first of them on top; an open commit is finished as the
/// next node, with its recorded parents; a finished commit is dropped.
pub open spec fn walk_step(commits: Seq<CommitInfo>, st: WalkState) -> WalkState {
    let root = st.stack.last();
    let rest = st.stack.drop_last();
    match st.marks[root as int] {
        Mark::Unseen => {
            let marks = st.marks.update(root as int, Mark::Open);
            let anc = effective_ancestors(commits, root);
            WalkState {
                stack: if commits[root as int].recurse {
                    push_unseen(rest.push(root), marks, anc, 0)
                } else {
                    rest.push(root)
                },
                marks,
                nodes: st.nodes,
                adj: st.adj,
            }
        },
        Mark::Open => WalkState {
            stack: rest,
            marks: st.marks.update(root as int, Mark::Done(st.nodes.len() as usize)),
            nodes: st.nodes.push(root),
            adj: st.adj.push(recorded_parents(commits, st.marks, root)),
        },
        Mark::Done(_) => WalkState { stack: rest, marks: st.marks, nodes: st.nodes, adj: st.adj },
    }
}

/// What is left to do with the marked commits: two steps for an unseen
/// one, one for an open one.
pub open spec fn weight(marks: Seq<Mark>) -> int
    decreases marks.len(),
{
    if marks.len() == 0 {
        0
    } else {
        weight(marks.drop_last()) + (match marks.last() {
            Mark::Unseen => 2int,
            Mark::Open => 1int,
            Mark::Done(_) => 0int,
        })
    }
}

/// The walk's state fits the table: a mark for every commit, and every
/// commit on the stack in the table.
pub open spec fn walk_ok(commits: Seq<CommitInfo>, st: WalkState) -> bool {
    &&& table_wf(commits)
    &&& st.marks.len() == commits.len()
    &&& forall|i: int| 0 <= i < st.stack.len() ==> (#[trigger] st.stack[i]) < commits.len()
}

/// A changed mark changes the weight by the difference of the two marks.
pub proof fn lemma_weight_update(marks: Seq<Mark>, i: int, m: Mark)
    requires
        0 <= i < marks.len(),
    ensures
        weight(marks.update(i, m)) == weight(marks) - weight(seq![marks[i]]) + weight(seq![m]),
        weight(marks) >= 0,
    decreases marks.len(),
{
    assert(seq![m].drop_last() =~= Seq::<Mark>::empty());
    assert(seq![marks[i]].drop_last() =~= Seq::<Mark>::empty());
    if i == marks.len() - 1 {
        assert(marks.update(i, m).drop_last() =~= marks.drop_last());
        lemma_weight_nonneg(marks.drop_last());
    } else {
        assert(marks.update(i, m).drop_last() =~= marks.drop_last().update(i, m));
        lemma_weight_update(marks.drop_last(), i, m);
    }
}

/// A weight is not negative.
pub proof fn lemma_weight_nonneg(marks: Seq<Mark>)
    ensures
        weight(marks) >= 0,
    decreases marks.len(),
{
    if marks.len() > 0 {
        lemma_weight_nonneg(marks.drop_last());
    }
}

/// Pushing ancestors that stand in the table keeps the stack in the
/// table.
pub proof fn lemma_push_unseen(stack: Seq<usize>, marks: Seq<Mark>, anc: Seq<usize>, j: int, n: int)
    requires
        0 <= j <= anc.len(),
        forall|i: int| 0 <= i < stack.len() ==> (#[trigger] stack[i]) < n,
        forall|i: int| 0 <= i < anc.len() ==> (#[trigger] anc[i]) < n,
    ensures
        forall|i: int|
            0 <= i < push_unseen(stack, marks, anc, j).len() ==> (#[trigger] push_unseen(
                stack,
                marks,
                anc,
                j,
            )[i]) < n,
    decreases anc.len() - j,
{
    if j < anc.len() {
        lemma_push_unseen(stack, marks, anc, j + 1, n);
        let rest = push_unseen(stack, marks, anc, j + 1);
        let all = push_unseen(stack, marks, anc, j);
        assert forall|i: int| 0 <= i < all.len() implies (#[trigger] all[i]) < n by {
            if i < rest.len() {
                assert(all[i] == rest[i]);
            } else {
                assert(all[i] == anc[j]);
            }
        }
    }
}

/// A step keeps the state fitting and brings the walk nearer its end.
pub proof fn lemma_walk_step(commits: Seq<CommitInfo>, st: WalkState)
    requires
        walk_ok(commits, st),
        st.stack.len() > 0,
    ensures
        walk_ok(commits, walk_step(commits, st)),
        weight(walk_step(commits, st).marks) < weight(st.marks) || (weight(
            walk_step(commits, st).marks,
        ) == weight(st.marks) && walk_step(commits, st).stack.len() < st.stack.len()),
        weight(walk_step(commits, st).marks) >= 0,
{
    let root = st.stack.last();
    let rest = st.stack.drop_last();
    assert(st.stack[st.stack.len() - 1] < commits.len());
    assert(forall|i: int| 0 <= i < rest.len() ==> rest[i] == st.stack[i]);
    lemma_weight_nonneg(st.marks);
    lemma_weight_nonneg(walk_step(commits, st).marks);
    match st.marks[root as int] {
        Mark::Unseen => {
            let marks = st.marks.update(root as int, Mark::Open);
            lemma_weight_update(st.marks, root as int, Mark::Open);
            assert(seq![Mark::Open].drop_last() =~= Seq::<Mark>::empty());
            assert(seq![Mark::Unseen].drop_last() =~= Seq::<Mark>::empty());
            let anc = effective_ancestors(commits, root);
            crate::commits::lemma_effective_from(commits, root, seq![root], root as int);
            lemma_push_unseen(rest.push(root), marks, anc, 0, commits.len() as int);
        },
        Mark::Open => {
            let m = Mark::Done(st.nodes.len() as usize);
            lemma_weight_update(st.marks, root as int, m);
            assert(seq![m].drop_last() =~= Seq::<Mark>::empty());
            assert(seq![Mark::Open].drop_last() =~= Seq::<Mark>::empty());
        },
        Mark::Done(_) => {},
    }
}

/// The state in which the walk ends.
pub open spec fn walk_run(commits: Seq<CommitInfo>, st: WalkState) -> WalkState
    decreases weight(st.marks), st.stack.len(),
    when walk_ok(commits, st)
{
    if st.stack.len() == 0 {
        st
    } else {
        proof {
            lemma_walk_step(commits, st);
        }
        walk_run(commits, walk_step(commits, st))
    }
}

/// The state in which the walk starts from `head`.
pub open spec fn walk_start(commits: Seq<CommitInfo>, head: usize) -> WalkState {
    WalkState {
        stack: seq![head],
        marks: Seq::new(commits.len(), |i: int| Mark::Unseen),
        nodes: Seq::empty(),
        adj: Seq::empty(),
    }
}

/// The nodes and marks agree, and every recorded parent is an earlier
/// node.
pub open spec fn graph_inv(st: WalkState) -> bool {
    &&& st.adj.len() == st.nodes.len()
    &&& forall|i: int|
        0 <= i < st.nodes.len() ==> (#[trigger] st.nodes[i]) < st.marks.len()
            && st.marks[st.nodes[i] as int] == Mark::Done(i as usize)
    &&& forall|x: int|
        0 <= x < st.marks.len() ==> (#[trigger] st.marks[x] matches Mark::Done(i) ==> i
            < st.nodes.len() && st.nodes[i as int] == x)
    &&& forall|i: int, j: int|
        0 <= i < st.adj.len() && 0 <= j < st.adj[i].len() ==> (#[trigger] st.adj[i][j]) < i
    &&& forall|i: int| 0 <= i < st.adj.len() ==> strictly_ascending(#[trigger] st.adj[i])
}

/// The finished among commits of the table are nodes that exist.
pub proof fn lemma_done_places(marks: Seq<Mark>, sorted: Seq<usize>, j: int, nodes: Seq<usize>)
    requires
        0 <= j <= sorted.len(),
        forall|i: int| 0 <= i < sorted.len() ==> (#[trigger] sorted[i]) < marks.len(),
        forall|x: int|
            0 <= x < marks.len() ==> (#[trigger] marks[x] matches Mark::Done(i) ==> i < nodes.len()
                && nodes[i as int] == x),
    ensures
        forall|i: int|
            0 <= i < done_places(marks, sorted, j).len() ==> (#[trigger] done_places(
                marks,
                sorted,
                j,
            )[i]) < nodes.len(),
    decreases j,
{
    if j > 0 {
        lemma_done_places(marks, sorted, j - 1, nodes);
        assert(sorted[j - 1] < marks.len());
        let rest = done_places(marks, sorted, j - 1);
        let all = done_places(marks, sorted, j);
        assert forall|i: int| 0 <= i < all.len() implies (#[trigger] all[i]) < nodes.len() by {
            if i < rest.len() {
                assert(all[i] == rest[i]);
            } else {
                assert(marks[sorted[j - 1] as int] matches Mark::Done(node) && all[i] == node);
            }
        }
    }
}

/// A step keeps nodes and marks in agreement.
pub proof fn lemma_walk_step_inv(commits: Seq<CommitInfo>, st: WalkState)
    requires
        walk_ok(commits, st),
        graph_inv(st),
        st.stack.len() > 0,
        st.nodes.len() <= usize::MAX,
    ensures
        graph_inv(walk_step(commits, st)),
        walk_step(commits, st).nodes.len() <= st.nodes.len() + 1,
{
    let root = st.stack.last();
    assert(st.stack[st.stack.len() - 1] < commits.len());
    let next = walk_step(commits, st);
    match st.marks[root as int] {
        Mark::Unseen => {
            assert forall|x: int| 0 <= x < next.marks.len() implies (#[trigger] next.marks[x] matches Mark::Done(
                i,
            ) ==> i < next.nodes.len() && next.nodes[i as int] == x) by {
                if x != root {
                    assert(next.marks[x] == st.marks[x]);
                }
            }
        },
        Mark::Open => {
            let anc = effective_ancestors(commits, root);
            crate::commits::lemma_effective_from(commits, root, seq![root], root as int);
            lemma_done_places(st.marks, anc, anc.len() as int, st.nodes);
            let done = done_places(st.marks, anc, anc.len() as int);
            lemma_ascending_bound(done, st.nodes.len() as int);
            lemma_ascending(done, done.len() as int);
            assert forall|i: int| 0 <= i < next.nodes.len() implies (#[trigger] next.nodes[i])
                < next.marks.len() && next.marks[next.nodes[i] as int] == Mark::Done(
                i as usize,
            ) by {
                if i < st.nodes.len() {
                    assert(st.marks[st.nodes[i] as int] == Mark::Done(i as usize));
                }
            }
            assert forall|x: int| 0 <= x < next.marks.len() implies (#[trigger] next.marks[x] matches Mark::Done(
                i,
            ) ==> i < next.nodes.len() && next.nodes[i as int] == x) by {
                if x != root {
                    assert(next.marks[x] == st.marks[x]);
                }
            }
            assert forall|i: int, j: int|
                0 <= i < next.adj.len() && 0 <= j < next.adj[i].len() implies (
            #[trigger] next.adj[i][j]) < i by {
                if i < st.adj.len() {
                    assert(next.adj[i] == st.adj[i]);
                }
            }
            assert forall|i: int| 0 <= i < next.adj.len() implies strictly_ascending(
                #[trigger] next.adj[i],
            ) by {
                if i < st.adj.len() {
                    assert(next.adj[i] == st.adj[i]);
                }
            }
        },
        Mark::Done(_) => {},
    }
}

/// The recorded parents of each node.
pub open spec fn adj_view(s: Seq<Vec<usize>>) -> Seq<Seq<usize>> {
    Seq::new(s.len(), |i: int| s[i]@)
}

/// Puts the nodes of a list into ascending order, each once.
pub fn sorted_nodes(list: &Vec<usize>) -> (r: Vec<usize>)
    ensures
        r@ == ascending(list@, list@.len() as int),
{
    let mut out: Vec<usize> = Vec::new();
    let mut i: usize = 0;
    while i < list.len()
        invariant
            i <= list@.len(),
            out@ == ascending(list@, i as int),
        decreases list.len() - i,
    {
        let x = list[i];
        let n = out.len();
        let ghost before = out@;
        let mut at: usize = n;
        while at > 0 && out[at - 1] >= x
            invariant
                at <= n,
                n == out@.len(),
                out@ == before,
                place_in(before, x, n as int) == place_in(before, x, at as int),
            decreases at,
        {
            at -= 1;
        }
        if at < n && out[at] == x {
        } else {
            out.insert(at, x);
            assert(out@ =~= with_node(before, x));
        }
        i += 1;
    }
    out
}

/// The place up to which a commit's tree is needed: the last of the first
/// `n` nodes that records `p` as a parent; 0 if none does.
pub open spec fn last_child(adj: Seq<Seq<usize>>, p: usize, n: int) -> int
    decreases n,
{
    if n <= 0 {
        0
    } else if adj[n - 1].contains(p) {
        n - 1
    } else {
        last_child(adj, p, n - 1)
    }
}

/// The last use of node `p`: the last node that records it as a parent,
/// 0 if none does; for the last node, the number of nodes.
pub open spec fn last_use_of(adj: Seq<Seq<usize>>, p: int) -> int {
    if p == adj.len() - 1 {
        adj.len() as int
    } else {
        last_child(adj, p as usize, adj.len() as int)
    }
}

/// The last node that records a parent is one of the nodes looked at.
pub proof fn lemma_last_child(adj: Seq<Seq<usize>>, p: usize, n: int)
    ensures
        0 <= last_child(adj, p, n),
        n > 0 ==> last_child(adj, p, n) < n,
        n <= 0 ==> last_child(adj, p, n) == 0,
    decreases n,
{
    if n > 0 {
        lemma_last_child(adj, p, n - 1);
    }
}

/// The nodes that expire at step `s`, among those from `k` on, the later
/// node first.
pub open spec fn expired_from(last_use: Seq<usize>, s: int, k: int) -> Seq<usize>
    decreases last_use.len() - k,
{
    if k < 0 || k >= last_use.len() {
        Seq::empty()
    } else if last_use[k] == s {
        expired_from(last_use, s, k + 1).push(k as usize)
    } else {
        expired_from(last_use, s, k + 1)
    }
}

/// The nodes whose last use is step `s`, the later node first.
pub open spec fn expired_at(last_use: Seq<usize>, s: int) -> Seq<usize> {
    expired_from(last_use, s, 0)
}

/// A node expires at the step of its last use, and at no other; no node
/// expires twice at a step.
pub proof fn lemma_expired_from(last_use: Seq<usize>, s: int, k: int)
    requires
        0 <= k,
        last_use.len() <= usize::MAX,
    ensures
        forall|idx: usize|
            (#[trigger] expired_from(last_use, s, k).contains(idx)) <==> (k <= idx < last_use.len()
                && last_use[idx as int] == s),
        expired_from(last_use, s, k).no_duplicates(),
    decreases last_use.len() - k,
{
    let all = expired_from(last_use, s, k);
    if k >= last_use.len() {
    } else {
        lemma_expired_from(last_use, s, k + 1);
        let rest = expired_from(last_use, s, k + 1);
        if last_use[k] == s {
            assert(all == rest.push(k as usize));
            assert forall|idx: usize| (#[trigger] all.contains(idx)) <==> (k <= idx
                < last_use.len() && last_use[idx as int] == s) by {
                if all.contains(idx) {
                    let t = choose|t: int| 0 <= t < all.len() && all[t] == idx;
                    if t < rest.len() {
                        assert(rest[t] == idx);
                        assert(rest.contains(idx));
                    }
                }
                if k <= idx < last_use.len() && last_use[idx as int] == s {
                    if idx == k {
                        assert(all[all.len() - 1] == idx);
                    } else {
                        assert(rest.contains(idx));
                        let t = choose|t: int| 0 <= t < rest.len() && rest[t] == idx;
                        assert(all[t] == idx);
                    }
                }
            }
            assert(!rest.contains(k as usize));
            assert forall|a: int, b: int| 0 <= a < all.len() && 0 <= b < all.len() && a != b implies all[a]
                != all[b] by {
                if a == rest.len() {
                    assert(rest[b] == all[b]);
                    assert(rest.contains(all[b]));
                } else if b == rest.len() {
                    assert(rest[a] == all[a]);
                    assert(rest.contains(all[a]));
                } else {
                    assert(rest[a] != rest[b]);
                }
            }
        } else {
            assert(all == rest);
            assert forall|idx: usize| (#[trigger] all.contains(idx)) <==> (k <= idx
                < last_use.len() && last_use[idx as int] == s) by {
                assert(rest.contains(idx) <==> (k + 1 <= idx < last_use.len()
                    && last_use[idx as int] == s));
            }
        }
    }
}

/// Over all steps of the plan, every node but the last expires once, at
/// the step of its last use, and the last node never: its last use is set
/// behind the last step.
pub proof fn lemma_plan_expires_once(adj: Seq<Seq<usize>>, last_use: Seq<usize>, idx: usize, s: int)
    requires
        last_use.len() == adj.len(),
        adj.len() <= usize::MAX,
        forall|p: int| 0 <= p < last_use.len() ==> (#[trigger] last_use[p]) == last_use_of(adj, p),
        idx < adj.len(),
        0 <= s < adj.len(),
    ensures
        expired_at(last_use, s).contains(idx) <==> last_use[idx as int] == s,
        expired_at(last_use, s).no_duplicates(),
        idx == adj.len() - 1 ==> !expired_at(last_use, s).contains(idx),
        idx < adj.len() - 1 ==> last_use[idx as int] < adj.len(),
{
    lemma_expired_from(last_use, s, 0);
    lemma_last_child(adj, idx, adj.len() as int);
    assert(last_use[idx as int] == last_use_of(adj, idx as int));
}

/// A step of the processing plan: the node to process, and the nodes
/// whose trees can be dropped once it is processed.
#[derive(Debug)]
pub struct HistoryNode {
    pub processing: usize,
    pub expired: Vec<usize>,
}

/// The commits to process, in processing order, with the parents recorded
/// for each and the step of each node's last use.
pub struct HistoryGraph {
    commits: Vec<usize>,
    adj_table: Vec<Vec<usize>>,
    last_use: Vec<usize>,
}

impl HistoryGraph {
    /// The places in the commit table of the nodes, in processing order.
    pub closed spec fn nodes(&self) -> Seq<usize> {
        self.commits@
    }

    /// For each node the nodes recorded as its parents.
    pub closed spec fn parents(&self) -> Seq<Seq<usize>> {
        adj_view(self.adj_table@)
    }

    /// For each node the step of its last use.
    pub closed spec fn last_uses(&self) -> Seq<usize> {
        self.last_use@
    }

    /// Parents and last uses are recorded for every node; every recorded
    /// parent is an earlier node, and the parents of a node are recorded
    /// in ascending order, each once; and each node's last use is the last
    /// node that records it as a parent (0 if none does), that of the
    /// last node the number of nodes.
    pub open spec fn wf(&self) -> bool {
        &&& self.parents().len() == self.nodes().len()
        &&& self.last_uses().len() == self.nodes().len()
        &&& forall|i: int, j: int|
            0 <= i < self.parents().len() && 0 <= j < self.parents()[i].len() ==> (
            #[trigger] self.parents()[i][j]) < i
        &&& forall|i: int|
            0 <= i < self.parents().len() ==> strictly_ascending(#[trigger] self.parents()[i])
        &&& forall|p: int|
            0 <= p < self.last_uses().len() ==> (#[trigger] self.last_uses()[p]) == last_use_of(
                self.parents(),
                p,
            )
    }

    /// The number of nodes.
    pub fn len(&self) -> (n: usize)
        ensures
            n == self.nodes().len(),
    {
        self.commits.len()
    }

    /// The place in the commit table of node `idx`.
    pub fn get_commit(&self, idx: usize) -> (r: Option<usize>)
        ensures
            r == (if idx < self.nodes().len() {
                Some(self.nodes()[idx as int])
            } else {
                None
            }),
    {
        if idx < self.commits.len() {
            Some(self.commits[idx])
        } else {
            None
        }
    }

    /// The nodes recorded as parents of node `idx`.
    pub fn get_parent_idx(&self, idx: usize) -> (r: Option<&[usize]>)
        ensures
            match r {
                Some(p) => idx < self.parents().len() && p@ == self.parents()[idx as int],
                None => idx >= self.parents().len(),
            },
    {
        if idx < self.adj_table.len() {
            Some(self.adj_table[idx].as_slice())
        } else {
            None
        }
    }

    /// The places in the commit table of the parents of node `idx`; none
    /// for an `idx` that is no node.
    pub fn get_parent_commits(&self, idx: usize) -> (r: Vec<usize>)
        requires
            self.wf(),
        ensures
            idx >= self.nodes().len() ==> r@.len() == 0,
            idx < self.nodes().len() ==> r@.len() == self.parents()[idx as int].len() && forall|
                j: int,
            |
                0 <= j < r@.len() ==> (#[trigger] r@[j]) == self.nodes()[self.parents()[idx as int][j] as int],
    {
        let mut ret: Vec<usize> = Vec::new();
        if idx < self.adj_table.len() {
            let row = &self.adj_table[idx];
            let mut j: usize = 0;
            while j < row.len()
                invariant
                    j <= row@.len(),
                    idx < self.nodes().len(),
                    self.wf(),
                    row@ == self.parents()[idx as int],
                    ret@.len() == j,
                    forall|t: int|
                        0 <= t < j ==> (#[trigger] ret@[t]) == self.nodes()[row@[t] as int],
                decreases row.len() - j,
            {
                let pid = row[j];
                assert(self.parents()[idx as int][j as int] < idx);
                ret.push(self.commits[pid]);
                j += 1;
            }
        }
        ret
    }

    /// Sets each node's last use.
    fn compute_last_use_array(&mut self)
        requires
            old(self).parents().len() == old(self).nodes().len(),
            forall|i: int, j: int|
                0 <= i < old(self).parents().len() && 0 <= j < old(self).parents()[i].len() ==> (
                #[trigger] old(self).parents()[i][j]) < i,
            forall|i: int|
                0 <= i < old(self).parents().len() ==> strictly_ascending(
                    #[trigger] old(self).parents()[i],
                ),
        ensures
            final(self).nodes() == old(self).nodes(),
            final(self).parents() == old(self).parents(),
            final(self).wf(),
    {
        let n = self.adj_table.len();
        let ghost adj = self.parents();
        let mut last_use: Vec<usize> = vec![0usize; n];
        let mut i: usize = 0;
        proof {
            assert forall|p: int| 0 <= p < n implies (#[trigger] last_use@[p]) == last_child(
                adj,
                p as usize,
                0,
            ) by {}
        }
        while i < n
            invariant
                i <= n,
                n == self.adj_table@.len(),
                adj == self.parents(),
                adj.len() == n,
                last_use@.len() == n,
                forall|a: int, b: int|
                    0 <= a < adj.len() && 0 <= b < adj[a].len() ==> (#[trigger] adj[a][b]) < a,
                forall|p: int|
                    0 <= p < n ==> (#[trigger] last_use@[p]) == last_child(adj, p as usize, i as int),
            decreases n - i,
        {
            let row = &self.adj_table[i];
            assert(row@ == adj[i as int]);
            let mut j: usize = 0;
            assert(row@.take(0) =~= Seq::<usize>::empty());
            while j < row.len()
                invariant
                    j <= row@.len(),
                    i < n,
                    adj.len() == n,
                    last_use@.len() == n,
                    row@ == adj[i as int],
                    forall|b: int| 0 <= b < row@.len() ==> (#[trigger] row@[b]) < i,
                    forall|p: int|
                        0 <= p < n ==> (#[trigger] last_use@[p]) == (if row@.take(j as int).contains(
                            p as usize,
                        ) {
                            i as int
                        } else {
                            last_child(adj, p as usize, i as int)
                        }),
                decreases row.len() - j,
            {
                let pid = row[j];
                assert(row@[j as int] < i);
                let ghost before = last_use@;
                proof {
                    lemma_last_child(adj, pid, i as int);
                }
                if last_use[pid] < i {
                    last_use[pid] = i;
                }
                proof {
                    let old_part = row@.take(j as int);
                    let new_part = row@.take(j + 1);
                    assert(new_part =~= old_part.push(pid));
                    assert forall|p: int| 0 <= p < n implies (#[trigger] last_use@[p]) == (if new_part.contains(
                        p as usize,
                    ) {
                        i as int
                    } else {
                        last_child(adj, p as usize, i as int)
                    }) by {
                        if p == pid {
                            assert(new_part[j as int] == pid);
                        } else {
                            assert(last_use@[p] == before[p]);
                            if old_part.contains(p as usize) {
                                let t = choose|t: int| 0 <= t < old_part.len() && old_part[t] == p as usize;
                                assert(new_part[t] == p as usize);
                            }
                            if new_part.contains(p as usize) {
                                let t = choose|t: int| 0 <= t < new_part.len() && new_part[t] == p as usize;
                                assert(t < j);
                                assert(old_part[t] == p as usize);
                            }
                        }
                    }
                }
                j += 1;
            }
            assert(row@.take(j as int) =~= row@);
            i += 1;
        }
        if n > 0 {
            last_use[n - 1] = n;
        }
        self.last_use = last_use;
    }

    /// The processing plan: step `s` processes node `s`, and then drops
    /// the trees of the nodes whose last use is step `s`, the later node
    /// first.
    pub fn plan(&self) -> (ret: Vec<HistoryNode>)
        requires
            self.wf(),
        ensures
            ret@.len() == self.nodes().len(),
            forall|s: int|
                0 <= s < ret@.len() ==> (#[trigger] ret@[s]).processing == s && ret@[s].expired@
                    == expired_at(self.last_uses(), s),
    {
        let n = self.commits.len();
        let mut ret: Vec<HistoryNode> = Vec::new();
        let mut s: usize = 0;
        while s < n
            invariant
                s <= n,
                ret@.len() == s,
                forall|t: int|
                    0 <= t < s ==> (#[trigger] ret@[t]).processing == t && ret@[t].expired@
                        == Seq::<usize>::empty(),
            decreases n - s,
        {
            ret.push(HistoryNode { processing: s, expired: Vec::new() });
            s += 1;
        }
        let mut k: usize = n;
        while k > 0
            invariant
                k <= n,
                n == self.last_use@.len(),
                ret@.len() == n,
                forall|t: int|
                    0 <= t < n ==> (#[trigger] ret@[t]).processing == t && ret@[t].expired@
                        == expired_from(self.last_use@, t, k as int),
            decreases k,
        {
            k -= 1;
            let at = self.last_use[k];
            if at < n {
                let ghost before = ret@;
                ret[at].expired.push(k);
                assert forall|t: int| 0 <= t < n implies (#[trigger] ret@[t]).processing == t
                    && ret@[t].expired@ == expired_from(self.last_use@, t, k as int) by {
                    if t != at {
                        assert(ret@[t] == before[t]);
                    }
                }
            }
        }
        ret
    }
}

/// The order of processing that the walk from `head` gives: the places
/// of the nodes, and for each node the nodes recorded as its parents.
pub open spec fn walk_result(commits: Seq<CommitInfo>, head: usize) -> WalkState {
    walk_run(commits, walk_start(commits, head))
}

/// A commit of a table, or the state before any commit.
#[derive(Clone, Copy)]
pub struct GitCommit<'a> {
    pub table: &'a CommitTable,
    pub place: Option<usize>,
}

impl<'a> GitCommit<'a> {
    /// The table is well-formed and holds the commit.
    pub open spec fn wf(&self) -> bool {
        &&& self.table.wf()
        &&& self.place matches Some(p) ==> p < self.table@.len()
    }

    /// The state before any commit, in the same table.
    pub fn scratch(&self) -> (r: GitCommit<'a>)
        ensures
            r.table == self.table,
            r.place is None,
    {
        GitCommit { table: self.table, place: None }
    }

    /// The commit's time in seconds since the epoch.
    pub fn get_timestamp(&self) -> (r: Option<i64>)
        requires
            self.wf(),
        ensures
            r == (match self.place {
                Some(p) => Some(self.table@[p as int].timestamp),
                None => None,
            }),
    {
        match self.place {
            Some(p) => Some(self.table.get(p).timestamp),
            None => None,
        }
    }

    /// The name under which the commit's author is registered: the
    /// author's name, or `"<Unknown>"` where there is no commit or no
    /// name.
    pub open spec fn spec_author_name(&self) -> Seq<char> {
        match self.place {
            Some(p) => match self.table@[p as int].author {
                Some(name) => name@,
                None => crate::author::UNKNOWN_AUTHOR@,
            },
            None => crate::author::UNKNOWN_AUTHOR@,
        }
    }

    /// The name under which the commit's author is registered.
    pub fn author_name(&self) -> (r: String)
        requires
            self.wf(),
        ensures
            r@ == self.spec_author_name(),
    {
        match self.place {
            Some(p) => match &self.table.get(p).author {
                Some(name) => name.clone(),
                None => crate::author::UNKNOWN_AUTHOR.to_owned(),
            },
            None => crate::author::UNKNOWN_AUTHOR.to_owned(),
        }
    }

    /// The id of `name` in the registry, registered if it was not; `None`,
    /// and nothing registered, if the name is new and no id is free.
    pub fn get_author_by_name(&self, authors: &mut AuthorCollection, name: &str) -> (r: Option<
        u32,
    >)
        requires
            old(authors).wf(),
        ensures
            final(authors).wf(),
            r is None <==> !old(authors)@.contains(name@) && old(authors)@.len() > u32::MAX,
            r is None ==> final(authors)@ == old(authors)@,
            r matches Some(id) ==> id < final(authors)@.len() && final(authors)@[id as int]
                == name@,
            old(authors)@.contains(name@) ==> final(authors)@ == old(authors)@,
            r is Some && !old(authors)@.contains(name@) ==> final(authors)@ == old(authors)@.push(
                name@,
            ),
    {
        authors.try_query_id(name)
    }

    /// The id of the commit's author in the registry, registered under the
    /// author's name, or under `"<Unknown>"` where there is no commit or no
    /// name; `None`, and nothing registered, if the name is new and no id
    /// is free.
    pub fn author_id(&self, authors: &mut AuthorCollection) -> (r: Option<u32>)
        requires
            self.wf(),
            old(authors).wf(),
        ensures
            final(authors).wf(),
            r is None <==> !old(authors)@.contains(self.spec_author_name()) && old(authors)@.len()
                > u32::MAX,
            r is None ==> final(authors)@ == old(authors)@,
            r matches Some(id) ==> id < final(authors)@.len() && final(authors)@[id as int]
                == self.spec_author_name(),
            old(authors)@.contains(self.spec_author_name()) ==> final(authors)@ == old(authors)@,
            r is Some && !old(authors)@.contains(self.spec_author_name()) ==> final(authors)@
                == old(authors)@.push(self.spec_author_name()),
    {
        let name = self.author_name();
        authors.try_query_id(name.as_str())
    }

    /// Whether the commit starts the history: it has no parent, or no
    /// effective ancestor; so does the state before any commit.
    pub fn is_initial_commit(&self) -> (r: bool)
        requires
            self.wf(),
        ensures
            r == (match self.place {
                Some(p) => effective_ancestors(self.table@, p).len() == 0,
                None => true,
            }),
    {
        match self.place {
            Some(p) => {
                let anc = self.table.find_effective_ancestors(p);
                anc.len() == 0
            },
            None => true,
        }
    }

    /// Walks the history from this commit and gives the graph to
    /// process: the commits that the walk finishes, in the order in which
    /// it finishes them, with the parents recorded for each. The commit
    /// itself is the last node. A node has recorded just the effective
    /// ancestors of its commit, or none if the walk stopped at the commit.
    /// From the state before any commit the graph is empty.
    pub fn topological_sort(self) -> (g: HistoryGraph)
        requires
            self.wf(),
        ensures
            g.wf(),
            match self.place {
                Some(head) => g.nodes() == walk_result(self.table@, head).nodes && g.parents()
                    == walk_result(self.table@, head).adj && g.nodes().len() > 0
                    && g.nodes().last() == head && all_recorded(
                    self.table@,
                    walk_result(self.table@, head),
                ),
                None => g.nodes().len() == 0,
            },
            forall|i: int| 0 <= i < g.nodes().len() ==> (#[trigger] g.nodes()[i]) < self.table@.len(),
            g.nodes().no_duplicates(),
    {
        let head = match self.place {
            Some(head) => head,
            None => {
                let mut g = HistoryGraph {
                    commits: Vec::new(),
                    adj_table: Vec::new(),
                    last_use: Vec::new(),
                };
                g.compute_last_use_array();
                return g;
            },
        };
        let table = self.table;
        let n = table.len();
        let ghost commits = table@;
        proof {
            table.lemma_wf();
        }
        let mut marks: Vec<Mark> = Vec::new();
        let mut m: usize = 0;
        while m < n
            invariant
                m <= n,
                marks@.len() == m,
                forall|i: int| 0 <= i < m ==> marks@[i] == Mark::Unseen,
            decreases n - m,
        {
            marks.push(Mark::Unseen);
            m += 1;
        }
        let mut stack: Vec<usize> = Vec::new();
        stack.push(head);
        let mut nodes: Vec<usize> = Vec::new();
        let mut adj_table: Vec<Vec<usize>> = Vec::new();
        proof {
            let st = WalkState {
                stack: stack@,
                marks: marks@,
                nodes: nodes@,
                adj: adj_view(adj_table@),
            };
            assert(st.stack =~= seq![head]);
            assert(st.marks =~= Seq::new(commits.len(), |i: int| Mark::Unseen));
            assert(st.adj =~= Seq::<Seq<usize>>::empty());
            assert(st == walk_start(commits, head));
        }
        while stack.len() > 0
            invariant
                commits == table@,
                table.wf(),
                table_wf(commits),
                n == commits.len(),
                walk_ok(
                    commits,
                    WalkState {
                        stack: stack@,
                        marks: marks@,
                        nodes: nodes@,
                        adj: adj_view(adj_table@),
                    },
                ),
                graph_inv(
                    WalkState {
                        stack: stack@,
                        marks: marks@,
                        nodes: nodes@,
                        adj: adj_view(adj_table@),
                    },
                ),
                walk_result(commits, head) == walk_run(
                    commits,
                    WalkState {
                        stack: stack@,
                        marks: marks@,
                        nodes: nodes@,
                        adj: adj_view(adj_table@),
                    },
                ),
            decreases weight(marks@), stack.len(),
        {
            let ghost st = WalkState {
                stack: stack@,
                marks: marks@,
                nodes: nodes@,
                adj: adj_view(adj_table@),
            };
            proof {
                assert(nodes@.len() == nodes.len());
                lemma_walk_step(commits, st);
                lemma_walk_step_inv(commits, st);
                assert(stack@[stack@.len() - 1] < n);
            }
            let root = stack.pop().unwrap();
            match marks[root] {
                Mark::Unseen => {
                    marks[root] = Mark::Open;
                    stack.push(root);
                    if table.get(root).recurse {
                        let anc = table.find_effective_ancestors(root);
                        let ghost base = stack@;
                        let mut j: usize = anc.len();
                        while j > 0
                            invariant
                                j <= anc@.len(),
                                marks@.len() == n,
                                forall|i: int| 0 <= i < anc@.len() ==> (#[trigger] anc@[i]) < n,
                                stack@ == push_unseen(base, marks@, anc@, j as int),
                            decreases j,
                        {
                            j -= 1;
                            let p = anc[j];
                            assert(anc@[j as int] < n);
                            if let Mark::Unseen = marks[p] {
                                stack.push(p);
                            }
                        }
                    }
                },
                Mark::Open => {
                    let mut adj_node: Vec<usize> = Vec::new();
                    if table.get(root).recurse {
                        let anc = table.find_effective_ancestors(root);
                        let mut done: Vec<usize> = Vec::new();
                        let mut j: usize = 0;
                        while j < anc.len()
                            invariant
                                j <= anc@.len(),
                                marks@.len() == n,
                                forall|i: int| 0 <= i < anc@.len() ==> (#[trigger] anc@[i]) < n,
                                done@ == done_places(marks@, anc@, j as int),
                            decreases anc.len() - j,
                        {
                            let p = anc[j];
                            assert(anc@[j as int] < n);
                            if let Mark::Done(node) = marks[p] {
                                done.push(node);
                            }
                            j += 1;
                        }
                        adj_node = sorted_nodes(&done);
                    }
                    assert(adj_node@ =~= recorded_parents(commits, marks@, root));
                    marks[root] = Mark::Done(nodes.len());
                    nodes.push(root);
                    let ghost prev = adj_table@;
                    adj_table.push(adj_node);
                    assert(adj_view(adj_table@) =~= adj_view(prev).push(adj_node@));
                },
                Mark::Done(_) => {},
            }
            proof {
                let now = WalkState {
                    stack: stack@,
                    marks: marks@,
                    nodes: nodes@,
                    adj: adj_view(adj_table@),
                };
                assert(now.stack =~= walk_step(commits, st).stack);
                assert(now == walk_step(commits, st));
            }
        }
        proof {
            let end = WalkState {
                stack: stack@,
                marks: marks@,
                nodes: nodes@,
                adj: adj_view(adj_table@),
            };
            assert(walk_run(commits, end) == end);
            assert(nodes@.len() == nodes.len());
            lemma_walk_records(commits, head);
            assert forall|i: int, j: int|
                0 <= i < nodes@.len() && 0 <= j < nodes@.len() && i != j implies nodes@[i]
                != nodes@[j] by {
                assert(marks@[nodes@[i] as int] == Mark::Done(i as usize));
                assert(marks@[nodes@[j] as int] == Mark::Done(j as usize));
            }
        }
        let mut g = HistoryGraph { commits: nodes, adj_table, last_use: Vec::new() };
        g.compute_last_use_array();
        g
    }
}

} // verus!
