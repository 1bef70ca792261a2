//! What the walk through the history records: for every commit into which
//! it goes on, just the effective ancestors; and the head as the last
//! node.

use crate::commits::{effective_ancestors, lemma_effective_from, CommitInfo};
use crate::history::{
    ascending, done_places, graph_inv, lemma_ascending, lemma_walk_step, lemma_walk_step_inv,
    push_unseen, walk_ok, walk_result, walk_run, walk_start, walk_step, weight, Mark, WalkState,
};
use vstd::prelude::*;

verus! {

/// The number of commits that are not finished.
pub open spec fn pending(marks: Seq<Mark>) -> int
    decreases marks.len(),
{
    if marks.len() == 0 {
        0
    } else {
        pending(marks.drop_last()) + (if marks.last() is Done {
            0int
        } else {
            1int
        })
    }
}

/// A changed mark changes the number of unfinished commits by the
/// difference of the two marks.
pub proof fn lemma_pending_update(marks: Seq<Mark>, i: int, m: Mark)
    requires
        0 <= i < marks.len(),
    ensures
        pending(marks.update(i, m)) == pending(marks) - pending(seq![marks[i]]) + pending(seq![m]),
        0 <= pending(marks) <= marks.len(),
    decreases marks.len(),
{
    assert(seq![m].drop_last() =~= Seq::<Mark>::empty());
    assert(seq![marks[i]].drop_last() =~= Seq::<Mark>::empty());
    lemma_pending_bounds(marks.drop_last());
    if i == marks.len() - 1 {
        assert(marks.update(i, m).drop_last() =~= marks.drop_last());
    } else {
        assert(marks.update(i, m).drop_last() =~= marks.drop_last().update(i, m));
        lemma_pending_update(marks.drop_last(), i, m);
    }
}

/// There are no more unfinished commits than commits.
pub proof fn lemma_pending_bounds(marks: Seq<Mark>)
    ensures
        0 <= pending(marks) <= marks.len(),
    decreases marks.len(),
{
    if marks.len() > 0 {
        lemma_pending_bounds(marks.drop_last());
    }
}

/// Before the walk every commit is unfinished.
pub proof fn lemma_pending_start(n: nat)
    ensures
        pending(Seq::new(n, |i: int| Mark::Unseen)) == n,
    decreases n,
{
    if n > 0 {
        lemma_pending_start((n - 1) as nat);
        assert(Seq::new(n, |i: int| Mark::Unseen).drop_last() =~= Seq::new(
            (n - 1) as nat,
            |i: int| Mark::Unseen,
        ));
    }
}

/// The stack holds at `q` an open commit, and does not hold it again
/// above.
pub open spec fn active(st: WalkState, q: int) -> bool {
    &&& 0 <= q < st.stack.len()
    &&& st.marks[st.stack[q] as int] is Open
    &&& forall|r: int| q < r < st.stack.len() ==> st.stack[r] != st.stack[q]
}

/// The commit `a` is finished, or stands on the stack above `q`: it will
/// be finished before the stack comes down to `q`.
pub open spec fn settled(st: WalkState, q: int, a: usize) -> bool {
    st.marks[a as int] is Done || holds_from(st.stack, q + 1, a)
}

/// The commits that node `i` has recorded as parents.
pub open spec fn recorded_commits(st: WalkState, i: int) -> Seq<usize> {
    Seq::new(st.adj[i].len(), |k: int| st.nodes[st.adj[i][k] as int])
}

/// Node `i` has recorded just the effective ancestors of its commit, if
/// the walk went on into the commit, and nothing if it did not.
pub open spec fn node_recorded(commits: Seq<CommitInfo>, st: WalkState, i: int) -> bool {
    let c = st.nodes[i];
    if commits[c as int].recurse {
        forall|a: usize|
            effective_ancestors(commits, c).contains(a) <==> (#[trigger] recorded_commits(
                st,
                i,
            ).contains(a))
    } else {
        st.adj[i].len() == 0
    }
}

/// Every node has recorded what it should.
pub open spec fn all_recorded(commits: Seq<CommitInfo>, st: WalkState) -> bool {
    forall|i: int| 0 <= i < st.nodes.len() ==> #[trigger] node_recorded(commits, st, i)
}

/// The state is one of a walk, depth first, from `head`: the head lies at
/// the bottom of the stack until it is finished last; every open commit
/// stands on the stack, below commits that stand behind it in the table;
/// and the effective ancestors of an open commit into which the walk
/// went on are finished or stand above it.
pub open spec fn descent_inv(commits: Seq<CommitInfo>, head: usize, st: WalkState) -> bool {
    &&& st.nodes.len() + pending(st.marks) == st.marks.len()
    &&& st.stack.len() > 0 ==> st.stack[0] == head && !(st.marks[head as int] is Done)
    &&& forall|q: int| 1 <= q < st.stack.len() ==> (#[trigger] st.stack[q]) > head
    &&& st.stack.len() == 0 ==> st.nodes.len() > 0 && st.nodes.last() == head
    &&& forall|x: int|
        0 <= x < st.marks.len() && (#[trigger] st.marks[x]) is Open ==> exists|q: int|
            #[trigger] active(st, q) && st.stack[q] == x
    &&& forall|q: int, r: int|
        #[trigger] active(st, q) && q < r < st.stack.len() ==> st.stack[q] < (
        #[trigger] st.stack[r])
    &&& forall|q: int, j: int|
        active(st, q) && commits[st.stack[q] as int].recurse && 0 <= j < effective_ancestors(
            commits,
            st.stack[q],
        ).len() ==> #[trigger] settled(st, q, effective_ancestors(commits, st.stack[q])[j])
}

/// The commit `a` is one of the list from `j` on, and unseen.
pub open spec fn unseen_from(marks: Seq<Mark>, anc: Seq<usize>, j: int, a: usize) -> bool {
    exists|t: int| j <= t < anc.len() && anc[t] == a && marks[a as int] is Unseen
}

/// The stack holds the commit `a` at `from` or above.
pub open spec fn holds_from(stack: Seq<usize>, from: int, a: usize) -> bool {
    exists|r: int| from <= r < stack.len() && stack[r] == a
}

/// What `push_unseen` gives: the stack, and above it just the unseen
/// among the ancestors from `j` on.
pub proof fn lemma_pushed(stack: Seq<usize>, marks: Seq<Mark>, anc: Seq<usize>, j: int)
    requires
        0 <= j <= anc.len(),
    ensures
        push_unseen(stack, marks, anc, j).len() >= stack.len(),
        forall|i: int|
            0 <= i < stack.len() ==> (#[trigger] push_unseen(stack, marks, anc, j)[i]) == stack[i],
        forall|r: int|
            stack.len() <= r < push_unseen(stack, marks, anc, j).len() ==> unseen_from(
                marks,
                anc,
                j,
                #[trigger] push_unseen(stack, marks, anc, j)[r],
            ),
        forall|t: int|
            j <= t < anc.len() && marks[anc[t] as int] is Unseen ==> holds_from(
                push_unseen(stack, marks, anc, j),
                stack.len() as int,
                #[trigger] anc[t],
            ),
    decreases anc.len() - j,
{
    if j < anc.len() {
        lemma_pushed(stack, marks, anc, j + 1);
        let rest = push_unseen(stack, marks, anc, j + 1);
        let all = push_unseen(stack, marks, anc, j);
        let pushes = marks[anc[j] as int] is Unseen;
        assert(all == if pushes {
            rest.push(anc[j])
        } else {
            rest
        });
        assert forall|r: int| stack.len() <= r < all.len() implies unseen_from(
            marks,
            anc,
            j,
            #[trigger] all[r],
        ) by {
            if r < rest.len() {
                assert(all[r] == rest[r]);
                assert(unseen_from(marks, anc, j + 1, rest[r]));
                let t = choose|t: int|
                    j + 1 <= t < anc.len() && anc[t] == rest[r] && marks[rest[r] as int] is Unseen;
                assert(j <= t < anc.len() && anc[t] == all[r]);
            } else {
                assert(all[r] == anc[j]);
                assert(j <= j < anc.len() && anc[j] == all[r]);
            }
        }
        assert forall|t: int| j <= t < anc.len() && marks[anc[t] as int] is Unseen implies holds_from(
            all,
            stack.len() as int,
            #[trigger] anc[t],
        ) by {
            if t == j {
                assert(all[rest.len() as int] == anc[j]);
            } else {
                assert(holds_from(rest, stack.len() as int, anc[t]));
                let r = choose|r: int| stack.len() <= r < rest.len() && rest[r] == anc[t];
                assert(all[r] == anc[t]);
            }
        }
    }
}

/// The finished among the first `j` commits of a list, as nodes.
pub proof fn lemma_done_nodes(marks: Seq<Mark>, list: Seq<usize>, j: int)
    requires
        0 <= j <= list.len(),
    ensures
        forall|y: usize|
            (#[trigger] done_places(marks, list, j).contains(y)) <==> exists|t: int|
                0 <= t < j && marks[list[t] as int] == Mark::Done(y),
    decreases j,
{
    if j > 0 {
        lemma_done_nodes(marks, list, j - 1);
        let rest = done_places(marks, list, j - 1);
        let all = done_places(marks, list, j);
        assert forall|y: usize| (#[trigger] all.contains(y)) <==> exists|t: int|
            0 <= t < j && marks[list[t] as int] == Mark::Done(y) by {
            if all.contains(y) {
                let r = choose|r: int| 0 <= r < all.len() && all[r] == y;
                if r < rest.len() {
                    assert(rest[r] == y);
                    assert(rest.contains(y));
                    let t = choose|t: int| 0 <= t < j - 1 && marks[list[t] as int] == Mark::Done(y);
                    assert(0 <= t < j && marks[list[t] as int] == Mark::Done(y));
                } else {
                    assert(marks[list[j - 1] as int] == Mark::Done(y));
                }
            }
            if exists|t: int| 0 <= t < j && marks[list[t] as int] == Mark::Done(y) {
                let t = choose|t: int| 0 <= t < j && marks[list[t] as int] == Mark::Done(y);
                if t < j - 1 {
                    assert(rest.contains(y));
                    let r = choose|r: int| 0 <= r < rest.len() && rest[r] == y;
                    assert(all[r] == y);
                } else {
                    assert(all[all.len() - 1] == y);
                }
            }
        }
    } else {
        assert forall|y: usize| !(#[trigger] done_places(marks, list, j).contains(y)) by {}
    }
}

/// Every effective ancestor of a commit stands in the table, behind the
/// commit.
pub proof fn lemma_ancestor_behind(commits: Seq<CommitInfo>, c: usize, j: int)
    requires
        crate::commits::table_wf(commits),
        c < commits.len(),
        0 <= j < effective_ancestors(commits, c).len(),
    ensures
        c < effective_ancestors(commits, c)[j] < commits.len(),
{
    lemma_effective_from(commits, c, seq![c], c as int);
}

/// A step of the walk keeps it a walk depth first.
pub proof fn lemma_step_descent(commits: Seq<CommitInfo>, head: usize, st: WalkState)
    requires
        walk_ok(commits, st),
        graph_inv(st),
        descent_inv(commits, head, st),
        st.stack.len() > 0,
    ensures
        descent_inv(commits, head, walk_step(commits, st)),
{
    let next = walk_step(commits, st);
    let t = st.stack.len() - 1;
    let root = st.stack[t];
    let rest = st.stack.drop_last();
    let anc = effective_ancestors(commits, root);
    assert(root == st.stack.last());
    assert(root < commits.len());
    lemma_effective_from(commits, root, seq![root], root as int);
    assert(forall|j: int| 0 <= j < anc.len() ==> root < (#[trigger] anc[j]) < commits.len());
    assert(seq![Mark::Unseen].drop_last() =~= Seq::<Mark>::empty());
    assert(seq![Mark::Open].drop_last() =~= Seq::<Mark>::empty());
    if t > 0 {
        assert(st.stack[t] > head);
    }
    match st.marks[root as int] {
        Mark::Unseen => {
            let base = rest.push(root);
            assert(base =~= st.stack);
            lemma_pending_update(st.marks, root as int, Mark::Open);
            if commits[root as int].recurse {
                lemma_pushed(base, next.marks, anc, 0);
            }
            assert(next.stack.len() > t);
            assert forall|i: int| 0 <= i <= t implies #[trigger] next.stack[i] == st.stack[i] by {}
            assert forall|r: int| t < r < next.stack.len() implies (#[trigger] next.stack[r]) > root
                && next.marks[next.stack[r] as int] is Unseen && anc.contains(next.stack[r]) by {
                assert(unseen_from(next.marks, anc, 0, next.stack[r]));
                let j = choose|j: int|
                    0 <= j < anc.len() && anc[j] == next.stack[r]
                        && next.marks[next.stack[r] as int] is Unseen;
                assert(root < anc[j]);
            }
            assert forall|q: int| #[trigger] active(next, q) && q < t implies active(st, q)
                && st.stack[q] != root by {
                assert(next.stack[t] == st.stack[t]);
                assert(next.stack[q] == st.stack[q]);
                assert forall|r: int| q < r < st.stack.len() implies st.stack[r] != st.stack[q] by {
                    assert(next.stack[r] == st.stack[r]);
                }
            }
            assert forall|q: int| #[trigger] active(next, q) implies q <= t by {
                if q > t {
                    assert(next.marks[next.stack[q] as int] is Unseen);
                }
            }
            assert(active(next, t)) by {
                assert(next.stack[t] == root);
            }
            assert forall|q: int| 1 <= q < next.stack.len() implies (#[trigger] next.stack[q])
                > head by {
                if q <= t {
                    assert(next.stack[q] == st.stack[q]);
                }
            }
            assert(next.stack[0] == st.stack[0]);
            assert forall|x: int|
                0 <= x < next.marks.len() && (#[trigger] next.marks[x]) is Open implies exists|
                q: int,
            | #[trigger] active(next, q) && next.stack[q] == x by {
                if x == root {
                    assert(active(next, t) && next.stack[t] == x);
                } else {
                    assert(st.marks[x] is Open);
                    let q = choose|q: int| #[trigger] active(st, q) && st.stack[q] == x;
                    assert(q < t);
                    assert(next.stack[q] == st.stack[q]);
                    assert forall|r: int| q < r < next.stack.len() implies next.stack[r]
                        != next.stack[q] by {
                        if r <= t {
                            assert(next.stack[r] == st.stack[r]);
                        } else {
                            assert(next.marks[next.stack[r] as int] is Unseen);
                        }
                    }
                    assert(active(next, q) && next.stack[q] == x);
                }
            }
            assert forall|q: int, r: int|
                #[trigger] active(next, q) && q < r < next.stack.len() implies next.stack[q] < (
            #[trigger] next.stack[r]) by {
                if q < t {
                    assert(active(st, q));
                    assert(next.stack[q] == st.stack[q]);
                    assert(st.stack[q] < st.stack[t]);
                    if r <= t {
                        assert(next.stack[r] == st.stack[r]);
                        assert(st.stack[q] < st.stack[r]);
                    }
                } else {
                    assert(q == t);
                    assert(next.stack[t] == root);
                }
            }
            assert forall|q: int, j: int|
                active(next, q) && commits[next.stack[q] as int].recurse && 0 <= j
                    < effective_ancestors(commits, next.stack[q]).len() implies #[trigger] settled(
                next,
                q,
                effective_ancestors(commits, next.stack[q])[j],
            ) by {
                let a = effective_ancestors(commits, next.stack[q])[j];
                if q < t {
                    assert(active(st, q) && st.stack[q] != root);
                    assert(next.stack[q] == st.stack[q]);
                    lemma_ancestor_behind(commits, st.stack[q], j);
                    assert(settled(st, q, a));
                    if st.marks[a as int] is Done {
                        assert(next.marks[a as int] is Done);
                    } else {
                        let r = choose|r: int| q + 1 <= r < st.stack.len() && st.stack[r] == a;
                        assert(next.stack[r] == st.stack[r]);
                        assert(q + 1 <= r < next.stack.len() && next.stack[r] == a);
                    }
                } else {
                    assert(q == t);
                    assert(next.stack[t] == root);
                    assert(a == anc[j]);
                    match st.marks[a as int] {
                        Mark::Unseen => {
                            assert(next.marks[anc[j] as int] is Unseen);
                            assert(holds_from(next.stack, base.len() as int, anc[j]));
                        },
                        Mark::Open => {
                            let qa = choose|qa: int| #[trigger] active(st, qa) && st.stack[qa] == a;
                            assert(qa < t);
                            assert(st.stack[qa] < st.stack[t]);
                        },
                        Mark::Done(_) => {},
                    }
                }
            }
        },
        Mark::Open => {
            let m = Mark::Done(st.nodes.len() as usize);
            assert(seq![m].drop_last() =~= Seq::<Mark>::empty());
            lemma_pending_update(st.marks, root as int, m);
            assert forall|i: int| 0 <= i < t implies #[trigger] next.stack[i] == st.stack[i] by {}
            assert forall|q: int| #[trigger] active(next, q) implies active(st, q) && st.stack[q]
                != root by {
                assert(next.stack[q] == st.stack[q]);
                assert forall|r: int| q < r < st.stack.len() implies st.stack[r] != st.stack[q] by {
                    if r < t {
                        assert(next.stack[r] == st.stack[r]);
                    }
                }
            }
            if t == 0 {
                assert(next.nodes.last() == head);
            } else {
                assert(next.stack[0] == st.stack[0]);
            }
            assert forall|q: int| 1 <= q < next.stack.len() implies (#[trigger] next.stack[q])
                > head by {
                assert(next.stack[q] == st.stack[q]);
            }
            assert forall|x: int|
                0 <= x < next.marks.len() && (#[trigger] next.marks[x]) is Open implies exists|
                q: int,
            | #[trigger] active(next, q) && next.stack[q] == x by {
                assert(st.marks[x] is Open);
                let q = choose|q: int| #[trigger] active(st, q) && st.stack[q] == x;
                assert(q < t);
                assert(next.stack[q] == st.stack[q]);
                assert forall|r: int| q < r < next.stack.len() implies next.stack[r]
                    != next.stack[q] by {
                    assert(next.stack[r] == st.stack[r]);
                }
                assert(active(next, q) && next.stack[q] == x);
            }
            assert forall|q: int, r: int|
                #[trigger] active(next, q) && q < r < next.stack.len() implies next.stack[q] < (
            #[trigger] next.stack[r]) by {
                assert(active(st, q));
                assert(next.stack[q] == st.stack[q]);
                assert(next.stack[r] == st.stack[r]);
                assert(st.stack[q] < st.stack[r]);
            }
            assert forall|q: int, j: int|
                active(next, q) && commits[next.stack[q] as int].recurse && 0 <= j
                    < effective_ancestors(commits, next.stack[q]).len() implies #[trigger] settled(
                next,
                q,
                effective_ancestors(commits, next.stack[q])[j],
            ) by {
                let a = effective_ancestors(commits, next.stack[q])[j];
                assert(active(st, q));
                assert(next.stack[q] == st.stack[q]);
                lemma_ancestor_behind(commits, st.stack[q], j);
                assert(settled(st, q, a));
                if st.marks[a as int] is Done || a == root {
                    assert(next.marks[a as int] is Done);
                } else {
                    let r = choose|r: int| q + 1 <= r < st.stack.len() && st.stack[r] == a;
                    assert(r < t);
                    assert(next.stack[r] == st.stack[r]);
                    assert(q + 1 <= r < next.stack.len() && next.stack[r] == a);
                }
            }
        },
        Mark::Done(_) => {
            assert(t > 0);
            assert forall|i: int| 0 <= i < t implies #[trigger] next.stack[i] == st.stack[i] by {}
            assert forall|q: int| #[trigger] active(next, q) implies active(st, q) by {
                assert(next.stack[q] == st.stack[q]);
                assert forall|r: int| q < r < st.stack.len() implies st.stack[r] != st.stack[q] by {
                    if r < t {
                        assert(next.stack[r] == st.stack[r]);
                    }
                }
            }
            assert(next.stack[0] == st.stack[0]);
            assert forall|q: int| 1 <= q < next.stack.len() implies (#[trigger] next.stack[q])
                > head by {
                assert(next.stack[q] == st.stack[q]);
            }
            assert forall|x: int|
                0 <= x < next.marks.len() && (#[trigger] next.marks[x]) is Open implies exists|
                q: int,
            | #[trigger] active(next, q) && next.stack[q] == x by {
                let q = choose|q: int| #[trigger] active(st, q) && st.stack[q] == x;
                assert(q < t);
                assert(next.stack[q] == st.stack[q]);
                assert forall|r: int| q < r < next.stack.len() implies next.stack[r]
                    != next.stack[q] by {
                    assert(next.stack[r] == st.stack[r]);
                }
                assert(active(next, q) && next.stack[q] == x);
            }
            assert forall|q: int, r: int|
                #[trigger] active(next, q) && q < r < next.stack.len() implies next.stack[q] < (
            #[trigger] next.stack[r]) by {
                assert(active(st, q));
                assert(next.stack[q] == st.stack[q]);
                assert(next.stack[r] == st.stack[r]);
                assert(st.stack[q] < st.stack[r]);
            }
            assert forall|q: int, j: int|
                active(next, q) && commits[next.stack[q] as int].recurse && 0 <= j
                    < effective_ancestors(commits, next.stack[q]).len() implies #[trigger] settled(
                next,
                q,
                effective_ancestors(commits, next.stack[q])[j],
            ) by {
                let a = effective_ancestors(commits, next.stack[q])[j];
                assert(active(st, q));
                assert(next.stack[q] == st.stack[q]);
                lemma_ancestor_behind(commits, st.stack[q], j);
                assert(settled(st, q, a));
                if st.marks[a as int] is Done {
                } else {
                    let r = choose|r: int| q + 1 <= r < st.stack.len() && st.stack[r] == a;
                    assert(r < t);
                    assert(next.stack[r] == st.stack[r]);
                    assert(q + 1 <= r < next.stack.len() && next.stack[r] == a);
                }
            }
        },
    }
}

/// A step of the walk leaves what the nodes have recorded, and the node
/// that it finishes records what it should.
pub proof fn lemma_step_recorded(commits: Seq<CommitInfo>, head: usize, st: WalkState)
    requires
        walk_ok(commits, st),
        graph_inv(st),
        descent_inv(commits, head, st),
        all_recorded(commits, st),
        st.stack.len() > 0,
        st.nodes.len() <= usize::MAX,
    ensures
        all_recorded(commits, walk_step(commits, st)),
{
    let next = walk_step(commits, st);
    let t = st.stack.len() - 1;
    let root = st.stack[t];
    let n = st.nodes.len() as int;
    assert(root == st.stack.last());
    assert(root < commits.len());
    assert forall|i: int| 0 <= i < n implies #[trigger] node_recorded(commits, next, i) by {
        assert(node_recorded(commits, st, i));
        assert(next.nodes[i] == st.nodes[i]);
        assert(next.adj[i] == st.adj[i]);
        assert(recorded_commits(next, i) =~= recorded_commits(st, i)) by {
            assert forall|k: int| 0 <= k < st.adj[i].len() implies next.nodes[st.adj[i][k] as int]
                == st.nodes[st.adj[i][k] as int] by {
                assert(st.adj[i][k] < i);
            }
        }
    }
    if st.marks[root as int] is Open {
        let anc = effective_ancestors(commits, root);
        assert(next.nodes[n] == root);
        if commits[root as int].recurse {
            let done = done_places(st.marks, anc, anc.len() as int);
            let adj = ascending(done, done.len() as int);
            assert(next.adj[n] == adj);
            lemma_done_nodes(st.marks, anc, anc.len() as int);
            lemma_ascending(done, done.len() as int);
            assert(done.take(done.len() as int) =~= done);
            assert(active(st, t));
            let rc = recorded_commits(next, n);
            assert forall|a: usize| anc.contains(a) <==> (#[trigger] rc.contains(a)) by {
                if anc.contains(a) {
                    let j = choose|j: int| 0 <= j < anc.len() && anc[j] == a;
                    lemma_ancestor_behind(commits, root, j);
                    assert(settled(st, t, anc[j]));
                    assert(st.marks[a as int] is Done);
                    let y = st.marks[a as int]->Done_0;
                    assert(st.marks[anc[j] as int] == Mark::Done(y));
                    assert(done.contains(y));
                    assert(adj.contains(y));
                    let k = choose|k: int| 0 <= k < adj.len() && adj[k] == y;
                    assert(st.nodes[y as int] == a);
                    assert(rc[k] == a);
                }
                if rc.contains(a) {
                    let k = choose|k: int| 0 <= k < rc.len() && rc[k] == a;
                    let y = adj[k];
                    assert(adj.contains(y));
                    assert(done.contains(y));
                    let j = choose|j: int|
                        0 <= j < anc.len() && st.marks[anc[j] as int] == Mark::Done(y);
                    lemma_ancestor_behind(commits, root, j);
                    assert(st.nodes[y as int] == anc[j]);
                    assert(next.nodes[y as int] == st.nodes[y as int]);
                }
            }
            assert(node_recorded(commits, next, n));
        } else {
            assert(next.adj[n].len() == 0);
            assert(node_recorded(commits, next, n));
        }
    }
}

/// All that holds of the state of a walk from `head`.
pub open spec fn walk_inv(commits: Seq<CommitInfo>, head: usize, st: WalkState) -> bool {
    &&& commits.len() <= usize::MAX
    &&& walk_ok(commits, st)
    &&& graph_inv(st)
    &&& descent_inv(commits, head, st)
    &&& all_recorded(commits, st)
}

/// The walk ends with an empty stack, in a state of a walk from `head`.
pub proof fn lemma_walk_run(commits: Seq<CommitInfo>, head: usize, st: WalkState)
    requires
        walk_inv(commits, head, st),
    ensures
        walk_inv(commits, head, walk_run(commits, st)),
        walk_run(commits, st).stack.len() == 0,
    decreases weight(st.marks), st.stack.len(),
{
    if st.stack.len() > 0 {
        lemma_pending_bounds(st.marks);
        assert(!(st.marks[head as int] is Done));
        assert(st.stack[0] < commits.len());
        lemma_pending_update(st.marks, head as int, Mark::Done(0));
        assert(seq![Mark::Done(0)].drop_last() =~= Seq::<Mark>::empty());
        assert(seq![st.marks[head as int]].drop_last() =~= Seq::<Mark>::empty());
        lemma_pending_bounds(st.marks.update(head as int, Mark::Done(0)));
        assert(st.nodes.len() <= usize::MAX);
        lemma_walk_step(commits, st);
        lemma_walk_step_inv(commits, st);
        lemma_step_descent(commits, head, st);
        lemma_step_recorded(commits, head, st);
        lemma_walk_run(commits, head, walk_step(commits, st));
    }
}

/// The walk from `head` finishes the head last, and every node has
/// recorded as parents just the effective ancestors of its commit, if
/// the walk went on into the commit, and none if it stopped there.
pub proof fn lemma_walk_records(commits: Seq<CommitInfo>, head: usize)
    requires
        crate::commits::table_wf(commits),
        head < commits.len() <= usize::MAX,
    ensures
        walk_result(commits, head).nodes.len() > 0,
        walk_result(commits, head).nodes.last() == head,
        walk_result(commits, head).adj.len() == walk_result(commits, head).nodes.len(),
        all_recorded(commits, walk_result(commits, head)),
{
    let st = walk_start(commits, head);
    lemma_pending_start(commits.len());
    assert(walk_ok(commits, st));
    assert(graph_inv(st));
    assert(descent_inv(commits, head, st));
    assert(all_recorded(commits, st));
    lemma_walk_run(commits, head, st);
}

} // verus!
