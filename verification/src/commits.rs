//! The commits of a history as a table of plain values, and the effective
//! ancestors of a commit: its parents, with every parent that repeats the
//! commit's timestamp and author replaced by that parent's parents.

use crate::order::{opt_string_view, str_same};
use vstd::prelude::*;

verus! {

/// What the engine needs to know of one commit.
#[derive(Debug)]
pub struct CommitInfo {
    /// Seconds since the epoch.
    pub timestamp: i64,
    /// The author's name, where the commit has one.
    pub author: Option<String>,
    /// The places of the parents in the table.
    pub parents: Vec<usize>,
    /// Whether the walk through the history goes on into the ancestors of
    /// this commit.
    pub recurse: bool,
}

/// Every parent stands in the table, behind its child.
pub open spec fn table_wf(commits: Seq<CommitInfo>) -> bool {
    forall|c: int, j: int|
        0 <= c < commits.len() && 0 <= j < commits[c].parents@.len() ==> c < (
        #[trigger] commits[c].parents@[j]) < commits.len()
}

/// Whether `p` repeats the timestamp and the author name of `c`.
pub open spec fn collapsed(commits: Seq<CommitInfo>, c: usize, p: usize) -> bool {
    commits[p as int].timestamp == commits[c as int].timestamp && opt_string_view(
        commits[p as int].author,
    ) == opt_string_view(commits[c as int].author)
}

/// Those among the first `j` parents of `x` that repeat `c`, in order.
pub open spec fn node_next(commits: Seq<CommitInfo>, c: usize, x: usize, j: int) -> Seq<usize>
    decreases j,
{
    if j <= 0 {
        Seq::empty()
    } else {
        let p = commits[x as int].parents@[j - 1];
        if collapsed(commits, c, p) {
            node_next(commits, c, x, j - 1).push(p)
        } else {
            node_next(commits, c, x, j - 1)
        }
    }
}

/// Those among the first `j` parents of `x` that do not repeat `c`, in
/// order.
pub open spec fn node_out(commits: Seq<CommitInfo>, c: usize, x: usize, j: int) -> Seq<usize>
    decreases j,
{
    if j <= 0 {
        Seq::empty()
    } else {
        let p = commits[x as int].parents@[j - 1];
        if collapsed(commits, c, p) {
            node_out(commits, c, x, j - 1)
        } else {
            node_out(commits, c, x, j - 1).push(p)
        }
    }
}

/// The parents of the commits of `level` that repeat `c`: the next level.
pub open spec fn level_next(commits: Seq<CommitInfo>, c: usize, level: Seq<usize>) -> Seq<usize>
    decreases level.len(),
{
    if level.len() == 0 {
        Seq::empty()
    } else {
        level_next(commits, c, level.drop_last()) + node_next(
            commits,
            c,
            level.last(),
            commits[level.last() as int].parents@.len() as int,
        )
    }
}

/// The parents of the commits of `level` that do not repeat `c`.
pub open spec fn level_out(commits: Seq<CommitInfo>, c: usize, level: Seq<usize>) -> Seq<usize>
    decreases level.len(),
{
    if level.len() == 0 {
        Seq::empty()
    } else {
        level_out(commits, c, level.drop_last()) + node_out(
            commits,
            c,
            level.last(),
            commits[level.last() as int].parents@.len() as int,
        )
    }
}

/// The effective ancestors found from `level` on, level by level; `low` is
/// a place that no commit of the level stands before.
pub open spec fn effective_from(
    commits: Seq<CommitInfo>,
    c: usize,
    level: Seq<usize>,
    low: int,
) -> Seq<usize>
    decreases commits.len() - low,
{
    if level.len() == 0 || low >= commits.len() {
        Seq::empty()
    } else {
        level_out(commits, c, level) + effective_from(
            commits,
            c,
            level_next(commits, c, level),
            low + 1,
        )
    }
}

/// The effective ancestors of `c`: its parents, where a parent that
/// repeats the timestamp and author name of `c` gives way to its own
/// parents, and so on. They come level by level, within a level in the
/// order of the parents; a commit reached on several ways comes once for
/// each.
pub open spec fn effective_ancestors(commits: Seq<CommitInfo>, c: usize) -> Seq<usize> {
    effective_from(commits, c, seq![c], c as int)
}

/// All commits of a level stand in the table, at `low` or behind.
pub open spec fn level_within(commits: Seq<CommitInfo>, level: Seq<usize>, low: int) -> bool {
    forall|i: int| 0 <= i < level.len() ==> low <= (#[trigger] level[i]) < commits.len()
}

/// The parents of a commit stand in the table, behind it.
pub proof fn lemma_node_parents(commits: Seq<CommitInfo>, c: usize, x: usize, j: int)
    requires
        table_wf(commits),
        0 <= x < commits.len(),
        0 <= j <= commits[x as int].parents@.len(),
    ensures
        level_within(commits, node_next(commits, c, x, j), x + 1),
        level_within(commits, node_out(commits, c, x, j), x + 1),
    decreases j,
{
    if j > 0 {
        lemma_node_parents(commits, c, x, j - 1);
        assert(x < commits[x as int].parents@[j - 1] < commits.len());
    }
}

/// The parents of a level stand in the table, behind the level's first place.
pub proof fn lemma_level_parents(commits: Seq<CommitInfo>, c: usize, level: Seq<usize>, low: int)
    requires
        table_wf(commits),
        level_within(commits, level, low),
    ensures
        level_within(commits, level_next(commits, c, level), low + 1),
        level_within(commits, level_out(commits, c, level), low + 1),
    decreases level.len(),
{
    if level.len() > 0 {
        assert(forall|i: int| 0 <= i < level.len() - 1 ==> level.drop_last()[i] == level[i]);
        lemma_level_parents(commits, c, level.drop_last(), low);
        let x = level.last();
        assert(low <= level[level.len() - 1] < commits.len());
        lemma_node_parents(commits, c, x, commits[x as int].parents@.len() as int);
    }
}

/// Every effective ancestor stands in the table, behind the commit.
pub proof fn lemma_effective_from(commits: Seq<CommitInfo>, c: usize, level: Seq<usize>, low: int)
    requires
        table_wf(commits),
        level_within(commits, level, low),
    ensures
        level_within(commits, effective_from(commits, c, level, low), low + 1),
    decreases commits.len() - low,
{
    if level.len() == 0 || low >= commits.len() {
    } else {
        lemma_level_parents(commits, c, level, low);
        lemma_effective_from(commits, c, level_next(commits, c, level), low + 1);
    }
}

/// No commit of the list repeats the timestamp and author name of `c`.
pub open spec fn none_collapsed(commits: Seq<CommitInfo>, c: usize, list: Seq<usize>) -> bool {
    forall|i: int| 0 <= i < list.len() ==> !collapsed(commits, c, #[trigger] list[i])
}

/// The parents of `x` that the search gives out do not repeat `c`.
pub proof fn lemma_node_out_apart(commits: Seq<CommitInfo>, c: usize, x: usize, j: int)
    ensures
        none_collapsed(commits, c, node_out(commits, c, x, j)),
    decreases j,
{
    if j > 0 {
        lemma_node_out_apart(commits, c, x, j - 1);
    }
}

/// The parents of a level that the search gives out do not repeat `c`.
pub proof fn lemma_level_out_apart(commits: Seq<CommitInfo>, c: usize, level: Seq<usize>)
    ensures
        none_collapsed(commits, c, level_out(commits, c, level)),
    decreases level.len(),
{
    if level.len() > 0 {
        lemma_level_out_apart(commits, c, level.drop_last());
        lemma_node_out_apart(
            commits,
            c,
            level.last(),
            commits[level.last() as int].parents@.len() as int,
        );
    }
}

/// What the search gives from a level on does not repeat `c`.
pub proof fn lemma_effective_from_apart(
    commits: Seq<CommitInfo>,
    c: usize,
    level: Seq<usize>,
    low: int,
)
    ensures
        none_collapsed(commits, c, effective_from(commits, c, level, low)),
    decreases commits.len() - low,
{
    if level.len() == 0 || low >= commits.len() {
    } else {
        lemma_level_out_apart(commits, c, level);
        lemma_effective_from_apart(commits, c, level_next(commits, c, level), low + 1);
    }
}

/// No effective ancestor of a commit repeats the commit's timestamp and
/// author name: every commit that does has given way to its parents.
pub proof fn lemma_effective_apart(commits: Seq<CommitInfo>, c: usize)
    ensures
        none_collapsed(commits, c, effective_ancestors(commits, c)),
{
    lemma_effective_from_apart(commits, c, seq![c], c as int);
}

/// Where none of the first `j` parents of `x` repeats `c`, the search
/// gives them all out and goes on into none.
pub proof fn lemma_node_plain(commits: Seq<CommitInfo>, c: usize, x: usize, j: int)
    requires
        0 <= j <= commits[x as int].parents@.len(),
        none_collapsed(commits, c, commits[x as int].parents@),
    ensures
        node_out(commits, c, x, j) == commits[x as int].parents@.take(j),
        node_next(commits, c, x, j) == Seq::<usize>::empty(),
    decreases j,
{
    let parents = commits[x as int].parents@;
    if j > 0 {
        lemma_node_plain(commits, c, x, j - 1);
        assert(!collapsed(commits, c, parents[j - 1]));
        assert(parents.take(j - 1).push(parents[j - 1]) =~= parents.take(j));
    } else {
        assert(parents.take(0) =~= Seq::<usize>::empty());
    }
}

/// The effective ancestors of a commit none of whose parents repeats its
/// timestamp and author name are its parents, in their order.
pub proof fn lemma_effective_plain(commits: Seq<CommitInfo>, c: usize)
    requires
        c < commits.len(),
        none_collapsed(commits, c, commits[c as int].parents@),
    ensures
        effective_ancestors(commits, c) == commits[c as int].parents@,
{
    let parents = commits[c as int].parents@;
    let level = seq![c];
    lemma_node_plain(commits, c, c, parents.len() as int);
    assert(parents.take(parents.len() as int) =~= parents);
    assert(level.drop_last() =~= Seq::<usize>::empty());
    assert(level.last() == c);
    assert(level_out(commits, c, level.drop_last()) =~= Seq::<usize>::empty());
    assert(level_next(commits, c, level.drop_last()) =~= Seq::<usize>::empty());
    assert(level_out(commits, c, level) =~= parents);
    assert(level_next(commits, c, level) =~= Seq::<usize>::empty());
    assert(effective_from(commits, c, Seq::<usize>::empty(), c + 1) =~= Seq::<usize>::empty());
    assert(effective_ancestors(commits, c) =~= parents);
}

/// The commits of a history. Each commit's parents stand behind it in the
/// table.
pub struct CommitTable {
    commits: Vec<CommitInfo>,
}

impl View for CommitTable {
    type V = Seq<CommitInfo>;

    closed spec fn view(&self) -> Seq<CommitInfo> {
        self.commits@
    }
}

fn same_author(a: &Option<String>, b: &Option<String>) -> (r: bool)
    ensures
        r == (opt_string_view(*a) == opt_string_view(*b)),
{
    match (a, b) {
        (Some(x), Some(y)) => str_same(x.as_str(), y.as_str()),
        (None, None) => true,
        _ => false,
    }
}

impl CommitTable {
    /// Every parent stands in the table, behind its child.
    pub closed spec fn wf(&self) -> bool {
        table_wf(self.commits@)
    }

    /// What `wf` says, over the view.
    pub proof fn lemma_wf(&self)
        ensures
            self.wf() == table_wf(self@),
    {
    }

    /// The table of the given commits, if each commit's parents stand
    /// behind it in the list.
    pub fn new(commits: Vec<CommitInfo>) -> (r: Option<CommitTable>)
        ensures
            r is Some <==> table_wf(commits@),
            r matches Some(t) ==> t@ == commits@ && t.wf(),
    {
        let n = commits.len();
        let mut c: usize = 0;
        while c < n
            invariant
                c <= n,
                n == commits@.len(),
                forall|a: int, j: int|
                    0 <= a < c && 0 <= j < commits@[a].parents@.len() ==> a < (
                    #[trigger] commits@[a].parents@[j]) < n,
            decreases n - c,
        {
            let parents = &commits[c].parents;
            let mut j: usize = 0;
            while j < parents.len()
                invariant
                    j <= parents@.len(),
                    c < n,
                    n == commits@.len(),
                    *parents == commits@[c as int].parents,
                    forall|i: int| 0 <= i < j ==> c < (#[trigger] parents@[i]) < n,
                decreases parents.len() - j,
            {
                if !(c < parents[j] && parents[j] < n) {
                    assert(!(c < commits@[c as int].parents@[j as int] < commits@.len()));
                    return None;
                }
                j += 1;
            }
            c += 1;
        }
        Some(CommitTable { commits })
    }

    /// The number of commits.
    pub fn len(&self) -> (n: usize)
        ensures
            n == self@.len(),
    {
        self.commits.len()
    }

    /// The commit at place `index`.
    pub fn get(&self, index: usize) -> (r: &CommitInfo)
        requires
            index < self@.len(),
        ensures
            *r == self@[index as int],
    {
        &self.commits[index]
    }

    /// Lists the effective ancestors of the commit at place `c`.
    pub fn find_effective_ancestors(&self, c: usize) -> (ret: Vec<usize>)
        requires
            self.wf(),
            c < self@.len(),
        ensures
            ret@ == effective_ancestors(self@, c),
            level_within(self@, ret@, c + 1),
    {
        let n = self.commits.len();
        let mut ret: Vec<usize> = Vec::new();
        let mut level: Vec<usize> = Vec::new();
        level.push(c);
        let mut low: usize = c;
        proof {
            assert(level@ =~= seq![c]);
            assert(ret@ + effective_from(self@, c, level@, low as int) =~= effective_ancestors(
                self@,
                c,
            ));
            lemma_effective_from(self@, c, seq![c], c as int);
        }
        while level.len() > 0
            invariant
                n == self@.len(),
                self.wf(),
                c < n,
                low <= n,
                level_within(self@, level@, low as int),
                effective_ancestors(self@, c) == ret@ + effective_from(
                    self@,
                    c,
                    level@,
                    low as int,
                ),
            decreases n - low,
        {
            assert(low <= level@[0] < n);
            let ghost ret0 = ret@;
            let mut next: Vec<usize> = Vec::new();
            let mut i: usize = 0;
            proof {
                assert(level@.take(0) =~= Seq::<usize>::empty());
                assert(ret0 + Seq::<usize>::empty() =~= ret0);
            }
            while i < level.len()
                invariant
                    i <= level@.len(),
                    n == self@.len(),
                    self.wf(),
                    c < n,
                    level_within(self@, level@, low as int),
                    ret@ == ret0 + level_out(self@, c, level@.take(i as int)),
                    next@ == level_next(self@, c, level@.take(i as int)),
                decreases level.len() - i,
            {
                let x = level[i];
                assert(low <= level@[i as int] < n);
                let parents = &self.commits[x].parents;
                let ghost ret1 = ret@;
                let ghost next1 = next@;
                let mut j: usize = 0;
                proof {
                    assert(ret1 + Seq::<usize>::empty() =~= ret1);
                    assert(next1 + Seq::<usize>::empty() =~= next1);
                }
                while j < parents.len()
                    invariant
                        j <= parents@.len(),
                        n == self@.len(),
                        self.wf(),
                        c < n,
                        x < n,
                        *parents == self@[x as int].parents,
                        ret@ == ret1 + node_out(self@, c, x, j as int),
                        next@ == next1 + node_next(self@, c, x, j as int),
                    decreases parents.len() - j,
                {
                    let p = parents[j];
                    assert(x < self@[x as int].parents@[j as int] < n);
                    let repeats = self.commits[p].timestamp == self.commits[c].timestamp
                        && same_author(&self.commits[p].author, &self.commits[c].author);
                    if repeats {
                        next.push(p);
                        assert(next@ =~= next1 + node_next(self@, c, x, j + 1));
                        assert(ret@ =~= ret1 + node_out(self@, c, x, j + 1));
                    } else {
                        ret.push(p);
                        assert(next@ =~= next1 + node_next(self@, c, x, j + 1));
                        assert(ret@ =~= ret1 + node_out(self@, c, x, j + 1));
                    }
                    j += 1;
                }
                proof {
                    assert(level@.take(i + 1).drop_last() =~= level@.take(i as int));
                    assert(level@.take(i + 1).last() == x);
                    assert(ret@ =~= ret0 + level_out(self@, c, level@.take(i + 1)));
                }
                i += 1;
            }
            proof {
                assert(level@.take(i as int) =~= level@);
                lemma_level_parents(self@, c, level@, low as int);
                assert(ret@ + effective_from(self@, c, next@, low + 1) =~= ret0 + effective_from(
                    self@,
                    c,
                    level@,
                    low as int,
                ));
            }
            level = next;
            low += 1;
        }
        proof {
            assert(ret@ + Seq::<usize>::empty() =~= ret@);
        }
        ret
    }
}

} // verus!
