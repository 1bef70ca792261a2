//! The run over a history, step by step: the driver says what it needs
//! next from the repository, takes it, computes the tree of the step's
//! commit, and drops the trees that no later step reads.

use crate::analysis::{analyzed, tree_maps};
use crate::author::{names_unique, AuthorCollection, OLDER_CODE, UNKNOWN_AUTHOR};
use crate::blocks::{authors_below, LineBlock};
use crate::commits::{effective_ancestors, CommitInfo, CommitTable};
use crate::history::{
    expired_at, last_child, lemma_expired_from, GitCommit, HistoryGraph, HistoryNode,
};
use crate::laws::{lemma_analyzed_authors, tree_below};
use crate::patch::TreePatch;
use crate::tree::{baseline_map, FileLines, Tree};
use vstd::prelude::*;

verus! {

/// What the driver needs next. Commits are named by their places in the
/// commit table.
#[derive(Debug)]
pub enum Request {
    /// Every step is done.
    Finished,
    /// The diffs of `commit` against each of `parents`, in their order.
    DiffWithParents { commit: usize, parents: Vec<usize> },
    /// The diff of `commit` against the empty tree.
    DiffWithNothing { commit: usize },
    /// The files of `commit` with their line counts.
    ListFiles { commit: usize },
    /// The diff of `commit` against the commit `base`.
    DiffWithBaseline { commit: usize, base: usize },
}

/// A request, with its list as a sequence.
pub enum RequestView {
    Finished,
    DiffWithParents { commit: usize, parents: Seq<usize> },
    DiffWithNothing { commit: usize },
    ListFiles { commit: usize },
    DiffWithBaseline { commit: usize, base: usize },
}

impl View for Request {
    type V = RequestView;

    open spec fn view(&self) -> RequestView {
        match self {
            Request::Finished => RequestView::Finished,
            Request::DiffWithParents { commit, parents } => RequestView::DiffWithParents {
                commit: *commit,
                parents: parents@,
            },
            Request::DiffWithNothing { commit } => RequestView::DiffWithNothing { commit: *commit },
            Request::ListFiles { commit } => RequestView::ListFiles { commit: *commit },
            Request::DiffWithBaseline { commit, base } => RequestView::DiffWithBaseline {
                commit: *commit,
                base: *base,
            },
        }
    }
}

/// Why a step did not take what it was given.
#[derive(Debug, Clone, Copy, PartialEq, Eq, Structural)]
pub enum StepError {
    /// The driver did not ask for this.
    OutOfTurn,
    /// A new author needs an id, and none is free.
    RegistryFull,
    /// A diff names an author id that is not registered.
    UnknownAuthor,
    /// A line count left its range, or the diffs are not one for each
    /// tree.
    LineCount,
}

/// The first boundary commit with its tree.
pub struct Baseline {
    pub commit: usize,
    pub tree: Tree,
}

/// The state of a run.
pub struct Driver<'a> {
    table: &'a CommitTable,
    graph: HistoryGraph,
    plan: Vec<HistoryNode>,
    trees: Vec<Option<Tree>>,
    baseline: Option<Baseline>,
    pending: Option<Tree>,
    step: usize,
    authors: AuthorCollection,
    baseline_label: String,
    unknown_label: String,
}

/// The name under which the author of the commit at `place` is
/// registered: the author's name, or `unknown` where the commit has none.
pub open spec fn author_name_at(
    commits: Seq<CommitInfo>,
    place: usize,
    unknown: Seq<char>,
) -> Seq<char> {
    match commits[place as int].author {
        Some(name) => name@,
        None => unknown,
    }
}

/// Whether the tree of node `j` is held after `step` steps: the node is
/// processed, and its last use is to come, or lay before the node itself.
pub open spec fn held(last_use: Seq<usize>, j: int, step: int) -> bool {
    0 <= j < step && (last_use[j] >= step || last_use[j] < j)
}

/// The names with `name` among them: registered behind them if it was
/// not there.
pub open spec fn registered(authors: Seq<Seq<char>>, name: Seq<char>) -> Seq<Seq<char>> {
    if authors.contains(name) {
        authors
    } else {
        authors.push(name)
    }
}

/// Every author id that the diffs name is below `bound`.
pub open spec fn authors_known(patches: Seq<TreePatch>, bound: int) -> bool {
    forall|k: int|
        0 <= k < patches.len() ==> (#[trigger] patches[k]).new_author < bound && (
        patches[k].old_author matches Some(a) ==> a < bound)
}

/// Authors below a bound are below every larger bound.
pub proof fn lemma_tree_below_mono(m: Map<Seq<char>, Seq<LineBlock>>, a: int, b: int)
    requires
        tree_below(m, a),
        a <= b,
    ensures
        tree_below(m, b),
{
    assert forall|p: Seq<char>| m.contains_key(p) implies authors_below(#[trigger] m[p], b) by {
        assert(authors_below(m[p], a));
    }
}

/// A node that records `p` as a parent is no later than the last use of
/// `p`.
pub proof fn lemma_last_child_reaches(adj: Seq<Seq<usize>>, p: usize, i: int, n: int)
    requires
        0 <= i < n,
        adj[i].contains(p),
    ensures
        last_child(adj, p, n) >= i,
    decreases n,
{
    if n - 1 > i && !adj[n - 1].contains(p) {
        lemma_last_child_reaches(adj, p, i, n - 1);
    }
}

fn all_known(patches: &[TreePatch], bound: usize) -> (r: bool)
    ensures
        r == authors_known(patches@, bound as int),
{
    let mut k: usize = 0;
    while k < patches.len()
        invariant
            k <= patches@.len(),
            forall|t: int|
                0 <= t < k ==> (#[trigger] patches@[t]).new_author < bound && (
                patches@[t].old_author matches Some(a) ==> a < bound),
        decreases patches.len() - k,
    {
        let known = (patches[k].new_author as usize) < bound && match patches[k].old_author {
            Some(a) => (a as usize) < bound,
            None => true,
        };
        if !known {
            return false;
        }
        k += 1;
    }
    true
}

/// The id of a registered name.
pub open spec fn id_of(authors: Seq<Seq<char>>, name: Seq<char>) -> u32 {
    authors.index_of(name) as u32
}

/// Among names none of which occurs twice, the id of a name is the place where
/// it stands.
pub proof fn lemma_id_of(authors: Seq<Seq<char>>, name: Seq<char>, id: u32)
    requires
        names_unique(authors),
        id < authors.len(),
        authors[id as int] == name,
    ensures
        id_of(authors, name) == id,
{
    let i = authors.index_of(name);
    assert(0 <= i < authors.len() && authors[i] == name);
    if i < id {
        assert(authors[i] != authors[id as int]);
    } else if id < i {
        assert(authors[id as int] != authors[i]);
    }
}

/// The tree of a listing holds no author but the one given.
pub proof fn lemma_baseline_below(files: Seq<FileLines>, author: u32)
    ensures
        tree_below(baseline_map(files, author), author + 1),
    decreases files.len(),
{
    if files.len() > 0 {
        lemma_baseline_below(files.drop_last(), author);
        let m = baseline_map(files, author);
        assert forall|p: Seq<char>| m.contains_key(p) implies authors_below(
            #[trigger] m[p],
            author + 1,
        ) by {
            if p != files.last().path@ {
                assert(baseline_map(files.drop_last(), author).contains_key(p));
            }
        }
    }
}

impl<'a> Driver<'a> {
    /// The commit table.
    pub closed spec fn commits(&self) -> Seq<CommitInfo> {
        self.table@
    }

    /// The places of the nodes in the commit table, in processing order.
    pub closed spec fn nodes(&self) -> Seq<usize> {
        self.graph.nodes()
    }

    /// For each node the nodes recorded as its parents.
    pub closed spec fn parents(&self) -> Seq<Seq<usize>> {
        self.graph.parents()
    }

    /// For each node the step of its last use.
    pub closed spec fn last_uses(&self) -> Seq<usize> {
        self.graph.last_uses()
    }

    /// The number of steps done.
    pub closed spec fn step(&self) -> int {
        self.step as int
    }

    /// The tree held for node `j`, if one is held.
    pub closed spec fn tree_at(&self, j: int) -> Option<Map<Seq<char>, Seq<LineBlock>>> {
        if 0 <= j < self.trees@.len() {
            match self.trees@[j] {
                Some(t) => Some(t@),
                None => None,
            }
        } else {
            None
        }
    }

    /// The tree computed for the current step, until the step is closed.
    pub closed spec fn pending(&self) -> Option<Map<Seq<char>, Seq<LineBlock>>> {
        match self.pending {
            Some(t) => Some(t@),
            None => None,
        }
    }

    /// The first boundary commit and its tree, once there was one.
    pub closed spec fn baseline(&self) -> Option<(usize, Map<Seq<char>, Seq<LineBlock>>)> {
        match self.baseline {
            Some(b) => Some((b.commit, b.tree@)),
            None => None,
        }
    }

    /// The registered author names; a name's id is its place.
    pub closed spec fn authors(&self) -> Seq<Seq<char>> {
        self.authors@
    }

    /// The name that stands for content older than the first commit
    /// processed.
    pub closed spec fn baseline_label(&self) -> Seq<char> {
        self.baseline_label@
    }

    /// The name that stands in for a commit without an author name.
    pub closed spec fn unknown_label(&self) -> Seq<char> {
        self.unknown_label@
    }

    /// The state is consistent: the graph and the plan belong together,
    /// the trees of just those nodes are held that a later step reads,
    /// and every author of a held tree is registered.
    pub closed spec fn wf(&self) -> bool {
        &&& self.table.wf()
        &&& self.graph.wf()
        &&& forall|i: int|
            0 <= i < self.graph.nodes().len() ==> (#[trigger] self.graph.nodes()[i]) < self.table@.len()
        &&& self.plan@.len() == self.graph.nodes().len()
        &&& forall|s: int|
            0 <= s < self.plan@.len() ==> (#[trigger] self.plan@[s]).expired@ == expired_at(
                self.graph.last_uses(),
                s,
            )
        &&& self.trees@.len() == self.graph.nodes().len()
        &&& self.step <= self.graph.nodes().len()
        &&& self.authors.wf()
        &&& forall|j: int|
            0 <= j < self.trees@.len() ==> ((#[trigger] self.trees@[j]) is Some <==> held(
                self.graph.last_uses(),
                j,
                self.step as int,
            ))
        &&& forall|j: int|
            0 <= j < self.trees@.len() ==> ((#[trigger] self.trees@[j]) matches Some(t) ==> t.wf()
                && tree_below(t@, self.authors@.len() as int))
        &&& self.baseline matches Some(b) ==> b.tree.wf() && tree_below(
            b.tree@,
            self.authors@.len() as int,
        ) && b.commit < self.table@.len()
        &&& self.pending matches Some(t) ==> t.wf() && tree_below(t@, self.authors@.len() as int)
            && self.step < self.graph.nodes().len()
    }

    /// What a consistent state gives: every recorded parent is an earlier
    /// node, the trees held are those that a later step reads, every
    /// author id in a tree is registered, and no name is registered
    /// twice or under an id beyond 32 bits.
    pub proof fn lemma_wf(&self)
        requires
            self.wf(),
        ensures
            self.parents().len() == self.nodes().len(),
            self.last_uses().len() == self.nodes().len(),
            0 <= self.step() <= self.nodes().len(),
            forall|i: int, j: int|
                0 <= i < self.parents().len() && 0 <= j < self.parents()[i].len() ==> (
                #[trigger] self.parents()[i][j]) < i,
            forall|j: int|
                0 <= j < self.nodes().len() ==> ((#[trigger] self.tree_at(j)) is Some <==> held(
                    self.last_uses(),
                    j,
                    self.step(),
                )),
            forall|j: int|
                (#[trigger] self.tree_at(j)) matches Some(t) ==> tree_below(
                    t,
                    self.authors().len() as int,
                ),
            self.pending() matches Some(t) ==> tree_below(t, self.authors().len() as int),
            self.baseline() matches Some(b) ==> tree_below(b.1, self.authors().len() as int),
            names_unique(self.authors()),
            self.authors().len() <= u32::MAX + 1,
            self.step() < self.nodes().len() ==> forall|k: int|
                0 <= k < self.parents()[self.step()].len() ==> (#[trigger] self.tree_at(
                    self.parents()[self.step()][k] as int,
                )) is Some,
    {
        if self.step() < self.nodes().len() {
            let i = self.step();
            let adj = self.parents();
            assert forall|k: int| 0 <= k < adj[i].len() implies (#[trigger] self.tree_at(
                adj[i][k] as int,
            )) is Some by {
                self.lemma_parent_held(k);
            }
        }
    }

    proof fn lemma_parent_held(&self, k: int)
        requires
            self.wf(),
            self.step < self.graph.nodes().len(),
            0 <= k < self.graph.parents()[self.step as int].len(),
        ensures
            self.graph.parents()[self.step as int][k] < self.step,
            self.trees@[self.graph.parents()[self.step as int][k] as int] is Some,
    {
        let i = self.step as int;
        let adj = self.graph.parents();
        let p = adj[i][k];
        assert(adj[i][k] < i);
        assert(adj[i].contains(p));
        lemma_last_child_reaches(adj, p, i, adj.len() as int);
        assert(self.graph.last_uses()[p as int] >= i);
        assert(held(self.graph.last_uses(), p as int, i));
    }

    /// The number of steps of the run.
    pub fn total(&self) -> (n: usize)
        ensures
            n == self.nodes().len(),
    {
        self.graph.len()
    }

    /// The number of steps done.
    pub fn step_index(&self) -> (n: usize)
        ensures
            n == self.step(),
    {
        self.step
    }

    /// The registry of authors.
    pub fn registry(&self) -> (r: &AuthorCollection)
        ensures
            r@ == self.authors(),
    {
        &self.authors
    }

    /// The place in the commit table of the current step's commit.
    pub fn current_commit(&self) -> (r: Option<usize>)
        ensures
            r == (if self.step() < self.nodes().len() {
                Some(self.nodes()[self.step()])
            } else {
                None
            }),
    {
        self.graph.get_commit(self.step)
    }

    /// A run over the history that starts at `head`, before its first
    /// step, with the labels `"Older Code"` and `"<Unknown>"`.
    pub fn new(head: GitCommit<'a>) -> (r: Driver<'a>)
        requires
            head.wf(),
        ensures
            r.wf(),
            r.commits() == head.table@,
            r.step() == 0,
            r.pending() is None,
            r.baseline() is None,
            r.authors() == Seq::<Seq<char>>::empty(),
            r.baseline_label() == OLDER_CODE@,
            r.unknown_label() == UNKNOWN_AUTHOR@,
            forall|j: int| (#[trigger] r.tree_at(j)) is None,
            match head.place {
                Some(h) => r.nodes() == crate::history::walk_result(head.table@, h).nodes
                    && r.parents() == crate::history::walk_result(head.table@, h).adj,
                None => r.nodes().len() == 0,
            },
    {
        Driver::with_labels(head, OLDER_CODE.to_owned(), UNKNOWN_AUTHOR.to_owned())
    }

    /// A run over the history that starts at `head`, before its first
    /// step. Content older than the first commit processed goes to the
    /// author `baseline_author_label`, and a commit without an author name
    /// to `unknown_author_label`.
    pub fn with_labels(
        head: GitCommit<'a>,
        baseline_author_label: String,
        unknown_author_label: String,
    ) -> (r: Driver<'a>)
        requires
            head.wf(),
        ensures
            r.wf(),
            r.commits() == head.table@,
            r.step() == 0,
            r.pending() is None,
            r.baseline() is None,
            r.authors() == Seq::<Seq<char>>::empty(),
            r.baseline_label() == baseline_author_label@,
            r.unknown_label() == unknown_author_label@,
            forall|j: int| (#[trigger] r.tree_at(j)) is None,
            match head.place {
                Some(h) => r.nodes() == crate::history::walk_result(head.table@, h).nodes
                    && r.parents() == crate::history::walk_result(head.table@, h).adj,
                None => r.nodes().len() == 0,
            },
    {
        let table = head.table;
        let graph = head.topological_sort();
        let plan = graph.plan();
        let n = graph.len();
        let mut trees: Vec<Option<Tree>> = Vec::new();
        let mut j: usize = 0;
        while j < n
            invariant
                j <= n,
                trees@.len() == j,
                forall|t: int| 0 <= t < j ==> (#[trigger] trees@[t]) is None,
            decreases n - j,
        {
            trees.push(None);
            j += 1;
        }
        Driver {
            table,
            graph,
            plan,
            trees,
            baseline: None,
            pending: None,
            step: 0,
            authors: AuthorCollection::new(),
            baseline_label: baseline_author_label,
            unknown_label: unknown_author_label,
        }
    }

    /// What the current step needs: nothing more once every step is done;
    /// for a node with recorded parents the diffs against them; for a
    /// commit without effective ancestors the diff against the empty tree;
    /// for the first other commit without recorded parents its files, and
    /// for each later one the diff against that first one.
    pub open spec fn request(&self) -> RequestView {
        if self.step() >= self.nodes().len() {
            RequestView::Finished
        } else {
            let i = self.step();
            let commit = self.nodes()[i];
            if self.parents()[i].len() > 0 {
                RequestView::DiffWithParents {
                    commit,
                    parents: Seq::new(
                        self.parents()[i].len(),
                        |k: int| self.nodes()[self.parents()[i][k] as int],
                    ),
                }
            } else if effective_ancestors(self.commits(), commit).len() == 0 {
                RequestView::DiffWithNothing { commit }
            } else {
                match self.baseline() {
                    None => RequestView::ListFiles { commit },
                    Some(b) => RequestView::DiffWithBaseline { commit, base: b.0 },
                }
            }
        }
    }

    /// Says what the current step needs.
    pub fn next_request(&self) -> (r: Request)
        requires
            self.wf(),
        ensures
            r@ == self.request(),
    {
        let i = self.step;
        if i >= self.graph.len() {
            return Request::Finished;
        }
        let commit = self.graph.get_commit(i).unwrap();
        let parents = self.graph.get_parent_commits(i);
        if parents.len() > 0 {
            assert(parents@ =~= Seq::new(
                self.parents()[i as int].len(),
                |k: int| self.nodes()[self.parents()[i as int][k] as int],
            ));
            return Request::DiffWithParents { commit, parents };
        }
        let handle = GitCommit { table: self.table, place: Some(commit) };
        if handle.is_initial_commit() {
            return Request::DiffWithNothing { commit };
        }
        match &self.baseline {
            None => Request::ListFiles { commit },
            Some(b) => Request::DiffWithBaseline { commit, base: b.commit },
        }
    }

    /// A diff of `new_commit` against `old_commit` without files yet: both
    /// authors are registered, the old commit's first. `None`, and nothing
    /// registered, if a commit is not in the table or the registry has not
    /// two ids left.
    pub fn begin_patch(&mut self, old_commit: Option<usize>, new_commit: usize) -> (r: Option<
        TreePatch,
    >)
        requires
            old(self).wf(),
        ensures
            final(self).wf(),
            final(self).commits() == old(self).commits(),
            final(self).nodes() == old(self).nodes(),
            final(self).parents() == old(self).parents(),
            final(self).last_uses() == old(self).last_uses(),
            final(self).baseline_label() == old(self).baseline_label(),
            final(self).unknown_label() == old(self).unknown_label(),
            final(self).step() == old(self).step(),
            final(self).pending() == old(self).pending(),
            final(self).baseline() == old(self).baseline(),
            forall|j: int| final(self).tree_at(j) == old(self).tree_at(j),
            match r {
                Some(p) => {
                    &&& new_commit < old(self).commits().len()
                    &&& old_commit matches Some(o) ==> o < old(self).commits().len()
                    &&& final(self).authors() == registered(
                        match old_commit {
                            Some(o) => registered(
                                old(self).authors(),
                                author_name_at(old(self).commits(), o, old(self).unknown_label()),
                            ),
                            None => old(self).authors(),
                        },
                        author_name_at(old(self).commits(), new_commit, old(self).unknown_label()),
                    )
                    &&& p.files@.len() == 0
                    &&& p.new_author < final(self).authors().len()
                    &&& final(self).authors()[p.new_author as int] == author_name_at(old(self).commits(), new_commit, old(self).unknown_label())
                    &&& match old_commit {
                        Some(o) => p.old_author matches Some(a) && a < final(self).authors().len()
                            && final(self).authors()[a as int] == author_name_at(old(self).commits(), o, old(self).unknown_label()),
                        None => p.old_author is None,
                    }
                },
                None => final(self).authors() == old(self).authors(),
            },
            r is None <==> (new_commit >= old(self).commits().len() || (old_commit matches Some(o)
                && o >= old(self).commits().len()) || old(self).authors().len() >= u32::MAX),
    {
        let n = self.table.len();
        if new_commit >= n {
            return None;
        }
        if let Some(o) = old_commit {
            if o >= n {
                return None;
            }
        }
        let ghost before = self.authors@;
        let new_name: &str = match &self.table.get(new_commit).author {
            Some(name) => name.as_str(),
            None => self.unknown_label.as_str(),
        };
        if self.authors.len() > u32::MAX as usize - 1 {
            return None;
        }
        let old_id: Option<u32> = match old_commit {
            Some(o) => {
                let old_name: &str = match &self.table.get(o).author {
                    Some(name) => name.as_str(),
                    None => self.unknown_label.as_str(),
                };
                Some(self.authors.query_id(old_name))
            },
            None => None,
        };
        let ghost middle = self.authors@;
        let new_id = self.authors.query_id(new_name);
        proof {
            if let Some(a) = old_id {
                if middle.contains(new_name@) {
                } else {
                    assert(self.authors@[a as int] == middle[a as int]);
                }
            }
            assert forall|j: int| 0 <= j < self.trees@.len() implies ((
            #[trigger] self.trees@[j]) matches Some(t) ==> t.wf() && tree_below(
                t@,
                self.authors@.len() as int,
            )) by {
                if let Some(t) = self.trees@[j] {
                    lemma_tree_below_mono(t@, before.len() as int, self.authors@.len() as int);
                }
            }
            if self.baseline is Some {
                lemma_tree_below_mono(
                    self.baseline.unwrap().tree@,
                    before.len() as int,
                    self.authors@.len() as int,
                );
            }
            if self.pending is Some {
                lemma_tree_below_mono(
                    self.pending.unwrap()@,
                    before.len() as int,
                    self.authors@.len() as int,
                );
            }
        }
        Some(TreePatch::empty(new_id, old_id))
    }

    /// The tree computed for the current step, until the step is closed.
    pub fn pending_tree(&self) -> (r: Option<&Tree>)
        requires
            self.wf(),
        ensures
            match r {
                Some(t) => self.pending() == Some(t@) && t.wf(),
                None => self.pending() is None,
            },
    {
        self.pending.as_ref()
    }

    /// The tree held for node `j`.
    pub fn tree(&self, j: usize) -> (r: Option<&Tree>)
        requires
            self.wf(),
        ensures
            match r {
                Some(t) => self.tree_at(j as int) == Some(t@) && t.wf(),
                None => self.tree_at(j as int) is None,
            },
    {
        if j < self.trees.len() {
            self.trees[j].as_ref()
        } else {
            None
        }
    }

    /// Whether the current step waits for diffs.
    pub open spec fn expects_patches(&self) -> bool {
        self.pending() is None && (self.request() is DiffWithParents
            || self.request() is DiffWithNothing || self.request() is DiffWithBaseline)
    }

    /// Whether the current step waits for a listing of files.
    pub open spec fn expects_files(&self) -> bool {
        self.pending() is None && self.request() is ListFiles
    }

    /// The name of the author that the current step's new lines go to:
    /// the commit's author, or the baseline label for a commit without
    /// recorded parents that does not start the history.
    pub open spec fn merger_name(&self) -> Seq<char> {
        match self.request() {
            RequestView::DiffWithParents { commit, parents } => author_name_at(self.commits(), commit, self.unknown_label()),
            RequestView::DiffWithNothing { commit } => author_name_at(self.commits(), commit, self.unknown_label()),
            _ => self.baseline_label(),
        }
    }

    /// The trees that the current step's diffs are taken against: those
    /// held for the recorded parents, in their order; the empty tree; or
    /// the tree of the first boundary commit.
    pub open spec fn patch_parents(&self) -> Seq<Map<Seq<char>, Seq<LineBlock>>> {
        match self.request() {
            RequestView::DiffWithParents { commit, parents } => Seq::new(
                self.parents()[self.step()].len(),
                |k: int| self.tree_at(self.parents()[self.step()][k] as int).unwrap(),
            ),
            RequestView::DiffWithNothing { commit } => seq![Map::empty()],
            RequestView::DiffWithBaseline { commit, base } => seq![self.baseline().unwrap().1],
            _ => Seq::empty(),
        }
    }

    /// What `supply_patches` answers to the diffs in this state. The
    /// checks come in the order of the errors: out of turn, registry
    /// full, unknown author, line count.
    pub open spec fn patches_answer(&self, patches: Seq<TreePatch>) -> Result<(), StepError> {
        let authors = registered(self.authors(), self.merger_name());
        if !self.expects_patches() {
            Err(StepError::OutOfTurn)
        } else if !self.authors().contains(self.merger_name()) && self.authors().len() > u32::MAX {
            Err(StepError::RegistryFull)
        } else if !authors_known(patches, authors.len() as int) {
            Err(StepError::UnknownAuthor)
        } else if analyzed(self.patch_parents(), patches, id_of(authors, self.merger_name()))
            is None {
            Err(StepError::LineCount)
        } else {
            Ok(())
        }
    }

    /// What `supply_files` answers in this state.
    pub open spec fn files_answer(&self) -> Result<(), StepError> {
        if !self.expects_files() {
            Err(StepError::OutOfTurn)
        } else if !self.authors().contains(self.baseline_label()) && self.authors().len()
            > u32::MAX {
            Err(StepError::RegistryFull)
        } else {
            Ok(())
        }
    }

    /// Takes the diffs that the current step asked for and computes the
    /// step's tree from them. The author of the new lines is registered
    /// first. The answer, the registry and the tree afterwards depend on
    /// nothing but the state and the diffs.
    pub fn supply_patches(&mut self, patches: Vec<TreePatch>) -> (r: Result<(), StepError>)
        requires
            old(self).wf(),
        ensures
            r == old(self).patches_answer(patches@),
            final(self).wf(),
            final(self).commits() == old(self).commits(),
            final(self).nodes() == old(self).nodes(),
            final(self).parents() == old(self).parents(),
            final(self).last_uses() == old(self).last_uses(),
            final(self).baseline_label() == old(self).baseline_label(),
            final(self).unknown_label() == old(self).unknown_label(),
            final(self).step() == old(self).step(),
            final(self).baseline() == old(self).baseline(),
            forall|j: int| final(self).tree_at(j) == old(self).tree_at(j),
            match r {
                Err(StepError::OutOfTurn) => !old(self).expects_patches() && final(self).authors()
                    == old(self).authors() && final(self).pending() == old(self).pending(),
                Err(StepError::RegistryFull) => old(self).expects_patches() && !old(self).authors().contains(old(self).merger_name()) && old(self).authors().len()
                    > u32::MAX && final(self).authors() == old(self).authors() && final(self).pending() is None,
                Err(StepError::UnknownAuthor) => old(self).expects_patches() && final(self).authors() == registered(old(self).authors(), old(self).merger_name())
                    && !authors_known(patches@, final(self).authors().len() as int) && final(self).pending() is None,
                Err(StepError::LineCount) => old(self).expects_patches() && final(self).authors()
                    == registered(old(self).authors(), old(self).merger_name()) && authors_known(
                    patches@,
                    final(self).authors().len() as int,
                ) && analyzed(
                    old(self).patch_parents(),
                    patches@,
                    id_of(final(self).authors(), old(self).merger_name()),
                ) is None && final(self).pending() is None,
                Ok(()) => old(self).expects_patches() && final(self).authors() == registered(
                    old(self).authors(),
                    old(self).merger_name(),
                ) && authors_known(patches@, final(self).authors().len() as int) && final(self).pending() is Some && final(self).pending() == analyzed(
                    old(self).patch_parents(),
                    patches@,
                    id_of(final(self).authors(), old(self).merger_name()),
                ),
            },
    {
        let req = self.next_request();
        if self.pending.is_some() {
            return Err(StepError::OutOfTurn);
        }
        let (commit, older) = match req {
            Request::DiffWithParents { commit, parents } => (commit, false),
            Request::DiffWithNothing { commit } => (commit, false),
            Request::DiffWithBaseline { commit, base } => (commit, true),
            _ => {
                return Err(StepError::OutOfTurn);
            },
        };
        let i = self.step;
        let ghost name_view = self.merger_name();
        let ghost parent_maps = self.patch_parents();
        let ghost before = self.authors@;
        let name: &str = if older {
            self.baseline_label.as_str()
        } else {
            match &self.table.get(commit).author {
                Some(n) => n.as_str(),
                None => self.unknown_label.as_str(),
            }
        };
        let merger = match self.authors.try_query_id(name) {
            None => {
                return Err(StepError::RegistryFull);
            },
            Some(m) => m,
        };
        let bound = self.authors.len();
        proof {
            lemma_id_of(self.authors@, name@, merger);
            assert forall|j: int| 0 <= j < self.trees@.len() implies ((
            #[trigger] self.trees@[j]) matches Some(t) ==> t.wf() && tree_below(
                t@,
                self.authors@.len() as int,
            )) by {
                if let Some(t) = self.trees@[j] {
                    lemma_tree_below_mono(t@, before.len() as int, self.authors@.len() as int);
                }
            }
            if self.baseline is Some {
                lemma_tree_below_mono(
                    self.baseline.unwrap().tree@,
                    before.len() as int,
                    self.authors@.len() as int,
                );
            }
        }
        if !all_known(patches.as_slice(), bound) {
            return Err(StepError::UnknownAuthor);
        }
        let empty = Tree::empty();
        let result: Option<Tree> = {
            let mut parents: Vec<&Tree> = Vec::new();
            if older {
                parents.push(&self.baseline.as_ref().unwrap().tree);
                assert(tree_maps(parents@) =~= parent_maps);
            } else {
                let adj = self.graph.get_parent_idx(i).unwrap();
                if adj.len() == 0 {
                    parents.push(&empty);
                    assert(tree_maps(parents@) =~= parent_maps);
                } else {
                    let mut t: usize = 0;
                    while t < adj.len()
                        invariant
                            t <= adj@.len(),
                            self.wf(),
                            i == self.step,
                            i < self.graph.nodes().len(),
                            adj@ == self.graph.parents()[i as int],
                            parents@.len() == t,
                            forall|q: int|
                                0 <= q < t ==> Some(*(#[trigger] parents@[q]))
                                    == self.trees@[adj@[q] as int],
                        decreases adj.len() - t,
                    {
                        proof {
                            self.lemma_parent_held(t as int);
                        }
                        let p = adj[t];
                        parents.push(self.trees[p].as_ref().unwrap());
                        t += 1;
                    }
                    assert(tree_maps(parents@) =~= parent_maps);
                }
            }
            proof {
                assert forall|q: int| 0 <= q < parents@.len() implies (#[trigger] parents@[q]).wf()
                    && tree_below(tree_maps(parents@)[q], bound as int) by {
                    if older {
                    } else if self.graph.parents()[i as int].len() == 0 {
                        assert(parents@[q]@ =~= Map::<Seq<char>, Seq<LineBlock>>::empty());
                    } else {
                        self.lemma_parent_held(q);
                        assert(Some(*parents@[q]) == self.trees@[self.graph.parents()[i as int][q] as int]);
                    }
                }
                lemma_analyzed_authors(tree_maps(parents@), patches@, merger, bound as int);
            }
            Tree::try_analyze_patch(parents.as_slice(), patches.as_slice(), merger)
        };
        match result {
            None => Err(StepError::LineCount),
            Some(t) => {
                self.pending = Some(t);
                Ok(())
            },
        }
    }

    /// Takes the listing of files that the current step asked for: its
    /// tree holds each file as one block of the baseline author, and stays
    /// as the tree that later boundary commits are diffed against.
    pub fn supply_files(&mut self, files: Vec<FileLines>) -> (r: Result<(), StepError>)
        requires
            old(self).wf(),
        ensures
            r == old(self).files_answer(),
            final(self).wf(),
            final(self).commits() == old(self).commits(),
            final(self).nodes() == old(self).nodes(),
            final(self).parents() == old(self).parents(),
            final(self).last_uses() == old(self).last_uses(),
            final(self).baseline_label() == old(self).baseline_label(),
            final(self).unknown_label() == old(self).unknown_label(),
            final(self).step() == old(self).step(),
            forall|j: int| final(self).tree_at(j) == old(self).tree_at(j),
            match r {
                Err(StepError::OutOfTurn) => !old(self).expects_files() && final(self).authors()
                    == old(self).authors() && final(self).pending() == old(self).pending()
                    && final(self).baseline() == old(self).baseline(),
                Err(StepError::RegistryFull) => old(self).expects_files() && !old(self).authors().contains(old(self).baseline_label()) && old(self).authors().len() > u32::MAX
                    && final(self).authors() == old(self).authors() && final(self).pending()
                    is None && final(self).baseline() == old(self).baseline(),
                Ok(()) => old(self).expects_files() && final(self).authors() == registered(
                    old(self).authors(),
                    old(self).baseline_label(),
                ) && final(self).pending() == Some(
                    baseline_map(
                        files@,
                        id_of(final(self).authors(), old(self).baseline_label()),
                    ),
                ) && final(self).baseline() == Some(
                    (
                        old(self).nodes()[old(self).step()],
                        baseline_map(
                            files@,
                            id_of(final(self).authors(), old(self).baseline_label()),
                        ),
                    ),
                ),
                _ => false,
            },
    {
        let req = self.next_request();
        if self.pending.is_some() {
            return Err(StepError::OutOfTurn);
        }
        let commit = match req {
            Request::ListFiles { commit } => commit,
            _ => {
                return Err(StepError::OutOfTurn);
            },
        };
        let ghost before = self.authors@;
        let older = match self.authors.try_query_id(self.baseline_label.as_str()) {
            None => {
                return Err(StepError::RegistryFull);
            },
            Some(m) => m,
        };
        proof {
            lemma_id_of(self.authors@, self.baseline_label@, older);
            assert forall|j: int| 0 <= j < self.trees@.len() implies ((
            #[trigger] self.trees@[j]) matches Some(t) ==> t.wf() && tree_below(
                t@,
                self.authors@.len() as int,
            )) by {
                if let Some(t) = self.trees@[j] {
                    lemma_tree_below_mono(t@, before.len() as int, self.authors@.len() as int);
                }
            }
            lemma_baseline_below(files@, older);
            lemma_tree_below_mono(
                baseline_map(files@, older),
                older + 1,
                self.authors@.len() as int,
            );
        }
        let tree = Tree::from_commit(files.as_slice(), older);
        self.baseline = Some(Baseline { commit, tree: tree.clone() });
        self.pending = Some(tree);
        Ok(())
    }

    /// Closes the current step once its tree is computed: the tree is
    /// held from now on, and the trees whose last use this step was are
    /// dropped. Says by `false`, and changes nothing, if the step's tree
    /// is not computed yet.
    pub fn finish_step(&mut self) -> (done: bool)
        requires
            old(self).wf(),
        ensures
            final(self).wf(),
            done == (old(self).pending() is Some),
            final(self).commits() == old(self).commits(),
            final(self).nodes() == old(self).nodes(),
            final(self).parents() == old(self).parents(),
            final(self).last_uses() == old(self).last_uses(),
            final(self).baseline_label() == old(self).baseline_label(),
            final(self).unknown_label() == old(self).unknown_label(),
            final(self).baseline() == old(self).baseline(),
            final(self).authors() == old(self).authors(),
            final(self).pending() is None,
            !done ==> final(self).step() == old(self).step() && forall|j: int|
                final(self).tree_at(j) == old(self).tree_at(j),
            done ==> final(self).step() == old(self).step() + 1 && forall|j: int|
                (#[trigger] final(self).tree_at(j)) == (if held(
                    old(self).last_uses(),
                    j,
                    old(self).step() + 1,
                ) {
                    if j == old(self).step() {
                        old(self).pending()
                    } else {
                        old(self).tree_at(j)
                    }
                } else {
                    None
                }),
    {
        let tree = match self.pending.take() {
            None => {
                return false;
            },
            Some(t) => t,
        };
        let i = self.step;
        let ghost before = self.trees@;
        let ghost last_use = self.graph.last_uses();
        self.trees[i] = Some(tree);
        let ghost with_new = self.trees@;
        let n = self.trees.len();
        let ghost snap = *self;
        let expired = &self.plan[i].expired;
        proof {
            lemma_expired_from(last_use, i as int, 0);
            assert(expired@.take(0) =~= Seq::<usize>::empty());
        }
        let mut e: usize = 0;
        while e < expired.len()
            invariant
                e <= expired@.len(),
                self.table == snap.table,
                self.graph == snap.graph,
                self.plan == snap.plan,
                self.baseline == snap.baseline,
                self.pending == snap.pending,
                self.step == snap.step,
                self.authors == snap.authors,
                self.baseline_label == snap.baseline_label,
                self.unknown_label == snap.unknown_label,
                n == self.trees@.len(),
                n == with_new.len(),
                n == last_use.len(),
                forall|idx: usize|
                    (#[trigger] expired@.contains(idx)) <==> (0 <= idx < last_use.len()
                        && last_use[idx as int] == i),
                forall|j: int|
                    0 <= j < n ==> (#[trigger] self.trees@[j]) == (if expired@.take(
                        e as int,
                    ).contains(j as usize) {
                        None
                    } else {
                        with_new[j]
                    }),
            decreases expired.len() - e,
        {
            let idx = expired[e];
            assert(expired@.contains(idx));
            let ghost prev = self.trees@;
            self.trees[idx] = None;
            proof {
                let old_part = expired@.take(e as int);
                let new_part = expired@.take(e + 1);
                assert(new_part =~= old_part.push(idx));
                assert forall|j: int| 0 <= j < n implies (#[trigger] self.trees@[j]) == (if new_part.contains(
                    j as usize,
                ) {
                    None
                } else {
                    with_new[j]
                }) by {
                    if j == idx {
                        assert(new_part[e as int] == idx);
                    } else {
                        assert(self.trees@[j] == prev[j]);
                        if old_part.contains(j as usize) {
                            let t = choose|t: int| 0 <= t < old_part.len() && old_part[t] == j as usize;
                            assert(new_part[t] == j as usize);
                        }
                        if new_part.contains(j as usize) {
                            let t = choose|t: int| 0 <= t < new_part.len() && new_part[t] == j as usize;
                            assert(old_part[t] == j as usize);
                        }
                    }
                }
            }
            e += 1;
        }
        proof {
            assert(expired@.take(e as int) =~= expired@);
        }
        self.step = i + 1;
        true
    }
}

} // verus!
