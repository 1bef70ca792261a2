//! The snapshot of a commit: for each path the blocks of the file there.

use crate::blocks::{blocks_wf, compress, compressed, lemma_compressed, total_lines, LineBlock};
use crate::order::str_same;
use crate::overlay::checked_total;
use std::rc::Rc;
use vstd::prelude::*;

verus! {

/// A file of a tree. Its blocks are shared with the trees that the tree
/// was copied from, and with its copies, until one of them replaces them.
pub struct TreeEntry {
    pub path: String,
    pub blocks: Rc<Vec<LineBlock>>,
}

/// A file at a commit, as a walk over the commit's files reports it.
#[derive(Debug)]
pub struct FileLines {
    pub path: String,
    pub lines: u32,
}

/// The number of line feeds among the first `n` bytes.
pub open spec fn feeds(content: Seq<u8>, n: int) -> int
    decreases n,
{
    if n <= 0 {
        0
    } else {
        feeds(content, n - 1) + (if content[n - 1] == 10u8 {
            1int
        } else {
            0int
        })
    }
}

/// The number of lines of a file's content: one for each line feed, and
/// one more for a last line that no line feed ends.
pub open spec fn line_count(content: Seq<u8>) -> int {
    feeds(content, content.len() as int) + (if content.len() > 0 && content.last() != 10u8 {
        1int
    } else {
        0int
    })
}

/// There are no more line feeds than bytes, and fewer if the last byte is
/// none.
pub proof fn lemma_feeds(content: Seq<u8>, n: int)
    requires
        0 <= n <= content.len(),
    ensures
        0 <= feeds(content, n) <= n,
        n > 0 && content[n - 1] != 10u8 ==> feeds(content, n) <= n - 1,
    decreases n,
{
    if n > 0 {
        lemma_feeds(content, n - 1);
    }
}

/// Counts the lines of a file's content.
pub fn count_lines(content: &[u8]) -> (n: usize)
    ensures
        n == line_count(content@),
{
    let mut lines: usize = 0;
    let mut i: usize = 0;
    while i < content.len()
        invariant
            i <= content@.len(),
            lines == feeds(content@, i as int),
        decreases content.len() - i,
    {
        proof {
            lemma_feeds(content@, i as int);
        }
        if content[i] == 10u8 {
            lines += 1;
        }
        i += 1;
    }
    proof {
        lemma_feeds(content@, content@.len() as int);
    }
    if content.len() > 0 && content[content.len() - 1] != 10u8 {
        lines += 1;
    }
    lines
}

/// A snapshot: a map from paths to block sequences.
pub struct Tree {
    entries: Vec<TreeEntry>,
}

/// The map that a list of files stands for; a later file of a path
/// replaces an earlier one.
pub open spec fn entries_map(entries: Seq<TreeEntry>) -> Map<Seq<char>, Seq<LineBlock>>
    decreases entries.len(),
{
    if entries.len() == 0 {
        Map::empty()
    } else {
        entries_map(entries.drop_last()).insert(entries.last().path@, entries.last().blocks@)
    }
}

/// No path occurs twice.
pub open spec fn paths_unique(entries: Seq<TreeEntry>) -> bool {
    forall|i: int, j: int|
        0 <= i < j < entries.len() ==> (#[trigger] entries[i]).path@ != (#[trigger] entries[j]).path@
}

/// Every file of the map has well-formed blocks.
pub open spec fn map_wf(m: Map<Seq<char>, Seq<LineBlock>>) -> bool {
    forall|p: Seq<char>| m.contains_key(p) ==> blocks_wf(#[trigger] m[p])
}

/// The map of a list without repeated paths holds just the list's files.
pub proof fn lemma_entries_map(entries: Seq<TreeEntry>)
    requires
        paths_unique(entries),
    ensures
        forall|i: int|
            0 <= i < entries.len() ==> entries_map(entries).contains_key(
                (#[trigger] entries[i]).path@,
            ) && entries_map(entries)[entries[i].path@] == entries[i].blocks@,
        forall|p: Seq<char>|
            entries_map(entries).contains_key(p) ==> exists|i: int|
                0 <= i < entries.len() && (#[trigger] entries[i]).path@ == p,
    decreases entries.len(),
{
    if entries.len() > 0 {
        let rest = entries.drop_last();
        assert(forall|i: int| 0 <= i < rest.len() ==> rest[i] == entries[i]);
        lemma_entries_map(rest);
        assert forall|p: Seq<char>| entries_map(entries).contains_key(p) implies exists|i: int|
            0 <= i < entries.len() && (#[trigger] entries[i]).path@ == p by {
            if p == entries.last().path@ {
                assert(entries[entries.len() - 1].path@ == p);
            } else {
                assert(entries_map(rest).contains_key(p));
                let i = choose|i: int| 0 <= i < rest.len() && (#[trigger] rest[i]).path@ == p;
                assert(rest[i] == entries[i]);
                assert(entries[i].path@ == p);
            }
        }
    }
}

/// The tree that holds each listed file as one block of `author`, as
/// large as the file has lines; a file listed twice counts as listed last.
pub open spec fn baseline_map(files: Seq<FileLines>, author: u32) -> Map<Seq<char>, Seq<LineBlock>>
    decreases files.len(),
{
    if files.len() == 0 {
        Map::empty()
    } else {
        baseline_map(files.drop_last(), author).insert(
            files.last().path@,
            seq![LineBlock { author_id: author, size: files.last().lines }],
        )
    }
}

impl View for Tree {
    type V = Map<Seq<char>, Seq<LineBlock>>;

    closed spec fn view(&self) -> Map<Seq<char>, Seq<LineBlock>> {
        entries_map(self.entries@)
    }
}

impl Tree {
    /// The files in the order in which the tree holds them.
    pub closed spec fn files(&self) -> Seq<TreeEntry> {
        self.entries@
    }

    /// No path is held twice, and every file's blocks are normalized and
    /// count no more lines than a line number can.
    pub closed spec fn wf(&self) -> bool {
        &&& paths_unique(self.entries@)
        &&& forall|i: int| 0 <= i < self.entries@.len() ==> blocks_wf((#[trigger] self.entries@[i]).blocks@)
    }

    /// A well-formed tree is the map of its files, none of them twice, and
    /// all its files are well-formed.
    pub proof fn lemma_wf(&self)
        requires
            self.wf(),
        ensures
            map_wf(self@),
            self@ == entries_map(self.files()),
            paths_unique(self.files()),
            forall|i: int| 0 <= i < self.files().len() ==> blocks_wf((#[trigger] self.files()[i]).blocks@),
    {
        lemma_entries_map(self.entries@);
        assert forall|p: Seq<char>| self@.contains_key(p) implies blocks_wf(#[trigger] self@[p]) by {
            let i = choose|i: int| 0 <= i < self.entries@.len() && (#[trigger] self.entries@[i]).path@ == p;
            assert(blocks_wf(self.entries@[i].blocks@));
        }
    }

    /// The tree without files.
    pub fn empty() -> (r: Tree)
        ensures
            r@ == Map::<Seq<char>, Seq<LineBlock>>::empty(),
            r.wf(),
            r.files().len() == 0,
    {
        Tree { entries: Vec::new() }
    }

    /// The tree of a commit whose files are all attributed to `author`:
    /// each file is one block of its line count.
    pub fn from_commit(files: &[FileLines], author: u32) -> (r: Tree)
        ensures
            r.wf(),
            r@ == baseline_map(files@, author),
    {
        let mut tree = Tree::empty();
        let mut i: usize = 0;
        assert(files@.take(0) =~= Seq::<FileLines>::empty());
        while i < files.len()
            invariant
                i <= files.len(),
                tree.wf(),
                tree@ == baseline_map(files@.take(i as int), author),
            decreases files.len() - i,
        {
            let mut blocks: Vec<LineBlock> = Vec::new();
            blocks.push(LineBlock { author_id: author, size: files[i].lines });
            proof {
                let one = LineBlock { author_id: author, size: files[i as int].lines };
                assert(blocks@ =~= seq![one]);
                crate::blocks::lemma_total_push(Seq::<LineBlock>::empty(), one);
                assert(Seq::<LineBlock>::empty().push(one) =~= blocks@);
                assert(total_lines(blocks@) == one.size);
                assert(files@.take(i + 1).drop_last() =~= files@.take(i as int));
            }
            tree.store(files[i].path.as_str(), blocks);
            i += 1;
        }
        assert(files@.take(i as int) =~= files@);
        tree
    }

    /// The number of files.
    pub fn len(&self) -> (n: usize)
        ensures
            n == self.files().len(),
    {
        self.entries.len()
    }

    /// The file that the tree holds at place `i`.
    pub fn file_at(&self, i: usize) -> (r: &TreeEntry)
        requires
            i < self.files().len(),
        ensures
            *r == self.files()[i as int],
    {
        &self.entries[i]
    }

    fn find(&self, path: &str) -> (r: Option<usize>)
        ensures
            match r {
                Some(i) => i < self.entries@.len() && self.entries@[i as int].path@ == path@,
                None => forall|i: int|
                    0 <= i < self.entries@.len() ==> (#[trigger] self.entries@[i]).path@ != path@,
            },
    {
        let mut i: usize = 0;
        while i < self.entries.len()
            invariant
                i <= self.entries@.len(),
                forall|j: int| 0 <= j < i ==> (#[trigger] self.entries@[j]).path@ != path@,
            decreases self.entries.len() - i,
        {
            if str_same(self.entries[i].path.as_str(), path) {
                return Some(i);
            }
            i += 1;
        }
        None
    }

    /// The blocks of the file at `path`, if the tree holds one.
    pub fn get(&self, path: &str) -> (r: Option<&[LineBlock]>)
        requires
            self.wf(),
        ensures
            match r {
                Some(b) => self@.contains_key(path@) && b@ == self@[path@] && blocks_wf(b@),
                None => !self@.contains_key(path@),
            },
    {
        proof {
            lemma_entries_map(self.entries@);
        }
        match self.find(path) {
            Some(i) => Some(self.entries[i].blocks.as_slice()),
            None => None,
        }
    }

    /// Whether the tree holds a file at `path`.
    pub fn contains(&self, path: &str) -> (r: bool)
        requires
            self.wf(),
        ensures
            r == self@.contains_key(path@),
    {
        self.get(path).is_some()
    }

    /// Puts well-formed blocks at `path`, in place of what was there.
    pub fn store(&mut self, path: &str, blocks: Vec<LineBlock>)
        requires
            old(self).wf(),
            blocks_wf(blocks@),
        ensures
            final(self).wf(),
            final(self)@ == old(self)@.insert(path@, blocks@),
    {
        self.store_shared(path, Rc::new(blocks));
    }

    /// The blocks of the file at `path`, to be shared with another tree.
    pub fn get_shared(&self, path: &str) -> (r: Option<Rc<Vec<LineBlock>>>)
        requires
            self.wf(),
        ensures
            match r {
                Some(b) => self@.contains_key(path@) && b@ == self@[path@] && blocks_wf(b@),
                None => !self@.contains_key(path@),
            },
    {
        proof {
            lemma_entries_map(self.entries@);
        }
        match self.find(path) {
            Some(i) => Some(self.entries[i].blocks.clone()),
            None => None,
        }
    }

    /// Puts well-formed blocks that another tree may hold too at `path`,
    /// in place of what was there.
    pub fn store_shared(&mut self, path: &str, blocks: Rc<Vec<LineBlock>>)
        requires
            old(self).wf(),
            blocks_wf(blocks@),
        ensures
            final(self).wf(),
            final(self)@ == old(self)@.insert(path@, blocks@),
    {
        proof {
            lemma_entries_map(self.entries@);
        }
        match self.find(path) {
            Some(i) => {
                let ghost before = self.entries@;
                self.entries[i].blocks = blocks;
                proof {
                    let after = self.entries@;
                    assert(after.len() == before.len());
                    assert(forall|j: int| 0 <= j < after.len() ==> after[j].path@ == before[j].path@);
                    assert(forall|j: int|
                        0 <= j < after.len() && j != i ==> after[j].blocks@ == before[j].blocks@);
                    assert(paths_unique(after));
                    lemma_entries_map(after);
                    assert(entries_map(after) =~= entries_map(before).insert(path@, blocks@)) by {
                        assert forall|p: Seq<char>|
                            entries_map(after).contains_key(p) == entries_map(before).insert(
                                path@,
                                blocks@,
                            ).contains_key(p) by {
                            if entries_map(after).contains_key(p) {
                                let j = choose|j: int|
                                    0 <= j < after.len() && (#[trigger] after[j]).path@ == p;
                                assert(before[j].path@ == p);
                            }
                            if entries_map(before).contains_key(p) {
                                let j = choose|j: int|
                                    0 <= j < before.len() && (#[trigger] before[j]).path@ == p;
                                assert(after[j].path@ == p);
                            }
                            if p == path@ {
                                assert(after[i as int].path@ == p);
                            }
                        }
                        assert forall|p: Seq<char>| entries_map(after).contains_key(p) implies (
                        #[trigger] entries_map(after)[p]) == entries_map(before).insert(
                            path@,
                            blocks@,
                        )[p] by {
                            let j = choose|j: int|
                                0 <= j < after.len() && (#[trigger] after[j]).path@ == p;
                            assert(before[j].path@ == p);
                            if j != i {
                                assert(p != path@);
                            }
                        }
                    }
                }
            },
            None => {
                let ghost before = self.entries@;
                let owned = path.to_owned();
                self.entries.push(TreeEntry { path: owned, blocks });
                proof {
                    assert(self.entries@.drop_last() =~= before);
                }
            },
        }
    }

    /// Puts blocks at `path`, in place of what was there, with neighbours
    /// of one author merged. Leaves the tree as it was, and says so by
    /// `false`, if the blocks count more lines than a line number can.
    pub fn insert(&mut self, path: &str, blocks: Vec<LineBlock>) -> (done: bool)
        requires
            old(self).wf(),
        ensures
            final(self).wf(),
            done == (total_lines(blocks@) <= u32::MAX),
            done ==> final(self)@ == old(self)@.insert(path@, compressed(blocks@)),
            !done ==> final(self)@ == old(self)@,
    {
        match checked_total(blocks.as_slice()) {
            Some(_) => {
                let tidy = compress(blocks.as_slice());
                proof {
                    lemma_compressed(blocks@);
                }
                self.store(path, tidy);
                true
            },
            None => false,
        }
    }

    /// Takes the file at `path` out of the tree, and gives its blocks.
    pub fn remove(&mut self, path: &str) -> (r: Option<Vec<LineBlock>>)
        requires
            old(self).wf(),
        ensures
            final(self).wf(),
            final(self)@ == old(self)@.remove(path@),
            match r {
                Some(b) => old(self)@.contains_key(path@) && b@ == old(self)@[path@],
                None => !old(self)@.contains_key(path@),
            },
    {
        proof {
            lemma_entries_map(self.entries@);
        }
        match self.find(path) {
            Some(i) => {
                let ghost before = self.entries@;
                let entry = self.entries.remove(i);
                proof {
                    let after = self.entries@;
                    assert(after =~= before.remove(i as int));
                    assert(forall|j: int| 0 <= j < i ==> after[j] == before[j]);
                    assert(forall|j: int| i <= j < after.len() ==> after[j] == before[j + 1]);
                    assert(paths_unique(after)) by {
                        assert forall|a: int, b: int| 0 <= a < b < after.len() implies (
                        #[trigger] after[a]).path@ != (#[trigger] after[b]).path@ by {
                            let a0 = if a < i { a } else { a + 1 };
                            let b0 = if b < i { b } else { b + 1 };
                            assert(before[a0].path@ != before[b0].path@);
                        }
                    }
                    lemma_entries_map(after);
                    assert(entries_map(after) =~= entries_map(before).remove(path@)) by {
                        assert forall|p: Seq<char>|
                            entries_map(after).contains_key(p) == entries_map(before).remove(
                                path@,
                            ).contains_key(p) by {
                            if entries_map(after).contains_key(p) {
                                let j = choose|j: int|
                                    0 <= j < after.len() && (#[trigger] after[j]).path@ == p;
                                let j0 = if j < i { j } else { j + 1 };
                                assert(before[j0].path@ == p);
                                if j0 < i {
                                    assert(before[j0].path@ != before[i as int].path@);
                                } else {
                                    assert(before[i as int].path@ != before[j0].path@);
                                }
                            }
                            if entries_map(before).contains_key(p) && p != path@ {
                                let j = choose|j: int|
                                    0 <= j < before.len() && (#[trigger] before[j]).path@ == p;
                                let j1 = if j < i { j } else { j - 1 };
                                assert(after[j1].path@ == p);
                            }
                        }
                        assert forall|p: Seq<char>| entries_map(after).contains_key(p) implies (
                        #[trigger] entries_map(after)[p]) == entries_map(before).remove(path@)[p] by {
                            let j = choose|j: int|
                                0 <= j < after.len() && (#[trigger] after[j]).path@ == p;
                            let j0 = if j < i { j } else { j + 1 };
                            assert(before[j0].path@ == p);
                        }
                    }
                }
                let blocks = match Rc::try_unwrap(entry.blocks) {
                    Ok(own) => own,
                    Err(shared) => {
                        let copy = (*shared).clone();
                        assert(copy@ =~= shared@);
                        copy
                    },
                };
                Some(blocks)
            },
            None => {
                proof {
                    assert(self@.remove(path@) =~= self@);
                }
                None
            },
        }
    }

    /// The paths of the files, in the order in which the tree holds them.
    pub fn paths(&self) -> (r: Vec<String>)
        ensures
            r@.len() == self.files().len(),
            forall|i: int| 0 <= i < r@.len() ==> (#[trigger] r@[i])@ == self.files()[i].path@,
    {
        let mut out: Vec<String> = Vec::new();
        let mut i: usize = 0;
        while i < self.entries.len()
            invariant
                i <= self.entries@.len(),
                out@.len() == i,
                forall|j: int| 0 <= j < i ==> (#[trigger] out@[j])@ == self.entries@[j].path@,
            decreases self.entries.len() - i,
        {
            out.push(self.entries[i].path.clone());
            i += 1;
        }
        out
    }
}

impl Clone for Tree {
    /// A copy that holds the same files. The blocks are not copied: the
    /// copy shares them with the tree.
    fn clone(&self) -> (r: Tree)
        ensures
            r@ == self@,
            r.wf() == self.wf(),
            r.files().len() == self.files().len(),
            forall|i: int|
                0 <= i < r.files().len() ==> (#[trigger] r.files()[i]).path@ == self.files()[i].path@
                    && r.files()[i].blocks@ == self.files()[i].blocks@,
    {
        let mut entries: Vec<TreeEntry> = Vec::new();
        let mut i: usize = 0;
        while i < self.entries.len()
            invariant
                i <= self.entries@.len(),
                entries@.len() == i,
                forall|j: int|
                    0 <= j < i ==> (#[trigger] entries@[j]).path@ == self.entries@[j].path@
                        && entries@[j].blocks@ == self.entries@[j].blocks@,
            decreases self.entries.len() - i,
        {
            let e = &self.entries[i];
            entries.push(TreeEntry { path: e.path.clone(), blocks: e.blocks.clone() });
            i += 1;
        }
        proof {
            lemma_same_files(entries@, self.entries@);
        }
        Tree { entries }
    }
}

/// Lists with the same paths and blocks at each place stand for the same
/// map.
pub proof fn lemma_same_files(a: Seq<TreeEntry>, b: Seq<TreeEntry>)
    requires
        a.len() == b.len(),
        forall|j: int|
            0 <= j < a.len() ==> (#[trigger] a[j]).path@ == b[j].path@ && a[j].blocks@
                == b[j].blocks@,
    ensures
        entries_map(a) == entries_map(b),
        paths_unique(a) == paths_unique(b),
        (forall|i: int| 0 <= i < a.len() ==> blocks_wf((#[trigger] a[i]).blocks@)) == (forall|i: int|
            0 <= i < b.len() ==> blocks_wf((#[trigger] b[i]).blocks@)),
    decreases a.len(),
{
    if a.len() > 0 {
        assert(forall|i: int| 0 <= i < a.len() - 1 ==> a.drop_last()[i] == a[i]);
        assert(forall|i: int| 0 <= i < b.len() - 1 ==> b.drop_last()[i] == b[i]);
        lemma_same_files(a.drop_last(), b.drop_last());
    }
    if paths_unique(a) {
        assert forall|i: int, j: int| 0 <= i < j < b.len() implies (#[trigger] b[i]).path@ != (
        #[trigger] b[j]).path@ by {
            assert(a[i].path@ != a[j].path@);
        }
    }
    if paths_unique(b) {
        assert forall|i: int, j: int| 0 <= i < j < a.len() implies (#[trigger] a[i]).path@ != (
        #[trigger] a[j]).path@ by {
            assert(b[i].path@ != b[j].path@);
        }
    }
    if forall|i: int| 0 <= i < a.len() ==> blocks_wf((#[trigger] a[i]).blocks@) {
        assert forall|i: int| 0 <= i < b.len() implies blocks_wf((#[trigger] b[i]).blocks@) by {
            assert(blocks_wf(a[i].blocks@));
        }
    }
    if forall|i: int| 0 <= i < b.len() ==> blocks_wf((#[trigger] b[i]).blocks@) {
        assert forall|i: int| 0 <= i < a.len() implies blocks_wf((#[trigger] a[i]).blocks@) by {
            assert(blocks_wf(b[i].blocks@));
        }
    }
}

} // verus!
