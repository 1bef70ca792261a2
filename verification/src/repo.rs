//! The files of a history followed line by line: for each path the
//! authors of the file's lines, and a running count of the lines of the
//! files that the patterns select.

use crate::author::AuthorStat;
use crate::file::{
    flag_feasible, update_feasible, updated, with_flag, with_update, LineEdit, RepoFile,
};
use crate::filter::should_tracking;
use crate::order::str_same;
use glob::Pattern;
use vstd::prelude::*;

verus! {

/// A file with its path.
pub struct TrackedFile {
    pub path: String,
    pub file: RepoFile,
}

/// What a file holds: the authors of its lines, and whether they count.
pub struct FileState {
    pub lines: Seq<u16>,
    pub counted: bool,
}

/// What a file holds.
pub open spec fn state_of(file: RepoFile) -> FileState {
    FileState { lines: file.lines(), counted: file.counted() }
}

/// The map that a list of files stands for.
pub open spec fn files_map(entries: Seq<TrackedFile>) -> Map<Seq<char>, FileState>
    decreases entries.len(),
{
    if entries.len() == 0 {
        Map::empty()
    } else {
        files_map(entries.drop_last()).insert(entries.last().path@, state_of(entries.last().file))
    }
}

/// No path occurs twice.
pub open spec fn files_unique(entries: Seq<TrackedFile>) -> bool {
    forall|i: int, j: int|
        0 <= i < j < entries.len() ==> (#[trigger] entries[i]).path@ != (#[trigger] entries[j]).path@
}

proof fn lemma_files_map(entries: Seq<TrackedFile>)
    requires
        files_unique(entries),
    ensures
        forall|i: int|
            0 <= i < entries.len() ==> files_map(entries).contains_key(
                (#[trigger] entries[i]).path@,
            ) && files_map(entries)[entries[i].path@] == state_of(entries[i].file),
        forall|p: Seq<char>|
            files_map(entries).contains_key(p) ==> exists|i: int|
                0 <= i < entries.len() && (#[trigger] entries[i]).path@ == p,
    decreases entries.len(),
{
    if entries.len() > 0 {
        let rest = entries.drop_last();
        assert(forall|i: int| 0 <= i < rest.len() ==> rest[i] == entries[i]);
        lemma_files_map(rest);
        assert forall|p: Seq<char>| files_map(entries).contains_key(p) implies exists|i: int|
            0 <= i < entries.len() && (#[trigger] entries[i]).path@ == p by {
            if p == entries.last().path@ {
                assert(entries[entries.len() - 1].path@ == p);
            } else {
                assert(files_map(rest).contains_key(p));
                let i = choose|i: int| 0 <= i < rest.len() && (#[trigger] rest[i]).path@ == p;
                assert(rest[i] == entries[i]);
            }
        }
    }
}

/// What a change of one file works on.
pub struct Change {
    pub author: u16,
    pub old_file: Option<Seq<char>>,
    pub new_file: Option<Seq<char>>,
    pub patch: Seq<LineEdit>,
    /// Whether a file first seen at the old path counts.
    pub track_old: bool,
    /// Whether a file at the new path counts.
    pub track_new: bool,
}

impl Change {
    /// The path at which the file is found: the old path, or the new one
    /// for a file without an old path.
    pub open spec fn key(self) -> Seq<char> {
        match self.old_file {
            Some(o) => o,
            None => self.new_file.unwrap(),
        }
    }

    /// The file before the change; a file that is not there yet is empty.
    pub open spec fn found(self, files: Map<Seq<char>, FileState>) -> FileState {
        if files.contains_key(self.key()) {
            files[self.key()]
        } else {
            FileState { lines: Seq::empty(), counted: self.track_old }
        }
    }

    /// The file that the renamed file takes the place of.
    pub open spec fn displaced(self, files: Map<Seq<char>, FileState>) -> Option<FileState> {
        if files.contains_key(self.new_file.unwrap()) {
            Some(files[self.new_file.unwrap()])
        } else {
            None
        }
    }

    /// Whether the change removes the file.
    pub open spec fn deletes(self) -> bool {
        self.new_file is None
    }

    /// Whether the change moves the file to another path.
    pub open spec fn renames(self) -> bool {
        self.new_file is Some && self.key() != self.new_file.unwrap()
    }

    /// The lines of the file after the change.
    pub open spec fn new_lines(self, files: Map<Seq<char>, FileState>) -> Seq<u16> {
        updated(self.found(files).lines, self.author, self.patch)
    }

    /// The statistics after the file in the way of a renamed file has
    /// stopped to count.
    pub open spec fn counts_cleared(self, files: Map<Seq<char>, FileState>, counts: Seq<usize>) -> Seq<
        usize,
    > {
        match self.displaced(files) {
            Some(d) => with_flag(counts, d.lines, d.counted, false),
            None => counts,
        }
    }

    /// The statistics after a renamed file has taken the flag of its new
    /// path.
    pub open spec fn counts_moved(self, files: Map<Seq<char>, FileState>, counts: Seq<usize>) -> Seq<
        usize,
    > {
        with_flag(
            self.counts_cleared(files, counts),
            self.found(files).lines,
            self.found(files).counted,
            self.track_new,
        )
    }

    /// The statistics after the change. A deleted file stops to count. A
    /// renamed file takes the place of the file at the new path, which
    /// stops to count; it counts as files at the new path do, and then
    /// its lines change. A file that stays keeps its flag, and its lines
    /// change.
    pub open spec fn counts_after(self, files: Map<Seq<char>, FileState>, counts: Seq<usize>) -> Seq<
        usize,
    > {
        let found = self.found(files);
        if self.deletes() {
            with_flag(counts, found.lines, found.counted, false)
        } else if self.renames() {
            with_update(
                self.counts_moved(files, counts),
                found.lines,
                self.track_new,
                self.author,
                self.patch,
            )
        } else {
            with_update(counts, found.lines, found.counted, self.author, self.patch)
        }
    }

    /// The files after the change.
    pub open spec fn files_after(self, files: Map<Seq<char>, FileState>) -> Map<
        Seq<char>,
        FileState,
    > {
        let found = self.found(files);
        if self.deletes() {
            files.remove(self.key())
        } else if self.renames() {
            files.remove(self.key()).insert(
                self.new_file.unwrap(),
                FileState { lines: self.new_lines(files), counted: self.track_new },
            )
        } else {
            files.insert(
                self.key(),
                FileState { lines: self.new_lines(files), counted: found.counted },
            )
        }
    }

    /// Whether the change can be made: it names a path, its patch fits,
    /// and the statistics can follow each of its steps.
    pub open spec fn feasible(self, files: Map<Seq<char>, FileState>, counts: Seq<usize>) -> bool {
        let found = self.found(files);
        &&& self.old_file is Some || self.new_file is Some
        &&& if self.deletes() {
            flag_feasible(counts, found.lines, found.counted, false)
        } else if self.renames() {
            &&& self.displaced(files) matches Some(d) ==> flag_feasible(
                counts,
                d.lines,
                d.counted,
                false,
            )
            &&& flag_feasible(
                self.counts_cleared(files, counts),
                found.lines,
                found.counted,
                self.track_new,
            )
            &&& update_feasible(
                self.counts_moved(files, counts),
                found.lines,
                self.track_new,
                self.author,
                self.patch,
            )
        } else {
            update_feasible(counts, found.lines, found.counted, self.author, self.patch)
        }
    }
}

/// The files of a history, and the patterns that say which of them
/// count.
pub struct GitRepo<'a> {
    tree: Vec<TrackedFile>,
    patterns: &'a [Pattern],
}

impl<'a> View for GitRepo<'a> {
    type V = Map<Seq<char>, FileState>;

    closed spec fn view(&self) -> Map<Seq<char>, FileState> {
        files_map(self.tree@)
    }
}

impl<'a> GitRepo<'a> {
    /// No path is held twice.
    pub closed spec fn wf(&self) -> bool {
        files_unique(self.tree@)
    }

    /// The patterns that say which files count.
    pub closed spec fn patterns(&self) -> Seq<Pattern> {
        self.patterns@
    }

    /// No files yet.
    pub fn empty(patterns: &'a [Pattern]) -> (r: GitRepo<'a>)
        ensures
            r.wf(),
            r@ == Map::<Seq<char>, FileState>::empty(),
            r.patterns() == patterns@,
    {
        GitRepo { tree: Vec::new(), patterns }
    }

    /// Whether a file at `path` counts: whether one of the patterns
    /// matches the path.
    pub fn should_tracking(&self, path: &str) -> (r: bool)
        ensures
            self.patterns().len() == 0 ==> !r,
    {
        should_tracking(self.patterns, path)
    }

    fn find(&self, path: &str) -> (r: Option<usize>)
        ensures
            match r {
                Some(i) => i < self.tree@.len() && self.tree@[i as int].path@ == path@,
                None => forall|i: int|
                    0 <= i < self.tree@.len() ==> (#[trigger] self.tree@[i]).path@ != path@,
            },
    {
        let mut i: usize = 0;
        while i < self.tree.len()
            invariant
                i <= self.tree@.len(),
                forall|j: int| 0 <= j < i ==> (#[trigger] self.tree@[j]).path@ != path@,
            decreases self.tree.len() - i,
        {
            if str_same(self.tree[i].path.as_str(), path) {
                return Some(i);
            }
            i += 1;
        }
        None
    }

    /// The file at `path`, if there is one.
    pub fn get(&self, path: &str) -> (r: Option<&RepoFile>)
        requires
            self.wf(),
        ensures
            match r {
                Some(f) => self@.contains_key(path@) && state_of(*f) == self@[path@],
                None => !self@.contains_key(path@),
            },
    {
        proof {
            lemma_files_map(self.tree@);
        }
        match self.find(path) {
            Some(i) => Some(&self.tree[i].file),
            None => None,
        }
    }

    /// A copy of the file at `path`; an empty file that counts by `flag`
    /// if there is none.
    fn found(&self, path: &str, flag: bool) -> (r: RepoFile)
        requires
            self.wf(),
        ensures
            state_of(r) == (if self@.contains_key(path@) {
                self@[path@]
            } else {
                FileState { lines: Seq::empty(), counted: flag }
            }),
    {
        proof {
            lemma_files_map(self.tree@);
        }
        match self.find(path) {
            Some(i) => self.tree[i].file.clone(),
            None => RepoFile::empty(flag),
        }
    }

    /// Takes the file at `path` away, if there is one.
    fn remove_path(&mut self, path: &str)
        requires
            old(self).wf(),
        ensures
            final(self).wf(),
            final(self)@ == old(self)@.remove(path@),
            final(self).patterns() == old(self).patterns(),
    {
        proof {
            lemma_files_map(self.tree@);
        }
        match self.find(path) {
            Some(i) => {
                let ghost before = self.tree@;
                self.tree.remove(i);
                proof {
                    let after = self.tree@;
                    assert(after =~= before.remove(i as int));
                    assert(forall|j: int| 0 <= j < i ==> after[j] == before[j]);
                    assert(forall|j: int| i <= j < after.len() ==> after[j] == before[j + 1]);
                    assert(files_unique(after)) by {
                        assert forall|a: int, b: int| 0 <= a < b < after.len() implies (
                        #[trigger] after[a]).path@ != (#[trigger] after[b]).path@ by {
                            let a0 = if a < i { a } else { a + 1 };
                            let b0 = if b < i { b } else { b + 1 };
                            assert(before[a0].path@ != before[b0].path@);
                        }
                    }
                    lemma_files_map(after);
                    assert(files_map(after) =~= files_map(before).remove(path@)) by {
                        assert forall|p: Seq<char>|
                            files_map(after).contains_key(p) == files_map(before).remove(
                                path@,
                            ).contains_key(p) by {
                            if files_map(after).contains_key(p) {
                                let j = choose|j: int|
                                    0 <= j < after.len() && (#[trigger] after[j]).path@ == p;
                                let j0 = if j < i { j } else { j + 1 };
                                assert(before[j0].path@ == p);
                                if j0 < i {
                                    assert(before[j0].path@ != before[i as int].path@);
                                } else {
                                    assert(before[i as int].path@ != before[j0].path@);
                                }
                            }
                            if files_map(before).contains_key(p) && p != path@ {
                                let j = choose|j: int|
                                    0 <= j < before.len() && (#[trigger] before[j]).path@ == p;
                                let j1 = if j < i { j } else { j - 1 };
                                assert(after[j1].path@ == p);
                            }
                        }
                        assert forall|p: Seq<char>| files_map(after).contains_key(p) implies (
                        #[trigger] files_map(after)[p]) == files_map(before).remove(path@)[p] by {
                            let j = choose|j: int|
                                0 <= j < after.len() && (#[trigger] after[j]).path@ == p;
                            let j0 = if j < i { j } else { j + 1 };
                            assert(before[j0].path@ == p);
                        }
                    }
                }
            },
            None => {
                assert(self@.remove(path@) =~= self@);
            },
        }
    }

    /// Puts a file at a path that holds none.
    fn put(&mut self, path: &str, file: RepoFile)
        requires
            old(self).wf(),
            !old(self)@.contains_key(path@),
        ensures
            final(self).wf(),
            final(self)@ == old(self)@.insert(path@, state_of(file)),
            final(self).patterns() == old(self).patterns(),
    {
        let ghost before = self.tree@;
        proof {
            lemma_files_map(before);
        }
        self.tree.push(TrackedFile { path: path.to_owned(), file });
        assert(self.tree@.drop_last() =~= before);
    }

    /// Applies the change of one file, given whether a file first seen at
    /// the old path counts and whether a file at the new path does. Says
    /// by `false`, and changes nothing, if the change cannot be made.
    pub fn apply_file_diff_with(
        &mut self,
        author: u16,
        old_file: Option<&str>,
        new_file: Option<&str>,
        patch: &[LineEdit],
        stat: &mut AuthorStat,
        track_old: bool,
        track_new: bool,
    ) -> (done: bool)
        requires
            old(self).wf(),
        ensures
            final(self).wf(),
            final(self).patterns() == old(self).patterns(),
            done == change_of(author, old_file, new_file, patch@, track_old, track_new).feasible(
                old(self)@,
                old(stat).0@,
            ),
            final(self)@ == (if done {
                change_of(author, old_file, new_file, patch@, track_old, track_new).files_after(
                    old(self)@,
                )
            } else {
                old(self)@
            }),
            final(stat).0@ == (if done {
                change_of(author, old_file, new_file, patch@, track_old, track_new).counts_after(
                    old(self)@,
                    old(stat).0@,
                )
            } else {
                old(stat).0@
            }),
    {
        let ghost change = change_of(author, old_file, new_file, patch@, track_old, track_new);
        let ghost files = self@;
        let key: &str = match (old_file, new_file) {
            (Some(o), _) => o,
            (None, Some(n)) => n,
            (None, None) => {
                return false;
            },
        };
        let mut work = stat.duplicate();
        let mut moved = self.found(key, track_old);
        match new_file {
            None => {
                if !moved.set_tracking_flag(false, Some(&mut work)) {
                    return false;
                }
                self.remove_path(key);
            },
            Some(n) => {
                if !str_same(key, n) {
                    match self.get(n) {
                        Some(file) => {
                            let mut displaced = file.clone();
                            if !displaced.set_tracking_flag(false, Some(&mut work)) {
                                return false;
                            }
                        },
                        None => {},
                    }
                    if !moved.set_tracking_flag(track_new, Some(&mut work)) {
                        return false;
                    }
                    if !moved.update(author, patch, &mut work) {
                        return false;
                    }
                    self.remove_path(key);
                    self.remove_path(n);
                    self.put(n, moved);
                    assert(self@ =~= change.files_after(files));
                } else {
                    if !moved.update(author, patch, &mut work) {
                        return false;
                    }
                    self.remove_path(key);
                    self.put(key, moved);
                    assert(self@ =~= change.files_after(files));
                }
            },
        }
        *stat = work;
        true
    }

    /// Applies the change of one file: `patch` turns the file at
    /// `old_file` into the file at `new_file`, its changed and inserted
    /// lines being of `author`. Whether a file counts is asked of the
    /// patterns: for a file first seen at the old path, and for a renamed
    /// file at its new path. Says by `false`, and changes nothing, if the
    /// change cannot be made.
    pub fn apply_file_diff(
        &mut self,
        author: u16,
        old_file: Option<&str>,
        new_file: Option<&str>,
        patch: &[LineEdit],
        stat: &mut AuthorStat,
    ) -> (done: bool)
        requires
            old(self).wf(),
        ensures
            final(self).wf(),
            final(self).patterns() == old(self).patterns(),
            exists|track_old: bool, track_new: bool|
                {
                    let change = #[trigger] change_of(
                        author,
                        old_file,
                        new_file,
                        patch@,
                        track_old,
                        track_new,
                    );
                    &&& done == change.feasible(old(self)@, old(stat).0@)
                    &&& final(self)@ == (if done {
                        change.files_after(old(self)@)
                    } else {
                        old(self)@
                    })
                    &&& final(stat).0@ == (if done {
                        change.counts_after(old(self)@, old(stat).0@)
                    } else {
                        old(stat).0@
                    })
                },
    {
        let track_old = match (old_file, new_file) {
            (Some(o), _) => self.should_tracking(o),
            (None, Some(n)) => self.should_tracking(n),
            (None, None) => false,
        };
        let track_new = match new_file {
            Some(n) => self.should_tracking(n),
            None => false,
        };
        let done = self.apply_file_diff_with(
            author,
            old_file,
            new_file,
            patch,
            stat,
            track_old,
            track_new,
        );
        assert(change_of(author, old_file, new_file, patch@, track_old, track_new)
            == change_of(author, old_file, new_file, patch@, track_old, track_new));
        done
    }
}

/// The change that the given arguments stand for.
pub open spec fn change_of(
    author: u16,
    old_file: Option<&str>,
    new_file: Option<&str>,
    patch: Seq<LineEdit>,
    track_old: bool,
    track_new: bool,
) -> Change {
    Change {
        author,
        old_file: crate::order::opt_str_view(old_file),
        new_file: crate::order::opt_str_view(new_file),
        patch,
        track_old,
        track_new,
    }
}

} // verus!
