//! In-memory model of a tree-level diff: the files that a commit changes
//! against one parent, each with its line edits.

use crate::order::{opt_str_view, opt_string_view, path_less};
use crate::sort::{sorted_by_key, stable_sort, stable_sorted, PathKeyed, SpecKeyed};
use vstd::prelude::*;

verus! {

/// One line-level edit of a file, with a 0-based line number.
#[derive(Debug, Clone, Copy, PartialEq, Eq, Structural)]
pub enum LinePatch {
    /// A line that the new version gains, at this line of the new file.
    Insert(u32),
    /// A line that the old version loses, at this line of the old file.
    Delete(u32),
}

/// One line as a diff reports it: the origin marker (`'+'`, `'-'`, or
/// another character for context) and the 1-based line numbers in the old
/// and in the new file, where the line exists there.
#[derive(Debug, Clone, Copy)]
pub struct LineInfo {
    pub origin: char,
    pub old_lineno: Option<u32>,
    pub new_lineno: Option<u32>,
}

/// One file as a diff reports it: its path before and after the change.
#[derive(Debug)]
pub struct FileDelta {
    pub old_path: Option<String>,
    pub new_path: Option<String>,
}

/// The edit that a reported line stands for: an added line inserts at its
/// new line, a removed line deletes at its old line, both counted from 0.
/// A context line, and a line without the number it needs, stands for
/// none.
pub open spec fn line_patch_of(line: LineInfo) -> Option<LinePatch> {
    if line.origin == '+' {
        match line.new_lineno {
            Some(n) => if n >= 1 {
                Some(LinePatch::Insert((n - 1) as u32))
            } else {
                None
            },
            None => None,
        }
    } else if line.origin == '-' {
        match line.old_lineno {
            Some(n) => if n >= 1 {
                Some(LinePatch::Delete((n - 1) as u32))
            } else {
                None
            },
            None => None,
        }
    } else {
        None
    }
}

impl LinePatch {
    /// The edit that a reported line stands for, if any.
    pub fn from_git2_object(diff: &LineInfo) -> (r: Option<LinePatch>)
        ensures
            r == line_patch_of(*diff),
    {
        if diff.origin == '+' {
            match diff.new_lineno {
                Some(n) => if n >= 1 {
                    Some(LinePatch::Insert(n - 1))
                } else {
                    None
                },
                None => None,
            }
        } else if diff.origin == '-' {
            match diff.old_lineno {
                Some(n) => if n >= 1 {
                    Some(LinePatch::Delete(n - 1))
                } else {
                    None
                },
                None => None,
            }
        } else {
            None
        }
    }

    /// The line of the new file that an insertion lands on.
    pub fn new_lineno(&self) -> (r: Option<u32>)
        ensures
            r == self.spec_new_lineno(),
    {
        match self {
            LinePatch::Insert(line) => Some(*line),
            _ => None,
        }
    }

    /// The line of the old file that a deletion takes away.
    pub fn old_lineno(&self) -> (r: Option<u32>)
        ensures
            r == self.spec_old_lineno(),
    {
        match self {
            LinePatch::Delete(line) => Some(*line),
            _ => None,
        }
    }

    /// The line of the new file that an insertion lands on.
    pub open spec fn spec_new_lineno(&self) -> Option<u32> {
        match self {
            LinePatch::Insert(line) => Some(*line),
            _ => None,
        }
    }

    /// The line of the old file that a deletion takes away.
    pub open spec fn spec_old_lineno(&self) -> Option<u32> {
        match self {
            LinePatch::Delete(line) => Some(*line),
            _ => None,
        }
    }
}

/// The change of one file: no old path for a created file, no new path
/// for a deleted one, two different paths for a rename or copy; and the
/// line edits in the order they were reported.
#[derive(Debug)]
pub struct FilePatch {
    pub old_path: Option<String>,
    pub new_path: Option<String>,
    pub patch: Vec<LinePatch>,
}

/// What a `FilePatch` holds, as plain values.
pub struct FilePatchView {
    pub old_path: Option<Seq<char>>,
    pub new_path: Option<Seq<char>>,
    pub ops: Seq<LinePatch>,
}

impl View for FilePatch {
    type V = FilePatchView;

    open spec fn view(&self) -> FilePatchView {
        FilePatchView {
            old_path: opt_string_view(self.old_path),
            new_path: opt_string_view(self.new_path),
            ops: self.patch@,
        }
    }
}

impl SpecKeyed for FilePatch {
    open spec fn path_key(&self) -> Option<Seq<char>> {
        self@.new_path
    }
}

impl PathKeyed for FilePatch {
    fn key_precedes(&self, other: &Self) -> (r: bool) {
        path_less(self.new_path(), other.new_path())
    }
}

fn clone_path(path: &Option<String>) -> (r: Option<String>)
    ensures
        r == *path,
{
    match path {
        Some(p) => Some(p.clone()),
        None => None,
    }
}

impl FilePatch {
    /// The patch of a reported file, without line edits yet.
    pub fn from_git2_object(diff: &FileDelta) -> (r: FilePatch)
        ensures
            r.old_path == diff.old_path,
            r.new_path == diff.new_path,
            r.patch@ == Seq::<LinePatch>::empty(),
    {
        FilePatch {
            old_path: clone_path(&diff.old_path),
            new_path: clone_path(&diff.new_path),
            patch: Vec::new(),
        }
    }

    /// The path before the change.
    pub fn old_path(&self) -> (r: Option<&str>)
        ensures
            opt_str_view(r) == self@.old_path,
    {
        match &self.old_path {
            Some(p) => Some(p.as_str()),
            None => None,
        }
    }

    /// The path after the change.
    pub fn new_path(&self) -> (r: Option<&str>)
        ensures
            opt_str_view(r) == self@.new_path,
    {
        match &self.new_path {
            Some(p) => Some(p.as_str()),
            None => None,
        }
    }

    /// Records a reported line: an added or removed line appends its edit,
    /// any other line changes nothing.
    pub fn push_line_diff(&mut self, diff: &LineInfo)
        ensures
            final(self).old_path == old(self).old_path,
            final(self).new_path == old(self).new_path,
            final(self).patch@ == (match line_patch_of(*diff) {
                Some(op) => old(self).patch@.push(op),
                None => old(self).patch@,
            }),
    {
        if let Some(op) = LinePatch::from_git2_object(diff) {
            self.patch.push(op);
        }
    }
}

/// The diff of a commit against one parent: the author of the commit, the
/// author of the parent if there is one, and the changed files.
#[derive(Debug)]
pub struct TreePatch {
    pub new_author: u32,
    pub old_author: Option<u32>,
    pub files: Vec<FilePatch>,
}

impl TreePatch {
    /// A diff without files.
    pub fn empty(new_author: u32, old_author: Option<u32>) -> (r: TreePatch)
        ensures
            r.new_author == new_author,
            r.old_author == old_author,
            r.files@ == Seq::<FilePatch>::empty(),
    {
        TreePatch { files: Vec::new(), new_author, old_author }
    }

    /// The author that lines of the parent side fall back to: the parent's
    /// author, or the commit's own where there is no parent.
    pub open spec fn base_author(&self) -> u32 {
        match self.old_author {
            Some(a) => a,
            None => self.new_author,
        }
    }

    /// Appends the patch of a reported file.
    pub fn push_file(&mut self, diff: &FileDelta)
        ensures
            final(self).new_author == old(self).new_author,
            final(self).old_author == old(self).old_author,
            final(self).files@.len() == old(self).files@.len() + 1,
            final(self).files@.drop_last() == old(self).files@,
            final(self).files@.last().old_path == diff.old_path,
            final(self).files@.last().new_path == diff.new_path,
            final(self).files@.last().patch@ == Seq::<LinePatch>::empty(),
    {
        let file = FilePatch::from_git2_object(diff);
        self.files.push(file);
        assert(self.files@.drop_last() =~= old(self).files@);
    }

    /// The files, open to change.
    pub fn files_mut(&mut self) -> (r: &mut [FilePatch])
        ensures
            r@ == old(self).files@,
            final(self).files@ == final(r)@,
            final(self).new_author == old(self).new_author,
            final(self).old_author == old(self).old_author,
    {
        self.files.as_mut_slice()
    }

    /// The files.
    pub fn files(&self) -> (r: &[FilePatch])
        ensures
            r@ == self.files@,
    {
        self.files.as_slice()
    }

    /// Sorts the files by their new path, deleted files last; files of one
    /// new path keep their order.
    pub fn sort_patches(&mut self)
        ensures
            final(self).new_author == old(self).new_author,
            final(self).old_author == old(self).old_author,
            final(self).files@ == stable_sorted(old(self).files@),
            sorted_by_key(final(self).files@),
            final(self).files@.to_multiset() == old(self).files@.to_multiset(),
    {
        proof {
            crate::sort::lemma_stable_sorted(self.files@);
        }
        stable_sort(&mut self.files);
    }
}

} // verus!
