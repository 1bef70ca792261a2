//! Lines per author over the files of a tree that a predicate selects.

use crate::blocks::LineBlock;
use crate::tree::{Tree, TreeEntry};
use vstd::prelude::*;

verus! {

/// The lines of `author` in one file.
pub open spec fn author_lines(blocks: Seq<LineBlock>, author: int) -> int
    decreases blocks.len(),
{
    if blocks.len() == 0 {
        0
    } else {
        author_lines(blocks.drop_last(), author) + (if blocks.last().author_id == author {
            blocks.last().size as int
        } else {
            0
        })
    }
}

/// One more than the largest author id among the blocks; 0 without
/// blocks.
pub open spec fn block_span(blocks: Seq<LineBlock>) -> int
    decreases blocks.len(),
{
    if blocks.len() == 0 {
        0
    } else {
        let rest = block_span(blocks.drop_last());
        if blocks.last().author_id + 1 > rest {
            blocks.last().author_id + 1
        } else {
            rest
        }
    }
}

/// The lines of `author` in the selected files: file `i` counts where
/// `selected[i]` holds.
pub open spec fn selected_lines(files: Seq<TreeEntry>, selected: Seq<bool>, author: int) -> int
    decreases files.len(),
{
    if files.len() == 0 {
        0
    } else {
        selected_lines(files.drop_last(), selected.drop_last(), author) + (if selected.last() {
            author_lines(files.last().blocks@, author)
        } else {
            0
        })
    }
}

/// One more than the largest author id among the blocks of the selected
/// files; 0 if they hold no block.
pub open spec fn selected_span(files: Seq<TreeEntry>, selected: Seq<bool>) -> int
    decreases files.len(),
{
    if files.len() == 0 {
        0
    } else {
        let rest = selected_span(files.drop_last(), selected.drop_last());
        if selected.last() && block_span(files.last().blocks@) > rest {
            block_span(files.last().blocks@)
        } else {
            rest
        }
    }
}

/// The statistics of the selected files: for each author id below the
/// span the number of that author's lines. `None` if an author's lines
/// are more than 64 bits count.
pub open spec fn stat_of(files: Seq<TreeEntry>, selected: Seq<bool>) -> Option<Seq<u64>> {
    if exists|a: int| (#[trigger] selected_lines(files, selected, a)) > u64::MAX {
        None
    } else {
        Some(
            Seq::new(
                selected_span(files, selected) as nat,
                |a: int| selected_lines(files, selected, a) as u64,
            ),
        )
    }
}

/// `answers` holds what the predicate said of each file's path.
pub open spec fn answered<F: Fn(&String) -> bool>(
    files: Seq<TreeEntry>,
    predict: F,
    answers: Seq<bool>,
) -> bool {
    &&& answers.len() == files.len()
    &&& forall|i: int|
        0 <= i < files.len() ==> call_ensures(predict, (&(#[trigger] files[i]).path,), answers[i])
}

/// Lines and span of a part of a file are no more than those of the whole, and
/// one block more counts for its author.
pub proof fn lemma_author_lines(blocks: Seq<LineBlock>, j: int, author: int)
    requires
        0 <= j <= blocks.len(),
    ensures
        0 <= author_lines(blocks.take(j), author) <= author_lines(blocks, author),
        0 <= block_span(blocks.take(j)) <= block_span(blocks),
        author >= block_span(blocks) ==> author_lines(blocks, author) == 0,
        j < blocks.len() ==> author_lines(blocks.take(j + 1), author) == author_lines(
            blocks.take(j),
            author,
        ) + (if blocks[j].author_id == author {
            blocks[j].size as int
        } else {
            0
        }),
        j < blocks.len() ==> block_span(blocks.take(j + 1)) == (if blocks[j].author_id + 1
            > block_span(blocks.take(j)) {
            blocks[j].author_id + 1
        } else {
            block_span(blocks.take(j))
        }),
    decreases blocks.len() - j,
{
    lemma_author_lines_base(blocks.take(j), author);
    lemma_author_lines_base(blocks, author);
    if j < blocks.len() {
        assert(blocks.take(j + 1).drop_last() =~= blocks.take(j));
        lemma_author_lines(blocks, j + 1, author);
    } else {
        assert(blocks.take(j) =~= blocks);
    }
}

/// An author's lines are not negative, and none beyond the span.
pub proof fn lemma_author_lines_base(blocks: Seq<LineBlock>, author: int)
    ensures
        0 <= author_lines(blocks, author),
        0 <= block_span(blocks),
        author >= block_span(blocks) ==> author_lines(blocks, author) == 0,
    decreases blocks.len(),
{
    if blocks.len() > 0 {
        lemma_author_lines_base(blocks.drop_last(), author);
    }
}

/// An author's lines in the selected files are not negative, and none beyond
/// the span.
pub proof fn lemma_selected_base(files: Seq<TreeEntry>, selected: Seq<bool>, author: int)
    requires
        files.len() == selected.len(),
    ensures
        0 <= selected_lines(files, selected, author),
        0 <= selected_span(files, selected),
        author >= selected_span(files, selected) ==> selected_lines(files, selected, author) == 0,
    decreases files.len(),
{
    if files.len() > 0 {
        lemma_selected_base(files.drop_last(), selected.drop_last(), author);
        lemma_author_lines_base(files.last().blocks@, author);
    }
}

/// The selected among the first files hold no more of an author's lines than
/// the selected among all.
pub proof fn lemma_selected_lines(files: Seq<TreeEntry>, selected: Seq<bool>, i: int, author: int)
    requires
        files.len() == selected.len(),
        0 <= i <= files.len(),
    ensures
        0 <= selected_lines(files.take(i), selected.take(i), author) <= selected_lines(
            files,
            selected,
            author,
        ),
    decreases files.len() - i,
{
    lemma_selected_base(files.take(i), selected.take(i), author);
    if i < files.len() {
        assert(files.take(i + 1).drop_last() =~= files.take(i));
        assert(selected.take(i + 1).drop_last() =~= selected.take(i));
        lemma_author_lines_base(files[i].blocks@, author);
        lemma_selected_lines(files, selected, i + 1, author);
    } else {
        assert(files.take(i) =~= files);
        assert(selected.take(i) =~= selected);
    }
}

impl Tree {
    /// The lines per author over the files that `selected` marks, file by
    /// file in the order in which the tree holds them: the entry at an
    /// author's id is the number of that author's lines. Gives `None` if a
    /// sum outgrows 64 bits.
    pub fn stat_selected(&self, selected: &[bool]) -> (r: Option<Vec<u64>>)
        requires
            selected@.len() == self.files().len(),
        ensures
            r is Some <==> stat_of(self.files(), selected@) is Some,
            r matches Some(v) ==> Some(v@) == stat_of(self.files(), selected@),
    {
        let ghost files = self.files();
        let ghost marks = selected@;
        let mut ret: Vec<u64> = Vec::new();
        let mut i: usize = 0;
        assert(files.take(0) =~= Seq::<TreeEntry>::empty());
        while i < self.len()
            invariant
                i <= files.len(),
                files == self.files(),
                marks == selected@,
                marks.len() == files.len(),
                ret@.len() == selected_span(files.take(i as int), marks.take(i as int)),
                forall|a: int|
                    0 <= a < ret@.len() ==> (#[trigger] ret@[a]) == selected_lines(
                        files.take(i as int),
                        marks.take(i as int),
                        a,
                    ),
            decreases files.len() - i,
        {
            let entry = self.file_at(i);
            proof {
                assert(files.take(i + 1).drop_last() =~= files.take(i as int));
                assert(marks.take(i + 1).drop_last() =~= marks.take(i as int));
                assert(files.take(i + 1).last() == files[i as int]);
                assert(marks.take(i + 1).last() == marks[i as int]);
            }
            if selected[i] {
                let ghost done_files = files.take(i as int);
                let ghost done_marks = marks.take(i as int);
                let ghost blocks = entry.blocks@;
                let mut j: usize = 0;
                assert(blocks.take(0) =~= Seq::<LineBlock>::empty());
                proof {
                    lemma_selected_base(done_files, done_marks, 0);
                }
                while j < entry.blocks.len()
                    invariant
                        j <= blocks.len(),
                        blocks == entry.blocks@,
                        i < files.len(),
                        files == self.files(),
                        marks == selected@,
                        marks.len() == files.len(),
                        files[i as int] == *entry,
                        marks[i as int],
                        done_files == files.take(i as int),
                        done_marks == marks.take(i as int),
                        ret@.len() == (if block_span(blocks.take(j as int)) > selected_span(
                            done_files,
                            done_marks,
                        ) {
                            block_span(blocks.take(j as int))
                        } else {
                            selected_span(done_files, done_marks)
                        }),
                        forall|a: int|
                            0 <= a < ret@.len() ==> (#[trigger] ret@[a]) == selected_lines(
                                done_files,
                                done_marks,
                                a,
                            ) + author_lines(blocks.take(j as int), a),
                    decreases blocks.len() - j,
                {
                    let block = entry.blocks[j];
                    let author = block.author_id as usize;
                    proof {
                        lemma_author_lines(blocks, j as int, author as int);
                        lemma_selected_base(done_files, done_marks, author as int);
                    }
                    let ghost grown = ret@;
                    while ret.len() <= author
                        invariant
                            ret@.len() >= grown.len(),
                            forall|a: int| 0 <= a < grown.len() ==> ret@[a] == grown[a],
                            forall|a: int| grown.len() <= a < ret@.len() ==> ret@[a] == 0,
                            ret@.len() <= author + 1 || ret@.len() == grown.len(),
                        decreases author + 1 - ret.len(),
                    {
                        ret.push(0);
                    }
                    proof {
                        assert forall|a: int| 0 <= a < ret@.len() implies (#[trigger] ret@[a])
                            == selected_lines(done_files, done_marks, a) + author_lines(
                            blocks.take(j as int),
                            a,
                        ) by {
                            if a >= grown.len() {
                                lemma_selected_base(done_files, done_marks, a);
                                lemma_author_lines_base(blocks.take(j as int), a);
                            } else {
                                assert(ret@[a] == grown[a]);
                            }
                        }
                    }
                    let ghost before = ret@;
                    match ret[author].checked_add(block.size as u64) {
                        Some(sum) => {
                            ret[author] = sum;
                        },
                        None => {
                            proof {
                                lemma_author_lines(blocks, j + 1, author as int);
                                lemma_selected_lines(files, marks, i + 1, author as int);
                                assert(before[author as int] + block.size > u64::MAX);
                                assert(files.take(i + 1).drop_last() =~= files.take(i as int));
                                assert(marks.take(i + 1).drop_last() =~= marks.take(i as int));
                                assert(files.take(i + 1).last() == files[i as int]);
                                assert(marks.take(i + 1).last() == marks[i as int]);
                                assert(selected_lines(files.take(i + 1), marks.take(i + 1), author as int)
                                    == selected_lines(done_files, done_marks, author as int)
                                    + author_lines(blocks, author as int));
                                assert(selected_lines(files, marks, author as int) > u64::MAX);
                            }
                            return None;
                        },
                    }
                    proof {
                        assert forall|a: int| 0 <= a < ret@.len() implies (#[trigger] ret@[a])
                            == selected_lines(done_files, done_marks, a) + author_lines(
                            blocks.take(j + 1),
                            a,
                        ) by {
                            lemma_author_lines(blocks, j as int, a);
                            if a != author {
                                assert(ret@[a] == before[a]);
                            }
                        }
                    }
                    j += 1;
                }
                assert(blocks.take(j as int) =~= blocks);
            }
            i += 1;
        }
        proof {
            assert(files.take(i as int) =~= files);
            assert(marks.take(i as int) =~= marks);
            assert forall|a: int| !((#[trigger] selected_lines(files, marks, a)) > u64::MAX) by {
                lemma_selected_base(files, marks, a);
                if 0 <= a < ret@.len() {
                    assert(ret@[a] == selected_lines(files, marks, a));
                } else if a < 0 {
                    lemma_negative_author(files, marks, a);
                }
            }
            assert(ret@ =~= stat_of(files, marks).unwrap());
        }
        Some(ret)
    }

    /// The lines per author over the files whose path `predict` accepts.
    /// The predicate is asked once for each file, in the order in which the
    /// tree holds them; the sums are those of `stat_selected` for its
    /// answers.
    pub fn stat<F: Fn(&String) -> bool>(&self, predict: F) -> (r: Option<Vec<u64>>)
        requires
            forall|p: &String| #[trigger] call_requires(predict, (p,)),
        ensures
            exists|answers: Seq<bool>|
                #[trigger] answered(self.files(), predict, answers) && (r is Some <==> stat_of(
                    self.files(),
                    answers,
                ) is Some) && (r matches Some(v) ==> Some(v@) == stat_of(self.files(), answers)),
    {
        let mut answers: Vec<bool> = Vec::new();
        let mut i: usize = 0;
        while i < self.len()
            invariant
                i <= self.files().len(),
                answers@.len() == i,
                forall|p: &String| #[trigger] call_requires(predict, (p,)),
                forall|j: int|
                    0 <= j < i ==> call_ensures(
                        predict,
                        (&(#[trigger] self.files()[j]).path,),
                        answers@[j],
                    ),
            decreases self.files().len() - i,
        {
            let entry = self.file_at(i);
            let answer = predict(&entry.path);
            answers.push(answer);
            i += 1;
        }
        let r = self.stat_selected(answers.as_slice());
        assert(answered(self.files(), predict, answers@));
        r
    }
}

/// No block belongs to an author below zero.
pub proof fn lemma_negative_author(files: Seq<TreeEntry>, selected: Seq<bool>, author: int)
    requires
        author < 0,
    ensures
        selected_lines(files, selected, author) == 0,
    decreases files.len(),
{
    if files.len() > 0 {
        lemma_negative_author(files.drop_last(), selected.drop_last(), author);
        lemma_negative_blocks(files.last().blocks@, author);
    }
}

/// No block belongs to an author below zero.
pub proof fn lemma_negative_blocks(blocks: Seq<LineBlock>, author: int)
    requires
        author < 0,
    ensures
        author_lines(blocks, author) == 0,
    decreases blocks.len(),
{
    if blocks.len() > 0 {
        lemma_negative_blocks(blocks.drop_last(), author);
    }
}

} // verus!
