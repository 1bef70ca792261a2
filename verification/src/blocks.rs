//! Line blocks: a file as a sequence of runs of lines, each run tagged with
//! the author of its lines.

use vstd::prelude::*;

verus! {

/// A run of `size` consecutive lines attributed to one author.
#[derive(Debug, Clone, Copy, PartialEq, Eq, Structural)]
pub struct LineBlock {
    pub author_id: u32,
    pub size: u32,
}

/// The line `line` of a file is to be attributed to `author`.
#[derive(Debug, Clone, Copy, PartialEq, Eq, Structural)]
pub struct Addition {
    pub author: u32,
    pub line: u32,
}

/// The number of lines that a block sequence stands for.
pub open spec fn total_lines(blocks: Seq<LineBlock>) -> int
    decreases blocks.len(),
{
    if blocks.len() == 0 {
        0
    } else {
        total_lines(blocks.drop_last()) + blocks.last().size
    }
}

/// No two neighbouring blocks have the same author.
pub open spec fn normalized(blocks: Seq<LineBlock>) -> bool {
    forall|i: int| 0 <= i < blocks.len() - 1 ==> blocks[i].author_id != (#[trigger] blocks[i + 1]).author_id
}

/// No block is empty.
pub open spec fn no_empty_block(blocks: Seq<LineBlock>) -> bool {
    forall|i: int| 0 <= i < blocks.len() ==> (#[trigger] blocks[i]).size > 0
}

/// Every author of a block is below `bound`.
pub open spec fn authors_below(blocks: Seq<LineBlock>, bound: int) -> bool {
    forall|i: int| 0 <= i < blocks.len() ==> (#[trigger] blocks[i]).author_id < bound
}

/// Every author of a block is one of `allowed`.
pub open spec fn authors_within(blocks: Seq<LineBlock>, allowed: Set<u32>) -> bool {
    forall|i: int| 0 <= i < blocks.len() ==> allowed.contains((#[trigger] blocks[i]).author_id)
}

/// What a file's blocks must satisfy to be stored in a tree: they are
/// normalized, and the line count fits the 32 bits of a line number.
pub open spec fn blocks_wf(blocks: Seq<LineBlock>) -> bool {
    normalized(blocks) && total_lines(blocks) <= u32::MAX
}

/// Appends `b` to `acc`, merging it into the last block if that has the
/// same author.
pub open spec fn compress_push(acc: Seq<LineBlock>, b: LineBlock) -> Seq<LineBlock> {
    if acc.len() > 0 && acc.last().author_id == b.author_id {
        acc.drop_last().push(
            LineBlock { author_id: b.author_id, size: (acc.last().size + b.size) as u32 },
        )
    } else {
        acc.push(b)
    }
}

/// The blocks with every run of neighbours of one author merged into one.
pub open spec fn compressed(blocks: Seq<LineBlock>) -> Seq<LineBlock>
    decreases blocks.len(),
{
    if blocks.len() == 0 {
        blocks
    } else {
        compress_push(compressed(blocks.drop_last()), blocks.last())
    }
}

/// A line count is not negative, and no smaller than the last block.
pub proof fn lemma_total_nonneg(blocks: Seq<LineBlock>)
    ensures
        total_lines(blocks) >= 0,
        blocks.len() > 0 ==> blocks.last().size <= total_lines(blocks),
    decreases blocks.len(),
{
    if blocks.len() > 0 {
        lemma_total_nonneg(blocks.drop_last());
    }
}

/// A block more adds its size to the line count.
pub proof fn lemma_total_push(blocks: Seq<LineBlock>, b: LineBlock)
    ensures
        total_lines(blocks.push(b)) == total_lines(blocks) + b.size,
{
    assert(blocks.push(b).drop_last() =~= blocks);
}

/// A prefix stands for no more lines than the whole.
pub proof fn lemma_total_take(blocks: Seq<LineBlock>, i: int)
    requires
        0 <= i <= blocks.len(),
    ensures
        0 <= total_lines(blocks.take(i)) <= total_lines(blocks),
        i < blocks.len() ==> total_lines(blocks.take(i + 1)) == total_lines(blocks.take(i))
            + blocks[i].size,
    decreases blocks.len() - i,
{
    lemma_total_nonneg(blocks.take(i));
    if i < blocks.len() {
        assert(blocks.take(i + 1).drop_last() =~= blocks.take(i));
        lemma_total_take(blocks, i + 1);
    } else {
        assert(blocks.take(i) =~= blocks);
    }
}

/// Compression keeps the line count, and its result is normalized with
/// authors drawn from the input.
pub proof fn lemma_compressed(blocks: Seq<LineBlock>)
    requires
        total_lines(blocks) <= u32::MAX,
    ensures
        total_lines(compressed(blocks)) == total_lines(blocks),
        normalized(compressed(blocks)),
        compressed(blocks).len() <= blocks.len(),
        blocks.len() > 0 ==> compressed(blocks).len() > 0 && compressed(blocks).last().author_id
            == blocks.last().author_id,
        forall|allowed: Set<u32>|
            authors_within(blocks, allowed) ==> authors_within(compressed(blocks), allowed),
        no_empty_block(blocks) ==> no_empty_block(compressed(blocks)),
    decreases blocks.len(),
{
    if blocks.len() > 0 {
        let rest = blocks.drop_last();
        let b = blocks.last();
        lemma_total_nonneg(rest);
        lemma_compressed(rest);
        let acc = compressed(rest);
        lemma_total_nonneg(acc);
        if acc.len() > 0 && acc.last().author_id == b.author_id {
            let m = LineBlock { author_id: b.author_id, size: (acc.last().size + b.size) as u32 };
            lemma_total_push(acc.drop_last(), m);
        } else {
            lemma_total_push(acc, b);
        }
        assert forall|allowed: Set<u32>| authors_within(blocks, allowed) implies authors_within(
            compressed(blocks),
            allowed,
        ) by {
            assert(forall|i: int| 0 <= i < rest.len() ==> rest[i] == blocks[i]);
            assert(authors_within(rest, allowed));
        }
        if no_empty_block(blocks) {
            assert(forall|i: int| 0 <= i < rest.len() ==> rest[i] == blocks[i]);
            assert(no_empty_block(rest));
        }
    }
}

/// Compression leaves normalized blocks as they are.
pub proof fn lemma_compressed_of_normalized(blocks: Seq<LineBlock>)
    requires
        normalized(blocks),
    ensures
        compressed(blocks) == blocks,
    decreases blocks.len(),
{
    if blocks.len() > 0 {
        let rest = blocks.drop_last();
        assert(forall|i: int| 0 <= i < rest.len() ==> rest[i] == blocks[i]);
        assert(normalized(rest)) by {
            assert forall|i: int| 0 <= i < rest.len() - 1 implies rest[i].author_id != (
            #[trigger] rest[i + 1]).author_id by {
                assert(blocks[i].author_id != blocks[i + 1].author_id);
            }
        }
        lemma_compressed_of_normalized(rest);
        if rest.len() > 0 {
            assert(blocks[rest.len() - 1].author_id != blocks[rest.len() - 1 + 1].author_id);
        }
        assert(rest.push(blocks.last()) =~= blocks);
    }
}

/// Merges every run of neighbouring blocks of one author into one block.
pub fn compress(file: &[LineBlock]) -> (out: Vec<LineBlock>)
    requires
        total_lines(file@) <= u32::MAX,
    ensures
        out@ == compressed(file@),
{
    let mut out: Vec<LineBlock> = Vec::new();
    let mut i: usize = 0;
    assert(file@.take(0) =~= Seq::<LineBlock>::empty());
    while i < file.len()
        invariant
            i <= file.len(),
            total_lines(file@) <= u32::MAX,
            out@ == compressed(file@.take(i as int)),
        decreases file.len() - i,
    {
        let b = file[i];
        proof {
            lemma_total_take(file@, i as int);
            lemma_total_take(file@, i + 1);
            lemma_compressed(file@.take(i as int));
            lemma_total_nonneg(out@);
            assert(file@.take(i + 1).drop_last() =~= file@.take(i as int));
        }
        let n = out.len();
        if n > 0 && out[n - 1].author_id == b.author_id {
            let last = out[n - 1];
            out.pop();
            out.push(LineBlock { author_id: b.author_id, size: last.size + b.size });
        } else {
            out.push(b);
        }
        i += 1;
    }
    assert(file@.take(i as int) =~= file@);
    out
}

/// Normalizes a block sequence in place.
pub fn compress_abstract_file(file: &mut Vec<LineBlock>)
    requires
        total_lines(old(file)@) <= u32::MAX,
    ensures
        final(file)@ == compressed(old(file)@),
{
    let out = compress(file.as_slice());
    *file = out;
}

} // verus!
