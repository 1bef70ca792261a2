//! Re-attribution of single lines of a file: each addition cuts the block
//! that holds its line into the part before, the line itself under the
//! addition's author, and the part after.

use crate::blocks::{
    authors_within, blocks_wf, compress, compressed, lemma_compressed,
    lemma_compressed_of_normalized, lemma_total_push, lemma_total_take, no_empty_block,
    normalized, total_lines, Addition, LineBlock,
};
use vstd::prelude::*;

verus! {

/// One block, covering the lines `begin..end` under `author`, cut at the
/// additions from `idx` on that fall before `end`. Gives the pieces
/// appended to `buf`, and the index of the first addition not used.
pub open spec fn overlay_block(
    buf: Seq<LineBlock>,
    author: u32,
    begin: int,
    end: int,
    diff: Seq<Addition>,
    idx: int,
) -> (Seq<LineBlock>, int)
    decreases diff.len() - idx,
{
    if 0 <= idx < diff.len() && diff[idx].line < end {
        let line = diff[idx].line as int;
        let pre = if begin < line {
            buf.push(LineBlock { author_id: author, size: (line - begin) as u32 })
        } else {
            buf
        };
        overlay_block(
            pre.push(LineBlock { author_id: diff[idx].author, size: 1 }),
            author,
            line + 1,
            end,
            diff,
            idx + 1,
        )
    } else if begin < end {
        (buf.push(LineBlock { author_id: author, size: (end - begin) as u32 }), idx)
    } else {
        (buf, idx)
    }
}

/// The blocks from `i` on, the first of them starting at line `base`, cut
/// at the additions from `idx` on; the pieces are appended to `buf`.
pub open spec fn overlay_from(
    buf: Seq<LineBlock>,
    blocks: Seq<LineBlock>,
    i: int,
    base: int,
    diff: Seq<Addition>,
    idx: int,
) -> Seq<LineBlock>
    decreases blocks.len() - i,
{
    if 0 <= i < blocks.len() {
        let end = base + blocks[i].size;
        let cut = overlay_block(buf, blocks[i].author_id, base, end, diff, idx);
        overlay_from(cut.0, blocks, i + 1, end, diff, cut.1)
    } else {
        buf
    }
}

/// The pieces that the additions cut the blocks into, before neighbours of
/// one author are merged. An addition whose line lies beyond the last
/// block is dropped.
pub open spec fn overlay_raw(blocks: Seq<LineBlock>, diff: Seq<Addition>) -> Seq<LineBlock> {
    overlay_from(Seq::empty(), blocks, 0, 0, diff, 0)
}

/// The blocks with the additions applied, normalized.
pub open spec fn overlaid(blocks: Seq<LineBlock>, diff: Seq<Addition>) -> Seq<LineBlock> {
    compressed(overlay_raw(blocks, diff))
}

/// The lines of the additions from `idx` on ascend strictly and start at
/// `from` or later.
pub open spec fn additions_ascend(diff: Seq<Addition>, idx: int, from: int) -> bool {
    &&& forall|j: int| idx <= j < diff.len() ==> from <= (#[trigger] diff[j]).line
    &&& forall|j: int, k: int|
        idx <= j < k < diff.len() ==> (#[trigger] diff[j]).line < (#[trigger] diff[k]).line
}

/// Every author of an addition is one of `allowed`.
pub open spec fn additions_within(diff: Seq<Addition>, allowed: Set<u32>) -> bool {
    forall|j: int| 0 <= j < diff.len() ==> allowed.contains((#[trigger] diff[j]).author)
}

/// Cutting one block at ascending additions keeps its line count, leaves
/// no empty piece, and leaves the later additions at or after its end.
pub proof fn lemma_overlay_block(
    buf: Seq<LineBlock>,
    author: u32,
    begin: int,
    end: int,
    diff: Seq<Addition>,
    idx: int,
)
    requires
        0 <= begin <= end <= u32::MAX,
        0 <= idx <= diff.len(),
        additions_ascend(diff, idx, begin),
    ensures
        total_lines(overlay_block(buf, author, begin, end, diff, idx).0) == total_lines(buf) + (end
            - begin),
        idx <= overlay_block(buf, author, begin, end, diff, idx).1 <= diff.len(),
        additions_ascend(diff, overlay_block(buf, author, begin, end, diff, idx).1, end),
        no_empty_block(buf) ==> no_empty_block(
            overlay_block(buf, author, begin, end, diff, idx).0,
        ),
    decreases diff.len() - idx,
{
    if idx < diff.len() && diff[idx].line < end {
        let line = diff[idx].line as int;
        let pre = if begin < line {
            buf.push(LineBlock { author_id: author, size: (line - begin) as u32 })
        } else {
            buf
        };
        let one = LineBlock { author_id: diff[idx].author, size: 1 };
        if begin < line {
            lemma_total_push(buf, LineBlock { author_id: author, size: (line - begin) as u32 });
        }
        lemma_total_push(pre, one);
        assert(additions_ascend(diff, idx + 1, line + 1)) by {
            assert forall|j: int| idx + 1 <= j < diff.len() implies line + 1 <= (
            #[trigger] diff[j]).line by {
                assert(diff[idx].line < diff[j].line);
            }
        }
        lemma_overlay_block(pre.push(one), author, line + 1, end, diff, idx + 1);
    } else if begin < end {
        lemma_total_push(buf, LineBlock { author_id: author, size: (end - begin) as u32 });
        assert(additions_ascend(diff, idx, end));
    } else {
        assert(additions_ascend(diff, idx, end));
    }
}

/// Cutting blocks at ascending additions keeps the line count and leaves
/// no empty piece.
pub proof fn lemma_overlay_from(
    buf: Seq<LineBlock>,
    blocks: Seq<LineBlock>,
    i: int,
    base: int,
    diff: Seq<Addition>,
    idx: int,
)
    requires
        0 <= i <= blocks.len(),
        0 <= idx <= diff.len(),
        base == total_lines(blocks.take(i)),
        total_lines(blocks) <= u32::MAX,
        additions_ascend(diff, idx, base),
    ensures
        total_lines(overlay_from(buf, blocks, i, base, diff, idx)) == total_lines(buf)
            + total_lines(blocks) - base,
        no_empty_block(buf) ==> no_empty_block(overlay_from(buf, blocks, i, base, diff, idx)),
    decreases blocks.len() - i,
{
    lemma_total_take(blocks, i);
    if i < blocks.len() {
        lemma_total_take(blocks, i + 1);
        let end = base + blocks[i].size;
        lemma_overlay_block(buf, blocks[i].author_id, base, end, diff, idx);
        let cut = overlay_block(buf, blocks[i].author_id, base, end, diff, idx);
        lemma_overlay_from(cut.0, blocks, i + 1, end, diff, cut.1);
    } else {
        assert(blocks.take(i) =~= blocks);
    }
}

/// Additions whose lines ascend strictly leave the line count of the file
/// as it was.
pub proof fn lemma_overlaid_total(blocks: Seq<LineBlock>, diff: Seq<Addition>)
    requires
        total_lines(blocks) <= u32::MAX,
        additions_ascend(diff, 0, 0),
    ensures
        total_lines(overlay_raw(blocks, diff)) == total_lines(blocks),
        total_lines(overlaid(blocks, diff)) == total_lines(blocks),
        normalized(overlaid(blocks, diff)),
        no_empty_block(overlaid(blocks, diff)),
{
    assert(blocks.take(0) =~= Seq::<LineBlock>::empty());
    lemma_overlay_from(Seq::empty(), blocks, 0, 0, diff, 0);
    lemma_compressed(overlay_raw(blocks, diff));
}

/// The pieces cut from one block carry the block's author or that of an
/// addition.
pub proof fn lemma_overlay_block_authors(
    buf: Seq<LineBlock>,
    author: u32,
    begin: int,
    end: int,
    diff: Seq<Addition>,
    idx: int,
    allowed: Set<u32>,
)
    requires
        authors_within(buf, allowed),
        allowed.contains(author),
        additions_within(diff, allowed),
    ensures
        authors_within(overlay_block(buf, author, begin, end, diff, idx).0, allowed),
    decreases diff.len() - idx,
{
    if 0 <= idx < diff.len() && diff[idx].line < end {
        let line = diff[idx].line as int;
        let pre = if begin < line {
            buf.push(LineBlock { author_id: author, size: (line - begin) as u32 })
        } else {
            buf
        };
        let one = LineBlock { author_id: diff[idx].author, size: 1 };
        lemma_overlay_block_authors(pre.push(one), author, line + 1, end, diff, idx + 1, allowed);
    }
}

/// The pieces cut from blocks carry an author of a block or of an addition.
pub proof fn lemma_overlay_from_authors(
    buf: Seq<LineBlock>,
    blocks: Seq<LineBlock>,
    i: int,
    base: int,
    diff: Seq<Addition>,
    idx: int,
    allowed: Set<u32>,
)
    requires
        authors_within(buf, allowed),
        authors_within(blocks, allowed),
        additions_within(diff, allowed),
    ensures
        authors_within(overlay_from(buf, blocks, i, base, diff, idx), allowed),
    decreases blocks.len() - i,
{
    if 0 <= i < blocks.len() {
        let end = base + blocks[i].size;
        lemma_overlay_block_authors(buf, blocks[i].author_id, base, end, diff, idx, allowed);
        let cut = overlay_block(buf, blocks[i].author_id, base, end, diff, idx);
        lemma_overlay_from_authors(cut.0, blocks, i + 1, end, diff, cut.1, allowed);
    }
}

/// Every author in the result of an overlay is an author of a block or of
/// an addition.
pub proof fn lemma_overlaid_authors(blocks: Seq<LineBlock>, diff: Seq<Addition>, allowed: Set<u32>)
    requires
        authors_within(blocks, allowed),
        additions_within(diff, allowed),
        total_lines(overlay_raw(blocks, diff)) <= u32::MAX,
    ensures
        authors_within(overlaid(blocks, diff), allowed),
{
    lemma_overlay_from_authors(Seq::empty(), blocks, 0, 0, diff, 0, allowed);
    lemma_compressed(overlay_raw(blocks, diff));
}

/// Without additions, blocks none of which is empty are left as they are.
pub proof fn lemma_overlay_from_nothing(buf: Seq<LineBlock>, blocks: Seq<LineBlock>, i: int, base: int)
    requires
        0 <= i <= blocks.len(),
        0 <= base,
        base + total_lines(blocks) <= u32::MAX + total_lines(blocks.take(i)),
        no_empty_block(blocks),
    ensures
        overlay_from(buf, blocks, i, base, Seq::empty(), 0) == buf + blocks.skip(i),
    decreases blocks.len() - i,
{
    let diff = Seq::<Addition>::empty();
    if i < blocks.len() {
        let end = base + blocks[i].size;
        lemma_total_take(blocks, i);
        lemma_total_take(blocks, i + 1);
        assert(blocks[i].size > 0);
        let cut = overlay_block(buf, blocks[i].author_id, base, end, diff, 0);
        assert(cut.0 == buf.push(blocks[i]));
        lemma_overlay_from_nothing(cut.0, blocks, i + 1, end);
        assert(buf.push(blocks[i]) + blocks.skip(i + 1) =~= buf + blocks.skip(i));
    } else {
        assert(buf + blocks.skip(i) =~= buf);
    }
}

/// An overlay without additions leaves well-formed blocks without an empty
/// block as they are.
pub proof fn lemma_overlaid_nothing(blocks: Seq<LineBlock>)
    requires
        blocks_wf(blocks),
        no_empty_block(blocks),
    ensures
        overlay_raw(blocks, Seq::empty()) == blocks,
        overlaid(blocks, Seq::empty()) == blocks,
{
    assert(blocks.take(0) =~= Seq::<LineBlock>::empty());
    lemma_overlay_from_nothing(Seq::empty(), blocks, 0, 0);
    assert(Seq::<LineBlock>::empty() + blocks.skip(0) =~= blocks);
    lemma_compressed_of_normalized(blocks);
}

/// The line count of a block sequence, if it fits 32 bits.
pub fn checked_total(blocks: &[LineBlock]) -> (r: Option<u32>)
    ensures
        r is Some <==> total_lines(blocks@) <= u32::MAX,
        r matches Some(t) ==> t == total_lines(blocks@),
{
    let mut acc: u32 = 0;
    let mut i: usize = 0;
    assert(blocks@.take(0) =~= Seq::<LineBlock>::empty());
    while i < blocks.len()
        invariant
            i <= blocks.len(),
            acc == total_lines(blocks@.take(i as int)),
        decreases blocks.len() - i,
    {
        proof {
            lemma_total_take(blocks@, i as int);
            lemma_total_take(blocks@, i + 1);
        }
        match acc.checked_add(blocks[i].size) {
            Some(t) => {
                acc = t;
            },
            None => {
                return None;
            },
        }
        i += 1;
    }
    assert(blocks@.take(i as int) =~= blocks@);
    Some(acc)
}

/// Cuts the blocks of a file at the given additions.
fn cut_blocks(file: &[LineBlock], diff: &[Addition]) -> (buffer: Vec<LineBlock>)
    requires
        total_lines(file@) <= u32::MAX,
    ensures
        buffer@ == overlay_raw(file@, diff@),
{
    let mut idx: usize = 0;
    let mut base: u32 = 0;
    let mut buffer: Vec<LineBlock> = Vec::new();
    let mut i: usize = 0;
    assert(file@.take(0) =~= Seq::<LineBlock>::empty());
    while i < file.len()
        invariant
            i <= file.len(),
            idx <= diff.len(),
            total_lines(file@) <= u32::MAX,
            base == total_lines(file@.take(i as int)),
            overlay_raw(file@, diff@) == overlay_from(
                buffer@,
                file@,
                i as int,
                base as int,
                diff@,
                idx as int,
            ),
        decreases file.len() - i,
    {
        let block = file[i];
        proof {
            lemma_total_take(file@, i as int);
            lemma_total_take(file@, i + 1);
        }
        let end: u32 = base + block.size;
        let mut begin: u32 = base;
        let ghost buf0 = buffer@;
        let ghost idx0 = idx as int;
        while idx < diff.len() && diff[idx].line < end
            invariant
                idx <= diff.len(),
                begin <= end,
                overlay_block(buf0, block.author_id, base as int, end as int, diff@, idx0)
                    == overlay_block(
                    buffer@,
                    block.author_id,
                    begin as int,
                    end as int,
                    diff@,
                    idx as int,
                ),
            decreases diff.len() - idx,
        {
            let line = diff[idx].line;
            if begin < line {
                buffer.push(LineBlock { author_id: block.author_id, size: line - begin });
            }
            buffer.push(LineBlock { author_id: diff[idx].author, size: 1 });
            begin = line + 1;
            idx += 1;
        }
        if begin < end {
            buffer.push(LineBlock { author_id: block.author_id, size: end - begin });
        }
        base = end;
        i += 1;
    }
    buffer
}

/// Applies additions to the blocks of a file: each addition whose line
/// lies in a block splits that block around the line, which goes to the
/// addition's author. Gives `None` if the result would hold more lines
/// than a line number can count, which additions in ascending order never
/// cause.
pub fn apply_author_diff_to_file(file: &[LineBlock], diff: &[Addition]) -> (r: Option<
    Vec<LineBlock>,
>)
    requires
        total_lines(file@) <= u32::MAX,
    ensures
        r is Some <==> total_lines(overlay_raw(file@, diff@)) <= u32::MAX,
        r matches Some(v) ==> v@ == overlaid(file@, diff@),
{
    let buffer = cut_blocks(file, diff);
    match checked_total(buffer.as_slice()) {
        Some(_) => Some(compress(buffer.as_slice())),
        None => None,
    }
}

} // verus!
