//! Replay of a file's line edits over the blocks of its old version: the
//! sizes of the blocks follow the edits, the authors stay.

use crate::blocks::{
    authors_within, lemma_total_nonneg, lemma_total_push, lemma_total_take, normalized,
    total_lines, LineBlock,
};
use crate::patch::LinePatch;
use vstd::prelude::*;

verus! {

/// The old line of a deletion; 0 for an insertion.
pub open spec fn old_line_or_zero(op: LinePatch) -> int {
    match op {
        LinePatch::Delete(line) => line as int,
        LinePatch::Insert(_) => 0,
    }
}

/// The new line of an insertion; 0 for a deletion.
pub open spec fn new_line_or_zero(op: LinePatch) -> int {
    match op {
        LinePatch::Insert(line) => line as int,
        LinePatch::Delete(_) => 0,
    }
}

/// Whether an edit is taken while the walk stands in a block that ends
/// before old line `old_end` and, as resized so far, before new line
/// `new_end`.
pub open spec fn op_in_block(op: LinePatch, old_end: int, new_end: int) -> bool {
    old_line_or_zero(op) < old_end && new_line_or_zero(op) < new_end
}

/// The size of the current block after one edit: a deletion behind the
/// block's first old line takes a line away, an insertion behind its first
/// new line adds one.
pub open spec fn size_after(op: LinePatch, old_base: int, new_base: int, new_size: int) -> int {
    match op {
        LinePatch::Delete(line) => if line > old_base {
            new_size - 1
        } else {
            new_size
        },
        LinePatch::Insert(line) => if line > new_base {
            new_size + 1
        } else {
            new_size
        },
    }
}

/// The edits from `k` on that fall into one block: the index of the first
/// edit that does not, and the block's new size. `None` if the size leaves
/// the range of a line count on the way.
pub open spec fn replay_block(
    ops: Seq<LinePatch>,
    k: int,
    old_base: int,
    old_end: int,
    new_base: int,
    new_size: int,
) -> Option<(int, int)>
    decreases ops.len() - k,
{
    if 0 <= k < ops.len() && op_in_block(ops[k], old_end, new_base + new_size) {
        let s = size_after(ops[k], old_base, new_base, new_size);
        if 0 <= s <= u32::MAX {
            replay_block(ops, k + 1, old_base, old_end, new_base, s)
        } else {
            None
        }
    } else {
        Some((k, new_size))
    }
}

/// The walk over the blocks from `i` on: the resized blocks appended to
/// `out`, the index of the first edit left over, and the new line count.
pub open spec fn replay_from(
    out: Seq<LineBlock>,
    blocks: Seq<LineBlock>,
    i: int,
    ops: Seq<LinePatch>,
    k: int,
    old_base: int,
    new_base: int,
) -> Option<(Seq<LineBlock>, int, int)>
    decreases blocks.len() - i,
{
    if 0 <= i < blocks.len() {
        let old_end = old_base + blocks[i].size;
        match replay_block(ops, k, old_base, old_end, new_base, blocks[i].size as int) {
            None => None,
            Some((k1, s)) => if new_base + s > u32::MAX {
                None
            } else {
                replay_from(
                    out.push(LineBlock { author_id: blocks[i].author_id, size: s as u32 }),
                    blocks,
                    i + 1,
                    ops,
                    k1,
                    old_end,
                    new_base + s,
                )
            },
        }
    } else {
        Some((out, k, new_base))
    }
}

/// The number of insertions among the edits from `k` on.
pub open spec fn count_inserts(ops: Seq<LinePatch>, k: int) -> int
    decreases ops.len() - k,
{
    if 0 <= k < ops.len() {
        (if ops[k] is Insert {
            1int
        } else {
            0int
        }) + count_inserts(ops, k + 1)
    } else {
        0
    }
}

/// `n` more lines at the end of the file: they join the last block, or
/// form a block of `merger` if there is none.
pub open spec fn append_lines(out: Seq<LineBlock>, n: int, merger: u32) -> Seq<LineBlock> {
    if n == 0 {
        out
    } else if out.len() == 0 {
        seq![LineBlock { author_id: merger, size: n as u32 }]
    } else {
        out.update(
            out.len() - 1,
            LineBlock { author_id: out.last().author_id, size: (out.last().size + n) as u32 },
        )
    }
}

/// The blocks of a file after its edits: each block keeps its author and
/// takes the size that the edits falling into it leave; the insertions
/// left over after the last block are appended. `None` if a block's size
/// would drop below zero, or the file would outgrow the range of a line
/// number.
pub open spec fn replayed(blocks: Seq<LineBlock>, ops: Seq<LinePatch>, merger: u32) -> Option<
    Seq<LineBlock>,
> {
    match replay_from(Seq::empty(), blocks, 0, ops, 0, 0, 0) {
        None => None,
        Some((out, k, new_base)) => {
            let n = count_inserts(ops, k);
            if new_base + n > u32::MAX {
                None
            } else {
                Some(append_lines(out, n, merger))
            }
        },
    }
}

/// There are no more insertions than edits.
pub proof fn lemma_count_inserts_bounds(ops: Seq<LinePatch>, k: int)
    ensures
        0 <= count_inserts(ops, k),
        0 <= k <= ops.len() ==> count_inserts(ops, k) <= ops.len() - k,
    decreases ops.len() - k,
{
    if 0 <= k < ops.len() {
        lemma_count_inserts_bounds(ops, k + 1);
    }
}

/// What one block's walk leaves behind.
pub proof fn lemma_replay_block(
    ops: Seq<LinePatch>,
    k: int,
    old_base: int,
    old_end: int,
    new_base: int,
    new_size: int,
)
    requires
        0 <= k <= ops.len(),
        0 <= new_size <= u32::MAX,
    ensures
        replay_block(ops, k, old_base, old_end, new_base, new_size) matches Some((k1, s)) ==> k
            <= k1 <= ops.len() && 0 <= s <= u32::MAX,
    decreases ops.len() - k,
{
    if k < ops.len() && op_in_block(ops[k], old_end, new_base + new_size) {
        let s = size_after(ops[k], old_base, new_base, new_size);
        if 0 <= s <= u32::MAX {
            lemma_replay_block(ops, k + 1, old_base, old_end, new_base, s);
        }
    }
}

/// The walk keeps the authors in their order, one block for each block,
/// and counts the lines that it leaves.
pub proof fn lemma_replay_from(
    out: Seq<LineBlock>,
    blocks: Seq<LineBlock>,
    i: int,
    ops: Seq<LinePatch>,
    k: int,
    old_base: int,
    new_base: int,
)
    requires
        0 <= i <= blocks.len(),
        0 <= k <= ops.len(),
        out.len() == i,
        forall|j: int| 0 <= j < i ==> (#[trigger] out[j]).author_id == blocks[j].author_id,
        total_lines(out) == new_base,
        new_base <= u32::MAX,
    ensures
        replay_from(out, blocks, i, ops, k, old_base, new_base) matches Some((res, k1, nb)) ==> {
            &&& res.len() == blocks.len()
            &&& forall|j: int|
                0 <= j < blocks.len() ==> (#[trigger] res[j]).author_id == blocks[j].author_id
            &&& total_lines(res) == nb
            &&& nb <= u32::MAX
            &&& k <= k1 <= ops.len()
        },
    decreases blocks.len() - i,
{
    lemma_total_nonneg(out);
    if i < blocks.len() {
        let old_end = old_base + blocks[i].size;
        lemma_replay_block(ops, k, old_base, old_end, new_base, blocks[i].size as int);
        match replay_block(ops, k, old_base, old_end, new_base, blocks[i].size as int) {
            None => {},
            Some((k1, s)) => {
                if new_base + s <= u32::MAX {
                    let b = LineBlock { author_id: blocks[i].author_id, size: s as u32 };
                    lemma_total_push(out, b);
                    lemma_replay_from(out.push(b), blocks, i + 1, ops, k1, old_end, new_base + s);
                }
            },
        }
    }
}

/// The replay keeps normalized blocks normalized, keeps the line count in
/// range, and brings in no author but `merger`.
pub proof fn lemma_replayed(blocks: Seq<LineBlock>, ops: Seq<LinePatch>, merger: u32)
    ensures
        replayed(blocks, ops, merger) matches Some(res) ==> {
            &&& total_lines(res) <= u32::MAX
            &&& (normalized(blocks) ==> normalized(res))
            &&& forall|allowed: Set<u32>|
                authors_within(blocks, allowed) && allowed.contains(merger) ==> authors_within(
                    res,
                    allowed,
                )
        },
{
    lemma_replay_from(Seq::empty(), blocks, 0, ops, 0, 0, 0);
    match replay_from(Seq::empty(), blocks, 0, ops, 0, 0, 0) {
        None => {},
        Some((out, k, new_base)) => {
            let n = count_inserts(ops, k);
            lemma_count_inserts_bounds(ops, k);
            if new_base + n <= u32::MAX {
                lemma_append_lines(out, n, merger);
                let res = append_lines(out, n, merger);
                if normalized(blocks) {
                    assert forall|j: int| 0 <= j < res.len() - 1 implies res[j].author_id != (
                    #[trigger] res[j + 1]).author_id by {
                        assert(blocks[j].author_id != blocks[j + 1].author_id);
                    }
                }
                assert forall|allowed: Set<u32>|
                    authors_within(blocks, allowed) && allowed.contains(
                        merger,
                    ) implies authors_within(res, allowed) by {
                    assert forall|j: int| 0 <= j < res.len() implies allowed.contains(
                        (#[trigger] res[j]).author_id,
                    ) by {
                        if out.len() > 0 {
                            assert(allowed.contains(blocks[j].author_id));
                        }
                    }
                }
            }
        },
    }
}

/// Appended lines add to the line count and keep the authors.
pub proof fn lemma_append_lines(out: Seq<LineBlock>, n: int, merger: u32)
    requires
        0 <= n,
        total_lines(out) + n <= u32::MAX,
    ensures
        total_lines(append_lines(out, n, merger)) == total_lines(out) + n,
        out.len() > 0 ==> append_lines(out, n, merger).len() == out.len(),
        forall|j: int|
            0 <= j < out.len() ==> (#[trigger] append_lines(out, n, merger)[j]).author_id
                == out[j].author_id,
        out.len() == 0 && n > 0 ==> append_lines(out, n, merger) == seq![
            LineBlock { author_id: merger, size: n as u32 },
        ],
{
    lemma_total_nonneg(out);
    if n == 0 {
    } else if out.len() == 0 {
        let one = LineBlock { author_id: merger, size: n as u32 };
        assert(seq![one] =~= Seq::<LineBlock>::empty().push(one));
        lemma_total_push(Seq::empty(), one);
    } else {
        let last = LineBlock { author_id: out.last().author_id, size: (out.last().size + n) as u32 };
        assert(append_lines(out, n, merger) =~= out.drop_last().push(last));
        lemma_total_push(out.drop_last(), last);
    }
}

/// Without edits the blocks stay as they are.
pub proof fn lemma_replay_from_nothing(
    out: Seq<LineBlock>,
    blocks: Seq<LineBlock>,
    i: int,
    old_base: int,
    new_base: int,
)
    requires
        0 <= i <= blocks.len(),
        new_base == total_lines(blocks.take(i)),
        total_lines(blocks) <= u32::MAX,
    ensures
        replay_from(out, blocks, i, Seq::empty(), 0, old_base, new_base) == Some(
            (out + blocks.skip(i), 0int, total_lines(blocks)),
        ),
    decreases blocks.len() - i,
{
    lemma_total_take(blocks, i);
    if i < blocks.len() {
        lemma_total_take(blocks, i + 1);
        let old_end = old_base + blocks[i].size;
        lemma_replay_from_nothing(
            out.push(blocks[i]),
            blocks,
            i + 1,
            old_end,
            new_base + blocks[i].size,
        );
        assert(out.push(blocks[i]) + blocks.skip(i + 1) =~= out + blocks.skip(i));
    } else {
        assert(out + blocks.skip(i) =~= out);
        assert(blocks.take(i) =~= blocks);
    }
}

/// A file without edits keeps its blocks.
pub proof fn lemma_replayed_nothing(blocks: Seq<LineBlock>, merger: u32)
    requires
        total_lines(blocks) <= u32::MAX,
    ensures
        replayed(blocks, Seq::empty(), merger) == Some(blocks),
{
    assert(blocks.take(0) =~= Seq::<LineBlock>::empty());
    lemma_replay_from_nothing(Seq::empty(), blocks, 0, 0, 0);
    assert(Seq::<LineBlock>::empty() + blocks.skip(0) =~= blocks);
}

/// A file that starts without blocks gets one block of `merger`, as large
/// as the number of its insertions.
pub proof fn lemma_replayed_from_scratch(ops: Seq<LinePatch>, merger: u32)
    ensures
        replayed(Seq::empty(), ops, merger) == (if count_inserts(ops, 0) > u32::MAX {
            None
        } else if count_inserts(ops, 0) == 0 {
            Some(Seq::<LineBlock>::empty())
        } else {
            Some(seq![LineBlock { author_id: merger, size: count_inserts(ops, 0) as u32 }])
        }),
{
}

/// Whether an edit is taken in the current block.
fn takes_op(op: &LinePatch, old_end: u32, new_base: u32, new_size: u32) -> (r: bool)
    ensures
        r == op_in_block(*op, old_end as int, new_base + new_size),
{
    let old_line: u32 = match op {
        LinePatch::Delete(line) => *line,
        LinePatch::Insert(_) => 0,
    };
    let new_line: u32 = match op {
        LinePatch::Insert(line) => *line,
        LinePatch::Delete(_) => 0,
    };
    old_line < old_end && (new_line as u64) < new_base as u64 + new_size as u64
}

/// Replays the line edits of a file over the blocks of its old version.
pub fn replay_ops(blocks: &[LineBlock], ops: &[LinePatch], merger: u32) -> (r: Option<
    Vec<LineBlock>,
>)
    requires
        total_lines(blocks@) <= u32::MAX,
    ensures
        r is Some <==> replayed(blocks@, ops@, merger) is Some,
        r matches Some(v) ==> Some(v@) == replayed(blocks@, ops@, merger),
{
    let mut out: Vec<LineBlock> = Vec::new();
    let mut k: usize = 0;
    let mut old_base: u32 = 0;
    let mut new_base: u32 = 0;
    let mut i: usize = 0;
    assert(blocks@.take(0) =~= Seq::<LineBlock>::empty());
    while i < blocks.len()
        invariant
            i <= blocks.len(),
            k <= ops.len(),
            total_lines(blocks@) <= u32::MAX,
            old_base == total_lines(blocks@.take(i as int)),
            new_base == total_lines(out@),
            replay_from(Seq::empty(), blocks@, 0, ops@, 0, 0, 0) == replay_from(
                out@,
                blocks@,
                i as int,
                ops@,
                k as int,
                old_base as int,
                new_base as int,
            ),
        decreases blocks.len() - i,
    {
        let block = blocks[i];
        proof {
            lemma_total_take(blocks@, i as int);
            lemma_total_take(blocks@, i + 1);
        }
        let old_end: u32 = old_base + block.size;
        let mut new_size: u32 = block.size;
        let ghost k0 = k as int;
        while k < ops.len() && takes_op(&ops[k], old_end, new_base, new_size)
            invariant
                k <= ops.len(),
                i < blocks.len(),
                block == blocks@[i as int],
                old_end == old_base + block.size,
                replay_from(Seq::empty(), blocks@, 0, ops@, 0, 0, 0) == replay_from(
                    out@,
                    blocks@,
                    i as int,
                    ops@,
                    k0,
                    old_base as int,
                    new_base as int,
                ),
                replay_block(
                    ops@,
                    k0,
                    old_base as int,
                    old_end as int,
                    new_base as int,
                    block.size as int,
                ) == replay_block(
                    ops@,
                    k as int,
                    old_base as int,
                    old_end as int,
                    new_base as int,
                    new_size as int,
                ),
            decreases ops.len() - k,
        {
            match ops[k] {
                LinePatch::Delete(line) => {
                    if line > old_base {
                        if new_size == 0 {
                            return None;
                        }
                        new_size -= 1;
                    }
                },
                LinePatch::Insert(line) => {
                    if line > new_base {
                        if new_size == u32::MAX {
                            return None;
                        }
                        new_size += 1;
                    }
                },
            }
            k += 1;
        }
        match new_base.checked_add(new_size) {
            None => {
                return None;
            },
            Some(next_base) => {
                proof {
                    lemma_total_push(
                        out@,
                        LineBlock { author_id: block.author_id, size: new_size },
                    );
                }
                out.push(LineBlock { author_id: block.author_id, size: new_size });
                old_base = old_end;
                new_base = next_base;
            },
        }
        i += 1;
    }
    let ghost k_rest = k as int;
    let mut extra: u32 = 0;
    while k < ops.len()
        invariant
            k <= ops.len(),
            new_base + extra <= u32::MAX,
            replay_from(Seq::empty(), blocks@, 0, ops@, 0, 0, 0) == Some(
                (out@, k_rest, new_base as int),
            ),
            count_inserts(ops@, k_rest) == extra + count_inserts(ops@, k as int),
        decreases ops.len() - k,
    {
        if let LinePatch::Insert(_) = ops[k] {
            proof {
                lemma_count_inserts_bounds(ops@, k + 1);
            }
            if new_base as u64 + extra as u64 + 1 > u32::MAX as u64 {
                return None;
            }
            extra += 1;
        }
        k += 1;
    }
    proof {
        lemma_total_nonneg(out@);
    }
    let n = out.len();
    if extra == 0 {
    } else if n == 0 {
        out.push(LineBlock { author_id: merger, size: extra });
        assert(out@ =~= seq![LineBlock { author_id: merger, size: extra }]);
    } else {
        let last = out[n - 1];
        out[n - 1] = LineBlock { author_id: last.author_id, size: last.size + extra };
    }
    Some(out)
}

} // verus!
