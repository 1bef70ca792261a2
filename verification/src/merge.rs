//! The lines that a commit adds against its parents, each with the author
//! it goes to: for a line that all parents but one lack, the author who
//! holds that place in the one parent which has it; else the commit's own.

use crate::blocks::{lemma_total_take, total_lines, Addition, LineBlock};
use crate::patch::{FilePatch, LinePatch};
use vstd::prelude::*;

verus! {

/// What the additions of one file are computed from: for each parent its
/// edits of the file, the blocks of the file's old version in that parent
/// where it has one, and its fallback author; and the commit's author.
pub struct MergeInput {
    pub ops: Seq<Seq<LinePatch>>,
    pub trees: Seq<Option<Seq<LineBlock>>>,
    pub authors: Seq<u32>,
    pub merger: u32,
}

impl MergeInput {
    /// The number of parents.
    pub open spec fn parents(self) -> int {
        self.ops.len() as int
    }

    /// Edits, blocks and authors are given for the same parents.
    pub open spec fn wf(self) -> bool {
        self.trees.len() == self.ops.len() && self.authors.len() == self.ops.len()
    }
}

/// The position behind the deletions that start at position `c`.
pub open spec fn skip_deletes(ops: Seq<LinePatch>, c: int) -> int
    decreases ops.len() - c,
{
    if 0 <= c < ops.len() && ops[c] is Delete {
        skip_deletes(ops, c + 1)
    } else {
        c
    }
}

/// The new line of the insertion at position `c`, if one stands there.
pub open spec fn head_line(ops: Seq<LinePatch>, c: int) -> Option<u32> {
    if 0 <= c < ops.len() {
        ops[c].spec_new_lineno()
    } else {
        None
    }
}

/// The deletions less the insertions among the first `c` edits.
pub open spec fn net_deletes(ops: Seq<LinePatch>, c: int) -> int
    decreases c,
{
    if c <= 0 {
        0
    } else {
        net_deletes(ops, c - 1) + (if ops[c - 1] is Delete {
            1int
        } else {
            -1int
        })
    }
}

/// Every parent's position moved behind its leading deletions.
pub open spec fn skipped(ops: Seq<Seq<LinePatch>>, cur: Seq<int>) -> Seq<int> {
    Seq::new(cur.len(), |k: int| skip_deletes(ops[k], cur[k]))
}

/// The least line among the insertions at the positions of the first `n`
/// parents.
pub open spec fn min_head(ops: Seq<Seq<LinePatch>>, cur: Seq<int>, n: int) -> Option<u32>
    decreases n,
{
    if n <= 0 {
        None
    } else {
        let rest = min_head(ops, cur, n - 1);
        match head_line(ops[n - 1], cur[n - 1]) {
            None => rest,
            Some(l) => match rest {
                None => Some(l),
                Some(m) => if l < m {
                    Some(l)
                } else {
                    Some(m)
                },
            },
        }
    }
}

/// The sum of the 1-based ordinals of those among the first `n` parents
/// whose next edit inserts `line`.
pub open spec fn hit_ordinals(ops: Seq<Seq<LinePatch>>, cur: Seq<int>, line: u32, n: int) -> int
    decreases n,
{
    if n <= 0 {
        0
    } else {
        hit_ordinals(ops, cur, line, n - 1) + (if head_line(ops[n - 1], cur[n - 1]) == Some(line) {
            n
        } else {
            0
        })
    }
}

/// The sum of the ordinals `1..=n`.
pub open spec fn ordinal_sum(n: int) -> int {
    n * (n + 1) / 2
}

/// The positions after every parent whose next edit inserts `line` has
/// taken that edit.
pub open spec fn advanced(ops: Seq<Seq<LinePatch>>, cur: Seq<int>, line: u32) -> Seq<int> {
    Seq::new(
        cur.len(),
        |k: int|
            if head_line(ops[k], cur[k]) == Some(line) {
                cur[k] + 1
            } else {
                cur[k]
            },
    )
}

/// Whether the block at `b` ends before `line`, once the old line numbers
/// are shifted by `shift`.
pub open spec fn block_passed(tree: Option<Seq<LineBlock>>, b: int, shift: int, line: u32) -> bool {
    match tree {
        Some(t) => 0 <= b < t.len() && total_lines(t.take(b)) + shift + t[b].size < line,
        None => false,
    }
}

/// The block positions after each parent has moved on by at most one
/// block towards `line`.
pub open spec fn moved(inp: MergeInput, cur: Seq<int>, blk: Seq<int>, line: u32) -> Seq<int> {
    Seq::new(
        blk.len(),
        |k: int|
            if block_passed(inp.trees[k], blk[k], net_deletes(inp.ops[k], cur[k]), line) {
                blk[k] + 1
            } else {
                blk[k]
            },
    )
}

/// The author of the block at `b`, or `fallback` where there is none.
pub open spec fn block_author(tree: Option<Seq<LineBlock>>, b: int, fallback: u32) -> u32 {
    match tree {
        Some(t) => if 0 <= b < t.len() {
            t[b].author_id
        } else {
            fallback
        },
        None => fallback,
    }
}

/// The author of an added line, from the ordinals of the parents that
/// did not insert it: if they sum to the ordinal of a parent, the author
/// at that parent's block position; else the commit's author.
pub open spec fn addition_author(inp: MergeInput, blk: Seq<int>, ofs: int) -> u32 {
    if 1 <= ofs <= inp.parents() {
        block_author(inp.trees[ofs - 1], blk[ofs - 1], inp.authors[ofs - 1])
    } else {
        inp.merger
    }
}

/// The edits not yet taken by the first `n` parents.
pub open spec fn remaining(ops: Seq<Seq<LinePatch>>, cur: Seq<int>, n: int) -> int
    decreases n,
{
    if n <= 0 {
        0
    } else {
        remaining(ops, cur, n - 1) + (ops[n - 1].len() - cur[n - 1])
    }
}

/// Every position lies within its parent's edits.
pub open spec fn cursors_ok(ops: Seq<Seq<LinePatch>>, cur: Seq<int>) -> bool {
    &&& cur.len() == ops.len()
    &&& forall|k: int| 0 <= k < cur.len() ==> 0 <= #[trigger] cur[k] <= ops[k].len()
}

/// Behind the deletions stands an insertion or the end, and each skipped
/// deletion counts once.
pub proof fn lemma_skip_deletes(ops: Seq<LinePatch>, c: int)
    requires
        0 <= c <= ops.len(),
    ensures
        c <= skip_deletes(ops, c) <= ops.len(),
        skip_deletes(ops, c) < ops.len() ==> ops[skip_deletes(ops, c)] is Insert,
        net_deletes(ops, skip_deletes(ops, c)) == net_deletes(ops, c) + skip_deletes(ops, c) - c,
    decreases ops.len() - c,
{
    if c < ops.len() && ops[c] is Delete {
        lemma_skip_deletes(ops, c + 1);
    }
}

/// Deletions less insertions are no more than the edits counted.
pub proof fn lemma_net_deletes_bounds(ops: Seq<LinePatch>, c: int)
    requires
        0 <= c,
    ensures
        -c <= net_deletes(ops, c) <= c,
    decreases c,
{
    if c > 0 {
        lemma_net_deletes_bounds(ops, c - 1);
    }
}

/// The least line is the next insertion of some parent, and no parent's
/// next insertion lies before it.
pub proof fn lemma_min_head(ops: Seq<Seq<LinePatch>>, cur: Seq<int>, n: int)
    requires
        0 <= n <= cur.len(),
    ensures
        min_head(ops, cur, n) matches Some(l) ==> exists|k: int|
            0 <= k < n && head_line(ops[k], cur[k]) == Some(l),
        forall|k: int|
            0 <= k < n ==> (#[trigger] head_line(ops[k], cur[k]) matches Some(h) ==> (min_head(
                ops,
                cur,
                n,
            ) matches Some(l) && l <= h)),
    decreases n,
{
    if n > 0 {
        lemma_min_head(ops, cur, n - 1);
        if let Some(l) = min_head(ops, cur, n) {
            if head_line(ops[n - 1], cur[n - 1]) == Some(l) {
            } else {
                let k = choose|k: int| 0 <= k < n - 1 && head_line(ops[k], cur[k]) == Some(l);
                assert(0 <= k < n && head_line(ops[k], cur[k]) == Some(l));
            }
        }
    }
}

/// Positions that move forward leave less to do.
pub proof fn lemma_remaining_mono(ops: Seq<Seq<LinePatch>>, a: Seq<int>, b: Seq<int>, n: int)
    requires
        0 <= n <= a.len(),
        a.len() == b.len(),
        forall|k: int| 0 <= k < n ==> a[k] <= b[k],
    ensures
        remaining(ops, b, n) <= remaining(ops, a, n),
        forall|k: int| 0 <= k < n && a[k] < b[k] ==> remaining(ops, b, n) < remaining(ops, a, n),
    decreases n,
{
    if n > 0 {
        lemma_remaining_mono(ops, a, b, n - 1);
    }
}

/// Positions within the edits leave no less than nothing to do.
pub proof fn lemma_remaining_nonneg(ops: Seq<Seq<LinePatch>>, cur: Seq<int>, n: int)
    requires
        cursors_ok(ops, cur),
        0 <= n <= cur.len(),
    ensures
        0 <= remaining(ops, cur, n),
    decreases n,
{
    if n > 0 {
        lemma_remaining_nonneg(ops, cur, n - 1);
    }
}

/// One round takes at least one edit.
pub proof fn lemma_round_progress(ops: Seq<Seq<LinePatch>>, cur: Seq<int>)
    requires
        cursors_ok(ops, cur),
    ensures
        cursors_ok(ops, skipped(ops, cur)),
        min_head(ops, skipped(ops, cur), ops.len() as int) matches Some(line) ==> {
            let next = advanced(ops, skipped(ops, cur), line);
            cursors_ok(ops, next) && remaining(ops, next, ops.len() as int) < remaining(
                ops,
                cur,
                ops.len() as int,
            )
        },
{
    let n = ops.len() as int;
    let cur1 = skipped(ops, cur);
    assert forall|k: int| 0 <= k < n implies cur[k] <= #[trigger] cur1[k] <= ops[k].len() by {
        lemma_skip_deletes(ops[k], cur[k]);
    }
    lemma_remaining_mono(ops, cur, cur1, n);
    if let Some(line) = min_head(ops, cur1, n) {
        let cur2 = advanced(ops, cur1, line);
        lemma_min_head(ops, cur1, n);
        let k = choose|k: int| 0 <= k < n && head_line(ops[k], cur1[k]) == Some(line);
        assert(cur1[k] < cur2[k]);
        assert forall|j: int| 0 <= j < n implies cur1[j] <= #[trigger] cur2[j] <= ops[j].len() by {}
        lemma_remaining_mono(ops, cur1, cur2, n);
    }
}

/// The additions from the given positions on, appended to `acc`. Each
/// round skips every parent's leading deletions, takes the least line that
/// a parent inserts next, and lets each parent that inserts it take that
/// edit; each parent's block position moves on by at most one block.
pub open spec fn merge_from(acc: Seq<Addition>, inp: MergeInput, cur: Seq<int>, blk: Seq<int>) -> Seq<
    Addition,
>
    decreases remaining(inp.ops, cur, inp.parents()),
    when cursors_ok(inp.ops, cur)
{
    let n = inp.parents();
    let cur1 = skipped(inp.ops, cur);
    match min_head(inp.ops, cur1, n) {
        None => acc,
        Some(line) => {
            let cur2 = advanced(inp.ops, cur1, line);
            let blk2 = moved(inp, cur2, blk, line);
            let ofs = ordinal_sum(n) - hit_ordinals(inp.ops, cur1, line, n);
            proof {
                lemma_round_progress(inp.ops, cur);
                lemma_remaining_nonneg(inp.ops, cur2, n);
            }
            merge_from(
                acc.push(Addition { author: addition_author(inp, blk2, ofs), line }),
                inp,
                cur2,
                blk2,
            )
        },
    }
}

/// The additions of one file.
pub open spec fn merged_additions(inp: MergeInput) -> Seq<Addition> {
    merge_from(
        Seq::empty(),
        inp,
        Seq::new(inp.ops.len(), |k: int| 0int),
        Seq::new(inp.ops.len(), |k: int| 0int),
    )
}

/// The edits of a file in a parent's diff; none where the diff lacks the
/// file.
pub open spec fn ops_of(p: Option<&FilePatch>) -> Seq<LinePatch> {
    match p {
        Some(fp) => fp.patch@,
        None => Seq::empty(),
    }
}

/// The edits of a file in each parent's diff.
pub open spec fn patch_ops(p: Seq<Option<&FilePatch>>) -> Seq<Seq<LinePatch>> {
    Seq::new(p.len(), |k: int| ops_of(p[k]))
}

/// The blocks of a file in each parent's tree.
pub open spec fn tree_blocks(t: Seq<Option<&[LineBlock]>>) -> Seq<Option<Seq<LineBlock>>> {
    Seq::new(
        t.len(),
        |k: int|
            match t[k] {
                Some(b) => Some(b@),
                None => None,
            },
    )
}

/// Positions as mathematical integers.
pub open spec fn ints(s: Seq<usize>) -> Seq<int> {
    Seq::new(s.len(), |k: int| s[k] as int)
}

/// The sum of the ordinals `1..=n` grows by `n` at `n`.
pub proof fn lemma_ordinal_sum_step(n: int)
    requires
        n >= 1,
    ensures
        ordinal_sum(n) == ordinal_sum(n - 1) + n,
        ordinal_sum(0) == 0,
{
    assert(n * (n + 1) == (n - 1) * n + 2 * n) by (nonlinear_arith);
}

/// The ordinals of the parents that insert a line sum to no more than
/// all ordinals.
pub proof fn lemma_hit_ordinals_bound(ops: Seq<Seq<LinePatch>>, cur: Seq<int>, line: u32, n: int)
    requires
        0 <= n,
    ensures
        0 <= hit_ordinals(ops, cur, line, n) <= ordinal_sum(n),
    decreases n,
{
    if n > 0 {
        lemma_hit_ordinals_bound(ops, cur, line, n - 1);
        lemma_ordinal_sum_step(n);
    } else {
        lemma_ordinal_sum_step(1);
    }
}

/// Each running shift is the net count of deletions before its position.
pub open spec fn shifts_ok(ops: Seq<Seq<LinePatch>>, cur: Seq<usize>, shift: Seq<i128>) -> bool {
    &&& shift.len() == cur.len()
    &&& forall|k: int|
        0 <= k < cur.len() ==> (#[trigger] shift[k]) == net_deletes(ops[k], cur[k] as int)
}

/// Each block position lies within its tree, and each running base is
/// the line count of the blocks before the position.
pub open spec fn bases_ok(trees: Seq<Option<&[LineBlock]>>, blk: Seq<usize>, base: Seq<u32>) -> bool {
    &&& blk.len() == trees.len()
    &&& base.len() == trees.len()
    &&& forall|k: int|
        0 <= k < trees.len() ==> (#[trigger] trees[k] matches Some(t) ==> blk[k] <= t@.len()
            && base[k] == total_lines(t@.take(blk[k] as int)))
}

/// A diff holds no more edits than a machine word counts.
pub proof fn lemma_ops_len(p: Option<&FilePatch>)
    ensures
        ops_of(p).len() <= usize::MAX,
{
    if let Some(fp) = p {
        assert(fp.patch@.len() == fp.patch.len());
    }
}

fn op_at(patch: &Option<&FilePatch>, c: usize) -> (r: Option<LinePatch>)
    ensures
        r == (if c < ops_of(*patch).len() {
            Some(ops_of(*patch)[c as int])
        } else {
            None
        }),
{
    match patch {
        Some(fp) => if c < fp.patch.len() {
            Some(fp.patch[c])
        } else {
            None
        },
        None => None,
    }
}

fn is_delete_at(patch: &Option<&FilePatch>, c: usize) -> (r: bool)
    ensures
        r == (c < ops_of(*patch).len() && ops_of(*patch)[c as int] is Delete),
{
    match op_at(patch, c) {
        Some(LinePatch::Delete(_)) => true,
        _ => false,
    }
}

fn insert_at(patch: &Option<&FilePatch>, c: usize) -> (r: Option<u32>)
    ensures
        r == head_line(ops_of(*patch), c as int),
{
    match op_at(patch, c) {
        Some(LinePatch::Insert(line)) => Some(line),
        _ => None,
    }
}

fn skip_leading_deletes(patches: &[Option<&FilePatch>], cur: &mut Vec<usize>, shift: &mut Vec<i128>)
    requires
        cursors_ok(patch_ops(patches@), ints(old(cur)@)),
        shifts_ok(patch_ops(patches@), old(cur)@, old(shift)@),
    ensures
        ints(final(cur)@) == skipped(patch_ops(patches@), ints(old(cur)@)),
        cursors_ok(patch_ops(patches@), ints(final(cur)@)),
        shifts_ok(patch_ops(patches@), final(cur)@, final(shift)@),
{
    let n = patches.len();
    let ghost cur0 = cur@;
    let ghost ops = patch_ops(patches@);
    let mut k: usize = 0;
    assert forall|j: int| 0 <= j < n implies cur@[j] <= ops[j].len() by {
        assert(ints(cur@)[j] == cur@[j]);
    }
    while k < n
        invariant
            k <= n,
            n == patches.len(),
            cur.len() == n,
            shift.len() == n,
            cur0.len() == n,
            ops == patch_ops(patches@),
            forall|j: int| 0 <= j < k ==> cur@[j] == skip_deletes(ops[j], cur0[j] as int),
            forall|j: int| k <= j < n ==> cur@[j] == cur0[j],
            forall|j: int| 0 <= j < n ==> cur@[j] <= ops[j].len(),
            forall|j: int| 0 <= j < n ==> (#[trigger] shift@[j]) == net_deletes(ops[j], cur@[j] as int),
        decreases n - k,
    {
        let mut c: usize = cur[k];
        let mut sh: i128 = shift[k];
        let ghost c0 = c as int;
        assert(ops[k as int] == ops_of(patches@[k as int]));
        assert(ints(cur0)[k as int] == cur0[k as int]);
        while is_delete_at(&patches[k], c)
            invariant
                k < n,
                n == patches.len(),
                c <= ops_of(patches@[k as int]).len(),
                skip_deletes(ops_of(patches@[k as int]), c0) == skip_deletes(
                    ops_of(patches@[k as int]),
                    c as int,
                ),
                sh == net_deletes(ops_of(patches@[k as int]), c as int),
            decreases ops_of(patches@[k as int]).len() - c,
        {
            proof {
                lemma_net_deletes_bounds(ops_of(patches@[k as int]), c + 1);
                lemma_ops_len(patches@[k as int]);
            }
            c += 1;
            sh += 1;
        }
        cur[k] = c;
        shift[k] = sh;
        k += 1;
    }
    assert(ints(cur@) =~= skipped(ops, ints(cur0)));
}

fn least_line(patches: &[Option<&FilePatch>], cur: &Vec<usize>) -> (r: Option<u32>)
    requires
        cur.len() == patches.len(),
    ensures
        r == min_head(patch_ops(patches@), ints(cur@), patches.len() as int),
{
    let n = patches.len();
    let mut next: Option<u32> = None;
    let mut k: usize = 0;
    while k < n
        invariant
            k <= n,
            n == patches.len(),
            cur.len() == n,
            next == min_head(patch_ops(patches@), ints(cur@), k as int),
        decreases n - k,
    {
        assert(patch_ops(patches@)[k as int] == ops_of(patches@[k as int]));
        assert(ints(cur@)[k as int] == cur@[k as int]);
        if let Some(l) = insert_at(&patches[k], cur[k]) {
            next = match next {
                None => Some(l),
                Some(m) => if l < m {
                    Some(l)
                } else {
                    Some(m)
                },
            };
        }
        k += 1;
    }
    next
}

fn take_line(
    patches: &[Option<&FilePatch>],
    cur: &mut Vec<usize>,
    shift: &mut Vec<i128>,
    line: u32,
) -> (ofs: u128)
    requires
        cursors_ok(patch_ops(patches@), ints(old(cur)@)),
        shifts_ok(patch_ops(patches@), old(cur)@, old(shift)@),
    ensures
        ints(final(cur)@) == advanced(patch_ops(patches@), ints(old(cur)@), line),
        cursors_ok(patch_ops(patches@), ints(final(cur)@)),
        shifts_ok(patch_ops(patches@), final(cur)@, final(shift)@),
        ofs == ordinal_sum(patches.len() as int) - hit_ordinals(
            patch_ops(patches@),
            ints(old(cur)@),
            line,
            patches.len() as int,
        ),
{
    let n = patches.len();
    let ghost cur0 = cur@;
    let ghost ops = patch_ops(patches@);
    let mut all: u128 = 0;
    let mut hit: u128 = 0;
    let mut k: usize = 0;
    proof {
        lemma_ordinal_sum_step(1);
    }
    assert forall|j: int| 0 <= j < n implies cur@[j] <= ops[j].len() by {
        assert(ints(cur@)[j] == cur@[j]);
    }
    while k < n
        invariant
            k <= n,
            n == patches.len(),
            cur.len() == n,
            shift.len() == n,
            cur0.len() == n,
            ops == patch_ops(patches@),
            all == ordinal_sum(k as int),
            all <= k * 0x1_0000_0000_0000_0000,
            hit == hit_ordinals(ops, ints(cur0), line, k as int),
            hit <= all,
            forall|j: int|
                0 <= j < k ==> cur@[j] == (if head_line(ops[j], cur0[j] as int) == Some(line) {
                    cur0[j] + 1
                } else {
                    cur0[j] as int
                }),
            forall|j: int| k <= j < n ==> cur@[j] == cur0[j],
            forall|j: int| 0 <= j < n ==> cur@[j] <= ops[j].len(),
            forall|j: int| 0 <= j < n ==> (#[trigger] shift@[j]) == net_deletes(ops[j], cur@[j] as int),
        decreases n - k,
    {
        proof {
            lemma_ordinal_sum_step(k + 1);
            lemma_hit_ordinals_bound(ops, ints(cur0), line, k as int);
            assert(ops[k as int] == ops_of(patches@[k as int]));
            assert(ints(cur0)[k as int] == cur0[k as int]);
        }
        all = all + (k as u128 + 1);
        let c: usize = cur[k];
        if insert_at(&patches[k], c) == Some(line) {
            proof {
                lemma_net_deletes_bounds(ops[k as int], c + 1);
                lemma_ops_len(patches@[k as int]);
            }
            hit = hit + (k as u128 + 1);
            let sh: i128 = shift[k];
            cur[k] = c + 1;
            shift[k] = sh - 1;
        }
        k += 1;
    }
    assert(ints(cur@) =~= advanced(ops, ints(cur0), line));
    all - hit
}

fn move_blocks(
    trees: &[Option<&[LineBlock]>],
    blk: &mut Vec<usize>,
    base: &mut Vec<u32>,
    shift: &Vec<i128>,
    line: u32,
    Ghost(inp): Ghost<MergeInput>,
    Ghost(cur): Ghost<Seq<int>>,
)
    requires
        inp.trees == tree_blocks(trees@),
        inp.ops.len() == trees.len(),
        cur.len() == trees.len(),
        shift.len() == trees.len(),
        forall|k: int| 0 <= k < trees.len() ==> 0 <= #[trigger] cur[k] <= usize::MAX,
        forall|k: int| 0 <= k < trees.len() ==> (#[trigger] shift@[k]) == net_deletes(inp.ops[k], cur[k]),
        bases_ok(trees@, old(blk)@, old(base)@),
        forall|k: int|
            0 <= k < trees.len() ==> (#[trigger] trees[k] matches Some(t) ==> total_lines(t@)
                <= u32::MAX),
    ensures
        ints(final(blk)@) == moved(inp, cur, ints(old(blk)@), line),
        bases_ok(trees@, final(blk)@, final(base)@),
{
    let n = trees.len();
    let ghost blk0 = blk@;
    let mut k: usize = 0;
    while k < n
        invariant
            k <= n,
            n == trees.len(),
            blk.len() == n,
            base.len() == n,
            blk0.len() == n,
            shift.len() == n,
            cur.len() == n,
            inp.ops.len() == n,
            inp.trees == tree_blocks(trees@),
            forall|j: int| 0 <= j < n ==> 0 <= #[trigger] cur[j] <= usize::MAX,
            forall|j: int| 0 <= j < n ==> (#[trigger] shift@[j]) == net_deletes(inp.ops[j], cur[j]),
            forall|j: int|
                0 <= j < n ==> (#[trigger] trees[j] matches Some(t) ==> total_lines(t@) <= u32::MAX),
            forall|j: int|
                0 <= j < k ==> blk@[j] == (if block_passed(
                    inp.trees[j],
                    blk0[j] as int,
                    net_deletes(inp.ops[j], cur[j]),
                    line,
                ) {
                    blk0[j] + 1
                } else {
                    blk0[j] as int
                }),
            forall|j: int| k <= j < n ==> blk@[j] == blk0[j],
            bases_ok(trees@, blk@, base@),
        decreases n - k,
    {
        assert(inp.trees[k as int] == tree_blocks(trees@)[k as int]);
        if let Some(t) = trees[k] {
            let b: usize = blk[k];
            if b < t.len() {
                let block = t[b];
                let at: u32 = base[k];
                proof {
                    lemma_total_take(t@, b as int);
                    lemma_total_take(t@, b + 1);
                    lemma_net_deletes_bounds(inp.ops[k as int], cur[k as int]);
                    assert(shift@[k as int] == net_deletes(inp.ops[k as int], cur[k as int]));
                }
                if (at as i128) + shift[k] + (block.size as i128) < (line as i128) {
                    blk[k] = b + 1;
                    base[k] = at + block.size;
                }
            }
        }
        k += 1;
    }
    assert(ints(blk@) =~= moved(inp, cur, ints(blk0), line));
}

/// What the additions of a file are computed from, as the program holds
/// it.
pub open spec fn merge_input(
    authors: Seq<u32>,
    patches: Seq<Option<&FilePatch>>,
    trees: Seq<Option<&[LineBlock]>>,
    merger: u32,
) -> MergeInput {
    MergeInput { ops: patch_ops(patches), trees: tree_blocks(trees), authors, merger }
}

/// Computes the additions of one file: the lines that the commit inserts
/// against its parents, in the order in which the rounds find them, each
/// with its author. `patches[k]` is the file's patch against parent `k`,
/// `trees[k]` the blocks of the file's old version in parent `k`, and
/// `authors[k]` the author that stands in where those blocks run out.
pub fn merge_file_patch(
    authors: &[u32],
    patches: &[Option<&FilePatch>],
    trees: &[Option<&[LineBlock]>],
    merger: u32,
) -> (ret: Vec<Addition>)
    requires
        authors.len() == patches.len(),
        trees.len() == patches.len(),
        forall|k: int|
            0 <= k < trees.len() ==> (#[trigger] trees[k] matches Some(t) ==> total_lines(t@)
                <= u32::MAX),
    ensures
        ret@ == merged_additions(merge_input(authors@, patches@, trees@, merger)),
{
    let n = patches.len();
    let ghost inp = merge_input(authors@, patches@, trees@, merger);
    let mut cur: Vec<usize> = vec![0usize; n];
    let mut blk: Vec<usize> = vec![0usize; n];
    let mut base: Vec<u32> = vec![0u32; n];
    let mut shift: Vec<i128> = vec![0i128; n];
    let mut ret: Vec<Addition> = Vec::new();
    proof {
        assert(ints(cur@) =~= Seq::new(inp.ops.len(), |k: int| 0int));
        assert(ints(blk@) =~= Seq::new(inp.ops.len(), |k: int| 0int));
        assert forall|k: int| 0 <= k < trees.len() implies (#[trigger] trees[k] matches Some(t)
            ==> blk@[k] <= t@.len() && base@[k] == total_lines(t@.take(blk@[k] as int))) by {
            if let Some(t) = trees[k] {
                assert(t@.take(0) =~= Seq::<LineBlock>::empty());
            }
        }
    }
    loop
        invariant
            n == patches.len(),
            authors.len() == n,
            trees.len() == n,
            inp == merge_input(authors@, patches@, trees@, merger),
            forall|k: int|
                0 <= k < trees.len() ==> (#[trigger] trees[k] matches Some(t) ==> total_lines(t@)
                    <= u32::MAX),
            cursors_ok(inp.ops, ints(cur@)),
            shifts_ok(inp.ops, cur@, shift@),
            bases_ok(trees@, blk@, base@),
            merged_additions(inp) == merge_from(ret@, inp, ints(cur@), ints(blk@)),
        decreases remaining(inp.ops, ints(cur@), n as int),
    {
        let ghost cur_a = ints(cur@);
        let ghost blk_a = ints(blk@);
        proof {
            lemma_round_progress(inp.ops, cur_a);
        }
        skip_leading_deletes(patches, &mut cur, &mut shift);
        let line = match least_line(patches, &cur) {
            None => {
                return ret;
            },
            Some(l) => l,
        };
        let ofs = take_line(patches, &mut cur, &mut shift, line);
        proof {
            assert forall|k: int| 0 <= k < trees.len() implies 0 <= #[trigger] ints(cur@)[k]
                <= usize::MAX by {}
            assert forall|k: int| 0 <= k < trees.len() implies (#[trigger] shift@[k])
                == net_deletes(inp.ops[k], ints(cur@)[k]) by {}
        }
        move_blocks(trees, &mut blk, &mut base, &shift, line, Ghost(inp), Ghost(ints(cur@)));
        let author = if ofs >= 1 && ofs <= n as u128 {
            let k = (ofs - 1) as usize;
            assert(inp.trees[k as int] == tree_blocks(trees@)[k as int]);
            assert(ints(blk@)[k as int] == blk@[k as int]);
            match trees[k] {
                Some(t) => if blk[k] < t.len() {
                    t[blk[k]].author_id
                } else {
                    authors[k]
                },
                None => authors[k],
            }
        } else {
            merger
        };
        ret.push(Addition { author, line });
        proof {
            lemma_remaining_nonneg(inp.ops, ints(cur@), n as int);
        }
    }
}

/// Every author that an addition can get is one of `allowed`: the
/// commit's author, each parent's fallback author, and the authors of
/// the blocks.
pub open spec fn merge_input_within(inp: MergeInput, allowed: Set<u32>) -> bool {
    &&& allowed.contains(inp.merger)
    &&& forall|k: int| 0 <= k < inp.authors.len() ==> allowed.contains(#[trigger] inp.authors[k])
    &&& forall|k: int, b: int|
        0 <= k < inp.trees.len() && inp.trees[k] is Some && 0 <= b < inp.trees[k].unwrap().len()
            ==> allowed.contains((#[trigger] inp.trees[k].unwrap()[b]).author_id)
}

/// The additions bring in no author beyond those of their input.
pub proof fn lemma_merge_from_within(
    acc: Seq<Addition>,
    inp: MergeInput,
    cur: Seq<int>,
    blk: Seq<int>,
    allowed: Set<u32>,
)
    requires
        inp.wf(),
        cursors_ok(inp.ops, cur),
        blk.len() == inp.ops.len(),
        merge_input_within(inp, allowed),
        forall|j: int| 0 <= j < acc.len() ==> allowed.contains((#[trigger] acc[j]).author),
    ensures
        forall|j: int|
            0 <= j < merge_from(acc, inp, cur, blk).len() ==> allowed.contains(
                (#[trigger] merge_from(acc, inp, cur, blk)[j]).author,
            ),
    decreases remaining(inp.ops, cur, inp.parents()),
{
    let n = inp.parents();
    let cur1 = skipped(inp.ops, cur);
    lemma_round_progress(inp.ops, cur);
    match min_head(inp.ops, cur1, n) {
        None => {
            assert(merge_from(acc, inp, cur, blk) == acc);
        },
        Some(line) => {
            let cur2 = advanced(inp.ops, cur1, line);
            let blk2 = moved(inp, cur2, blk, line);
            let ofs = ordinal_sum(n) - hit_ordinals(inp.ops, cur1, line, n);
            let author = addition_author(inp, blk2, ofs);
            if 1 <= ofs <= n {
                let k = ofs - 1;
                if inp.trees[k] is Some && 0 <= blk2[k] < inp.trees[k].unwrap().len() {
                    assert(allowed.contains(inp.trees[k].unwrap()[blk2[k]].author_id));
                    assert(author == inp.trees[k].unwrap()[blk2[k]].author_id);
                } else {
                    assert(allowed.contains(inp.authors[k]));
                    assert(author == inp.authors[k]);
                }
            } else {
                assert(author == inp.merger);
            }
            assert(allowed.contains(author));
            let next = acc.push(Addition { author, line });
            assert forall|j: int| 0 <= j < next.len() implies allowed.contains(
                (#[trigger] next[j]).author,
            ) by {
                if j < acc.len() {
                    assert(next[j] == acc[j]);
                }
            }
            lemma_remaining_nonneg(inp.ops, cur2, n);
            lemma_merge_from_within(next, inp, cur2, blk2, allowed);
            assert(merge_from(acc, inp, cur, blk) == merge_from(next, inp, cur2, blk2));
        },
    }
}

/// Without edits there are no additions.
pub proof fn lemma_merge_nothing(inp: MergeInput)
    requires
        forall|k: int| 0 <= k < inp.ops.len() ==> (#[trigger] inp.ops[k]).len() == 0,
    ensures
        merged_additions(inp) == Seq::<Addition>::empty(),
{
    let zero = Seq::new(inp.ops.len(), |k: int| 0int);
    let cur1 = skipped(inp.ops, zero);
    lemma_no_heads(inp.ops, cur1, inp.parents());
}

/// Parents without edits insert no line.
pub proof fn lemma_no_heads(ops: Seq<Seq<LinePatch>>, cur: Seq<int>, n: int)
    requires
        0 <= n <= ops.len(),
        forall|k: int| 0 <= k < ops.len() ==> (#[trigger] ops[k]).len() == 0,
    ensures
        min_head(ops, cur, n) is None,
    decreases n,
{
    if n > 0 {
        lemma_no_heads(ops, cur, n - 1);
        assert(ops[n - 1].len() == 0);
    }
}

} // verus!
