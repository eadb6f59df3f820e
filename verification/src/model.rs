//! Mathematical model of the heap: a sequence of blocks, each a fixed-size
//! header followed by a payload whose size is a multiple of eight bytes.
//! The executable allocator's contracts are stated against the transition
//! functions defined here.

use vstd::prelude::*;

verus! {

/// Size in bytes of a block header as stored in the arena.
pub const HDR: usize = 8;

/// One block of the heap: a payload size (a multiple of eight) and a status.
pub ghost struct Block {
    pub size: nat,
    pub free: bool,
}

/// Abstract state of the allocator: the fixed base address, the current
/// frontier, the reserved stack margin, and the chain of blocks.
pub ghost struct AbsState {
    pub heap_start: int,
    pub heap_end: int,
    pub margin: int,
    pub blocks: Seq<Block>,
}

/// `n` rounded up to the next multiple of eight.
pub open spec fn round_up8(n: int) -> int {
    ((n + 7) / 8) * 8
}

/// Offset of block `i` from `heap_start`: headers tile the arena, so each
/// block begins exactly where the previous one ends.
pub open spec fn block_off(s: Seq<Block>, i: int) -> int
    decreases i,
{
    if i <= 0 {
        0
    } else {
        block_off(s, i - 1) + HDR + s[i - 1].size
    }
}

/// Total extent of the chain: the sum of header size plus payload size over
/// all blocks.
pub open spec fn span(s: Seq<Block>) -> int {
    block_off(s, s.len() as int)
}

/// Every payload size is a multiple of eight.
pub open spec fn blocks_wf(s: Seq<Block>) -> bool {
    forall|i: int| 0 <= i < s.len() ==> (#[trigger] s[i].size) % 8 == 0
}

/// Well-formed abstract state: the chain tiles `[heap_start, heap_end)`
/// exactly (the partition invariant), and addresses fit the machine.
pub open spec fn st_wf(st: AbsState) -> bool {
    &&& 0 <= st.heap_start <= st.heap_end <= usize::MAX
    &&& 0 <= st.margin <= usize::MAX
    &&& span(st.blocks) == st.heap_end - st.heap_start
    &&& blocks_wf(st.blocks)
}

/// A free block satisfies a request of rounded size `n8` if it matches
/// exactly or has room for the request plus a fresh header.
pub open spec fn fits(b: Block, n8: int) -> bool {
    b.free && (b.size == n8 || b.size > n8 + HDR)
}

pub open spec fn has_fit(s: Seq<Block>, n8: int) -> bool {
    exists|i: int| 0 <= i < s.len() && fits(s[i], n8)
}

/// Index of the first block, in address order, that satisfies the request.
pub open spec fn first_fit(s: Seq<Block>, n8: int) -> int
    decreases s.len(),
{
    if s.len() == 0 {
        0
    } else if fits(s[0], n8) {
        0
    } else {
        1 + first_fit(s.drop_first(), n8)
    }
}

/// The chain after serving a request of rounded size `n8` from the first
/// fitting block: an exact match flips to in-use; a larger block is split
/// into an in-use block of size `n8` and a free remainder.
pub open spec fn alloc_upd(s: Seq<Block>, n8: int) -> Seq<Block> {
    let i = first_fit(s, n8);
    if s[i].size == n8 {
        s.update(i, Block { size: n8 as nat, free: false })
    } else {
        s.update(i, Block { size: n8 as nat, free: false }).insert(
            i + 1,
            Block { size: (s[i].size - n8 - HDR) as nat, free: true },
        )
    }
}

/// Address of block `i`'s payload.
pub open spec fn payload_addr(st: AbsState, i: int) -> int {
    st.heap_start + block_off(st.blocks, i) + HDR
}

/// The allocation transition. Returns the new state and the payload address,
/// or `None` exactly when no block fits and extending the frontier would
/// push `heap_end` past `sp - margin`.
pub open spec fn spec_allocate(st: AbsState, n: int, sp: int) -> (AbsState, Option<int>) {
    let n8 = round_up8(n);
    if has_fit(st.blocks, n8) {
        (
            AbsState { blocks: alloc_upd(st.blocks, n8), ..st },
            Some(payload_addr(st, first_fit(st.blocks, n8))),
        )
    } else if st.heap_end + HDR + n8 > sp - st.margin {
        (st, None)
    } else {
        (
            AbsState {
                heap_end: st.heap_end + HDR + n8,
                blocks: st.blocks.push(Block { size: n8 as nat, free: false }),
                ..st
            },
            Some(st.heap_end + HDR),
        )
    }
}

/// Forward coalescing: while the block after `i` exists and is free, absorb
/// its header and payload into block `i`. The scan never looks backward.
pub open spec fn coalesce(s: Seq<Block>, i: int) -> Seq<Block>
    decreases s.len(),
{
    if 0 <= i && i + 1 < s.len() && s[i + 1].free {
        coalesce(
            s.update(i, Block { size: (s[i].size + HDR + s[i + 1].size) as nat, free: s[i].free })
                .remove(i + 1),
            i,
        )
    } else {
        s
    }
}

/// `ptr` is the payload address of an in-use block.
pub open spec fn is_payload_ptr(st: AbsState, ptr: int) -> bool {
    exists|i: int|
        0 <= i < st.blocks.len() && ptr == payload_addr(st, i) && !st.blocks[i].free
}

/// The index of the block whose payload `ptr` points to.
pub open spec fn ptr_block_index(st: AbsState, ptr: int) -> int {
    choose|i: int|
        0 <= i < st.blocks.len() && ptr == payload_addr(st, i) && !st.blocks[i].free
}

/// The deallocation transition: a null pointer is a no-op; otherwise the
/// block is flipped to free and coalesced forward.
pub open spec fn spec_deallocate(st: AbsState, ptr: int) -> AbsState {
    if ptr == 0 {
        st
    } else {
        let i = ptr_block_index(st, ptr);
        AbsState {
            blocks: coalesce(
                st.blocks.update(i, Block { size: st.blocks[i].size, free: true }),
                i,
            ),
            ..st
        }
    }
}

/// Offset `o` lies inside the payload of an in-use block.
pub open spec fn in_used_payload(s: Seq<Block>, o: int) -> bool {
    exists|i: int|
        0 <= i < s.len() && !s[i].free && block_off(s, i) + HDR <= o < block_off(s, i) + HDR
            + s[i].size
}

/// Arena offset `off` is the start of some block.
pub open spec fn is_block_start(st: AbsState, off: int) -> bool {
    exists|i: int| 0 <= i < st.blocks.len() && block_off(st.blocks, i) == off
}

/// The index of the block that starts at arena offset `off`.
pub open spec fn block_index_at(st: AbsState, off: int) -> int {
    choose|i: int| 0 <= i < st.blocks.len() && block_off(st.blocks, i) == off
}

/// Rounding to a multiple of eight lands on a multiple of eight, within
/// eight bytes above the request.
pub proof fn lemma_round_up8(n: int)
    requires
        n >= 0,
    ensures
        round_up8(n) % 8 == 0,
        n <= round_up8(n) < n + 8,
{
    let q = (n + 7) / 8;
    assert(q * 8 % 8 == 0) by (nonlinear_arith);
    assert(8 * q <= n + 7 < 8 * (q + 1)) by (nonlinear_arith)
        requires
            q == (n + 7) / 8 && n >= 0,
    ;
}

/// A request that is already a multiple of eight rounds to itself.
pub proof fn lemma_round_up8_exact(n: int)
    requires
        n >= 0,
        n % 8 == 0,
    ensures
        round_up8(n) == n,
{
    let q = n / 8;
    assert(n == 8 * q) by (nonlinear_arith)
        requires
            n % 8 == 0 && q == n / 8 && n >= 0,
    ;
    assert((8 * q + 7) / 8 == q) by (nonlinear_arith);
    assert(q * 8 == n) by (nonlinear_arith)
        requires
            n == 8 * q,
    ;
}

/// Block offsets grow by at least a header size per block.
pub proof fn lemma_block_off_mono(s: Seq<Block>, i: int, j: int)
    requires
        0 <= i <= j,
    ensures
        block_off(s, i) + HDR * (j - i) <= block_off(s, j),
    decreases j - i,
{
    if j > i {
        lemma_block_off_mono(s, i, j - 1);
    }
}

/// Every block lies within the chain's span.
pub proof fn lemma_block_bounds(s: Seq<Block>, i: int)
    requires
        0 <= i < s.len(),
    ensures
        0 <= block_off(s, i),
        block_off(s, i) + HDR + s[i].size <= span(s),
    decreases s.len(),
{
    lemma_block_off_mono(s, 0, i);
    lemma_block_off_mono(s, i + 1, s.len() as int);
}

/// Block offsets depend only on the sizes of the blocks before them.
pub proof fn lemma_block_off_agree(s1: Seq<Block>, s2: Seq<Block>, i: int)
    requires
        0 <= i,
        forall|k: int| 0 <= k < i ==> s1[k].size == s2[k].size,
    ensures
        block_off(s1, i) == block_off(s2, i),
    decreases i,
{
    if i > 0 {
        lemma_block_off_agree(s1, s2, i - 1);
    }
}

/// If two chains agree on a run of sizes starting at aligned offsets, their
/// offsets agree along the whole run.
pub proof fn lemma_block_off_run(s: Seq<Block>, t: Seq<Block>, a: int, b: int, n: int)
    requires
        0 <= n,
        0 <= a,
        0 <= b,
        block_off(t, a) == block_off(s, b),
        forall|k: int| 0 <= k < n ==> (#[trigger] t[a + k]).size == s[b + k].size,
    ensures
        block_off(t, a + n) == block_off(s, b + n),
    decreases n,
{
    if n > 0 {
        lemma_block_off_run(s, t, a, b, n - 1);
        assert(t[a + (n - 1)].size == s[b + (n - 1)].size);
        assert(block_off(t, a + n) == block_off(t, a + n - 1) + HDR + t[a + n - 1].size);
        assert(block_off(s, b + n) == block_off(s, b + n - 1) + HDR + s[b + n - 1].size);
    }
}

/// Replacing a block by one of the same size moves no offset.
pub proof fn lemma_block_off_update(s: Seq<Block>, i: int, b: Block)
    requires
        0 <= i < s.len(),
        b.size == s[i].size,
    ensures
        forall|j: int| 0 <= j <= s.len() ==> block_off(#[trigger] s.update(i, b), j) == block_off(s, j),
        span(s.update(i, b)) == span(s),
{
    let t = s.update(i, b);
    assert forall|j: int| 0 <= j <= s.len() implies block_off(t, j) == block_off(s, j) by {
        lemma_block_off_agree(s, t, j);
    }
}

/// Splitting block `i` into two blocks that together cover exactly its old
/// extent keeps every other block at its offset and preserves the span.
pub proof fn lemma_block_off_split(s: Seq<Block>, i: int, b1: Block, b2: Block)
    requires
        0 <= i < s.len(),
        b1.size + HDR + b2.size == s[i].size,
    ensures
        ({
            let t = s.update(i, b1).insert(i + 1, b2);
            &&& t.len() == s.len() + 1
            &&& forall|j: int| 0 <= j <= i ==> #[trigger] block_off(t, j) == block_off(s, j)
            &&& block_off(t, i + 1) == block_off(s, i) + HDR + b1.size
            &&& forall|j: int|
                i + 1 <= j <= s.len() ==> #[trigger] block_off(t, j + 1) == block_off(s, j)
            &&& span(t) == span(s)
        }),
{
    let t = s.update(i, b1).insert(i + 1, b2);
    assert forall|j: int| 0 <= j <= i implies #[trigger] block_off(t, j) == block_off(s, j) by {
        lemma_block_off_agree(s, t, j);
    }
    assert(t[i] == b1);
    assert(block_off(t, i + 1) == block_off(t, i) + HDR + b1.size);
    assert(t[i + 1] == b2);
    assert(block_off(t, i + 2) == block_off(s, i + 1));
    assert forall|j: int| i + 1 <= j <= s.len() implies #[trigger] block_off(t, j + 1) == block_off(
        s,
        j,
    ) by {
        assert forall|k: int| 0 <= k < j - (i + 1) implies (#[trigger] t[i + 2 + k]).size == s[i + 1 + k].size by {
            assert(t[i + 2 + k] == s[i + 1 + k]);
        }
        lemma_block_off_run(s, t, i + 2, i + 1, j - (i + 1));
    }
    assert(block_off(t, s.len() as int + 1) == block_off(s, s.len() as int));
}

/// Absorbing block `i + 1` into block `i` keeps every remaining block at its
/// offset and preserves the span.
pub proof fn lemma_block_off_merge(s: Seq<Block>, i: int, b: Block)
    requires
        0 <= i,
        i + 1 < s.len(),
        b.size == s[i].size + HDR + s[i + 1].size,
    ensures
        ({
            let t = s.update(i, b).remove(i + 1);
            &&& t.len() == s.len() - 1
            &&& forall|j: int| 0 <= j <= i ==> #[trigger] block_off(t, j) == block_off(s, j)
            &&& forall|j: int|
                i + 1 <= j < s.len() ==> #[trigger] block_off(t, j) == block_off(s, j + 1)
            &&& span(t) == span(s)
        }),
{
    let t = s.update(i, b).remove(i + 1);
    assert forall|j: int| 0 <= j <= i implies #[trigger] block_off(t, j) == block_off(s, j) by {
        lemma_block_off_agree(s, t, j);
    }
    assert(t[i] == b);
    assert(block_off(t, i + 1) == block_off(t, i) + HDR + b.size);
    assert(block_off(s, i + 2) == block_off(s, i + 1) + HDR + s[i + 1].size);
    assert(block_off(t, i + 1) == block_off(s, i + 2));
    assert forall|j: int| i + 1 <= j < s.len() implies #[trigger] block_off(t, j) == block_off(
        s,
        j + 1,
    ) by {
        assert forall|k: int| 0 <= k < j - (i + 1) implies (#[trigger] t[i + 1 + k]).size == s[i + 2 + k].size by {
            assert(t[i + 1 + k] == s[i + 2 + k]);
        }
        lemma_block_off_run(s, t, i + 1, i + 2, j - (i + 1));
    }
    assert(block_off(t, s.len() as int - 1) == block_off(s, s.len() as int));
}

/// Appending a block extends the span by a header plus the new payload.
pub proof fn lemma_block_off_push(s: Seq<Block>, b: Block)
    ensures
        forall|j: int| 0 <= j <= s.len() ==> #[trigger] block_off(s.push(b), j) == block_off(s, j),
        span(s.push(b)) == span(s) + HDR + b.size,
{
    let t = s.push(b);
    assert forall|j: int| 0 <= j <= s.len() implies #[trigger] block_off(t, j) == block_off(s, j) by {
        lemma_block_off_agree(s, t, j);
    }
    assert(t[s.len() as int] == b);
    assert(block_off(t, s.len() as int + 1) == block_off(t, s.len() as int) + HDR + b.size);
}

/// `first_fit` really is the least index that satisfies the request.
pub proof fn lemma_first_fit_spec(s: Seq<Block>, n8: int)
    requires
        has_fit(s, n8),
    ensures
        ({
            let i = first_fit(s, n8);
            &&& 0 <= i < s.len()
            &&& fits(s[i], n8)
            &&& forall|j: int| 0 <= j < i ==> !fits(s[j], n8)
        }),
    decreases s.len(),
{
    let w = choose|i: int| 0 <= i < s.len() && fits(s[i], n8);
    if !fits(s[0], n8) {
        let d = s.drop_first();
        assert(d[w - 1] == s[w]);
        assert(has_fit(d, n8));
        lemma_first_fit_spec(d, n8);
        let fd = first_fit(d, n8);
        assert(s[1 + fd] == d[fd]);
        assert forall|j: int| 0 <= j < 1 + fd implies !fits(s[j], n8) by {
            if j > 0 {
                assert(d[j - 1] == s[j]);
            }
        }
    }
}

/// Coalescing preserves the span and everything before and at the scan's
/// block: only blocks after `i` are absorbed, each contributing its header
/// and payload to block `i`'s size.
pub proof fn lemma_coalesce_props(s: Seq<Block>, i: int)
    requires
        blocks_wf(s),
        0 <= i < s.len(),
        s[i].free,
    ensures
        ({
            let t = coalesce(s, i);
            &&& 0 <= i < t.len() <= s.len()
            &&& span(t) == span(s)
            &&& blocks_wf(t)
            &&& block_off(t, i) == block_off(s, i)
            &&& forall|j: int| 0 <= j < i ==> t[j] == s[j]
            &&& t[i].free
            &&& t[i].size >= s[i].size
            &&& (t[i].size == s[i].size || t[i].size >= s[i].size + HDR)
        }),
    decreases s.len(),
{
    if i + 1 < s.len() && s[i + 1].free {
        let nb = Block { size: (s[i].size + HDR + s[i + 1].size) as nat, free: s[i].free };
        let u = s.update(i, nb).remove(i + 1);
        lemma_block_off_merge(s, i, nb);
        assert(blocks_wf(u)) by {
            assert forall|j: int| 0 <= j < u.len() implies (#[trigger] u[j].size) % 8 == 0 by {
                if j < i {
                    assert(u[j] == s[j]);
                } else if j > i {
                    assert(u[j] == s[j + 1]);
                }
            }
        }
        lemma_coalesce_props(u, i);
        assert(coalesce(s, i) == coalesce(u, i));
        assert forall|j: int| 0 <= j < i implies coalesce(u, i)[j] == s[j] by {
            assert(u[j] == s[j]);
        }
    }
}

/// Any index that fits, with nothing fitting before it, is the first fit.
pub proof fn lemma_first_fit_at(s: Seq<Block>, n8: int, i: int)
    requires
        0 <= i < s.len(),
        fits(s[i], n8),
        forall|j: int| 0 <= j < i ==> !fits(s[j], n8),
    ensures
        first_fit(s, n8) == i,
    decreases s.len(),
{
    if i == 0 {
    } else {
        let d = s.drop_first();
        assert(d[i - 1] == s[i]);
        assert forall|j: int| 0 <= j < i - 1 implies !fits(d[j], n8) by {
            assert(d[j] == s[j + 1]);
        }
        lemma_first_fit_at(d, n8, i - 1);
    }
}

} // verus!
