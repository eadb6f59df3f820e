//! Laws of the allocator, proved over the transition functions that the
//! executable operations are specified against.

use vstd::prelude::*;

use crate::model::{
    block_off, coalesce, fits, first_fit, has_fit, is_payload_ptr, lemma_block_off_agree,
    lemma_first_fit_at,
    lemma_block_off_merge, lemma_block_off_push, lemma_block_off_split, lemma_block_off_update,
    lemma_coalesce_props, lemma_first_fit_spec, lemma_round_up8, lemma_round_up8_exact,
    payload_addr, ptr_block_index, round_up8, span, spec_allocate, spec_deallocate, st_wf,
    AbsState, Block, HDR,
};

verus! {

/// Partition invariant: in a well-formed state the blocks tile the heap
/// exactly — the sum of header size plus payload size over all blocks
/// equals `heap_end - heap_start`.
pub proof fn lemma_partition(st: AbsState)
    requires
        st_wf(st),
    ensures
        span(st.blocks) == st.heap_end - st.heap_start,
{
}

/// Allocation preserves the partition invariant, keeps the heap base and
/// the margin, and never moves the frontier backward.
pub proof fn lemma_allocate_preserves_partition(st: AbsState, n: int, sp: int)
    requires
        st_wf(st),
        n >= 0,
        sp <= usize::MAX,
    ensures
        st_wf(spec_allocate(st, n, sp).0),
        spec_allocate(st, n, sp).0.heap_start == st.heap_start,
        spec_allocate(st, n, sp).0.margin == st.margin,
        spec_allocate(st, n, sp).0.heap_end >= st.heap_end,
{
    let n8 = round_up8(n);
    lemma_round_up8(n);
    if has_fit(st.blocks, n8) {
        lemma_first_fit_spec(st.blocks, n8);
        let i = first_fit(st.blocks, n8);
        let b1 = Block { size: n8 as nat, free: false };
        if st.blocks[i].size == n8 {
            lemma_block_off_update(st.blocks, i, b1);
        } else {
            let b2 = Block { size: (st.blocks[i].size - n8 - HDR) as nat, free: true };
            lemma_block_off_split(st.blocks, i, b1, b2);
            let t = st.blocks.update(i, b1).insert(i + 1, b2);
            assert(st_wf(spec_allocate(st, n, sp).0)) by {
                assert forall|j: int| 0 <= j < t.len() implies (#[trigger] t[j].size) % 8
                    == 0 by {
                    if j < i {
                        assert(t[j] == st.blocks[j]);
                    } else if j > i + 1 {
                        assert(t[j] == st.blocks[j - 1]);
                    }
                }
            }
        }
    } else if st.heap_end + HDR + n8 > sp - st.margin {
    } else {
        let b = Block { size: n8 as nat, free: false };
        lemma_block_off_push(st.blocks, b);
        let t = st.blocks.push(b);
        assert forall|j: int| 0 <= j < t.len() implies (#[trigger] t[j].size) % 8 == 0 by {
            if j < st.blocks.len() {
                assert(t[j] == st.blocks[j]);
            }
        }
    }
}

/// Deallocation preserves the partition invariant and leaves the heap
/// bounds and the margin unchanged: `heap_end` never retreats, even when
/// coalescing collapses the tail into one free block.
pub proof fn lemma_deallocate_preserves_partition(st: AbsState, ptr: int)
    requires
        st_wf(st),
        ptr == 0 || is_payload_ptr(st, ptr),
    ensures
        st_wf(spec_deallocate(st, ptr)),
        spec_deallocate(st, ptr).heap_start == st.heap_start,
        spec_deallocate(st, ptr).heap_end == st.heap_end,
        spec_deallocate(st, ptr).margin == st.margin,
{
    if ptr != 0 {
        let i = ptr_block_index(st, ptr);
        assert(0 <= i < st.blocks.len() && ptr == payload_addr(st, i) && !st.blocks[i].free);
        let b = Block { size: st.blocks[i].size, free: true };
        let s1 = st.blocks.update(i, b);
        lemma_block_off_update(st.blocks, i, b);
        assert forall|j: int| 0 <= j < s1.len() implies (#[trigger] s1[j].size) % 8 == 0 by {
            if j != i {
                assert(s1[j] == st.blocks[j]);
            }
        }
        lemma_coalesce_props(s1, i);
    }
}

/// Exact-fit reuse: freeing a block of payload size `S` and immediately
/// allocating `S` returns the identical address, provided no earlier block
/// already satisfies the request (first-fit would pick that one instead)
/// and forward coalescing did not leave the freed block exactly one header
/// larger than `S` (such a block is too small to split and is skipped).
pub proof fn lemma_exact_fit_reuse(st: AbsState, ptr: int, sp: int)
    requires
        st_wf(st),
        is_payload_ptr(st, ptr),
        ({
            let i = ptr_block_index(st, ptr);
            let s = st.blocks[i].size as int;
            &&& forall|j: int| 0 <= j < i ==> !fits(#[trigger] st.blocks[j], s)
            &&& spec_deallocate(st, ptr).blocks[i].size != st.blocks[i].size + HDR
        }),
    ensures
        ({
            let i = ptr_block_index(st, ptr);
            spec_allocate(spec_deallocate(st, ptr), st.blocks[i].size as int, sp).1 == Some(ptr)
        }),
{
    let i = ptr_block_index(st, ptr);
    assert(0 <= i < st.blocks.len() && ptr == payload_addr(st, i) && !st.blocks[i].free);
    crate::model::lemma_block_bounds(st.blocks, i);
    assert(ptr != 0);
    let s = st.blocks[i].size as int;
    lemma_round_up8_exact(s);
    let b = Block { size: st.blocks[i].size, free: true };
    let s1 = st.blocks.update(i, b);
    lemma_block_off_update(st.blocks, i, b);
    assert forall|j: int| 0 <= j < s1.len() implies (#[trigger] s1[j].size) % 8 == 0 by {
        if j != i {
            assert(s1[j] == st.blocks[j]);
        }
    }
    lemma_coalesce_props(s1, i);
    let d = spec_deallocate(st, ptr);
    assert(d.blocks == coalesce(s1, i));
    assert(fits(d.blocks[i], s));
    assert forall|j: int| 0 <= j < i implies !fits(#[trigger] d.blocks[j], s) by {
        assert(d.blocks[j] == s1[j]);
        assert(s1[j] == st.blocks[j]);
    }
    lemma_first_fit_at(d.blocks, s, i);
    assert(has_fit(d.blocks, s));
    lemma_block_off_agree(d.blocks, s1, i);
    assert(payload_addr(d, i) == ptr);
}

/// Split correctness: allocating a request that rounds to `n8` from a
/// first-fit free block of payload size `n8 + HDR + k` (`k > 0`) yields an
/// in-use block of payload `n8` immediately followed by a free block of
/// payload `k`, headers exactly adjacent, with the frontier unchanged.
pub proof fn lemma_split_correctness(st: AbsState, n: int, sp: int, k: int)
    requires
        st_wf(st),
        n >= 0,
        k > 0,
        has_fit(st.blocks, round_up8(n)),
        st.blocks[first_fit(st.blocks, round_up8(n))].size == round_up8(n) + HDR + k,
    ensures
        ({
            let i = first_fit(st.blocks, round_up8(n));
            let r = spec_allocate(st, n, sp);
            &&& r.1 == Some(payload_addr(st, i))
            &&& r.0.blocks.len() == st.blocks.len() + 1
            &&& r.0.blocks[i] == Block { size: round_up8(n) as nat, free: false }
            &&& r.0.blocks[i + 1] == Block { size: k as nat, free: true }
            &&& block_off(r.0.blocks, i + 1) == block_off(st.blocks, i) + HDR + round_up8(n)
            &&& r.0.heap_end == st.heap_end
        }),
{
    let n8 = round_up8(n);
    lemma_round_up8(n);
    lemma_first_fit_spec(st.blocks, n8);
    let i = first_fit(st.blocks, n8);
    let b1 = Block { size: n8 as nat, free: false };
    let b2 = Block { size: k as nat, free: true };
    assert(st.blocks[i].size != n8);
    lemma_block_off_split(st.blocks, i, b1, b2);
    assert(block_off(st.blocks.update(i, b1).insert(i + 1, b2), i) == block_off(st.blocks, i));
}

/// Forward coalescing: freeing a block whose successor is free merges the
/// two into one free block spanning both, at the freed block's address;
/// every other block is untouched.
pub proof fn lemma_coalesce_forward(st: AbsState, ptr: int)
    requires
        st_wf(st),
        is_payload_ptr(st, ptr),
        ({
            let i = ptr_block_index(st, ptr);
            &&& i + 1 < st.blocks.len()
            &&& st.blocks[i + 1].free
            &&& (i + 2 == st.blocks.len() || !st.blocks[i + 2].free)
        }),
    ensures
        ({
            let i = ptr_block_index(st, ptr);
            let d = spec_deallocate(st, ptr);
            &&& d.blocks.len() == st.blocks.len() - 1
            &&& d.blocks[i] == Block {
                size: (st.blocks[i].size + HDR + st.blocks[i + 1].size) as nat,
                free: true,
            }
            &&& block_off(d.blocks, i) == block_off(st.blocks, i)
            &&& forall|j: int| 0 <= j < i ==> #[trigger] d.blocks[j] == st.blocks[j]
            &&& forall|j: int|
                i < j < d.blocks.len() ==> #[trigger] d.blocks[j] == st.blocks[j + 1]
        }),
{
    let i = ptr_block_index(st, ptr);
    assert(0 <= i < st.blocks.len() && ptr == payload_addr(st, i) && !st.blocks[i].free);
    crate::model::lemma_block_bounds(st.blocks, i);
    assert(ptr != 0);
    let bf = Block { size: st.blocks[i].size, free: true };
    let s1 = st.blocks.update(i, bf);
    lemma_block_off_update(st.blocks, i, bf);
    assert(s1[i + 1] == st.blocks[i + 1]);
    let bm = Block { size: (s1[i].size + HDR + s1[i + 1].size) as nat, free: true };
    let s2 = s1.update(i, bm).remove(i + 1);
    lemma_block_off_merge(s1, i, bm);
    assert(coalesce(s1, i) == coalesce(s2, i));
    if i + 1 < s2.len() {
        assert(s2[i + 1] == s1[i + 2]);
        assert(s1[i + 2] == st.blocks[i + 2]);
        assert(!s2[i + 1].free);
    }
    assert(coalesce(s2, i) == s2);
    assert forall|j: int| 0 <= j < i implies #[trigger] spec_deallocate(st, ptr).blocks[j]
        == st.blocks[j] by {
        assert(s2[j] == s1[j]);
        assert(s1[j] == st.blocks[j]);
    }
    assert forall|j: int| i < j < s2.len() implies #[trigger] spec_deallocate(st, ptr).blocks[j]
        == st.blocks[j + 1] by {
        assert(s2[j] == s1[j + 1]);
        assert(s1[j + 1] == st.blocks[j + 1]);
    }
}

/// The asymmetry of forward-only coalescing: freeing a block whose
/// preceding neighbor is already free does not merge backward — both
/// blocks remain, adjacent and free, and the predecessor is untouched.
pub proof fn lemma_no_backward_merge(st: AbsState, ptr: int)
    requires
        st_wf(st),
        is_payload_ptr(st, ptr),
        ({
            let i = ptr_block_index(st, ptr);
            &&& i > 0
            &&& st.blocks[i - 1].free
            &&& (i + 1 == st.blocks.len() || !st.blocks[i + 1].free)
        }),
    ensures
        ({
            let i = ptr_block_index(st, ptr);
            let d = spec_deallocate(st, ptr);
            &&& d.blocks.len() == st.blocks.len()
            &&& d.blocks[i - 1] == st.blocks[i - 1]
            &&& d.blocks[i] == Block { size: st.blocks[i].size, free: true }
            &&& forall|j: int|
                0 <= j < d.blocks.len() && j != i ==> #[trigger] d.blocks[j] == st.blocks[j]
        }),
{
    let i = ptr_block_index(st, ptr);
    assert(0 <= i < st.blocks.len() && ptr == payload_addr(st, i) && !st.blocks[i].free);
    crate::model::lemma_block_bounds(st.blocks, i);
    assert(ptr != 0);
    let bf = Block { size: st.blocks[i].size, free: true };
    let s1 = st.blocks.update(i, bf);
    lemma_block_off_update(st.blocks, i, bf);
    if i + 1 < s1.len() {
        assert(s1[i + 1] == st.blocks[i + 1]);
    }
    assert(coalesce(s1, i) == s1);
}

/// Boundary enforcement: allocation fails exactly when no existing block
/// satisfies the request and extending the frontier would push `heap_end`
/// past `sp - margin`; on failure the abstract state is left unchanged.
pub proof fn lemma_boundary_enforcement(st: AbsState, n: int, sp: int)
    requires
        st_wf(st),
        n >= 0,
    ensures
        spec_allocate(st, n, sp).1 is None <==> (!has_fit(st.blocks, round_up8(n))
            && st.heap_end + HDR + round_up8(n) > sp - st.margin),
        spec_allocate(st, n, sp).1 is None ==> spec_allocate(st, n, sp).0 == st,
{
}

} // verus!
