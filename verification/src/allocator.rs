//! The allocator engine: first-fit allocation with block splitting, forward
//! coalescing on free, and frontier growth bounded by the live stack pointer
//! minus a reserved margin.
//!
//! The heap is an explicit arena: one owned byte buffer whose index `o`
//! models the address `heap_start + o`. Block headers live inside the arena
//! as eight little-endian bytes holding `payload_size + status`, where the
//! payload size is a multiple of eight and the low bit is `1` for in-use.

use vstd::bytes::{lemma_auto_spec_u64_to_from_le_bytes, spec_u64_from_le_bytes, spec_u64_to_le_bytes, u64_from_le_bytes, u64_to_le_bytes};
use vstd::prelude::*;
use vstd::slice::slice_subrange;

use crate::model::{
    alloc_upd, block_index_at, block_off, blocks_wf, coalesce, first_fit, fits, has_fit,
    in_used_payload, is_block_start, is_payload_ptr, lemma_block_bounds, lemma_block_off_merge,
    lemma_block_off_mono, lemma_block_off_push, lemma_block_off_split, lemma_block_off_update,
    lemma_first_fit_at, lemma_round_up8, payload_addr, ptr_block_index, round_up8, span,
    spec_allocate, spec_deallocate, st_wf, AbsState, Block, HDR,
};

verus! {

/// Default reserved stack margin: sixteen mebibytes.
pub const HEAP_SIZE: usize = 0x1000000;

/// A decoded block header: payload byte count and status
/// (`0` if free, `1` if in use).
pub struct Header {
    pub payload_size: usize,
    pub status: u8,
}

/// The only failure the allocator reports: extending the heap frontier would
/// collide with the reserved stack boundary.
#[derive(Debug, PartialEq, Eq, Structural)]
pub enum AllocError {
    OutOfMemory,
}

/// The allocator: the arena of heap bytes, the fixed base address, the
/// mutable frontier, the reserved stack margin, and the one-time
/// initialization flag.
pub struct Allocator {
    mem: Vec<u8>,
    heap_start: usize,
    heap_end: usize,
    margin: usize,
    init_done: bool,
    blocks: Ghost<Seq<Block>>,
}

/// The header word stored for a block: payload size plus status bit.
pub open spec fn blk_word(b: Block) -> int {
    b.size + if b.free {
        0int
    } else {
        1int
    }
}

impl Allocator {
    /// The abstract state this allocator represents.
    pub closed spec fn abs(self) -> AbsState {
        AbsState {
            heap_start: self.heap_start as int,
            heap_end: self.heap_end as int,
            margin: self.margin as int,
            blocks: self.blocks@,
        }
    }

    /// The arena bytes; index `o` models address `heap_start + o`.
    pub closed spec fn bytes(self) -> Seq<u8> {
        self.mem@
    }

    /// Whether `init` has run.
    pub closed spec fn is_init(self) -> bool {
        self.init_done
    }

    /// The allocator's invariant: the abstract state is well formed (the
    /// block chain tiles the arena exactly), the arena covers
    /// `[heap_start, heap_end)`, and each block's header bytes decode to its
    /// size and status.
    pub closed spec fn inv(self) -> bool {
        &&& st_wf(self.abs())
        &&& self.heap_start + self.mem@.len() == self.heap_end
        &&& forall|i: int|
            0 <= i < self.blocks@.len() ==> spec_u64_from_le_bytes(
                #[trigger] self.mem@.subrange(
                    block_off(self.blocks@, i),
                    block_off(self.blocks@, i) + HDR,
                ),
            ) == blk_word(self.blocks@[i])
        &&& !self.init_done ==> self.mem@.len() == 0 && self.heap_start == 0
            && self.heap_end == 0 && self.blocks@.len() == 0
    }

    /// A fresh, uninitialized allocator with the default reserved margin.
    pub fn new() -> (r: Allocator)
        ensures
            r.inv(),
            !r.is_init(),
            r.abs().margin == HEAP_SIZE,
    {
        Allocator::with_margin(HEAP_SIZE)
    }

    /// A fresh, uninitialized allocator with the given reserved stack margin
    /// in bytes.
    pub fn with_margin(margin: usize) -> (r: Allocator)
        ensures
            r.inv(),
            !r.is_init(),
            r.abs().margin == margin,
    {
        let r = Allocator {
            mem: Vec::new(),
            heap_start: 0,
            heap_end: 0,
            margin,
            init_done: false,
            blocks: Ghost(Seq::empty()),
        };
        proof {
            assert(span(r.blocks@) == 0);
        }
        r
    }

    /// One-time setup: fix the heap base and set the frontier to it. Must
    /// run before any other operation.
    pub fn init(&mut self, heap_start: usize)
        requires
            old(self).inv(),
            !old(self).is_init(),
        ensures
            final(self).inv(),
            final(self).is_init(),
            final(self).abs() == (AbsState {
                heap_start: heap_start as int,
                heap_end: heap_start as int,
                margin: old(self).abs().margin,
                blocks: Seq::<Block>::empty(),
            }),
            final(self).bytes() == Seq::<u8>::empty(),
    {
        self.heap_start = heap_start;
        self.heap_end = heap_start;
        self.init_done = true;
        proof {
            assert(self.blocks@ =~= Seq::<Block>::empty());
            assert(self.mem@ =~= Seq::<u8>::empty());
        }
    }

    /// Whether the one-time setup has run.
    pub fn initialized(&self) -> (r: bool)
        ensures
            r == self.is_init(),
    {
        self.init_done
    }

    /// The fixed heap base address.
    pub fn heap_start(&self) -> (r: usize)
        ensures
            r == self.abs().heap_start,
    {
        self.heap_start
    }

    /// The current frontier address.
    pub fn heap_end(&self) -> (r: usize)
        ensures
            r == self.abs().heap_end,
    {
        self.heap_end
    }

    /// Decode the header stored at arena offset `off`, which must be the
    /// start of a block.
    pub fn header_at(&self, off: usize) -> (h: Header)
        requires
            self.inv(),
            is_block_start(self.abs(), off as int),
        ensures
            ({
                let i = block_index_at(self.abs(), off as int);
                &&& h.payload_size == self.abs().blocks[i].size
                &&& h.status == if self.abs().blocks[i].free {
                    0u8
                } else {
                    1u8
                }
            }),
    {
        let ghost bi = block_index_at(self.abs(), off as int);
        proof {
            assert(0 <= bi < self.abs().blocks.len() && block_off(self.abs().blocks, bi)
                == off);
        }
        self.read_block(off, Ghost(bi))
    }

    /// Read the heap byte at address `addr`.
    pub fn read_byte(&self, addr: usize) -> (b: u8)
        requires
            self.inv(),
            self.abs().heap_start <= addr < self.abs().heap_end,
        ensures
            b == self.bytes()[addr - self.abs().heap_start],
    {
        let off = addr - self.heap_start;
        self.mem[off]
    }

    /// Write the heap byte at address `addr`, which must lie inside the
    /// payload of an in-use block: clients own exactly those bytes.
    pub fn write_byte(&mut self, addr: usize, val: u8)
        requires
            old(self).inv(),
            old(self).is_init(),
            in_used_payload(old(self).abs().blocks, addr - old(self).abs().heap_start),
        ensures
            final(self).inv(),
            final(self).is_init(),
            final(self).abs() == old(self).abs(),
            final(self).bytes() == old(self).bytes().update(
                addr - old(self).abs().heap_start,
                val,
            ),
    {
        let ghost st0 = self.abs();
        let ghost m0 = self.mem@;
        proof {
            let j = choose|j: int|
                0 <= j < st0.blocks.len() && !st0.blocks[j].free && block_off(st0.blocks, j)
                    + HDR <= addr - st0.heap_start < block_off(st0.blocks, j) + HDR
                    + st0.blocks[j].size;
            lemma_block_bounds(st0.blocks, j);
        }
        let off = addr - self.heap_start;
        self.mem[off] = val;
        proof {
            lemma_payload_write_wrapup(st0.blocks, m0, self.mem@, addr - st0.heap_start);
            assert(self.mem@ =~= m0.update(addr - st0.heap_start, val));
        }
    }

    /// Decode the header of block `bi`, which starts at arena offset `cur`.
    fn read_block(&self, cur: usize, Ghost(bi): Ghost<int>) -> (h: Header)
        requires
            self.inv(),
            0 <= bi < self.abs().blocks.len(),
            cur == block_off(self.abs().blocks, bi),
        ensures
            h.payload_size == self.abs().blocks[bi].size,
            h.status == if self.abs().blocks[bi].free {
                0u8
            } else {
                1u8
            },
    {
        proof {
            lemma_block_bounds(self.blocks@, bi);
        }
        let w = self.read_word(cur);
        proof {
            assert(spec_u64_from_le_bytes(
                self.mem@.subrange(
                    block_off(self.blocks@, bi),
                    block_off(self.blocks@, bi) + HDR,
                ),
            ) == blk_word(self.blocks@[bi]));
            lemma_word_decode(
                w,
                self.blocks@[bi].size as u64,
                if self.blocks@[bi].free {
                    0u64
                } else {
                    1u64
                },
            );
        }
        let status = (w & 1) as u8;
        let payload_size = (w & 0xFFFF_FFFF_FFFF_FFF8) as usize;
        Header { payload_size, status }
    }

    /// Take the free block `bi` (at offset `cur`, payload size exactly
    /// `nb`) for the request: flip it to in-use and return its payload
    /// address.
    fn take_exact(&mut self, cur: usize, nb: usize, Ghost(bi): Ghost<int>) -> (p: usize)
        requires
            old(self).inv(),
            old(self).is_init(),
            0 <= bi < old(self).abs().blocks.len(),
            cur == block_off(old(self).abs().blocks, bi),
            old(self).abs().blocks[bi].free,
            old(self).abs().blocks[bi].size == nb,
            nb % 8 == 0,
            forall|j: int| 0 <= j < bi ==> !fits(#[trigger] old(self).abs().blocks[j], nb as int),
        ensures
            final(self).inv(),
            final(self).is_init(),
            has_fit(old(self).abs().blocks, nb as int),
            first_fit(old(self).abs().blocks, nb as int) == bi,
            final(self).abs() == (AbsState {
                blocks: alloc_upd(old(self).abs().blocks, nb as int),
                ..old(self).abs()
            }),
            p == payload_addr(old(self).abs(), bi),
            forall|o: int|
                in_used_payload(old(self).abs().blocks, o) ==> final(self).bytes()[o] == old(
                    self,
                ).bytes()[o],
    {
        let ghost st0 = self.abs();
        let ghost m0 = self.mem@;
        proof {
            lemma_block_bounds(st0.blocks, bi);
        }
        self.write_header(cur, nb, true);
        proof {
            lemma_exact_wrapup(st0.blocks, m0, self.mem@, bi, nb as int);
            self.blocks@ = st0.blocks.update(bi, Block { size: nb as nat, free: false });
        }
        self.heap_start + cur + HDR
    }

    /// Split the free block `bi` (at offset `cur`, payload size
    /// `nb + HDR + rem`): shrink it to `nb`, flip it to in-use, write a
    /// fresh free header of payload size `rem` right after the shrunk
    /// payload, and return the payload address.
    fn take_split(&mut self, cur: usize, nb: usize, rem: usize, Ghost(bi): Ghost<int>) -> (p:
        usize)
        requires
            old(self).inv(),
            old(self).is_init(),
            0 <= bi < old(self).abs().blocks.len(),
            cur == block_off(old(self).abs().blocks, bi),
            old(self).abs().blocks[bi].free,
            old(self).abs().blocks[bi].size == nb + HDR + rem,
            nb % 8 == 0,
            rem % 8 == 0,
            rem > 0,
            forall|j: int| 0 <= j < bi ==> !fits(#[trigger] old(self).abs().blocks[j], nb as int),
        ensures
            final(self).inv(),
            final(self).is_init(),
            has_fit(old(self).abs().blocks, nb as int),
            first_fit(old(self).abs().blocks, nb as int) == bi,
            final(self).abs() == (AbsState {
                blocks: alloc_upd(old(self).abs().blocks, nb as int),
                ..old(self).abs()
            }),
            p == payload_addr(old(self).abs(), bi),
            forall|o: int|
                in_used_payload(old(self).abs().blocks, o) ==> final(self).bytes()[o] == old(
                    self,
                ).bytes()[o],
    {
        let ghost st0 = self.abs();
        let ghost m0 = self.mem@;
        proof {
            lemma_block_bounds(st0.blocks, bi);
        }
        self.write_header(cur, nb, true);
        let ghost m1 = self.mem@;
        self.write_header(cur + HDR + nb, rem, false);
        proof {
            lemma_subrange_eq(m1, self.mem@, cur as int, cur + HDR);
            lemma_split_wrapup(st0.blocks, m0, self.mem@, bi, nb as int, rem as int);
            self.blocks@ = st0.blocks.update(bi, Block { size: nb as nat, free: false }).insert(
                bi + 1,
                Block { size: rem as nat, free: true },
            );
            assert(alloc_upd(st0.blocks, nb as int) == self.blocks@);
        }
        self.heap_start + cur + HDR
    }

    /// Serve a request of `n` bytes, given the live stack pointer `sp`.
    ///
    /// The request is rounded up to a multiple of eight, the chain is
    /// scanned in address order for the first free block that matches
    /// exactly or can be split, and failing that the frontier is extended —
    /// unless that would push `heap_end` past `sp` minus the reserved
    /// margin, the only failure. On success the returned address is the
    /// payload of the chosen block, one header past its start.
    #[verifier::rlimit(60)]
    pub fn allocate(&mut self, n: usize, sp: usize) -> (r: Result<usize, AllocError>)
        requires
            old(self).inv(),
            old(self).is_init(),
        ensures
            final(self).inv(),
            final(self).is_init(),
            final(self).abs() == spec_allocate(old(self).abs(), n as int, sp as int).0,
            (match r {
                Ok(p) => Some(p as int),
                Err(_) => None::<int>,
            }) == spec_allocate(old(self).abs(), n as int, sp as int).1,
            r is Err ==> final(self).bytes() == old(self).bytes(),
            forall|o: int|
                in_used_payload(old(self).abs().blocks, o) ==> final(self).bytes()[o] == old(
                    self,
                ).bytes()[o],
    {
        let ghost st0 = self.abs();
        let ghost m0 = self.mem@;
        proof {
            lemma_round_up8(n as int);
        }
        let ghost n8 = round_up8(n as int);
        // A request so large that even rounding overflows the machine can
        // never be served: no block can hold it and no frontier can reach it.
        if n > usize::MAX - 7 {
            proof {
                assert forall|i: int| 0 <= i < st0.blocks.len() implies !fits(
                    #[trigger] st0.blocks[i],
                    n8,
                ) by {
                    lemma_block_bounds(st0.blocks, i);
                }
                assert(!has_fit(st0.blocks, n8));
            }
            return Err(AllocError::OutOfMemory);
        }
        let nb = ((n + 7) / 8) * 8;
        // First-fit scan of the chain in address order.
        let mut cur: usize = 0;
        let ghost mut bi: int = 0;
        while cur < self.mem.len()
            invariant
                self.inv(),
                self.is_init(),
                self.abs() == st0,
                self.mem@ == m0,
                st0 == old(self).abs(),
                m0 == old(self).bytes(),
                nb == n8,
                n8 == round_up8(n as int),
                n8 % 8 == 0,
                0 <= bi <= st0.blocks.len(),
                cur == block_off(st0.blocks, bi),
                forall|j: int| 0 <= j < bi ==> !fits(#[trigger] st0.blocks[j], n8),
            decreases self.mem@.len() - cur,
        {
            proof {
                if bi == st0.blocks.len() {
                    assert(cur == span(st0.blocks));
                    assert(false);
                }
                lemma_block_bounds(st0.blocks, bi);
            }
            let ghost b = st0.blocks[bi];
            let h = self.read_block(cur, Ghost(bi));
            let su = h.payload_size;
            if h.status == 0 && su == nb {
                // Exact match: flip the block to in-use.
                let p = self.take_exact(cur, nb, Ghost(bi));
                proof {
                    assert(self.abs() == spec_allocate(st0, n as int, sp as int).0);
                    assert(Some(p as int) == spec_allocate(st0, n as int, sp as int).1);
                }
                return Ok(p);
            } else if h.status == 0 && su > nb && su - nb > HDR {
                // Splittable match: shrink to the request, flip to in-use,
                // and describe the remainder with a fresh free header.
                let p = self.take_split(cur, nb, su - nb - HDR, Ghost(bi));
                proof {
                    assert(self.abs() == spec_allocate(st0, n as int, sp as int).0);
                    assert(Some(p as int) == spec_allocate(st0, n as int, sp as int).1);
                }
                return Ok(p);
            }
            proof {
                assert(!fits(b, n8));
                assert(block_off(st0.blocks, bi + 1) == cur + HDR + b.size);
                bi = bi + 1;
            }
            cur = cur + HDR + su;
        }
        // No block in the chain satisfies the request: extend the frontier,
        // unless that would collide with the reserved stack boundary.
        proof {
            if bi < st0.blocks.len() {
                lemma_block_bounds(st0.blocks, bi);
                assert(false);
            }
            assert(!has_fit(st0.blocks, n8)) by {
                if has_fit(st0.blocks, n8) {
                    let j = choose|j: int|
                        0 <= j < st0.blocks.len() && fits(#[trigger] st0.blocks[j], n8);
                    assert(!fits(st0.blocks[j], n8));
                }
            }
        }
        if sp < self.margin {
            return Err(AllocError::OutOfMemory);
        }
        let ceiling = sp - self.margin;
        if self.heap_end > ceiling {
            return Err(AllocError::OutOfMemory);
        }
        let avail = ceiling - self.heap_end;
        if avail < HDR || nb > avail - HDR {
            return Err(AllocError::OutOfMemory);
        }
        let old_len = self.mem.len();
        let total = HDR + nb;
        let mut k: usize = 0;
        while k < total
            invariant
                k <= total,
                total == HDR + nb,
                old_len == m0.len(),
                self.mem@.len() == old_len + k,
                forall|j: int| 0 <= j < old_len ==> self.mem@[j] == m0[j],
                forall|j: int| old_len <= j < old_len + k ==> self.mem@[j] == 0,
                self.heap_start == old(self).heap_start,
                self.heap_end == old(self).heap_end,
                self.margin == old(self).margin,
                self.init_done == old(self).init_done,
                self.blocks@ == st0.blocks,
            decreases total - k,
        {
            self.mem.push(0);
            k = k + 1;
        }
        self.write_header(old_len, nb, true);
        let r = self.heap_end + HDR;
        self.heap_end = self.heap_end + total;
        proof {
            lemma_frontier_wrapup(st0.blocks, m0, self.mem@, n8);
            self.blocks@ = st0.blocks.push(Block { size: n8 as nat, free: false });
            assert(self.abs() == spec_allocate(st0, n as int, sp as int).0);
        }
        Ok(r)
    }

    /// Free the block whose payload starts at `ptr`, then coalesce forward:
    /// while the next adjacent block exists and is free, absorb its header
    /// and payload into the freed block. The scan never looks backward at
    /// the block preceding the one just freed. A null pointer is an
    /// accepted no-op.
    ///
    /// The allocator trusts the header it finds before `ptr` and validates
    /// nothing at run time: freeing an address that is not the payload of
    /// an in-use block, double-freeing included, is excluded by contract.
    pub fn deallocate(&mut self, ptr: usize)
        requires
            old(self).inv(),
            old(self).is_init(),
            ptr == 0 || is_payload_ptr(old(self).abs(), ptr as int),
        ensures
            final(self).inv(),
            final(self).is_init(),
            final(self).abs() == spec_deallocate(old(self).abs(), ptr as int),
            final(self).bytes().len() == old(self).bytes().len(),
            forall|o: int|
                0 <= o < old(self).bytes().len() && !(ptr - old(self).abs().heap_start - HDR <= o
                    < ptr - old(self).abs().heap_start) ==> final(self).bytes()[o] == old(
                    self,
                ).bytes()[o],
    {
        if ptr == 0 {
            return ;
        }
        let ghost st0 = self.abs();
        let ghost m0 = self.mem@;
        let ghost bi = ptr_block_index(st0, ptr as int);
        proof {
            assert(0 <= bi < st0.blocks.len() && ptr == payload_addr(st0, bi)
                && !st0.blocks[bi].free);
            lemma_block_bounds(st0.blocks, bi);
        }
        let off = ptr - self.heap_start - HDR;
        let h = self.read_block(off, Ghost(bi));
        let mut size = h.payload_size;
        self.write_header(off, size, false);
        proof {
            lemma_flip_free_wrapup(st0.blocks, m0, self.mem@, bi);
            self.blocks@ = st0.blocks.update(
                bi,
                Block { size: st0.blocks[bi].size, free: true },
            );
        }
        let mut next = off + HDR + size;
        let mut more = next < self.mem.len();
        proof {
            assert(block_off(self.blocks@, bi + 1) == next);
            if !more {
                lemma_no_next(self.blocks@, bi, next as int);
            }
        }
        while more
            invariant
                self.inv(),
                self.is_init(),
                st0 == old(self).abs(),
                m0 == old(self).bytes(),
                0 <= bi < self.blocks@.len(),
                self.abs().heap_start == st0.heap_start,
                self.abs().heap_end == st0.heap_end,
                self.abs().margin == st0.margin,
                self.mem@.len() == m0.len(),
                off == block_off(self.blocks@, bi),
                off == ptr - st0.heap_start - HDR,
                self.blocks@[bi].free,
                size == self.blocks@[bi].size,
                next == off + HDR + size,
                coalesce(self.blocks@, bi) == spec_deallocate(st0, ptr as int).blocks,
                more ==> next < self.mem@.len(),
                !more ==> coalesce(self.blocks@, bi) == self.blocks@,
                forall|o: int|
                    0 <= o < m0.len() && !(off <= o < off + HDR) ==> self.mem@[o] == m0[o],
            decreases self.blocks@.len() as int + if more {
                1int
            } else {
                0int
            },
        {
            let ghost sc = self.blocks@;
            proof {
                assert(block_off(sc, bi + 1) == next);
                if bi + 1 == sc.len() {
                    assert(next == span(sc));
                    assert(false);
                }
                lemma_block_bounds(sc, bi + 1);
            }
            let nh = self.read_block(next, Ghost(bi + 1));
            if nh.status != 0 {
                more = false;
            } else {
                let ghost mc = self.mem@;
                let new_size = size + HDR + nh.payload_size;
                self.write_header(off, new_size, false);
                proof {
                    lemma_merge_wrapup(sc, mc, self.mem@, bi);
                    self.blocks@ = sc.update(
                        bi,
                        Block { size: (sc[bi].size + HDR + sc[bi + 1].size) as nat, free: true },
                    ).remove(bi + 1);
                    assert(coalesce(self.blocks@, bi) == coalesce(sc, bi));
                }
                size = new_size;
                next = next + HDR + nh.payload_size;
                more = next < self.mem.len();
                proof {
                    assert(block_off(self.blocks@, bi + 1) == next);
                    if !more {
                        lemma_no_next(self.blocks@, bi, next as int);
                    }
                }
            }
        }
        proof {
            assert(self.abs() == spec_deallocate(st0, ptr as int));
        }
    }

    /// Read the raw header word stored at arena offset `off`.
    fn read_word(&self, off: usize) -> (w: u64)
        requires
            off + 8 <= self.mem@.len(),
        ensures
            w == spec_u64_from_le_bytes(self.mem@.subrange(off as int, off as int + 8)),
    {
        let n = self.mem.len();
        let s = slice_subrange(self.mem.as_slice(), off, off + 8);
        u64_from_le_bytes(s)
    }

    /// Store the raw word `w` at arena offset `off`, leaving every other
    /// byte and every other field unchanged.
    fn write_word(&mut self, off: usize, w: u64)
        requires
            off + 8 <= old(self).mem@.len(),
        ensures
            final(self).mem@.len() == old(self).mem@.len(),
            final(self).mem@.subrange(off as int, off as int + 8) == spec_u64_to_le_bytes(w),
            forall|k: int|
                0 <= k < old(self).mem@.len() && !(off <= k < off + 8) ==> final(self).mem@[k]
                    == old(self).mem@[k],
            final(self).heap_start == old(self).heap_start,
            final(self).heap_end == old(self).heap_end,
            final(self).margin == old(self).margin,
            final(self).init_done == old(self).init_done,
            final(self).blocks@ == old(self).blocks@,
    {
        let bs = u64_to_le_bytes(w);
        proof {
            lemma_auto_spec_u64_to_from_le_bytes();
        }
        let n = self.mem.len();
        let mut k: usize = 0;
        while k < 8
            invariant
                k <= 8,
                off + 8 <= self.mem@.len(),
                self.mem@.len() == n,
                bs@ == spec_u64_to_le_bytes(w),
                bs@.len() == 8,
                self.mem@.len() == old(self).mem@.len(),
                forall|j: int| 0 <= j < k ==> self.mem@[off + j] == bs@[j],
                forall|j: int|
                    0 <= j < old(self).mem@.len() && !(off <= j < off + k) ==> self.mem@[j] == old(
                        self,
                    ).mem@[j],
                self.heap_start == old(self).heap_start,
                self.heap_end == old(self).heap_end,
                self.margin == old(self).margin,
                self.init_done == old(self).init_done,
                self.blocks@ == old(self).blocks@,
            decreases 8 - k,
        {
            let b = bs[k];
            self.mem[off + k] = b;
            k = k + 1;
        }
        proof {
            assert(final(self).mem@.subrange(off as int, off as int + 8) =~= bs@);
        }
    }

    /// Write the header of a block of payload size `size` (a multiple of
    /// eight) with the given status at arena offset `off`.
    fn write_header(&mut self, off: usize, size: usize, in_use: bool)
        requires
            off + 8 <= old(self).mem@.len(),
            size % 8 == 0,
        ensures
            final(self).mem@.len() == old(self).mem@.len(),
            spec_u64_from_le_bytes(final(self).mem@.subrange(off as int, off as int + 8)) == size
                + if in_use {
                1int
            } else {
                0int
            },
            forall|k: int|
                0 <= k < old(self).mem@.len() && !(off <= k < off + 8) ==> final(self).mem@[k]
                    == old(self).mem@[k],
            final(self).heap_start == old(self).heap_start,
            final(self).heap_end == old(self).heap_end,
            final(self).margin == old(self).margin,
            final(self).init_done == old(self).init_done,
            final(self).blocks@ == old(self).blocks@,
    {
        let s64: u64 = size as u64;
        proof {
            assert(s64 <= 0xFFFF_FFFF_FFFF_FFF8u64) by (bit_vector)
                requires
                    s64 % 8 == 0,
            ;
        }
        let w: u64 = s64 + if in_use {
            1
        } else {
            0
        };
        self.write_word(off, w);
        proof {
            lemma_auto_spec_u64_to_from_le_bytes();
        }
    }
}

/// The low bit of a header word carries the status; the rest is the payload
/// size, whose low three bits are always zero.
proof fn lemma_word_decode(w: u64, s: u64, t: u64)
    requires
        s % 8 == 0,
        t < 2,
        w == s + t,
    ensures
        w & 1 == t,
        w & 0xFFFF_FFFF_FFFF_FFF8 == s,
{
    assert(w & 1 == t && w & 0xFFFF_FFFF_FFFF_FFF8 == s) by (bit_vector)
        requires
            s % 8 == 0 && t < 2 && w == s + t,
    ;
}

/// Two byte arrays that agree on a range have equal subranges there.
proof fn lemma_subrange_eq(m1: Seq<u8>, m2: Seq<u8>, a: int, b: int)
    requires
        0 <= a <= b <= m1.len(),
        b <= m2.len(),
        forall|k: int| a <= k < b ==> m1[k] == m2[k],
    ensures
        m1.subrange(a, b) == m2.subrange(a, b),
{
    assert(m1.subrange(a, b) =~= m2.subrange(a, b));
}

/// After an exact-fit allocation at block `bi` — its header rewritten as
/// in-use, every other byte untouched — the first-fit choice is `bi`, the
/// new chain stays well formed, every header still decodes, and no in-use
/// payload byte has changed.
proof fn lemma_exact_wrapup(s: Seq<Block>, m0: Seq<u8>, m2: Seq<u8>, bi: int, n8: int)
    requires
        blocks_wf(s),
        span(s) == m0.len(),
        m2.len() == m0.len(),
        0 <= bi < s.len(),
        s[bi].free,
        s[bi].size == n8,
        n8 % 8 == 0,
        forall|j: int| 0 <= j < bi ==> !fits(#[trigger] s[j], n8),
        forall|i: int|
            0 <= i < s.len() ==> spec_u64_from_le_bytes(
                #[trigger] m0.subrange(block_off(s, i), block_off(s, i) + HDR),
            ) == blk_word(s[i]),
        spec_u64_from_le_bytes(m2.subrange(block_off(s, bi), block_off(s, bi) + HDR)) == n8 + 1,
        forall|k: int|
            0 <= k < m0.len() && !(block_off(s, bi) <= k < block_off(s, bi) + HDR) ==> m2[k]
                == m0[k],
    ensures
        has_fit(s, n8),
        first_fit(s, n8) == bi,
        ({
            let t = alloc_upd(s, n8);
            &&& t == s.update(bi, Block { size: n8 as nat, free: false })
            &&& span(t) == span(s)
            &&& blocks_wf(t)
            &&& forall|i: int|
                0 <= i < t.len() ==> spec_u64_from_le_bytes(
                    #[trigger] m2.subrange(block_off(t, i), block_off(t, i) + HDR),
                ) == blk_word(t[i])
        }),
        forall|o: int| in_used_payload(s, o) ==> m2[o] == m0[o],
{
    assert(fits(s[bi], n8));
    lemma_first_fit_at(s, n8, bi);
    let nb = Block { size: n8 as nat, free: false };
    let t = s.update(bi, nb);
    lemma_block_off_update(s, bi, nb);
    assert(alloc_upd(s, n8) == t);
    assert(blocks_wf(t)) by {
        assert forall|i: int| 0 <= i < t.len() implies (#[trigger] t[i].size) % 8 == 0 by {
            if i != bi {
                assert(t[i] == s[i]);
            }
        }
    }
    assert forall|i: int| 0 <= i < t.len() implies spec_u64_from_le_bytes(
        #[trigger] m2.subrange(block_off(t, i), block_off(t, i) + HDR),
    ) == blk_word(t[i]) by {
        assert(block_off(t, i) == block_off(s, i));
        lemma_block_bounds(s, bi);
        if i != bi {
            lemma_block_bounds(s, i);
            if i < bi {
                assert(block_off(s, i + 1) == block_off(s, i) + HDR + s[i].size);
                lemma_block_off_mono(s, i + 1, bi);
            } else {
                assert(block_off(s, bi + 1) == block_off(s, bi) + HDR + s[bi].size);
                lemma_block_off_mono(s, bi + 1, i);
            }
            lemma_subrange_eq(m0, m2, block_off(s, i), block_off(s, i) + HDR);
            assert(spec_u64_from_le_bytes(
                m0.subrange(block_off(s, i), block_off(s, i) + HDR),
            ) == blk_word(s[i]));
        }
    }
    assert forall|o: int| in_used_payload(s, o) implies m2[o] == m0[o] by {
        let j = choose|j: int|
            0 <= j < s.len() && !s[j].free && block_off(s, j) + HDR <= o < block_off(s, j) + HDR
                + s[j].size;
        lemma_block_bounds(s, j);
        lemma_block_bounds(s, bi);
        if j < bi {
            assert(block_off(s, j + 1) == block_off(s, j) + HDR + s[j].size);
            lemma_block_off_mono(s, j + 1, bi);
        } else {
            assert(j != bi);
            assert(block_off(s, bi + 1) == block_off(s, bi) + HDR + s[bi].size);
            lemma_block_off_mono(s, bi + 1, j);
        }
    }
}

/// After a split allocation at block `bi` — its header rewritten as an
/// in-use block of size `n8`, a fresh free header of size `rem` written
/// right after that payload, every other byte untouched — the first-fit
/// choice is `bi`, the new chain stays well formed, every header decodes,
/// and no in-use payload byte has changed.
proof fn lemma_split_wrapup(s: Seq<Block>, m0: Seq<u8>, m2: Seq<u8>, bi: int, n8: int, rem: int)
    requires
        blocks_wf(s),
        span(s) == m0.len(),
        m2.len() == m0.len(),
        0 <= bi < s.len(),
        s[bi].free,
        s[bi].size == n8 + HDR + rem,
        n8 % 8 == 0,
        rem % 8 == 0,
        rem > 0,
        n8 >= 0,
        forall|j: int| 0 <= j < bi ==> !fits(#[trigger] s[j], n8),
        forall|i: int|
            0 <= i < s.len() ==> spec_u64_from_le_bytes(
                #[trigger] m0.subrange(block_off(s, i), block_off(s, i) + HDR),
            ) == blk_word(s[i]),
        spec_u64_from_le_bytes(m2.subrange(block_off(s, bi), block_off(s, bi) + HDR)) == n8 + 1,
        spec_u64_from_le_bytes(
            m2.subrange(
                block_off(s, bi) + HDR + n8,
                block_off(s, bi) + HDR + n8 + HDR,
            ),
        ) == rem,
        forall|k: int|
            0 <= k < m0.len() && !(block_off(s, bi) <= k < block_off(s, bi) + HDR) && !(block_off(
                s,
                bi,
            ) + HDR + n8 <= k < block_off(s, bi) + HDR + n8 + HDR) ==> m2[k] == m0[k],
    ensures
        has_fit(s, n8),
        first_fit(s, n8) == bi,
        ({
            let t = alloc_upd(s, n8);
            &&& t == s.update(bi, Block { size: n8 as nat, free: false }).insert(
                bi + 1,
                Block { size: rem as nat, free: true },
            )
            &&& span(t) == span(s)
            &&& blocks_wf(t)
            &&& forall|i: int|
                0 <= i < t.len() ==> spec_u64_from_le_bytes(
                    #[trigger] m2.subrange(block_off(t, i), block_off(t, i) + HDR),
                ) == blk_word(t[i])
        }),
        forall|o: int| in_used_payload(s, o) ==> m2[o] == m0[o],
{
    assert(fits(s[bi], n8));
    lemma_first_fit_at(s, n8, bi);
    let b1 = Block { size: n8 as nat, free: false };
    let b2 = Block { size: rem as nat, free: true };
    let t = s.update(bi, b1).insert(bi + 1, b2);
    lemma_block_off_split(s, bi, b1, b2);
    assert(alloc_upd(s, n8) =~= t);
    let off = block_off(s, bi);
    lemma_block_bounds(s, bi);
    assert(block_off(s, bi + 1) == off + HDR + s[bi].size);
    assert(blocks_wf(t)) by {
        assert forall|i: int| 0 <= i < t.len() implies (#[trigger] t[i].size) % 8 == 0 by {
            if i < bi {
                assert(t[i] == s[i]);
            } else if i > bi + 1 {
                assert(t[i] == s[i - 1]);
            }
        }
    }
    assert forall|i: int| 0 <= i < t.len() implies spec_u64_from_le_bytes(
        #[trigger] m2.subrange(block_off(t, i), block_off(t, i) + HDR),
    ) == blk_word(t[i]) by {
        if i < bi {
            assert(block_off(t, i) == block_off(s, i));
            assert(t[i] == s[i]);
            lemma_block_bounds(s, i);
            assert(block_off(s, i + 1) == block_off(s, i) + HDR + s[i].size);
            lemma_block_off_mono(s, i + 1, bi);
            lemma_subrange_eq(m0, m2, block_off(s, i), block_off(s, i) + HDR);
            assert(spec_u64_from_le_bytes(
                m0.subrange(block_off(s, i), block_off(s, i) + HDR),
            ) == blk_word(s[i]));
        } else if i == bi {
            assert(block_off(t, i) == off);
            assert(t[i] == b1);
        } else if i == bi + 1 {
            assert(block_off(t, i) == off + HDR + n8);
            assert(t[i] == b2);
        } else {
            let oi = i - 1;
            assert(block_off(t, oi + 1) == block_off(s, oi));
            assert(t[i] == s[oi]);
            lemma_block_bounds(s, oi);
            lemma_block_off_mono(s, bi + 1, oi);
            lemma_subrange_eq(m0, m2, block_off(s, oi), block_off(s, oi) + HDR);
            assert(spec_u64_from_le_bytes(
                m0.subrange(block_off(s, oi), block_off(s, oi) + HDR),
            ) == blk_word(s[oi]));
        }
    }
    assert forall|o: int| in_used_payload(s, o) implies m2[o] == m0[o] by {
        let j = choose|j: int|
            0 <= j < s.len() && !s[j].free && block_off(s, j) + HDR <= o < block_off(s, j) + HDR
                + s[j].size;
        lemma_block_bounds(s, j);
        if j < bi {
            assert(block_off(s, j + 1) == block_off(s, j) + HDR + s[j].size);
            lemma_block_off_mono(s, j + 1, bi);
        } else {
            assert(j != bi);
            lemma_block_off_mono(s, bi + 1, j);
        }
    }
}

/// After flipping block `bi`'s header to free — its size kept, every other
/// byte untouched — the chain stays well formed and every header decodes.
proof fn lemma_flip_free_wrapup(s: Seq<Block>, m0: Seq<u8>, m2: Seq<u8>, bi: int)
    requires
        blocks_wf(s),
        span(s) == m0.len(),
        m2.len() == m0.len(),
        0 <= bi < s.len(),
        forall|i: int|
            0 <= i < s.len() ==> spec_u64_from_le_bytes(
                #[trigger] m0.subrange(block_off(s, i), block_off(s, i) + HDR),
            ) == blk_word(s[i]),
        spec_u64_from_le_bytes(m2.subrange(block_off(s, bi), block_off(s, bi) + HDR)) == s[bi].size,
        forall|k: int|
            0 <= k < m0.len() && !(block_off(s, bi) <= k < block_off(s, bi) + HDR) ==> m2[k]
                == m0[k],
    ensures
        ({
            let t = s.update(bi, Block { size: s[bi].size, free: true });
            &&& span(t) == span(s)
            &&& blocks_wf(t)
            &&& block_off(t, bi) == block_off(s, bi)
            &&& forall|i: int|
                0 <= i < t.len() ==> spec_u64_from_le_bytes(
                    #[trigger] m2.subrange(block_off(t, i), block_off(t, i) + HDR),
                ) == blk_word(t[i])
        }),
{
    let nb = Block { size: s[bi].size, free: true };
    let t = s.update(bi, nb);
    lemma_block_off_update(s, bi, nb);
    assert(blocks_wf(t)) by {
        assert forall|i: int| 0 <= i < t.len() implies (#[trigger] t[i].size) % 8 == 0 by {
            if i != bi {
                assert(t[i] == s[i]);
            }
        }
    }
    assert forall|i: int| 0 <= i < t.len() implies spec_u64_from_le_bytes(
        #[trigger] m2.subrange(block_off(t, i), block_off(t, i) + HDR),
    ) == blk_word(t[i]) by {
        assert(block_off(t, i) == block_off(s, i));
        lemma_block_bounds(s, bi);
        if i != bi {
            lemma_block_bounds(s, i);
            if i < bi {
                assert(block_off(s, i + 1) == block_off(s, i) + HDR + s[i].size);
                lemma_block_off_mono(s, i + 1, bi);
            } else {
                assert(block_off(s, bi + 1) == block_off(s, bi) + HDR + s[bi].size);
                lemma_block_off_mono(s, bi + 1, i);
            }
            lemma_subrange_eq(m0, m2, block_off(s, i), block_off(s, i) + HDR);
            assert(spec_u64_from_le_bytes(
                m0.subrange(block_off(s, i), block_off(s, i) + HDR),
            ) == blk_word(s[i]));
        }
    }
}

/// After absorbing block `bi + 1` into the free block `bi` — the freed
/// block's header rewritten with the grown size, every other byte untouched
/// — the shortened chain stays well formed and every header decodes.
proof fn lemma_merge_wrapup(s: Seq<Block>, m0: Seq<u8>, m2: Seq<u8>, bi: int)
    requires
        blocks_wf(s),
        span(s) == m0.len(),
        m2.len() == m0.len(),
        0 <= bi,
        bi + 1 < s.len(),
        s[bi].free,
        forall|i: int|
            0 <= i < s.len() ==> spec_u64_from_le_bytes(
                #[trigger] m0.subrange(block_off(s, i), block_off(s, i) + HDR),
            ) == blk_word(s[i]),
        spec_u64_from_le_bytes(m2.subrange(block_off(s, bi), block_off(s, bi) + HDR)) == s[bi].size
            + HDR + s[bi + 1].size,
        forall|k: int|
            0 <= k < m0.len() && !(block_off(s, bi) <= k < block_off(s, bi) + HDR) ==> m2[k]
                == m0[k],
    ensures
        ({
            let t = s.update(
                bi,
                Block { size: (s[bi].size + HDR + s[bi + 1].size) as nat, free: true },
            ).remove(bi + 1);
            &&& t.len() == s.len() - 1
            &&& span(t) == span(s)
            &&& blocks_wf(t)
            &&& block_off(t, bi) == block_off(s, bi)
            &&& forall|i: int|
                0 <= i < t.len() ==> spec_u64_from_le_bytes(
                    #[trigger] m2.subrange(block_off(t, i), block_off(t, i) + HDR),
                ) == blk_word(t[i])
        }),
{
    let nb = Block { size: (s[bi].size + HDR + s[bi + 1].size) as nat, free: true };
    let t = s.update(bi, nb).remove(bi + 1);
    lemma_block_off_merge(s, bi, nb);
    assert(blocks_wf(t)) by {
        assert forall|i: int| 0 <= i < t.len() implies (#[trigger] t[i].size) % 8 == 0 by {
            if i < bi {
                assert(t[i] == s[i]);
            } else if i > bi {
                assert(t[i] == s[i + 1]);
            }
        }
    }
    lemma_block_bounds(s, bi);
    lemma_block_bounds(s, bi + 1);
    assert forall|i: int| 0 <= i < t.len() implies spec_u64_from_le_bytes(
        #[trigger] m2.subrange(block_off(t, i), block_off(t, i) + HDR),
    ) == blk_word(t[i]) by {
        if i < bi {
            assert(block_off(t, i) == block_off(s, i));
            assert(t[i] == s[i]);
            lemma_block_bounds(s, i);
            assert(block_off(s, i + 1) == block_off(s, i) + HDR + s[i].size);
            lemma_block_off_mono(s, i + 1, bi);
            lemma_subrange_eq(m0, m2, block_off(s, i), block_off(s, i) + HDR);
            assert(spec_u64_from_le_bytes(
                m0.subrange(block_off(s, i), block_off(s, i) + HDR),
            ) == blk_word(s[i]));
        } else if i == bi {
            assert(block_off(t, i) == block_off(s, bi));
            assert(t[i] == nb);
        } else {
            assert(block_off(t, i) == block_off(s, i + 1));
            assert(t[i] == s[i + 1]);
            lemma_block_bounds(s, i + 1);
            assert(block_off(s, bi + 1) == block_off(s, bi) + HDR + s[bi].size);
            lemma_block_off_mono(s, bi + 1, i + 1);
            lemma_subrange_eq(m0, m2, block_off(s, i + 1), block_off(s, i + 1) + HDR);
            assert(spec_u64_from_le_bytes(
                m0.subrange(block_off(s, i + 1), block_off(s, i + 1) + HDR),
            ) == blk_word(s[i + 1]));
        }
    }
}

/// A write to one byte of an in-use payload touches no block header, so
/// every header still decodes.
proof fn lemma_payload_write_wrapup(s: Seq<Block>, m0: Seq<u8>, m2: Seq<u8>, o: int)
    requires
        span(s) == m0.len(),
        m2.len() == m0.len(),
        in_used_payload(s, o),
        forall|i: int|
            0 <= i < s.len() ==> spec_u64_from_le_bytes(
                #[trigger] m0.subrange(block_off(s, i), block_off(s, i) + HDR),
            ) == blk_word(s[i]),
        forall|k: int| 0 <= k < m0.len() && k != o ==> m2[k] == m0[k],
    ensures
        forall|i: int|
            0 <= i < s.len() ==> spec_u64_from_le_bytes(
                #[trigger] m2.subrange(block_off(s, i), block_off(s, i) + HDR),
            ) == blk_word(s[i]),
{
    let j = choose|j: int|
        0 <= j < s.len() && !s[j].free && block_off(s, j) + HDR <= o < block_off(s, j) + HDR
            + s[j].size;
    lemma_block_bounds(s, j);
    assert forall|i: int| 0 <= i < s.len() implies spec_u64_from_le_bytes(
        #[trigger] m2.subrange(block_off(s, i), block_off(s, i) + HDR),
    ) == blk_word(s[i]) by {
        lemma_block_bounds(s, i);
        if i < j {
            assert(block_off(s, i + 1) == block_off(s, i) + HDR + s[i].size);
            lemma_block_off_mono(s, i + 1, j);
        } else if i > j {
            assert(block_off(s, j + 1) == block_off(s, j) + HDR + s[j].size);
            lemma_block_off_mono(s, j + 1, i);
        }
        lemma_subrange_eq(m0, m2, block_off(s, i), block_off(s, i) + HDR);
        assert(spec_u64_from_le_bytes(
            m0.subrange(block_off(s, i), block_off(s, i) + HDR),
        ) == blk_word(s[i]));
    }
}

/// A block whose end reaches the chain's span is the last block, so there
/// is nothing ahead to coalesce with.
proof fn lemma_no_next(s: Seq<Block>, bi: int, next: int)
    requires
        0 <= bi < s.len(),
        next == block_off(s, bi + 1),
        next >= span(s),
    ensures
        coalesce(s, bi) == s,
{
    if bi + 1 < s.len() {
        lemma_block_bounds(s, bi + 1);
        assert(false);
    }
}

/// After a frontier extension — the arena grown by one header plus `n8`
/// zero bytes, the new header written as in-use, the old bytes untouched —
/// the grown chain stays well formed, every header decodes, and no old
/// payload byte has changed.
proof fn lemma_frontier_wrapup(s: Seq<Block>, m0: Seq<u8>, m2: Seq<u8>, n8: int)
    requires
        blocks_wf(s),
        span(s) == m0.len(),
        m2.len() == m0.len() + HDR + n8,
        n8 >= 0,
        n8 % 8 == 0,
        forall|k: int| 0 <= k < m0.len() ==> m2[k] == m0[k],
        spec_u64_from_le_bytes(m2.subrange(m0.len() as int, m0.len() + HDR)) == n8 + 1,
        forall|i: int|
            0 <= i < s.len() ==> spec_u64_from_le_bytes(
                #[trigger] m0.subrange(block_off(s, i), block_off(s, i) + HDR),
            ) == blk_word(s[i]),
    ensures
        ({
            let t = s.push(Block { size: n8 as nat, free: false });
            &&& span(t) == span(s) + HDR + n8
            &&& blocks_wf(t)
            &&& forall|i: int|
                0 <= i < t.len() ==> spec_u64_from_le_bytes(
                    #[trigger] m2.subrange(block_off(t, i), block_off(t, i) + HDR),
                ) == blk_word(t[i])
        }),
        forall|o: int| in_used_payload(s, o) ==> m2[o] == m0[o],
{
    let nb = Block { size: n8 as nat, free: false };
    let t = s.push(nb);
    lemma_block_off_push(s, nb);
    assert(blocks_wf(t)) by {
        assert forall|i: int| 0 <= i < t.len() implies (#[trigger] t[i].size) % 8 == 0 by {
            if i < s.len() {
                assert(t[i] == s[i]);
            }
        }
    }
    assert forall|i: int| 0 <= i < t.len() implies spec_u64_from_le_bytes(
        #[trigger] m2.subrange(block_off(t, i), block_off(t, i) + HDR),
    ) == blk_word(t[i]) by {
        if i < s.len() {
            assert(block_off(t, i) == block_off(s, i));
            assert(t[i] == s[i]);
            lemma_block_bounds(s, i);
            lemma_subrange_eq(m0, m2, block_off(s, i), block_off(s, i) + HDR);
            assert(spec_u64_from_le_bytes(
                m0.subrange(block_off(s, i), block_off(s, i) + HDR),
            ) == blk_word(s[i]));
        } else {
            assert(i == s.len());
            assert(block_off(t, i) == span(s));
            assert(t[i] == nb);
        }
    }
    assert forall|o: int| in_used_payload(s, o) implies m2[o] == m0[o] by {
        let j = choose|j: int|
            0 <= j < s.len() && !s[j].free && block_off(s, j) + HDR <= o < block_off(s, j) + HDR
                + s[j].size;
        lemma_block_bounds(s, j);
    }
}

} // verus!
