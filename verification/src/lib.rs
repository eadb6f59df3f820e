//! Heap allocator for a freestanding single-core kernel, together with the
//! pure decision logic of the peripheral drivers that surround it.
//!
//! The allocator owns an explicit byte arena that models the heap address
//! range `[heap_start, heap_end)`. Block headers are stored inside the arena
//! at their offsets, and every read or write of a header goes through
//! bounds-checked offset arithmetic. The chain of headers always tiles the
//! arena exactly: no gaps, no overlaps.

pub mod allocator;
pub mod fb;
pub mod gpio;
pub mod invaders;
pub mod keyboard;
pub mod laws;
pub mod mailbox;
pub mod model;
pub mod uart;
