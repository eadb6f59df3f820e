//! Decision logic of the mailbox channel to the co-processor: which
//! requests are well formed, what word goes on the wire, and how a received
//! word is matched and decoded. The volatile register reads and writes
//! around these decisions live outside the library.

use vstd::prelude::*;

verus! {

/// Base of the mailbox register block.
pub const MAILBOX_BASE: u32 = 0x2000B880;

/// Status bit: the mailbox cannot accept another word.
pub const MAILBOX_FULL: u32 = 0x80000000;

/// Status bit: the mailbox has nothing to read.
pub const MAILBOX_EMPTY: u32 = 0x40000000;

/// Number of mailbox channels.
pub const MAILBOX_MAXCHANNEL: u32 = 16;

/// Address alias that bypasses the co-processor's cache.
pub const GPU_NOCACHE: u32 = 0x40000000;

/// The framebuffer configuration channel.
pub const MAILBOX_FRAMEBUFFER: u32 = 1;

/// The word written to the mailbox for a request: the buffer address with
/// the no-cache alias set and the channel in the low four bits. A request
/// is well formed only for a channel below the maximum and a sixteen-byte
/// aligned address.
pub open spec fn spec_write_word(channel: u32, addr: u32) -> Option<u32> {
    if channel >= MAILBOX_MAXCHANNEL || (addr & 0xF) != 0 {
        None
    } else {
        Some((addr | GPU_NOCACHE) | channel)
    }
}

/// Validate and encode a mailbox write: `None` exactly when the channel or
/// the address alignment is rejected.
pub fn write_word(channel: u32, addr: u32) -> (r: Option<u32>)
    ensures
        r == spec_write_word(channel, addr),
{
    if channel >= MAILBOX_MAXCHANNEL {
        return None;
    }
    if (addr & 0xF) != 0 {
        return None;
    }
    Some((addr | GPU_NOCACHE) | channel)
}

/// A received word matches `channel` when its low four bits equal the
/// channel; the payload is the remaining high bits.
pub open spec fn spec_read_decode(data: u32, channel: u32) -> Option<u32> {
    if data & 0xF == channel {
        Some(data >> 4)
    } else {
        None
    }
}

/// Match and decode one word read from the mailbox: `Some` with the
/// payload exactly when the word belongs to `channel`.
pub fn read_decode(data: u32, channel: u32) -> (r: Option<u32>)
    ensures
        r == spec_read_decode(data, channel),
{
    if data & 0xF == channel {
        Some(data >> 4)
    } else {
        None
    }
}

/// Whether a whole request succeeds: the write must be accepted, and the
/// word that eventually arrives for the channel must carry a zero payload.
pub open spec fn spec_request_ok(channel: u32, addr: u32, response: u32) -> bool {
    spec_write_word(channel, addr) is Some && response >> 4 == 0
}

/// Decide a mailbox request, given the data word that the mailbox returned
/// for this channel: true exactly when the request was well formed and the
/// response payload is zero.
pub fn mailbox_request(channel: u32, addr: u32, response: u32) -> (r: bool)
    ensures
        r == spec_request_ok(channel, addr, response),
{
    match write_word(channel, addr) {
        None => false,
        Some(_) => response >> 4 == 0,
    }
}

} // verus!
