//! The framebuffer configuration state machine: the fields handed to the
//! co-processor, double-buffer page flipping, and pixel addressing. The
//! mailbox transaction that submits the configuration, and the writes into
//! framebuffer memory, live outside the library.

use vstd::prelude::*;

verus! {

/// Single-buffered mode: the virtual screen equals the visible screen.
pub const FB_SINGLEBUFFER: u32 = 0;

/// Double-buffered mode: the virtual screen is two visible screens tall
/// and `y_offset` selects the page being shown.
pub const FB_DOUBLEBUFFER: u32 = 1;

/// The framebuffer configuration: the ten words exchanged with the
/// co-processor, plus the buffering mode chosen at initialization.
/// `pitch`, `framebuffer` and `total_bytes` are filled in from the
/// co-processor's reply.
pub struct FbConfigT {
    pub width: u32,
    pub height: u32,
    pub virtual_width: u32,
    pub virtual_height: u32,
    pub pitch: u32,
    pub bit_depth: u32,
    pub x_offset: u32,
    pub y_offset: u32,
    pub framebuffer: u32,
    pub total_bytes: u32,
    pub bufmode: u32,
}

/// Build the configuration that `fb_init` submits: the virtual screen is
/// doubled in height for double buffering, the depth is converted from
/// bytes to bits, and the words the co-processor fills in start at zero.
pub fn fb_init(width: u32, height: u32, depth_in_bytes: u32, mode: u32) -> (r: FbConfigT)
    requires
        2 * height <= u32::MAX,
        8 * depth_in_bytes <= u32::MAX,
    ensures
        r.width == width,
        r.height == height,
        r.virtual_width == width,
        r.virtual_height == if mode == FB_SINGLEBUFFER {
            height as int
        } else {
            2 * height
        },
        r.bit_depth == 8 * depth_in_bytes,
        r.x_offset == 0,
        r.y_offset == 0,
        r.pitch == 0,
        r.framebuffer == 0,
        r.total_bytes == 0,
        r.bufmode == mode,
{
    FbConfigT {
        width,
        height,
        virtual_width: width,
        virtual_height: if mode == FB_SINGLEBUFFER {
            height
        } else {
            2 * height
        },
        bit_depth: 8 * depth_in_bytes,
        x_offset: 0,
        y_offset: 0,
        pitch: 0,
        framebuffer: 0,
        total_bytes: 0,
        bufmode: mode,
    }
}

impl FbConfigT {
    /// Flip to the other page in double-buffered mode: `y_offset` toggles
    /// between zero and `height`. Returns whether a new configuration must
    /// be submitted to the co-processor (single-buffered mode has nothing
    /// to flip).
    pub fn fb_swap_buffer(&mut self) -> (submit: bool)
        requires
            old(self).bufmode == FB_SINGLEBUFFER || old(self).height > 0,
            old(self).y_offset + old(self).height <= u32::MAX,
            2 * old(self).height <= u32::MAX,
        ensures
            submit == (old(self).bufmode != FB_SINGLEBUFFER),
            final(self).y_offset == if old(self).bufmode == FB_SINGLEBUFFER {
                old(self).y_offset
            } else {
                ((old(self).y_offset + old(self).height) as u32) % ((2 * old(self).height) as u32)
            },
            final(self).width == old(self).width,
            final(self).height == old(self).height,
            final(self).virtual_width == old(self).virtual_width,
            final(self).virtual_height == old(self).virtual_height,
            final(self).pitch == old(self).pitch,
            final(self).bit_depth == old(self).bit_depth,
            final(self).x_offset == old(self).x_offset,
            final(self).framebuffer == old(self).framebuffer,
            final(self).total_bytes == old(self).total_bytes,
            final(self).bufmode == old(self).bufmode,
    {
        if self.bufmode == FB_SINGLEBUFFER {
            return false;
        }
        self.y_offset = (self.y_offset + self.height) % (2 * self.height);
        true
    }

    /// Address of the page currently being drawn into: the framebuffer
    /// base, offset by the hidden page's rows in double-buffered mode.
    pub fn fb_get_draw_buffer(&self) -> (r: u32)
        requires
            self.bufmode != FB_SINGLEBUFFER ==> self.framebuffer + self.y_offset * self.pitch
                <= u32::MAX,
        ensures
            r == if self.bufmode == FB_SINGLEBUFFER {
                self.framebuffer
            } else {
                (self.framebuffer + self.y_offset * self.pitch) as u32
            },
    {
        if self.bufmode == FB_SINGLEBUFFER {
            return self.framebuffer;
        }
        self.framebuffer + self.y_offset * self.pitch
    }

    /// Visible width in pixels.
    pub fn fb_get_width(&self) -> (r: u32)
        ensures
            r == self.width,
    {
        self.width
    }

    /// Visible height in pixels.
    pub fn fb_get_height(&self) -> (r: u32)
        ensures
            r == self.height,
    {
        self.height
    }

    /// Pixel depth in bytes.
    pub fn fb_get_depth(&self) -> (r: u32)
        ensures
            r == self.bit_depth / 8,
    {
        self.bit_depth / 8
    }

    /// Bytes per row, as reported by the co-processor.
    pub fn fb_get_pitch(&self) -> (r: u32)
        ensures
            r == self.pitch,
    {
        self.pitch
    }
}

/// Byte index of pixel `(x, y)` in the draw buffer: `Some` exactly when
/// the pixel lies on the visible screen.
pub fn pixel_index(x: u32, y: u32, width: u32, height: u32, depth: u32, pitch: u32) -> (r: Option<
    u32,
>)
    requires
        depth * x + y * pitch <= u32::MAX,
    ensures
        r == if x < width && y < height {
            Some((depth * x + y * pitch) as u32)
        } else {
            None::<u32>
        },
{
    if x < width && y < height {
        Some(depth * x + y * pitch)
    } else {
        None
    }
}

} // verus!
