//! Pure register arithmetic of the GPIO pins: which function-select word a
//! pin lives in, and how its three-bit function field and its level bit are
//! read and written. The volatile register accesses themselves live outside
//! the library.

use vstd::prelude::*;

verus! {

/// Base of the GPIO register block.
pub const GPIO_BASE: u32 = 0x20200000;

/// Number of GPIO pins.
pub const GPIO_PIN_COUNT: u32 = 54;

/// Index of the function-select register that holds `pin`'s field: ten
/// pins per register.
pub fn fsel_index(pin: u32) -> (r: u32)
    requires
        pin < GPIO_PIN_COUNT,
    ensures
        r == pin / 10,
{
    pin / 10
}

/// Bit position of `pin`'s three-bit function field within its
/// function-select register.
pub fn fsel_shift(pin: u32) -> (r: u32)
    requires
        pin < GPIO_PIN_COUNT,
    ensures
        r == (pin % 10) * 3,
{
    (pin % 10) * 3
}

/// The function-select word after setting `pin`'s field to `function`:
/// the old three bits are cleared and the new function is written in their
/// place.
pub open spec fn spec_fsel_update(current: u32, pin: u32, function: u32) -> u32 {
    (current & !(0b111u32 << ((pin % 10) * 3))) | (function << ((pin % 10) * 3))
}

/// Compute the new function-select word for `pin`.
pub fn fsel_update(current: u32, pin: u32, function: u32) -> (r: u32)
    requires
        pin < GPIO_PIN_COUNT,
        function < 8,
    ensures
        r == spec_fsel_update(current, pin, function),
        ({
            let shift = (pin % 10) * 3;
            (r >> shift) & 0b111 == function
        }),
{
    let shift = (pin % 10) * 3;
    let cleared = current & !(0b111u32 << shift);
    let r = cleared | (function << shift);
    proof {
        let p = pin;
        assert(((current & !(0b111u32 << ((p % 10) * 3))) | (function << ((p % 10) * 3))) >> ((p
            % 10) * 3) & 0b111 == function) by (bit_vector)
            requires
                p < 54 && function < 8,
        ;
    }
    r
}

/// The function currently selected for `pin` in its function-select word.
pub fn fsel_read(current: u32, pin: u32) -> (r: u32)
    requires
        pin < GPIO_PIN_COUNT,
    ensures
        r == (current >> ((pin % 10) * 3)) & 0b111,
        r < 8,
{
    let shift = (pin % 10) * 3;
    let r = (current >> shift) & 0b111;
    proof {
        assert((current >> shift) & 0b111 < 8) by (bit_vector);
    }
    r
}

/// The single-bit mask used to set, clear or read `pin` in a 32-pin
/// level/set/clear register.
pub fn pin_mask(pin: u32) -> (r: u32)
    requires
        pin < GPIO_PIN_COUNT,
    ensures
        r == 1u32 << (pin % 32),
{
    1u32 << (pin % 32)
}

/// The level of `pin` in its level register: zero or one.
pub fn pin_level(lev: u32, pin: u32) -> (r: u32)
    requires
        pin < GPIO_PIN_COUNT,
    ensures
        r == (lev >> (pin % 32)) & 1,
        r < 2,
{
    let shift = pin % 32;
    let r = (lev >> shift) & 1;
    proof {
        assert((lev >> shift) & 1 < 2) by (bit_vector);
    }
    r
}

} // verus!
