//! Decision logic of the PS/2 keyboard: assembling a scancode from sampled
//! clock-edge bits, decoding extended and release sequences, filtering
//! modifier keys, and translating scancodes to characters. The clock and
//! data lines themselves are sampled outside the library; these functions
//! consume the sampled streams.

use vstd::prelude::*;

verus! {

/// The scancode sent before a released key's code.
pub const PS2_CODE_RELEASE: u32 = 0xF0;

/// The scancode sent before an extended key's code.
pub const PS2_CODE_EXTENDED: u32 = 0xE0;

/// Number of scancodes the translation table covers.
pub const PS2_KEY_TABLE_LEN: u32 = 0x84;

/// A PS/2 device: the GPIO pins its clock and data lines are wired to.
pub struct Ps2DeviceT {
    pub clock: u32,
    pub data: u32,
}

impl Ps2DeviceT {
    /// A device description for the given clock and data pins.
    pub fn new(clock_gpio: u8, data_gpio: u8) -> (r: Ps2DeviceT)
        ensures
            r.clock == clock_gpio,
            r.data == data_gpio,
    {
        Ps2DeviceT { clock: clock_gpio as u32, data: data_gpio as u32 }
    }
}

/// One decoded key action: `what` is `0` for a press and `1` for a
/// release, `keycode` the scancode of the key itself.
#[derive(Copy, Clone)]
pub struct KeyActionT {
    pub what: u32,
    pub keycode: u32,
}

/// A key event: the action together with the character the key maps to.
pub struct KeyEventT {
    pub action: KeyActionT,
    pub key: char,
}

/// The character a scancode translates to. Codes with no printable
/// meaning map to control values below `'\u{20}'` or from `'\u{90}'` up;
/// unassigned codes map to `'\u{0}'`.
pub open spec fn spec_key_for_scancode(code: u32) -> char {
    if code == 0x01 {
        '\u{9E}'
    } else if code == 0x03 {
        '\u{9A}'
    } else if code == 0x04 {
        '\u{98}'
    } else if code == 0x05 {
        '\u{96}'
    } else if code == 0x06 {
        '\u{97}'
    } else if code == 0x07 {
        '\u{A1}'
    } else if code == 0x09 {
        '\u{9F}'
    } else if code == 0x0a {
        '\u{9D}'
    } else if code == 0x0b {
        '\u{9B}'
    } else if code == 0x0c {
        '\u{99}'
    } else if code == 0x0d {
        '\t'
    } else if code == 0x0e {
        '`'
    } else if code == 0x11 {
        '\u{91}'
    } else if code == 0x12 {
        '\u{90}'
    } else if code == 0x14 {
        '\u{92}'
    } else if code == 0x15 {
        'q'
    } else if code == 0x16 {
        '1'
    } else if code == 0x1a {
        'z'
    } else if code == 0x1b {
        's'
    } else if code == 0x1c {
        'a'
    } else if code == 0x1d {
        'w'
    } else if code == 0x1e {
        '2'
    } else if code == 0x21 {
        'c'
    } else if code == 0x22 {
        'x'
    } else if code == 0x23 {
        'd'
    } else if code == 0x24 {
        'e'
    } else if code == 0x25 {
        '4'
    } else if code == 0x26 {
        '3'
    } else if code == 0x29 {
        ' '
    } else if code == 0x2a {
        'v'
    } else if code == 0x2b {
        'f'
    } else if code == 0x2c {
        't'
    } else if code == 0x2d {
        'r'
    } else if code == 0x2e {
        '5'
    } else if code == 0x31 {
        'n'
    } else if code == 0x32 {
        'b'
    } else if code == 0x33 {
        'h'
    } else if code == 0x34 {
        'g'
    } else if code == 0x35 {
        'y'
    } else if code == 0x36 {
        '6'
    } else if code == 0x3a {
        'm'
    } else if code == 0x3b {
        'j'
    } else if code == 0x3c {
        'u'
    } else if code == 0x3d {
        '7'
    } else if code == 0x3e {
        '8'
    } else if code == 0x41 {
        ','
    } else if code == 0x42 {
        'k'
    } else if code == 0x43 {
        'i'
    } else if code == 0x44 {
        'o'
    } else if code == 0x45 {
        '0'
    } else if code == 0x46 {
        '9'
    } else if code == 0x49 {
        '.'
    } else if code == 0x4a {
        '/'
    } else if code == 0x4b {
        'l'
    } else if code == 0x4c {
        ';'
    } else if code == 0x4d {
        'p'
    } else if code == 0x4e {
        '-'
    } else if code == 0x52 {
        '\''
    } else if code == 0x54 {
        '['
    } else if code == 0x55 {
        '='
    } else if code == 0x58 {
        '\u{93}'
    } else if code == 0x59 {
        '\u{90}'
    } else if code == 0x5a {
        '\n'
    } else if code == 0x5b {
        ']'
    } else if code == 0x5d {
        '\\'
    } else if code == 0x66 {
        '\u{8}'
    } else if code == 0x69 {
        '\u{A8}'
    } else if code == 0x6b {
        '\u{AC}'
    } else if code == 0x6c {
        '\u{A3}'
    } else if code == 0x70 {
        '\u{A6}'
    } else if code == 0x71 {
        '\u{A7}'
    } else if code == 0x72 {
        '\u{AB}'
    } else if code == 0x73 {
        '5'
    } else if code == 0x74 {
        '\u{AD}'
    } else if code == 0x75 {
        '\u{AA}'
    } else if code == 0x76 {
        '\u{95}'
    } else if code == 0x77 {
        '\u{A2}'
    } else if code == 0x78 {
        '\u{A0}'
    } else if code == 0x79 {
        '+'
    } else if code == 0x7a {
        '\u{A5}'
    } else if code == 0x7b {
        '-'
    } else if code == 0x7c {
        '*'
    } else if code == 0x7d {
        '\u{A4}'
    } else if code == 0x7e {
        '\u{A9}'
    } else if code == 0x83 {
        '\u{9C}'
    } else {
        '\u{0}'
    }
}

/// Translate a scancode through the key table.
pub fn key_for_scancode(code: u32) -> (r: char)
    requires
        code < PS2_KEY_TABLE_LEN,
    ensures
        r == spec_key_for_scancode(code),
{
    match code {
        0x01 => '\u{9E}',
        0x03 => '\u{9A}',
        0x04 => '\u{98}',
        0x05 => '\u{96}',
        0x06 => '\u{97}',
        0x07 => '\u{A1}',
        0x09 => '\u{9F}',
        0x0a => '\u{9D}',
        0x0b => '\u{9B}',
        0x0c => '\u{99}',
        0x0d => '\t',
        0x0e => '`',
        0x11 => '\u{91}',
        0x12 => '\u{90}',
        0x14 => '\u{92}',
        0x15 => 'q',
        0x16 => '1',
        0x1a => 'z',
        0x1b => 's',
        0x1c => 'a',
        0x1d => 'w',
        0x1e => '2',
        0x21 => 'c',
        0x22 => 'x',
        0x23 => 'd',
        0x24 => 'e',
        0x25 => '4',
        0x26 => '3',
        0x29 => ' ',
        0x2a => 'v',
        0x2b => 'f',
        0x2c => 't',
        0x2d => 'r',
        0x2e => '5',
        0x31 => 'n',
        0x32 => 'b',
        0x33 => 'h',
        0x34 => 'g',
        0x35 => 'y',
        0x36 => '6',
        0x3a => 'm',
        0x3b => 'j',
        0x3c => 'u',
        0x3d => '7',
        0x3e => '8',
        0x41 => ',',
        0x42 => 'k',
        0x43 => 'i',
        0x44 => 'o',
        0x45 => '0',
        0x46 => '9',
        0x49 => '.',
        0x4a => '/',
        0x4b => 'l',
        0x4c => ';',
        0x4d => 'p',
        0x4e => '-',
        0x52 => '\'',
        0x54 => '[',
        0x55 => '=',
        0x58 => '\u{93}',
        0x59 => '\u{90}',
        0x5a => '\n',
        0x5b => ']',
        0x5d => '\\',
        0x66 => '\u{8}',
        0x69 => '\u{A8}',
        0x6b => '\u{AC}',
        0x6c => '\u{A3}',
        0x70 => '\u{A6}',
        0x71 => '\u{A7}',
        0x72 => '\u{AB}',
        0x73 => '5',
        0x74 => '\u{AD}',
        0x75 => '\u{AA}',
        0x76 => '\u{95}',
        0x77 => '\u{A2}',
        0x78 => '\u{A0}',
        0x79 => '+',
        0x7a => '\u{A5}',
        0x7b => '-',
        0x7c => '*',
        0x7d => '\u{A4}',
        0x7e => '\u{A9}',
        0x83 => '\u{9C}',
        _ => '\u{0}',
    }
}

/// The value of the eight data bits of a frame starting at `i`, least
/// significant bit first.
pub open spec fn frame_value(bits: Seq<u32>, i: int) -> u32 {
    bits[i] | bits[i + 1] << 1 | bits[i + 2] << 2 | bits[i + 3] << 3 | bits[i + 4] << 4 | bits[i
        + 5] << 5 | bits[i + 6] << 6 | bits[i + 7] << 7
}

/// A frame starting at `i` (eight data bits, a parity bit, a stop bit) is
/// accepted when the data and parity bits sum to an odd count and the stop
/// bit is one.
pub open spec fn frame_ok(bits: Seq<u32>, i: int) -> bool {
    &&& (bits[i] + bits[i + 1] + bits[i + 2] + bits[i + 3] + bits[i + 4] + bits[i + 5] + bits[i
        + 6] + bits[i + 7] + bits[i + 8]) % 2 == 1
    &&& bits[i + 9] == 1
}

/// Scan the sampled data-line bits from `start` for the next valid frame:
/// skip idle one-bits, take the first zero as a start bit, and read the
/// ten bits after it; on a parity or stop failure, try again after the
/// bad frame. `None` when fewer than eleven bits remain.
pub open spec fn spec_read_scancode(bits: Seq<u32>, start: int) -> Option<(u32, int)>
    decreases bits.len() - start,
{
    if start < 0 || start + 11 > bits.len() {
        None
    } else if bits[start] == 1 {
        spec_read_scancode(bits, start + 1)
    } else if frame_ok(bits, start + 1) {
        Some((frame_value(bits, start + 1), start + 11))
    } else {
        spec_read_scancode(bits, start + 11)
    }
}

/// Assemble the next scancode from the sampled data-line bits, returning
/// it with the index just past its frame.
pub fn read_scancode(bits: &Vec<u32>, start: usize) -> (r: Option<(u32, usize)>)
    requires
        forall|i: int| 0 <= i < bits@.len() ==> #[trigger] bits@[i] < 2,
    ensures
        (match r {
            Some((code, next)) => Some((code, next as int)),
            None => None,
        }) == spec_read_scancode(bits@, start as int),
    decreases bits@.len() - start,
{
    if bits.len() < 11 || start > bits.len() - 11 {
        return None;
    }
    if bits[start] == 1 {
        return read_scancode(bits, start + 1);
    }
    let b0 = bits[start + 1];
    let b1 = bits[start + 2];
    let b2 = bits[start + 3];
    let b3 = bits[start + 4];
    let b4 = bits[start + 5];
    let b5 = bits[start + 6];
    let b6 = bits[start + 7];
    let b7 = bits[start + 8];
    let parity = bits[start + 9];
    let stop = bits[start + 10];
    let check = b0 + b1 + b2 + b3 + b4 + b5 + b6 + b7 + parity;
    if check % 2 == 1 && stop == 1 {
        let code = b0 | b1 << 1 | b2 << 2 | b3 << 3 | b4 << 4 | b5 << 5 | b6 << 6 | b7 << 7;
        Some((code, start + 11))
    } else {
        read_scancode(bits, start + 11)
    }
}

/// Decode one key action from the scancode stream at `start`: an extended
/// prefix is skipped, a release prefix marks the action as a release and
/// takes the following code, and any other code is a press of itself.
/// `None` when the stream ends mid-sequence.
pub open spec fn spec_read_sequence(codes: Seq<u32>, start: int) -> Option<(KeyActionT, int)> {
    if start < 0 || start >= codes.len() {
        None
    } else {
        let c0 = codes[start];
        if c0 == PS2_CODE_EXTENDED {
            if start + 1 >= codes.len() {
                None
            } else if codes[start + 1] == PS2_CODE_RELEASE {
                if start + 2 >= codes.len() {
                    None
                } else {
                    Some((KeyActionT { what: 1, keycode: codes[start + 2] }, start + 3))
                }
            } else {
                Some((KeyActionT { what: 0, keycode: codes[start + 1] }, start + 2))
            }
        } else if c0 == PS2_CODE_RELEASE {
            if start + 1 >= codes.len() {
                None
            } else {
                Some((KeyActionT { what: 1, keycode: codes[start + 1] }, start + 2))
            }
        } else {
            Some((KeyActionT { what: 0, keycode: c0 }, start + 1))
        }
    }
}

/// Decode one key action from the scancode stream.
pub fn read_sequence(codes: &Vec<u32>, start: usize) -> (r: Option<(KeyActionT, usize)>)
    ensures
        (match r {
            Some((a, next)) => Some((a, next as int)),
            None => None,
        }) == spec_read_sequence(codes@, start as int),
{
    if start >= codes.len() {
        return None;
    }
    let c0 = codes[start];
    if c0 == PS2_CODE_EXTENDED {
        if start + 1 >= codes.len() {
            return None;
        }
        if codes[start + 1] == PS2_CODE_RELEASE {
            if start + 2 >= codes.len() {
                return None;
            }
            return Some((KeyActionT { what: 1, keycode: codes[start + 2] }, start + 3));
        }
        return Some((KeyActionT { what: 0, keycode: codes[start + 1] }, start + 2));
    }
    if c0 == PS2_CODE_RELEASE {
        if start + 1 >= codes.len() {
            return None;
        }
        return Some((KeyActionT { what: 1, keycode: codes[start + 1] }, start + 2));
    }
    Some((KeyActionT { what: 0, keycode: c0 }, start + 1))
}

/// Keycodes that never form an event of their own: the two shifts, alt,
/// control, caps lock, scroll lock and num lock.
pub open spec fn spec_is_modifier(code: u32) -> bool {
    code == 0x12 || code == 0x59 || code == 0x11 || code == 0x14 || code == 0x58 || code == 0x7e
        || code == 0x77
}

/// Whether a keycode is a modifier that key events skip.
pub fn is_modifier(code: u32) -> (r: bool)
    ensures
        r == spec_is_modifier(code),
{
    code == 0x12 || code == 0x59 || code == 0x11 || code == 0x14 || code == 0x58 || code == 0x7e
        || code == 0x77
}

/// A decoded key action makes progress through the stream.
pub proof fn lemma_read_sequence_progress(codes: Seq<u32>, start: int)
    ensures
        (match spec_read_sequence(codes, start) {
            Some((a, next)) => start < next <= codes.len(),
            None => true,
        }),
{
}

/// Decode the next key event from the scancode stream at `start`:
/// actions on modifier keys are skipped; the first other action is
/// returned together with its character. `None` when the stream ends, and
/// also when a keycode falls outside the translation table.
pub open spec fn spec_read_event(codes: Seq<u32>, start: int) -> Option<(KeyEventT, int)>
    decreases codes.len() - start,
{
    match spec_read_sequence(codes, start) {
        None => None,
        Some((a, next)) => {
            if spec_is_modifier(a.keycode) {
                if next <= start || next > codes.len() {
                    None
                } else {
                    spec_read_event(codes, next)
                }
            } else if a.keycode >= PS2_KEY_TABLE_LEN {
                None
            } else {
                Some((KeyEventT { action: a, key: spec_key_for_scancode(a.keycode) }, next))
            }
        },
    }
}

/// Decode the next non-modifier key event from the scancode stream.
pub fn read_event(codes: &Vec<u32>, start: usize) -> (r: Option<(KeyEventT, usize)>)
    ensures
        (match r {
            Some((e, next)) => Some((e, next as int)),
            None => None,
        }) == spec_read_event(codes@, start as int),
    decreases codes@.len() - start,
{
    match read_sequence(codes, start) {
        None => None,
        Some((a, next)) => {
            proof {
                lemma_read_sequence_progress(codes@, start as int);
            }
            if is_modifier(a.keycode) {
                read_event(codes, next)
            } else if a.keycode >= PS2_KEY_TABLE_LEN {
                None
            } else {
                Some((KeyEventT { action: a, key: key_for_scancode(a.keycode) }, next))
            }
        },
    }
}

/// A decoded key event makes progress through the stream.
pub proof fn lemma_read_event_progress(codes: Seq<u32>, start: int)
    ensures
        (match spec_read_event(codes, start) {
            Some((e, next)) => start < next <= codes.len(),
            None => true,
        }),
    decreases codes.len() - start,
{
    lemma_read_sequence_progress(codes, start);
    match spec_read_sequence(codes, start) {
        None => {},
        Some((a, next)) => {
            if spec_is_modifier(a.keycode) && start < next <= codes.len() {
                lemma_read_event_progress(codes, next);
            }
        },
    }
}

/// The next character typed: key events are read from the stream until a
/// press (release events are skipped), and its character is returned with
/// the index just past it.
pub open spec fn spec_read_next(codes: Seq<u32>, start: int) -> Option<(char, int)>
    decreases codes.len() - start,
{
    match spec_read_event(codes, start) {
        None => None,
        Some((e, next)) => {
            if e.action.what == 0 {
                Some((e.key, next))
            } else if next <= start || next > codes.len() {
                None
            } else {
                spec_read_next(codes, next)
            }
        },
    }
}

/// Read the next typed character from the scancode stream.
pub fn read_next(codes: &Vec<u32>, start: usize) -> (r: Option<(char, usize)>)
    ensures
        (match r {
            Some((c, next)) => Some((c, next as int)),
            None => None,
        }) == spec_read_next(codes@, start as int),
    decreases codes@.len() - start,
{
    match read_event(codes, start) {
        None => None,
        Some((e, next)) => {
            proof {
                lemma_read_event_progress(codes@, start as int);
            }
            if e.action.what == 0 {
                Some((e.key, next))
            } else {
                read_next(codes, next)
            }
        },
    }
}

} // verus!
