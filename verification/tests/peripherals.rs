use kernel_heap::fb::{fb_init, pixel_index, FB_DOUBLEBUFFER, FB_SINGLEBUFFER};
use kernel_heap::gpio::{fsel_index, fsel_read, fsel_shift, fsel_update, pin_level, pin_mask};
use kernel_heap::invaders::{game_over, Beam, EnemyRow, Spaceship};
use kernel_heap::keyboard::{
    is_modifier, key_for_scancode, read_event, read_next, read_scancode, read_sequence,
};
use kernel_heap::mailbox::{mailbox_request, read_decode, write_word, GPU_NOCACHE};
use kernel_heap::uart::{put_char_bytes, uart_fifo_setup, MINI_UART_BAUD_DIVISOR};

#[test]
fn mailbox_request_accepts_aligned_channel_with_zero_reply() {
    assert!(mailbox_request(1, 0x100, 0));
    // the reply's low nibble is the channel; only the payload matters.
    assert!(mailbox_request(1, 0x100, 0x1));
}

#[test]
fn mailbox_request_rejects_bad_channel_alignment_or_reply() {
    assert!(!mailbox_request(16, 0x100, 0));
    assert!(!mailbox_request(1, 0x104 | 0x1, 0));
    assert!(!mailbox_request(1, 0x100, 0x10));
}

#[test]
fn mailbox_write_word_encodes_nocache_and_channel() {
    assert_eq!(write_word(1, 0x100), Some(0x100 | GPU_NOCACHE | 1));
    assert_eq!(write_word(16, 0x100), None);
    assert_eq!(write_word(8, 0x108), None);
}

#[test]
fn mailbox_read_decode_matches_low_nibble() {
    assert_eq!(read_decode(0x25, 5), Some(2));
    assert_eq!(read_decode(0x25, 4), None);
    assert_eq!(read_decode(0x1, 1), Some(0));
}

#[test]
fn gpio_fsel_update_sets_three_bit_field() {
    // pin 16 sits in register 1, bits 18..21.
    assert_eq!(fsel_index(16), 1);
    assert_eq!(fsel_shift(16), 18);
    let w = fsel_update(0, 16, 1);
    assert_eq!(w, 1 << 18);
    assert_eq!(fsel_read(w, 16), 1);
    // updating a dirty word clears the old function first.
    let w2 = fsel_update(0b111 << 18, 16, 0);
    assert_eq!(fsel_read(w2, 16), 0);
}

#[test]
fn gpio_levels_and_masks() {
    assert_eq!(pin_mask(16), 0x10000);
    assert_eq!(pin_level(0x10000, 16), 1);
    assert_eq!(pin_level(0x10000, 17), 0);
    // pin 33 wraps into the second register's bit 1.
    assert_eq!(pin_mask(33), 2);
}

#[test]
fn fb_init_fills_configuration() {
    let cfg = fb_init(640, 512, 4, FB_DOUBLEBUFFER);
    assert_eq!(cfg.width, 640);
    assert_eq!(cfg.height, 512);
    assert_eq!(cfg.virtual_width, 640);
    assert_eq!(cfg.virtual_height, 1024);
    assert_eq!(cfg.bit_depth, 32);
    assert_eq!(cfg.x_offset, 0);
    assert_eq!(cfg.y_offset, 0);
    assert_eq!(cfg.pitch, 0);
    assert_eq!(cfg.framebuffer, 0);
    let single = fb_init(640, 512, 4, FB_SINGLEBUFFER);
    assert_eq!(single.virtual_height, 512);
}

#[test]
fn fb_swap_toggles_page() {
    let mut cfg = fb_init(640, 512, 4, FB_DOUBLEBUFFER);
    cfg.pitch = 2560;
    cfg.framebuffer = 0x10000;
    assert!(cfg.fb_swap_buffer());
    assert_eq!(cfg.y_offset, 512);
    assert_eq!(cfg.fb_get_draw_buffer(), 0x10000 + 512 * 2560);
    assert!(cfg.fb_swap_buffer());
    assert_eq!(cfg.y_offset, 0);
    assert_eq!(cfg.fb_get_draw_buffer(), 0x10000);

    let mut single = fb_init(640, 512, 4, FB_SINGLEBUFFER);
    single.framebuffer = 0x20000;
    assert!(!single.fb_swap_buffer());
    assert_eq!(single.y_offset, 0);
    assert_eq!(single.fb_get_draw_buffer(), 0x20000);
}

#[test]
fn fb_getters_report_configuration() {
    let mut cfg = fb_init(640, 512, 4, FB_DOUBLEBUFFER);
    cfg.pitch = 2560;
    assert_eq!(cfg.fb_get_width(), 640);
    assert_eq!(cfg.fb_get_height(), 512);
    assert_eq!(cfg.fb_get_depth(), 4);
    assert_eq!(cfg.fb_get_pitch(), 2560);
}

#[test]
fn pixel_index_checks_bounds() {
    assert_eq!(pixel_index(10, 20, 640, 512, 4, 2560), Some(4 * 10 + 20 * 2560));
    assert_eq!(pixel_index(640, 20, 640, 512, 4, 2560), None);
    assert_eq!(pixel_index(10, 512, 640, 512, 4, 2560), None);
}

#[test]
fn uart_constants_and_line_endings() {
    assert_eq!(MINI_UART_BAUD_DIVISOR, 270);
    assert_eq!(uart_fifo_setup(), 0xC6);
    assert_eq!(put_char_bytes(b'\n'), vec![b'\r', b'\n']);
    assert_eq!(put_char_bytes(b'A'), vec![b'A']);
}

#[test]
fn key_table_samples() {
    assert_eq!(key_for_scancode(0x15), 'q');
    assert_eq!(key_for_scancode(0x5A), '\n');
    assert_eq!(key_for_scancode(0x29), ' ');
    assert_eq!(key_for_scancode(0x83), '\u{9C}');
    assert_eq!(key_for_scancode(0x00), '\u{0}');
}

#[test]
fn scancode_frame_is_assembled_lsb_first() {
    // idle line, start bit, 0x15 = 10101000 LSB first, odd parity, stop.
    let bits = vec![1, 1, 0, 1, 0, 1, 0, 1, 0, 0, 0, 0, 1];
    assert_eq!(read_scancode(&bits, 0), Some((0x15, 13)));
}

#[test]
fn scancode_bad_parity_or_stop_is_retried() {
    // first frame: parity even (rejected); second frame: valid 0x15.
    let mut bits = vec![0, 1, 0, 1, 0, 1, 0, 0, 0, 1, 1];
    bits.extend(vec![0, 1, 0, 1, 0, 1, 0, 0, 0, 0, 1]);
    assert_eq!(read_scancode(&bits, 0), Some((0x15, 22)));
    // a lone idle line never completes a frame.
    assert_eq!(read_scancode(&vec![1; 10], 0), None);
}

#[test]
fn sequences_decode_press_release_and_extended() {
    assert_eq!(read_sequence(&vec![0x15], 0).unwrap().1, 1);
    let (a, n) = read_sequence(&vec![0xF0, 0x15], 0).unwrap();
    assert_eq!((a.what, a.keycode, n), (1, 0x15, 2));
    let (a, n) = read_sequence(&vec![0xE0, 0x75], 0).unwrap();
    assert_eq!((a.what, a.keycode, n), (0, 0x75, 2));
    let (a, n) = read_sequence(&vec![0xE0, 0xF0, 0x75], 0).unwrap();
    assert_eq!((a.what, a.keycode, n), (1, 0x75, 3));
    assert!(read_sequence(&vec![0xF0], 0).is_none());
}

#[test]
fn events_skip_modifiers() {
    assert!(is_modifier(0x12));
    assert!(!is_modifier(0x15));
    let (e, n) = read_event(&vec![0x12, 0x15], 0).unwrap();
    assert_eq!(e.key, 'q');
    assert_eq!(e.action.what, 0);
    assert_eq!(n, 2);
    // a keycode beyond the table yields no event.
    assert!(read_event(&vec![0x99], 0).is_none());
}

#[test]
fn read_next_returns_first_press() {
    // release of 'q', then press of 'a'.
    let codes = vec![0xF0, 0x15, 0x1C];
    assert_eq!(read_next(&codes, 0), Some(('a', 3)));
}

#[test]
fn ship_status_tracks_destroyed_ships() {
    let mut row = EnemyRow {
        row_size: 5,
        start_x: 60,
        start_y: 30,
        size: 30,
        prev_dx: 0,
        prev_dy: 0,
        direction: 1,
        min_x: 60,
        max_x: 610,
        status: !0,
    };
    assert!(row.ship_status(2));
    row.clear_ship(2);
    assert!(!row.ship_status(2));
    assert!(row.ship_status(1));
    assert!(row.ship_status(3));
}

#[test]
fn ship_hit_finds_first_struck_ship() {
    let row = EnemyRow {
        row_size: 5,
        start_x: 60,
        start_y: 30,
        size: 30,
        prev_dx: 0,
        prev_dy: 0,
        direction: 1,
        min_x: 60,
        max_x: 610,
        status: !0,
    };
    let mut beam = Beam {
        curr_x: 120,
        curr_y: 40,
        width: 10,
        height: 20,
        player: 1,
        active: true,
        prev_dx: 0,
        prev_dy: 0,
        window_height: 512,
        available: false,
    };
    // ship 1 sits at base 120; the beam is inside its half-width.
    assert_eq!(row.ship_hit(&beam), 1);
    beam.curr_y = 100;
    assert_eq!(row.ship_hit(&beam), -1);
    beam.curr_y = 40;
    beam.curr_x = 150;
    assert_eq!(row.ship_hit(&beam), -1);
}

#[test]
fn enemy_row_marches_and_bounces() {
    let mut row = EnemyRow {
        row_size: 5,
        start_x: 60,
        start_y: 30,
        size: 30,
        prev_dx: 0,
        prev_dy: 0,
        direction: 1,
        min_x: 60,
        max_x: 610,
        status: !0,
    };
    row.move_by(20);
    assert_eq!((row.start_x, row.start_y, row.direction), (80, 30, 1));
    assert_eq!((row.prev_dx, row.prev_dy), (20, 0));

    // marching left past min_x steps the row down and turns it around.
    let mut left = EnemyRow { direction: -1, ..row };
    left.start_x = 60;
    left.move_by(20);
    assert_eq!((left.start_x, left.start_y, left.direction), (60, 60, 1));
    assert_eq!((left.prev_dx, left.prev_dy), (0, 30));
}

#[test]
fn beam_flies_and_expires_at_the_edge() {
    let mut beam = Beam {
        curr_x: 100,
        curr_y: 482,
        width: 10,
        height: 20,
        player: 1,
        active: true,
        prev_dx: 0,
        prev_dy: 0,
        window_height: 512,
        available: false,
    };
    beam.move_by(20);
    assert_eq!(beam.curr_y, 462);
    assert_eq!((beam.prev_dx, beam.prev_dy), (0, -20));
    assert!(beam.active);

    beam.curr_y = 10;
    beam.move_by(20);
    assert!(!beam.active);
    assert_eq!(beam.curr_y, 10);

    // an inactive beam only clears its eraser deltas.
    beam.prev_dy = 7;
    beam.move_by(20);
    assert_eq!((beam.prev_dx, beam.prev_dy), (0, 0));

    // enemy beams travel downward and expire at the bottom.
    let mut enemy = Beam { player: -1, curr_y: 75, active: true, ..beam };
    enemy.move_by(20);
    assert_eq!(enemy.curr_y, 95);
    enemy.curr_y = 500;
    enemy.move_by(20);
    assert!(!enemy.active);
}

#[test]
fn spaceship_moves_and_records_deltas() {
    let mut ship = Spaceship {
        pos_x: 60,
        pos_y: 482,
        size: 30,
        first_set: false,
        prev_dx: 0,
        prev_dy: 0,
        second_set: false,
        second_prev_dx: 0,
        second_prev_dy: 0,
    };
    ship.move_by(-20, 0);
    assert_eq!((ship.pos_x, ship.pos_y), (40, 482));
    assert_eq!((ship.prev_dx, ship.prev_dy), (-20, 0));
    assert!(ship.first_set);
    assert!(!ship.second_set);
    ship.move_by(20, 0);
    assert!(ship.second_set);
}

#[test]
fn game_over_when_row_reaches_ship() {
    let ship = Spaceship {
        pos_x: 60,
        pos_y: 482,
        size: 30,
        first_set: false,
        prev_dx: 0,
        prev_dy: 0,
        second_set: false,
        second_prev_dx: 0,
        second_prev_dy: 0,
    };
    let mut row = EnemyRow {
        row_size: 5,
        start_x: 60,
        start_y: 422,
        size: 30,
        prev_dx: 0,
        prev_dy: 0,
        direction: 1,
        min_x: 60,
        max_x: 610,
        status: !0,
    };
    assert!(game_over(&row, &ship));
    row.start_y = 300;
    assert!(!game_over(&row, &ship));
}
