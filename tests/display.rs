use board::display::color::Color;
use board::display::dvd_logo::{make_dvd_logo, HEIGHT, WIDTH};
use board::display::layout::physical_to_virtual;
use board::display::modulation::{bit_state, channel_states, tick_phase};
use board::serial::{shift_in, word_bit};

#[test]
fn color_constructors() {
    assert_eq!(Color::from_hex(0x12ff_8040).hex(), 0xff_8040);
    assert_eq!(Color::from_rgb(0x12, 0x34, 0x56).hex(), 0x12_3456);
    assert_eq!(Color::black().hex(), 0);
    assert_eq!(Color::white().hex(), 0xff_ffff);
    assert_eq!(Color::from_rgb(255, 255, 255), Color::white());
}

#[test]
fn layout_maps_both_panels() {
    assert_eq!(physical_to_virtual(0, 0), (63, 31));
    assert_eq!(physical_to_virtual(63, 31), (0, 0));
    assert_eq!(physical_to_virtual(64, 0), (0, 32));
    assert_eq!(physical_to_virtual(127, 31), (63, 63));
}

#[test]
fn logo_has_expected_pixels() {
    let red = Color::from_hex(0xff0000);
    let logo = make_dvd_logo(red);
    assert_eq!(logo.len(), HEIGHT);
    assert!(logo.iter().all(|row| row.len() == WIDTH));
    assert_eq!(logo[0][0], Color::black());
    assert_eq!(logo[0][3], red);
    assert_eq!(logo[9][17], red);
    assert_eq!(logo[9][16], Color::black());
    assert_eq!(logo[15][6], red);
    let lit = logo.iter().flatten().filter(|c| **c == red).count();
    assert_eq!(lit, 312);
}

#[test]
fn modulation_levels() {
    let n = Color::from_rgb(0xF0, 0x80, 0x10).hex();
    assert_eq!(channel_states(0, n), (true, true, true));
    assert_eq!(channel_states(1, n), (true, true, false));
    assert_eq!(channel_states(8, n), (true, false, false));
    assert_eq!(channel_states(15, n), (false, false, false));
    assert_eq!(tick_phase(37), 5);
    assert!(bit_state(0b0101, 0b0100));
    assert!(!bit_state(0b0101, 0b0010));
}

#[test]
fn serial_bits_round_trip() {
    for word in [0u32, 1, 0x8000_0000, 0xDEAD_BEEF, u32::MAX] {
        assert_eq!(word_bit(word, 0), word >> 31 == 1);
        let mut acc = 0u32;
        for i in 0..32 {
            acc = shift_in(acc, word_bit(word, i));
        }
        assert_eq!(acc, word);
    }
}

#[test]
fn colours_rebuild_from_their_value() {
    let c = Color::from_rgb(0x12, 0x34, 0x56);
    assert_eq!(Color::from_hex(c.hex()), c);
    assert_eq!(Color::black(), Color::from_rgb(0, 0, 0));
    assert_eq!(Color::white(), Color::from_hex(0xFFFF_FFFF));
    let black_logo = make_dvd_logo(Color::black());
    assert!(black_logo.iter().flatten().all(|p| *p == Color::black()));
}
