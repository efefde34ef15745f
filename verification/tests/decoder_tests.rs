use minesweeper::decoder::{
    decode_report, DecodeError, DecodeStep, PointerButton, PointerEvent, ReportDecoder,
};
use minesweeper::tile::{Tile, TileContent};

#[test]
fn decodes_primary_press_at_one_two() {
    let bytes = [0x1b, 0x5b, 0x4d, 32, 34, 35];
    let (r, consumed) = decode_report(&bytes);
    assert_eq!(consumed, 6);
    assert_eq!(
        r.unwrap(),
        PointerEvent {
            x: 1,
            y: 2,
            button: PointerButton::Primary,
            shift: false,
            meta: false,
            ctrl: false,
        }
    );
}

#[test]
fn bad_third_byte_fails_after_three_bytes() {
    let bytes = [0x1b, 0x5b, 0x00, 32, 34, 35];
    let (r, consumed) = decode_report(&bytes);
    assert_eq!(r.err(), Some(DecodeError::MalformedReport));
    assert_eq!(consumed, 3);
}

#[test]
fn bad_first_byte_fails_after_one_byte() {
    let bytes = [0x00, 0x5b, 0x4d, 32, 34, 35];
    let (r, consumed) = decode_report(&bytes);
    assert_eq!(r.err(), Some(DecodeError::MalformedReport));
    assert_eq!(consumed, 1);
}

#[test]
fn bad_second_byte_fails_after_two_bytes() {
    let bytes = [0x1b, 0x00, 0x4d, 32, 34, 35];
    let (r, consumed) = decode_report(&bytes);
    assert_eq!(r.err(), Some(DecodeError::MalformedReport));
    assert_eq!(consumed, 2);
}

#[test]
fn all_four_buttons_decode() {
    for (code, expect) in [
        (32u8, PointerButton::Primary),
        (33, PointerButton::Secondary),
        (34, PointerButton::Tertiary),
        (35, PointerButton::Release),
    ] {
        let bytes = [0x1b, 0x5b, 0x4d, code, 33, 33];
        let (r, _) = decode_report(&bytes);
        assert_eq!(r.unwrap().button, expect);
    }
}

#[test]
fn modifier_bits_are_independent() {
    // 32 + 4 (shift) + 16 (ctrl): primary press with two modifiers.
    let bytes = [0x1b, 0x5b, 0x4d, 52, 33, 33];
    let e = decode_report(&bytes).0.unwrap();
    assert_eq!(e.button, PointerButton::Primary);
    assert!(e.shift);
    assert!(!e.meta);
    assert!(e.ctrl);
    // 32 + 8 (meta) + 1: secondary with meta.
    let bytes = [0x1b, 0x5b, 0x4d, 41, 33, 33];
    let e = decode_report(&bytes).0.unwrap();
    assert_eq!(e.button, PointerButton::Secondary);
    assert!(!e.shift);
    assert!(e.meta);
    assert!(!e.ctrl);
}

#[test]
fn coordinates_saturate_instead_of_wrapping() {
    // A coordinate byte below the 1-based origin cannot go negative.
    let bytes = [0x1b, 0x5b, 0x4d, 32, 32, 0];
    let e = decode_report(&bytes).0.unwrap();
    assert_eq!(e.x, 0);
    assert_eq!(e.y, 0);
}

#[test]
fn incremental_decoder_accepts_a_full_report() {
    let mut d = ReportDecoder::new();
    assert_eq!(d.feed(0x1b), DecodeStep::NeedMore);
    assert_eq!(d.feed(0x5b), DecodeStep::NeedMore);
    assert_eq!(d.feed(0x4d), DecodeStep::NeedMore);
    assert_eq!(d.feed(32), DecodeStep::NeedMore);
    assert_eq!(d.feed(34), DecodeStep::NeedMore);
    match d.feed(35) {
        DecodeStep::Event(e) => {
            assert_eq!(e.x, 1);
            assert_eq!(e.y, 2);
            assert_eq!(e.button, PointerButton::Primary);
        },
        other => panic!("expected an event, got {:?}", other),
    }
    // The decoder is ready for the next report.
    assert_eq!(d.feed(0x1b), DecodeStep::NeedMore);
}

#[test]
fn incremental_decoder_fails_fast_and_recovers() {
    let mut d = ReportDecoder::new();
    assert_eq!(d.feed(0x1b), DecodeStep::NeedMore);
    assert_eq!(d.feed(0x5b), DecodeStep::NeedMore);
    // The third byte breaks the framing: failure right away, no further
    // bytes of this report are wanted.
    assert_eq!(d.feed(0x41), DecodeStep::Failed(DecodeError::MalformedReport));
    // A fresh, well-formed report decodes fine afterwards.
    for b in [0x1b, 0x5b, 0x4d, 35, 40, 50] {
        let step = d.feed(b);
        assert!(step != DecodeStep::Failed(DecodeError::MalformedReport));
        if b == 50 {
            match step {
                DecodeStep::Event(e) => {
                    assert_eq!(e.button, PointerButton::Release);
                    assert_eq!(e.x, 7);
                    assert_eq!(e.y, 17);
                },
                other => panic!("expected an event, got {:?}", other),
            }
        }
    }
}

#[test]
fn glyphs_cover_all_seven_tile_states() {
    let cases = [
        (Tile { flagged: true, probed: false, content: TileContent::Zero }, 'F'),
        (Tile { flagged: false, probed: false, content: TileContent::Five }, '?'),
        (Tile { flagged: false, probed: true, content: TileContent::Mine }, 'M'),
        (Tile { flagged: false, probed: true, content: TileContent::Zero }, ' '),
        (Tile { flagged: false, probed: true, content: TileContent::One }, '1'),
        (Tile { flagged: false, probed: true, content: TileContent::Four }, '4'),
        (Tile { flagged: false, probed: true, content: TileContent::Eight }, '8'),
    ];
    for (tile, glyph) in cases {
        let (_style, c) = tile.as_cell();
        assert_eq!(c, glyph);
    }
}
