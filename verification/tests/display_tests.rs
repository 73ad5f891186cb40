use rasterizer::display::luma_to_char;
use rasterizer::draw::DisplayBuffer;

#[test]
fn luma_ramp_endpoints() {
    assert_eq!(luma_to_char(0), ' ');
    assert_eq!(luma_to_char(255), '@');
}

#[test]
fn luma_ramp_midpoints() {
    assert_eq!(luma_to_char(128), '+');
    // Level boundary: 14 still rounds down to the first glyph, 15 rounds up.
    assert_eq!(luma_to_char(14), ' ');
    assert_eq!(luma_to_char(15), '.');
    assert_eq!(luma_to_char(240), '%');
    assert_eq!(luma_to_char(241), '@');
}

#[test]
fn luma_ramp_is_monotone() {
    let ramp = [' ', '.', ':', '-', '=', '+', '*', '#', '%', '@'];
    let pos = |c: char| ramp.iter().position(|&r| r == c).unwrap();
    let mut last = 0;
    for luma in 0..=255u8 {
        let level = pos(luma_to_char(luma));
        assert!(level >= last);
        last = level;
    }
    assert_eq!(last, 9);
}

#[test]
fn text_doubles_glyphs_and_ends_rows_with_newline() {
    let mut buf = DisplayBuffer::new(2, 2);
    buf.set(0, 0, 255);
    buf.set(1, 1, 128);
    assert_eq!(buf.to_text(), "@@  \n  ++\n");
}

#[test]
fn text_of_fresh_buffer_is_blank() {
    let buf = DisplayBuffer::new(1, 3);
    assert_eq!(buf.to_text(), "      \n");
}
