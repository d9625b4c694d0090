use wasabi::font::Font;
use wasabi::graphics::draw_font_fg;
use wasabi::graphics::draw_str_fg;
use wasabi::graphics::draw_test_pattern;
use wasabi::graphics::BitmapTextWriter;
use wasabi::graphics::FrameBuffer;

/// A glyph of '.' with a single '*' at column `x` of row `y`.
fn dot_glyph(x: usize, y: usize) -> String {
    let mut s = String::new();
    for row in 0..16 {
        for col in 0..8 {
            s.push(if row == y && col == x { '*' } else { '.' });
        }
        s.push('\n');
    }
    s
}

fn font_of(text: &str) -> Font {
    let chars: Vec<char> = text.chars().collect();
    Font::parse(&chars)
}

fn glyph_string(f: &Font, c: char) -> Option<String> {
    f.lookup_font(c).map(|g| g.into_iter().collect())
}

fn lit(buf: &FrameBuffer, color: u32) -> Vec<(i64, i64)> {
    let mut v = Vec::new();
    for y in 0..32 {
        for x in 0..64 {
            if buf.pixel(x, y) == Some(color) {
                v.push((x, y));
            }
        }
    }
    v
}

#[test]
fn parse_reads_glyph_after_header() {
    let f = font_of(&format!("0x41\n{}", dot_glyph(2, 3)));
    let g = f.lookup_font('A').unwrap();
    assert_eq!(g.len(), 128);
    assert_eq!(g[3 * 8 + 2], '*');
    assert_eq!(g.iter().filter(|c| **c == '*').count(), 1);
    assert_eq!(g[0], '.');
}

#[test]
fn undefined_glyph_is_all_stars() {
    let f = font_of(&format!("0x41\n{}", dot_glyph(2, 3)));
    assert_eq!(glyph_string(&f, 'B'), Some("*".repeat(128)));
    assert_eq!(glyph_string(&f, '\u{ff}'), Some("*".repeat(128)));
    assert_eq!(f.lookup_font('\u{100}'), None);
    assert_eq!(f.lookup_font('あ'), None);
}

#[test]
fn short_and_missing_rows_are_stars() {
    let f = font_of("0x61\n..\n.\n");
    let g = glyph_string(&f, 'a').unwrap();
    assert_eq!(&g[0..8], "..******");
    assert_eq!(&g[8..16], ".*******");
    assert_eq!(&g[16..], "*".repeat(112));
}

#[test]
fn header_forms() {
    // a '+' sign and upper-case digits are accepted; a value above 255 or no digit is not.
    let text = format!(
        "0x+4B\n{}0x100\n{}0x\n{}0xG1\n{}",
        dot_glyph(0, 0),
        dot_glyph(1, 0),
        dot_glyph(2, 0),
        dot_glyph(3, 0)
    );
    let f = font_of(&text);
    let g = glyph_string(&f, 'K').unwrap();
    assert!(g.starts_with("*......."));
    // lines after "0x100" are not a glyph of their own
    assert_eq!(glyph_string(&f, '\u{10}'), Some("*".repeat(128)));
    assert_eq!(glyph_string(&f, '\u{0}'), Some("*".repeat(128)));
}

#[test]
fn later_definition_wins() {
    let text = format!("0x41\n{}0x41\n{}", dot_glyph(0, 0), dot_glyph(5, 5));
    let f = font_of(&text);
    let g = f.lookup_font('A').unwrap();
    assert_eq!(g[0], '.');
    assert_eq!(g[5 * 8 + 5], '*');
}

#[test]
fn draw_font_fg_sets_star_pixels() {
    let f = font_of(&format!("0x41\n{}", dot_glyph(2, 3)));
    let mut b = FrameBuffer::new(64, 32, 0);
    draw_font_fg(&mut b, &f, 10, 5, 7, 'A');
    assert_eq!(lit(&b, 7), vec![(12, 8)]);
    // clipped at the edge: nothing outside the bitmap, no failure
    draw_font_fg(&mut b, &f, 60, 30, 9, 'A');
    assert!(lit(&b, 9).is_empty());
}

#[test]
fn draw_str_fg_advances_eight_columns() {
    let f = font_of(&format!("0x41\n{}", dot_glyph(2, 3)));
    let mut b = FrameBuffer::new(64, 32, 0);
    draw_str_fg(&mut b, &f, 1, 0, 7, "AA");
    assert_eq!(lit(&b, 7), vec![(3, 3), (11, 3)]);
}

#[test]
fn write_str_moves_cursor() {
    let f = font_of(&format!("0x41\n{}", dot_glyph(2, 3)));
    let b = FrameBuffer::new(64, 32, 0);
    let mut w = BitmapTextWriter::new(b);
    w.write_str(&f, "AA\nA");
    assert_eq!(lit(w.buf(), 0xffffff), vec![(2, 3), (10, 3), (2, 19)]);
}

#[test]
fn test_pattern_bands_and_lines() {
    let f = font_of("");
    let mut b = FrameBuffer::new(200, 300, 0x123456);
    draw_test_pattern(&mut b, &f);
    let left = 200 - 129;
    assert_eq!(b.pixel(left + 10, 70), Some(0xff0000));
    assert_eq!(b.pixel(left + 74, 70), Some(!0xff0000u32));
    assert_eq!(b.pixel(left + 10, 140), Some(0x00ff00));
    assert_eq!(b.pixel(left + 74, 200), Some(!0x0000ffu32));
    // the top edge of the square and its diagonal are white
    assert_eq!(b.pixel(left + 40, 0), Some(0xffffff));
    assert_eq!(b.pixel(left + 1, 1), Some(0xffffff));
    // left of the pattern nothing is drawn
    assert_eq!(b.pixel(left - 1, 10), Some(0x123456));
    // the undefined glyphs are full blocks: the labels fill 10 cells of 8 by 16
    assert_eq!(b.pixel(left + 79, 256), Some(0x00ff00));
    assert_eq!(b.pixel(left + 80, 256), Some(0x123456));
    assert_eq!(b.pixel(left + 47, 287), Some(0x00ff00));
}
