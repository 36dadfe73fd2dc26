use wasabi::font::{lookup_font, parse_font, Font};
use wasabi::graphics::{draw_font_fg, draw_point, draw_str_fg, draw_test_pattern, fill_rect, Bitmap, FrameBuffer};

fn fb(w: i64, h: i64) -> FrameBuffer {
    FrameBuffer::new(w, h, w, 4).expect("frame buffer")
}

fn px(b: &FrameBuffer, x: i64, y: i64) -> u32 {
    b.pixel(x, y).expect("visible")
}

fn count(b: &FrameBuffer, color: u32) -> usize {
    let mut n = 0;
    for y in 0..b.height() {
        for x in 0..b.width() {
            if px(b, x, y) == color {
                n += 1;
            }
        }
    }
    n
}

const FONT_TEXT: &str = "0x41\n\
...**...\n\
..*..*..\n\
.*....*.\n\
.******.\n\
.*....*.\n\
.*....*.\n\
........\n\
........\n\
........\n\
........\n\
........\n\
........\n\
........\n\
........\n\
........\n\
........\n\
0x42\n\
*\n";

fn font() -> Font {
    let chars: Vec<char> = FONT_TEXT.chars().collect();
    parse_font(&chars)
}

#[test]
fn frame_buffer_starts_black() {
    let b = fb(10, 5);
    assert_eq!(b.width(), 10);
    assert_eq!(b.height(), 5);
    assert_eq!(count(&b, 0), 50);
    assert!(b.pixel(10, 0).is_none());
    assert!(b.pixel(0, 5).is_none());
    assert!(b.pixel(-1, 0).is_none());
    assert!(FrameBuffer::new(-1, 5, 10, 4).is_none());
}

#[test]
fn visible_range_uses_the_shorter_of_width_and_line() {
    let b = FrameBuffer::new(10, 5, 8, 4).unwrap();
    assert!(b.is_in_x_range(7));
    assert!(!b.is_in_x_range(8));
    assert!(b.is_in_y_range(4));
    assert!(!b.is_in_y_range(5));
}

#[test]
fn draw_point_in_and_out_of_range() {
    let mut b = fb(10, 5);
    assert_eq!(draw_point(&mut b, 0xff, 3, 4), Ok(()));
    assert_eq!(px(&b, 3, 4), 0xff);
    assert_eq!(count(&b, 0xff), 1);
    assert_eq!(draw_point(&mut b, 0xff, 10, 0), Err("Out of Range"));
    assert_eq!(draw_point(&mut b, 0xff, 0, -1), Err("Out of Range"));
    assert_eq!(count(&b, 0xff), 1);
}

#[test]
fn fill_rect_fills_exactly_the_rectangle() {
    let mut b = fb(10, 10);
    assert_eq!(fill_rect(&mut b, 7, 2, 3, 4, 5), Ok(()));
    assert_eq!(count(&b, 7), 20);
    assert_eq!(px(&b, 2, 3), 7);
    assert_eq!(px(&b, 5, 7), 7);
    assert_eq!(px(&b, 6, 7), 0);
    assert_eq!(px(&b, 5, 8), 0);
}

#[test]
fn fill_rect_rejects_rectangles_out_of_range() {
    let mut b = fb(10, 10);
    assert_eq!(fill_rect(&mut b, 7, 8, 0, 3, 3), Err("Out of Range"));
    assert_eq!(fill_rect(&mut b, 7, -1, 0, 3, 3), Err("Out of Range"));
    assert_eq!(fill_rect(&mut b, 7, 0, 9, 3, 2), Err("Out of Range"));
    assert_eq!(count(&b, 7), 0);
    // an empty rectangle whose corners are both visible is accepted
    assert_eq!(fill_rect(&mut b, 7, 5, 5, 0, 1), Ok(()));
    assert_eq!(count(&b, 7), 0);
}

#[test]
fn parse_font_reads_glyphs() {
    let f = font();
    let a = lookup_font(&f, 'A').unwrap();
    assert_eq!(a[0], ['.', '.', '.', '*', '*', '.', '.', '.']);
    assert_eq!(a[3], ['.', '*', '*', '*', '*', '*', '*', '.']);
    assert_eq!(a[15], ['.'; 8]);
    // a short row leaves the rest of the row as '*', missing rows are all '*'
    let b = lookup_font(&f, 'B').unwrap();
    assert_eq!(b[0], ['*'; 8]);
    assert_eq!(b[1], ['*'; 8]);
    // codes never described are all '*'
    let c = lookup_font(&f, 'C').unwrap();
    assert_eq!(c, [['*'; 8]; 16]);
    assert!(lookup_font(&f, '\u{ff}').is_some());
    assert!(lookup_font(&f, '\u{100}').is_none());
    assert!(lookup_font(&f, '漢').is_none());
}

#[test]
fn parse_font_later_glyph_wins_and_plus_sign_is_accepted() {
    let text = "0x41\n........\n0x+41\n.*......\n0xzz\n0x100\n";
    let chars: Vec<char> = text.chars().collect();
    let f = parse_font(&chars);
    let a = lookup_font(&f, 'A').unwrap();
    assert_eq!(a[0], ['.', '*', '.', '.', '.', '.', '.', '.']);
    // the line after the second header is "0xzz" which becomes row 1
    assert_eq!(a[1], ['0', 'x', 'z', 'z', '*', '*', '*', '*']);
}

#[test]
fn draw_font_fg_draws_the_star_cells() {
    let f = font();
    let mut b = fb(20, 20);
    draw_font_fg(&mut b, 1, 2, 9, 'A', &f);
    // 'A' has 2 + 2 + 2 + 6 + 2 + 2 stars
    assert_eq!(count(&b, 9), 16);
    assert_eq!(px(&b, 1 + 3, 2), 9);
    assert_eq!(px(&b, 1 + 2, 2), 0);
    // clipped at the edge: only the visible part is drawn
    let mut c = fb(5, 5);
    draw_font_fg(&mut c, 1, 2, 9, 'A', &f);
    assert_eq!(px(&c, 4, 2), 9);
    assert!(count(&c, 9) < 16);
    // characters above 255 draw nothing
    let mut d = fb(20, 20);
    draw_font_fg(&mut d, 0, 0, 9, '漢', &f);
    assert_eq!(count(&d, 9), 0);
}

#[test]
fn draw_str_fg_places_characters_8_pixels_apart() {
    let f = font();
    let mut b = fb(40, 20);
    draw_str_fg(&mut b, 0, 0, 5, "AA", &f);
    assert_eq!(count(&b, 5), 32);
    assert_eq!(px(&b, 3, 0), 5);
    assert_eq!(px(&b, 11, 0), 5);
    assert_eq!(px(&b, 10, 0), 0);
}

#[test]
fn draw_test_pattern_paints_squares() {
    let f = font();
    let mut b = fb(300, 300);
    draw_test_pattern(&mut b, &f);
    let left = 300 - 129;
    assert_eq!(px(&b, left + 10, 20), 0x000000);
    assert_eq!(px(&b, left + 74, 10), !0x000000u32 & 0xffff_ffff);
    assert_eq!(px(&b, left + 10, 64 + 10), 0xff0000);
    assert_eq!(px(&b, left + 74, 64 + 30), !0xff0000u32);
    assert_eq!(px(&b, left + 10, 128 + 10), 0x00ff00);
    assert_eq!(px(&b, left + 10, 192 + 10), 0x0000ff);
    // the diagonal from (left, 0) towards (left + 128, 128) is white
    assert_eq!(px(&b, left + 50, 50), 0xffffff);
    // so is the one from (left + 128, 0) towards (left, 128)
    assert_eq!(px(&b, left + 100, 28), 0xffffff);
    // nothing left of the pattern is touched
    assert_eq!(px(&b, left - 1, 10), 0);
    // the digits use glyphs that are all '*' in this font; 'A' starts with '.', 'C' is all '*'
    assert_eq!(px(&b, left, 256), 0x00ff00);
    assert_eq!(px(&b, left, 272), 0);
    assert_eq!(px(&b, left + 16, 272), 0x00ff00);
}

#[test]
fn draw_test_pattern_draws_lines_on_wide_screen() {
    // every end point of the pattern's lines is visible on a bitmap wider
    // than it is tall, so all the lines are drawn
    let f = font();
    let mut b = fb(600, 300);
    draw_test_pattern(&mut b, &f);
    let left = 600 - 129;
    assert_eq!(px(&b, left + 50, 50), 0xffffff);
    assert_eq!(px(&b, left + 100, 28), 0xffffff);
    // the line from (left, 0) towards (left + 128, 0) and the one from
    // (left, 0) towards (left, 128)
    assert_eq!(px(&b, left + 64, 0), 0xffffff);
    assert_eq!(px(&b, left, 100), 0xffffff);
    // off the lines the squares keep their colors
    assert_eq!(px(&b, left + 10, 20), 0x000000);
    assert_eq!(px(&b, left + 74, 10), 0xffff_ffff);
    // a line includes its start point: (left + 128, 128) starts the lines
    // drawn from the last corner
    assert_eq!(px(&b, left + 128, 128), 0xffffff);
}

#[test]
fn draw_str_fg_of_joined_text_equals_two_draws() {
    let f = font();
    let mut joined = fb(60, 20);
    draw_str_fg(&mut joined, 3, 1, 5, "ABA", &f);
    let mut split = fb(60, 20);
    draw_str_fg(&mut split, 3, 1, 5, "A", &f);
    draw_str_fg(&mut split, 3 + 8, 1, 5, "BA", &f);
    for y in 0..20 {
        for x in 0..60 {
            assert_eq!(px(&joined, x, y), px(&split, x, y));
        }
    }
}
