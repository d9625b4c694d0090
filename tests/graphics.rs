use wasabi::graphics::draw_line;
use wasabi::graphics::draw_point;
use wasabi::graphics::fill_rect;
use wasabi::graphics::Bitmap;
use wasabi::graphics::BitmapTextWriter;
use wasabi::graphics::FrameBuffer;

fn lit(buf: &FrameBuffer, color: u32) -> Vec<(i64, i64)> {
    let mut v = Vec::new();
    for y in 0..buf.height() {
        for x in 0..buf.width() {
            if buf.pixel(x, y) == Some(color) {
                v.push((x, y));
            }
        }
    }
    v
}

#[test]
fn frame_buffer_dimensions() {
    let b = FrameBuffer::new(16, 8, 7);
    assert_eq!(b.width(), 16);
    assert_eq!(b.height(), 8);
    assert_eq!(b.pixels_per_line(), 16);
    assert_eq!(b.bytes_per_pixel(), 4);
    assert_eq!(b.pixel(15, 7), Some(7));
    assert_eq!(b.pixel(16, 0), None);
    assert_eq!(b.pixel(0, -1), None);
}

#[test]
fn draw_point_in_and_out_of_range() {
    let mut b = FrameBuffer::new(4, 4, 0);
    assert_eq!(draw_point(&mut b, 9, 3, 2), Ok(()));
    assert_eq!(b.pixel(3, 2), Some(9));
    assert_eq!(draw_point(&mut b, 9, 4, 0), Err("Out of Range"));
    assert_eq!(draw_point(&mut b, 9, 0, -1), Err("Out of Range"));
    assert_eq!(lit(&b, 9), vec![(3, 2)]);
}

#[test]
fn fill_rect_fills_exactly_the_rectangle() {
    let mut b = FrameBuffer::new(8, 8, 0);
    assert_eq!(fill_rect(&mut b, 5, 2, 3, 3, 2), Ok(()));
    assert_eq!(lit(&b, 5), vec![(2, 3), (3, 3), (4, 3), (2, 4), (3, 4), (4, 4)]);
}

#[test]
fn fill_rect_out_of_range_draws_nothing() {
    let mut b = FrameBuffer::new(8, 8, 0);
    assert_eq!(fill_rect(&mut b, 5, 6, 0, 3, 2), Err("Out of Range"));
    assert_eq!(fill_rect(&mut b, 5, 0, 7, 1, 2), Err("Out of Range"));
    assert_eq!(fill_rect(&mut b, 5, -1, 0, 2, 2), Err("Out of Range"));
    assert!(lit(&b, 5).is_empty());
    assert_eq!(fill_rect(&mut b, 5, 0, 0, 8, 8), Ok(()));
    assert_eq!(lit(&b, 5).len(), 64);
}

#[test]
fn draw_line_horizontal_excludes_end_point() {
    let mut b = FrameBuffer::new(8, 8, 0);
    assert_eq!(draw_line(&mut b, 1, 1, 2, 5, 2), Ok(()));
    assert_eq!(lit(&b, 1), vec![(1, 2), (2, 2), (3, 2), (4, 2)]);
}

#[test]
fn draw_line_shallow_slope_rounds_to_nearest() {
    let mut b = FrameBuffer::new(8, 8, 0);
    assert_eq!(draw_line(&mut b, 1, 0, 0, 4, 1), Ok(()));
    // ry = (2 * 1 * rx + 4) / 4 / 2: 0, 0, 1, 1
    assert_eq!(lit(&b, 1), vec![(0, 0), (1, 0), (2, 1), (3, 1)]);
}

#[test]
fn draw_line_steep_and_reversed() {
    let mut b = FrameBuffer::new(8, 8, 0);
    assert_eq!(draw_line(&mut b, 1, 3, 6, 2, 2), Ok(()));
    // major axis y from 6 down to 2; rx = (2 * 1 * ry + 4) / 4 / 2: 0, 0, 1, 1
    assert_eq!(lit(&b, 1), vec![(2, 3), (2, 4), (3, 5), (3, 6)]);
}

#[test]
fn draw_line_out_of_range() {
    let mut b = FrameBuffer::new(8, 8, 0);
    assert_eq!(draw_line(&mut b, 1, 0, 0, 8, 0), Err("Out of Range"));
    assert!(lit(&b, 1).is_empty());
    assert_eq!(draw_line(&mut b, 1, 2, 2, 2, 2), Ok(()));
    assert!(lit(&b, 1).is_empty());
}

#[test]
fn text_writer_new() {
    let b = FrameBuffer::new(8, 8, 0);
    let _w = BitmapTextWriter::new(b);
}
