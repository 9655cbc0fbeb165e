use std::ops::IndexMut;
use text_canvas::canvas::Canvas;
use text_canvas::color::Color;

#[test]
fn opaque_red_fills_two_by_two() {
    let mut buffer = vec![0u8; 16];
    {
        let mut canvas = Canvas::new(&mut buffer, 2, 2);
        canvas.set_background(Color::rgba(255, 0, 0, 255));
    }
    assert_eq!(
        buffer,
        vec![
            0x00, 0x00, 0xFF, 0xFF, 0x00, 0x00, 0xFF, 0xFF, 0x00, 0x00, 0xFF, 0xFF, 0x00, 0x00,
            0xFF, 0xFF
        ]
    );
}

#[test]
fn fill_does_not_depend_on_what_was_there() {
    let mut buffer: Vec<u8> = (0..24u8).collect();
    {
        let mut canvas = Canvas::new(&mut buffer, 3, 2);
        canvas.set_background(Color::rgba(1, 2, 3, 4));
    }
    for pixel in buffer.chunks(4) {
        assert_eq!(pixel, &[3, 2, 1, 4]);
    }
}

#[test]
fn fill_then_every_pixel_reads_blue_green_red_alpha() {
    for &(width, height) in &[(1u32, 1u32), (2, 2), (3, 5), (7, 1), (1, 9), (16, 4)] {
        let color = Color::rgba(11, 22, 33, 44);
        let mut buffer = vec![0xEEu8; (width * 4 * height) as usize];
        {
            let mut canvas = Canvas::new(&mut buffer, width, height);
            canvas.set_background(color);
        }
        for row in 0..height {
            for column in 0..width {
                let mut canvas = Canvas::new(&mut buffer, width, height);
                let pixel = canvas.get_pixel(row, column);
                assert_eq!(pixel, &[33, 22, 11, 44]);
            }
        }
    }
}

#[test]
fn fill_leaves_bytes_after_the_last_whole_pixel() {
    let mut buffer = vec![9u8; 11];
    {
        let mut canvas = Canvas::new(&mut buffer, 2, 1);
        canvas.set_background(Color::rgba(1, 2, 3, 4));
    }
    assert_eq!(buffer, vec![3, 2, 1, 4, 3, 2, 1, 4, 9, 9, 9]);
}

#[test]
fn fill_covers_the_whole_buffer_whatever_the_dimensions_say() {
    let mut buffer = vec![9u8; 12];
    {
        let mut canvas = Canvas::new(&mut buffer, 1, 1);
        canvas.set_background(Color::rgba(1, 2, 3, 4));
    }
    assert_eq!(buffer, vec![3, 2, 1, 4, 3, 2, 1, 4, 3, 2, 1, 4]);
}

#[test]
fn fill_of_an_empty_buffer_does_nothing() {
    let mut buffer: Vec<u8> = Vec::new();
    {
        let mut canvas = Canvas::new(&mut buffer, 0, 0);
        canvas.set_background(Color::rgb(1, 2, 3));
    }
    assert!(buffer.is_empty());
}

#[test]
fn fill_hands_the_canvas_back_for_more_drawing() {
    let mut buffer = vec![0u8; 8];
    {
        let mut canvas = Canvas::new(&mut buffer, 2, 1);
        canvas
            .set_background(Color::rgba(0, 0, 0, 255))
            .set_pixel_color(Color::rgb(255, 255, 255), 1, 0);
    }
    assert_eq!(buffer, vec![0, 0, 0, 255, 255, 255, 255, 255]);
}

#[test]
fn new_keeps_the_dimensions_and_does_not_touch_the_buffer() {
    let mut buffer = vec![1u8, 2, 3, 4, 5, 6, 7, 8];
    {
        let canvas = Canvas::new(&mut buffer, 2, 1);
        assert_eq!(canvas.width(), 2);
        assert_eq!(canvas.height(), 1);
        assert_eq!(&canvas[0], &[1, 2, 3, 4, 5, 6, 7, 8]);
    }
    assert_eq!(buffer, vec![1, 2, 3, 4, 5, 6, 7, 8]);
}

#[test]
fn pixel_is_four_bytes_at_row_and_column() {
    let mut buffer: Vec<u8> = (0..24u8).collect();
    {
        let mut canvas = Canvas::new(&mut buffer, 3, 2);
        assert_eq!(canvas.get_pixel(0, 0), &[0, 1, 2, 3]);
    }
    {
        let mut canvas = Canvas::new(&mut buffer, 3, 2);
        assert_eq!(canvas.get_pixel(0, 2), &[8, 9, 10, 11]);
    }
    {
        let mut canvas = Canvas::new(&mut buffer, 3, 2);
        assert_eq!(canvas.get_pixel(1, 0), &[12, 13, 14, 15]);
    }
    {
        let mut canvas = Canvas::new(&mut buffer, 3, 2);
        assert_eq!(canvas.get_pixel(1, 2), &[20, 21, 22, 23]);
    }
}

#[test]
fn writing_a_pixel_writes_the_buffer() {
    let mut buffer = vec![0u8; 16];
    {
        let mut canvas = Canvas::new(&mut buffer, 2, 2);
        let pixel = canvas.get_pixel(1, 1);
        pixel.copy_from_slice(&[1, 2, 3, 4]);
    }
    assert_eq!(buffer, vec![0, 0, 0, 0, 0, 0, 0, 0, 0, 0, 0, 0, 1, 2, 3, 4]);
}

#[test]
fn row_is_the_stride_bytes_of_that_row() {
    let mut buffer: Vec<u8> = (0..24u8).collect();
    let canvas = Canvas::new(&mut buffer, 3, 2);
    assert_eq!(&canvas[0], &[0, 1, 2, 3, 4, 5, 6, 7, 8, 9, 10, 11]);
    assert_eq!(&canvas[1], &[12, 13, 14, 15, 16, 17, 18, 19, 20, 21, 22, 23]);
}

#[test]
fn writing_a_row_writes_the_buffer() {
    let mut buffer = vec![0u8; 16];
    {
        let mut canvas = Canvas::new(&mut buffer, 2, 2);
        canvas[1][0] = 7;
        canvas[1][7] = 9;
        let row = canvas.index_mut(0);
        assert_eq!(row.len(), 8);
        row[3] = 5;
    }
    assert_eq!(buffer, vec![0, 0, 0, 5, 0, 0, 0, 0, 7, 0, 0, 0, 0, 0, 0, 9]);
}

#[test]
fn row_of_a_canvas_without_columns_is_empty() {
    let mut buffer: Vec<u8> = Vec::new();
    let canvas = Canvas::new(&mut buffer, 0, 3);
    assert!(canvas[2].is_empty());
}

#[test]
fn color_constructors_and_pixel_order() {
    let opaque = Color::rgb(1, 2, 3);
    assert_eq!(opaque, Color { r: 1, g: 2, b: 3, a: 255 });
    let sheer = Color::rgba(1, 2, 3, 4);
    assert_eq!(sheer, Color { r: 1, g: 2, b: 3, a: 4 });
    assert_eq!(sheer.to_bgra(), [3, 2, 1, 4]);
    assert_ne!(opaque, sheer);
}
