use cosmic_text::Align;
use cosmic_text::Attrs;
use cosmic_text::AttrsList;
use cosmic_text::Buffer;
use cosmic_text::BufferLine;
use cosmic_text::Family;
use cosmic_text::FontSystem;
use cosmic_text::LineEnding;
use cosmic_text::Metrics;
use cosmic_text::Shaping;
use cosmic_text::SwashCache;
use text_canvas::canvas::Canvas;
use text_canvas::color::Color;
use text_canvas::coverage::CoverageSample;

fn coverage_of(width: u32, height: u32, text: &str, align: Align) -> Vec<CoverageSample> {
    let mut font_system = FontSystem::new();
    let mut cache = SwashCache::new();
    let font_size = height as f32 * 0.8;
    let line_height = font_size * 1.2;
    let mut buffer = Buffer::new_empty(Metrics::new(font_size, line_height));
    buffer.set_size(&mut font_system, Some(width as f32), Some(height as f32));
    let attrs = Attrs::new().family(Family::Name("JetBrainsMono Nerd Font Mono"));
    let mut line = BufferLine::new(text, LineEnding::None, AttrsList::new(attrs), Shaping::Advanced);
    line.set_align(Some(align));
    buffer.lines.push(line);
    buffer.shape_until_scroll(&mut font_system, true);
    let mut samples = Vec::new();
    let white = cosmic_text::Color::rgb(0xFF, 0xFF, 0xFF);
    buffer.draw(&mut font_system, &mut cache, white, |x, y, w, h, color| {
        samples.push(CoverageSample {
            x,
            y,
            w,
            h,
            color: Color::rgba(color.r(), color.g(), color.b(), color.a()),
        });
    });
    samples
}

#[test]
fn empty_text_draws_nothing_whatever_the_alignment() {
    let black = vec![0x00u8, 0x00, 0x00, 0xFF].repeat(4);
    for align in [Align::Left, Align::Right, Align::Center, Align::Justified, Align::End] {
        let mut pixels = black.clone();
        let samples = coverage_of(4, 1, "", align);
        assert!(samples.is_empty());
        {
            let mut canvas = Canvas::new(&mut pixels, 4, 1);
            canvas.write_text(&samples);
        }
        assert_eq!(pixels, black);
    }
}

#[test]
fn text_keeps_alpha_bytes_and_length_whatever_is_drawn() {
    let mut pixels = vec![0x00u8, 0x00, 0x00, 0xFF].repeat(64 * 16);
    let samples = coverage_of(64, 16, "Hello", Align::Center);
    {
        let mut canvas = Canvas::new(&mut pixels, 64, 16);
        canvas.write_text(&samples);
    }
    assert_eq!(pixels.len(), 64 * 16 * 4);
    for pixel in pixels.chunks(4) {
        assert_eq!(pixel[3], 0xFF);
    }
}

#[test]
fn text_on_a_buffer_too_short_for_its_canvas_is_clipped() {
    let mut pixels = vec![0x00u8, 0x00, 0x00, 0xFF].repeat(8);
    let samples = coverage_of(64, 16, "Hello", Align::Left);
    {
        let mut canvas = Canvas::new(&mut pixels, 64, 16);
        canvas.write_text(&samples);
    }
    assert_eq!(pixels.len(), 32);
    for pixel in pixels.chunks(4) {
        assert_eq!(pixel[3], 0xFF);
    }
}
