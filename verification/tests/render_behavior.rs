use ascii_cam::color::{ColorMode, Rgb};
use ascii_cam::frame::{Frame, FrameError};
use ascii_cam::render::{
    build_lut, join_lines, render_frame, RenderConfig, RenderError, RenderMode, RenderedFrame,
    RAMP_LONG, RAMP_SHORT,
};
use ascii_cam::screenshot::{escape_html_char, screenshot_html};

fn identity_tone() -> Vec<u8> {
    (0..=255u8).collect()
}

fn config(cols: usize, rows: usize, mode: RenderMode, color_mode: ColorMode) -> RenderConfig {
    RenderConfig {
        cols,
        rows,
        ramp: RAMP_SHORT.to_string(),
        color_mode,
        tone: identity_tone(),
        invert: false,
        mode,
    }
}

#[test]
fn luminance_matches_the_single_precision_weights() {
    assert_eq!(Rgb::new(0, 0, 0).luminance(), 0);
    assert_eq!(Rgb::new(255, 255, 255).luminance(), 255);
    assert_eq!(Rgb::new(255, 0, 0).luminance(), 76);
    assert_eq!(Rgb::new(0, 255, 0).luminance(), 149);
    assert_eq!(Rgb::new(0, 0, 255).luminance(), 29);
    assert_eq!(Rgb::new(250, 120, 10).luminance(), 146);
    for (r, g, b) in [(1, 2, 3), (100, 200, 50), (17, 250, 251), (128, 128, 128)] {
        let expected = (0.299_f32.mul_add(r as f32, 0.587 * g as f32) + 0.114 * b as f32)
            .clamp(0.0, 255.0) as u8;
        assert_eq!(Rgb::new(r, g, b).luminance(), expected);
    }
}

#[test]
fn every_color_mode_shows_and_prefixes_as_documented() {
    let c = Rgb::new(250, 120, 10);
    assert_eq!(ColorMode::Ansi16.ansi_prefix(c), "\x1b[33m");
    assert_eq!(ColorMode::Ansi16.ansi_prefix(Rgb::new(200, 200, 90)), "\x1b[97m");
    assert_eq!(ColorMode::Ansi16.effective_rgb(c), Rgb::new(255, 255, 0));
    assert_eq!(ColorMode::Ansi256.ansi_prefix(c), "\x1b[38;5;208m");
    assert_eq!(ColorMode::Gray.ansi_prefix(c), "\x1b[38;5;245m");
    assert_eq!(ColorMode::Green.ansi_prefix(c), "\x1b[38;2;0;255;0m");
    assert_eq!(ColorMode::GreenGradient.ansi_prefix(c), "\x1b[38;2;0;146;0m");
    assert_eq!(ColorMode::Red.ansi_prefix(c), "\x1b[38;2;255;0;0m");
    assert_eq!(ColorMode::RedGradient.ansi_prefix(c), "\x1b[38;2;146;0;0m");
    assert_eq!(ColorMode::Gray.effective_rgb(c), Rgb::new(144, 144, 144));
    assert_eq!(ColorMode::Off.effective_rgb(c), c);
    assert_eq!(ColorMode::GreenGradient.effective_rgb(Rgb::new(0, 0, 0)), Rgb::new(0, 20, 0));
    let mut m = ColorMode::TrueColor;
    let mut labels = Vec::new();
    for _ in 0..9 {
        labels.push(m.label());
        m = m.next();
    }
    assert_eq!(m, ColorMode::TrueColor);
    assert_eq!(
        labels,
        vec!["24bit", "256c", "16c", "Gray", "Green", "GreenGrad", "Red", "RedGrad", "Off"]
    );
}

#[test]
fn frames_refuse_bad_shapes() {
    assert_eq!(Frame::new(0, 1, vec![]).err(), Some(FrameError::ZeroDimensions));
    assert_eq!(
        Frame::new(2, 2, vec![Rgb::new(0, 0, 0)]).err(),
        Some(FrameError::PixelCount { actual: 1, expected: 4 })
    );
    assert_eq!(
        Frame::from_rgb24(1, 1, &[1, 2]).err(),
        Some(FrameError::Rgb24Length { actual: 2, expected: 3 })
    );
    let f = Frame::from_rgb24(2, 1, &[1, 2, 3, 4, 5, 6]).unwrap();
    assert_eq!(f.get(1, 0), Rgb::new(4, 5, 6));
}

#[test]
fn quarter_turns_undo_each_other_and_half_turns_twice_restore() {
    let pixels: Vec<Rgb> = (0..12).map(|i| Rgb::new(i, 0, 0)).collect();
    let f = Frame::new(4, 3, pixels).unwrap();
    assert_eq!(f.rotate(1).rotate(3), f);
    assert_eq!(f.rotate(3).rotate(1), f);
    assert_eq!(f.rotate(2).rotate(2), f);
    assert_eq!(f.rotate(1).rotate(1), f.rotate(2));
    assert_eq!(f.rotate(4), f);
    let half = f.rotate(2);
    assert_eq!(half.pixels[0], Rgb::new(11, 0, 0));
}

#[test]
fn rendered_frames_refuse_bad_shapes() {
    assert_eq!(RenderedFrame::new(0, 1, vec![], None).err(), Some(RenderError::ZeroDimensions));
    assert_eq!(
        RenderedFrame::new(1, 2, vec!["a".to_string()], None).err(),
        Some(RenderError::RowCount { rows: 1, expected: 2 })
    );
    assert_eq!(
        RenderedFrame::new(2, 1, vec!["a".to_string()], None).err(),
        Some(RenderError::LineWidth)
    );
    assert_eq!(
        RenderedFrame::new(1, 1, vec!["a".to_string()], Some(vec![vec![]])).err(),
        Some(RenderError::ColorGrid)
    );
}

#[test]
fn terminal_text_colours_each_character_and_resets() {
    let f = RenderedFrame::new(
        2,
        2,
        vec!["ab".to_string(), "cd".to_string()],
        Some(vec![
            vec![Rgb::new(1, 2, 3), Rgb::new(4, 5, 6)],
            vec![Rgb::new(7, 8, 9), Rgb::new(0, 0, 0)],
        ]),
    )
    .unwrap();
    assert_eq!(
        f.terminal_text(),
        "\x1b[38;2;1;2;3ma\x1b[38;2;4;5;6mb\n\x1b[38;2;7;8;9mc\x1b[38;2;0;0;0md\x1b[0m"
    );
    let plain = RenderedFrame::new(2, 2, vec!["ab".to_string(), "cd".to_string()], None).unwrap();
    assert_eq!(plain.terminal_text(), "ab\ncd");
    assert_eq!(join_lines(&vec!["x".to_string(), "y".to_string()]), "x\ny");
    let cached = plain.with_terminal_text("cached".to_string());
    assert_eq!(cached.terminal_text(), "cached");
}

#[test]
fn ascii_render_samples_the_corners_and_spreads_the_rest() {
    let pixels = vec![
        Rgb::new(0, 0, 0),
        Rgb::new(255, 255, 255),
        Rgb::new(255, 255, 255),
        Rgb::new(0, 0, 0),
    ];
    let frame = Frame::new(2, 2, pixels).unwrap();
    let out = render_frame(&frame, &config(3, 1, RenderMode::Ascii, ColorMode::Off));
    assert_eq!(out.plain_lines(), vec!["  @"]);
    assert!(out.colors.is_none());
    assert_eq!(out.terminal_text(), "  @");
    let zero = render_frame(&frame, &config(0, 0, RenderMode::Ascii, ColorMode::Off));
    assert_eq!((zero.width, zero.height), (1, 1));
}

#[test]
fn braille_render_sets_a_dot_per_bright_sample() {
    // A 2x4 block: the left column bright, the right column dark.
    let mut pixels = Vec::new();
    for _ in 0..4 {
        pixels.push(Rgb::new(255, 255, 255));
        pixels.push(Rgb::new(0, 0, 0));
    }
    let frame = Frame::new(2, 4, pixels).unwrap();
    let out = render_frame(&frame, &config(1, 1, RenderMode::Braille, ColorMode::TrueColor));
    // Dots 1, 2, 3 and 7 make the left column: 0x01 | 0x02 | 0x04 | 0x40.
    assert_eq!(out.plain_lines(), vec!["\u{2847}"]);
    assert_eq!(out.colors, Some(vec![vec![Rgb::new(127, 127, 127)]]));
    assert_eq!(out.terminal_text(), "\x1b[38;2;127;127;127m\u{2847}\x1b[0m");
    let mut inverted = config(1, 1, RenderMode::Braille, ColorMode::Off);
    inverted.invert = true;
    assert_eq!(render_frame(&frame, &inverted).plain_lines(), vec!["\u{28b8}"]);
}

#[test]
fn tone_tables_apply_before_shading() {
    let frame = Frame::new(1, 1, vec![Rgb::new(100, 100, 100)]).unwrap();
    let mut c = config(1, 1, RenderMode::Ascii, ColorMode::TrueColor);
    c.tone = vec![255; 256];
    let out = render_frame(&frame, &c);
    assert_eq!(out.plain_lines(), vec!["@"]);
    assert_eq!(out.colors, Some(vec![vec![Rgb::new(255, 255, 255)]]));
}

#[test]
fn the_long_ramp_spans_its_characters() {
    let lut = build_lut(RAMP_LONG);
    assert_eq!(lut.len(), 256);
    assert_eq!(lut[0], ' ');
    assert_eq!(lut[255], '$');
    let single = build_lut("x");
    assert!(single.iter().all(|c| *c == 'x'));
}

#[test]
fn screenshots_escape_and_colour_every_character() {
    assert_eq!(escape_html_char('<'), "&lt;");
    assert_eq!(escape_html_char('>'), "&gt;");
    assert_eq!(escape_html_char('&'), "&amp;");
    assert_eq!(escape_html_char('"'), "&quot;");
    assert_eq!(escape_html_char('\''), "&#39;");
    assert_eq!(escape_html_char('x'), "x");
    let f = RenderedFrame::new(1, 2, vec!["<".to_string(), "a".to_string()], None).unwrap();
    let html = screenshot_html(&f);
    assert!(html.starts_with("<!doctype html><meta charset=\"utf-8\"><title>ascii-cam screenshot</title>"));
    assert!(html.contains(
        "<pre>\n<span style=\"color:rgb(230,230,230)\">&lt;</span>\n<span style=\"color:rgb(230,230,230)\">a</span></pre>\n"
    ));
    let coloured = RenderedFrame::new(1, 1, vec!["z".to_string()], Some(vec![vec![Rgb::new(1, 2, 3)]])).unwrap();
    assert!(screenshot_html(&coloured).contains("<span style=\"color:rgb(1,2,3)\">z</span>"));
}

#[test]
fn rotations_compose_by_adding_quarter_turns() {
    let pixels: Vec<Rgb> = (0..6).map(|i| Rgb::new(i, 0, 0)).collect();
    let f = Frame::new(3, 2, pixels).unwrap();
    for a in 0..6u8 {
        for b in 0..6u8 {
            assert_eq!(f.rotate(a).rotate(b), f.rotate((a + b) % 4));
        }
    }
}
