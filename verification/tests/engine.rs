use eks::calculator::Calc;
use eks::color::Color;
use eks::render::AsciiOpts;
use eks::render::RenderOpts;
use eks::render::Renderer;
use eks::render::RowLabelStyle;

fn rgb(r: u8, g: u8, b: u8) -> Color {
    Color { r, g, b }
}

fn base_opts() -> RenderOpts {
    RenderOpts {
        log2_base: 4,
        bytes_per_word: 1,
        words_per_line: 16,
        little_endian: false,
        display_offset_start: 0,
        limit: u64::MAX,
        gradient: vec![rgb(255, 0, 0), rgb(255, 255, 0)],
        use_truecolor: true,
        color_single_glyphs: false,
        ascii: None,
        uppercase: false,
        row_label_style: RowLabelStyle::Byte,
        calc: Calc::default(),
    }
}

fn ascii_colors() -> AsciiOpts {
    AsciiOpts {
        unprintable: rgb(1, 1, 1),
        upper: rgb(10, 20, 30),
        lower: rgb(40, 50, 60),
        number: rgb(70, 80, 90),
        punct: rgb(100, 110, 120),
    }
}

/// The rendered text with all ANSI escape sequences removed.
fn strip(out: &[u8]) -> String {
    let mut bytes: Vec<u8> = Vec::new();
    let mut i = 0;
    while i < out.len() {
        if out[i] == 0x1b {
            while i < out.len() && out[i] != b'm' {
                i += 1;
            }
            i += 1;
        } else {
            bytes.push(out[i]);
            i += 1;
        }
    }
    String::from_utf8(bytes).unwrap()
}

fn count(hay: &[u8], needle: &[u8]) -> usize {
    if hay.len() < needle.len() {
        return 0;
    }
    let mut n = 0;
    for i in 0..hay.len() - needle.len() + 1 {
        if &hay[i..i + needle.len()] == needle {
            n += 1;
        }
    }
    n
}

#[test]
fn hex_dump_with_byte_labels_and_panel() {
    let mut opts = base_opts();
    opts.ascii = Some(ascii_colors());
    let out = opts.render(&vec![0x41, 0x42]);
    let text = strip(&out);
    assert!(text.contains("0x00000000:  "));
    assert!(text.contains("41 42"));
    assert!(text.contains("|AB"));
    // both letters carry the uppercase-category color, emitted once
    let raw = String::from_utf8(out).unwrap();
    assert!(raw.contains("\x1b[38;2;10;20;30mAB"));
}

#[test]
fn rendering_is_repeatable() {
    let opts = || {
        let mut o = base_opts();
        o.ascii = Some(ascii_colors());
        o.calc = Calc::parse(b"x 3 *").unwrap();
        o
    };
    let input: Vec<u8> = (0..=255u8).map(|b| b.wrapping_mul(37)).collect();
    let first = opts().render(&input);
    let second = opts().render(&input);
    assert_eq!(first, second);
}

#[test]
fn short_input_is_zero_padded_but_panel_echoes_real_bytes() {
    let mut opts = base_opts();
    opts.log2_base = 6;
    opts.bytes_per_word = 2;
    opts.words_per_line = 4;
    opts.ascii = Some(ascii_colors());
    let out = opts.render(&vec![0x41]);
    let text = strip(&out);
    // one zero-padded decode of the 3-byte chunk 0x000041
    assert!(text.contains("0011"));
    // the panel echoes the one real byte; padding renders as placeholders
    assert_eq!(text.matches('A').count(), 1);
    assert!(text.contains("|A·"));
}

#[test]
fn streaming_engine_matches_whole_input_render() {
    let mut opts = base_opts();
    opts.ascii = Some(ascii_colors());
    let input = vec![0x00, 0x41, 0x61, 0x30, 0x2c, 0xff];
    let whole = opts.render(&input);
    let mut r = Renderer::new(&opts);
    let mut streamed: Vec<u8> = Vec::new();
    for &b in input.iter() {
        if !r.push_byte(b, &mut streamed) {
            break;
        }
    }
    r.finish(&mut streamed);
    assert_eq!(whole, streamed);
}

#[test]
fn limit_stops_the_stream_in_chunks() {
    let mut opts = base_opts();
    opts.limit = 1;
    let out = opts.render(&vec![0x01, 0x02, 0x03]);
    let text = strip(&out);
    assert!(text.contains("01"));
    assert!(!text.contains("02"));
    assert!(!text.contains("03"));
}

#[test]
fn limit_zero_renders_nothing() {
    let mut opts = base_opts();
    opts.limit = 0;
    let out = opts.render(&vec![0x01, 0x02]);
    assert_eq!(strip(&out), "\n");
}

#[test]
fn repeated_colors_are_emitted_once() {
    let mut opts = base_opts();
    opts.gradient = vec![rgb(255, 0, 0)];
    opts.bytes_per_word = 2;
    let out = opts.render(&vec![0x41, 0x41]);
    assert_eq!(count(&out, b"\x1b[38;2;255;0;0m"), 1);
    assert!(strip(&out).contains("4141"));
}

#[test]
fn changed_colors_are_emitted_again() {
    let mut opts = base_opts();
    opts.gradient = vec![rgb(255, 0, 0)];
    opts.bytes_per_word = 2;
    let out = opts.render(&vec![0x41, 0x42, 0x41]);
    // three distinct calculator values in a row: three escapes, same color
    assert_eq!(count(&out, b"\x1b[38;2;255;0;0m"), 3);
}

#[test]
fn word_labels_divide_the_offset() {
    let mut opts = base_opts();
    opts.bytes_per_word = 4;
    opts.words_per_line = 2;
    opts.row_label_style = RowLabelStyle::Word;
    let input: Vec<u8> = (0..16u8).collect();
    let text = strip(&opts.render(&input));
    assert!(text.contains("0x00000000:  "));
    assert!(text.contains("0x00000002:  "));
}

#[test]
fn line_labels_divide_the_offset() {
    let mut opts = base_opts();
    opts.bytes_per_word = 4;
    opts.words_per_line = 2;
    opts.row_label_style = RowLabelStyle::Line;
    let input: Vec<u8> = (0..24u8).collect();
    let text = strip(&opts.render(&input));
    assert!(text.contains("0x00000001:  "));
    assert!(text.contains("0x00000002:  "));
}

#[test]
fn hidden_labels_emit_no_offset() {
    let mut opts = base_opts();
    opts.row_label_style = RowLabelStyle::Hidden;
    let text = strip(&opts.render(&vec![0x41]));
    assert!(!text.contains("0x0000"));
    assert!(text.contains("41"));
}

#[test]
fn display_offset_start_shifts_labels() {
    let mut opts = base_opts();
    opts.display_offset_start = 0x100;
    let text = strip(&opts.render(&vec![0x41]));
    assert!(text.contains("0x00000100:  "));
}

#[test]
fn quantized_mode_uses_indexed_escapes() {
    let mut opts = base_opts();
    opts.use_truecolor = false;
    let out = opts.render(&vec![0x41, 0x42]);
    let raw = String::from_utf8(out).unwrap();
    assert!(raw.contains("\x1b[38;5;"));
    assert!(!raw.contains("\x1b[38;2;"));
}

#[test]
fn per_glyph_coloring_renders_each_bit() {
    let mut opts = base_opts();
    opts.log2_base = 1;
    opts.color_single_glyphs = true;
    let text = strip(&opts.render(&vec![0b1010_1010]));
    assert!(text.contains("10101010"));
}

#[test]
fn base64_alphabet_uses_case_and_symbols() {
    let mut opts = base_opts();
    opts.log2_base = 6;
    // 0xffffff decodes to four glyphs of value 63: the `/` character
    let text = strip(&opts.render(&vec![0xff, 0xff, 0xff]));
    assert!(text.contains("////"));
}

#[test]
fn uppercase_alphabet_for_hex() {
    let mut opts = base_opts();
    opts.uppercase = true;
    let text = strip(&opts.render(&vec![0xab]));
    assert!(text.contains("AB"));
}

#[test]
fn calculator_drives_the_ramp_index() {
    // A constant formula gives every chunk the same color: one escape.
    let mut opts = base_opts();
    opts.calc = Calc::parse(b"x x ^").unwrap();
    opts.bytes_per_word = 4;
    let out = opts.render(&vec![0x01, 0x02, 0x03, 0x04]);
    let raw = String::from_utf8(out).unwrap();
    assert_eq!(count(raw.as_bytes(), b"\x1b[38;2;"), 1);
}
