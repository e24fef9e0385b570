use eks::color::Color;
use eks::color::TermColor;
use eks::color::make_gradient;
use eks::color::make_quantized_gradient;
use eks::color::push_dec;
use eks::color::push_hex8;
use eks::color::quantize;
use eks::color::quantize_rgb;
use eks::color::xterm_palette;

fn rgb(r: u8, g: u8, b: u8) -> Color {
    Color { r, g, b }
}

#[test]
fn gradient_keeps_its_anchors_at_the_ends() {
    let red = rgb(255, 0, 0);
    let blue = rgb(0, 0, 255);
    let g = make_gradient(&vec![red, blue], 3);
    assert_eq!(g.len(), 3);
    assert_eq!(g[0], red);
    assert_eq!(g[2], blue);
    // the midpoint is an interpolation, not either anchor
    assert_ne!(g[1], red);
    assert_ne!(g[1], blue);
}

#[test]
fn gradient_broadcasts_a_single_anchor() {
    let red = rgb(255, 0, 0);
    let g = make_gradient(&vec![red], 5);
    assert_eq!(g, vec![red, red, red, red, red]);
}

#[test]
fn gradient_has_exactly_the_requested_length() {
    let g = make_gradient(&vec![rgb(1, 2, 3), rgb(200, 100, 0), rgb(0, 0, 9)], 256);
    assert_eq!(g.len(), 256);
}

#[test]
fn quantize_finds_an_exact_match() {
    let pal = vec![rgb(0, 0, 0), rgb(255, 0, 0), rgb(255, 255, 255)];
    assert_eq!(quantize(&vec![rgb(255, 0, 0)], &pal), vec![1]);
}

#[test]
fn quantize_picks_the_perceptually_nearest_entry() {
    let pal = vec![rgb(255, 0, 0), rgb(10, 255, 10)];
    assert_eq!(quantize(&vec![rgb(0, 255, 0)], &pal), vec![1]);
    assert_eq!(quantize(&vec![rgb(250, 5, 5)], &pal), vec![0]);
}

#[test]
fn quantize_maps_every_input() {
    let pal = vec![rgb(0, 0, 0), rgb(255, 255, 255)];
    let q = quantize(&vec![rgb(10, 10, 10), rgb(240, 240, 240)], &pal);
    assert_eq!(q, vec![0, 1]);
}

#[test]
fn quantize_of_empty_palette_reports_index_zero() {
    assert_eq!(quantize(&vec![rgb(1, 2, 3)], &vec![]), vec![0]);
}

#[test]
fn quantize_rgb_matches_quantize() {
    let pal = vec![rgb(0, 0, 0), rgb(255, 0, 0)];
    let colors = vec![rgb(200, 0, 0), rgb(5, 5, 5)];
    assert_eq!(quantize_rgb(&colors, &pal), quantize(&colors, &pal));
}

#[test]
fn quantized_gradient_composes_build_and_quantize() {
    let red = rgb(255, 0, 0);
    let pal = vec![rgb(0, 0, 0), rgb(255, 0, 0)];
    let q = make_quantized_gradient(&vec![red], 4, &pal);
    assert_eq!(q, vec![1, 1, 1, 1]);
}

#[test]
fn xterm_palette_matches_the_terminal_layout() {
    let p = xterm_palette();
    assert_eq!(p.len(), 240);
    assert_eq!(p[0], rgb(0, 0, 0));
    assert_eq!(p[1], rgb(0, 0, 95));
    assert_eq!(p[5], rgb(0, 0, 255));
    assert_eq!(p[6], rgb(0, 95, 0));
    assert_eq!(p[215], rgb(255, 255, 255));
    assert_eq!(p[216], rgb(8, 8, 8));
    assert_eq!(p[239], rgb(238, 238, 238));
}

#[test]
fn foreground_escapes() {
    let mut v: Vec<u8> = Vec::new();
    TermColor::Dark(1).fg(&mut v);
    assert_eq!(v, b"\x1b[31m");
    v.clear();
    TermColor::Bright(2).fg(&mut v);
    assert_eq!(v, b"\x1b[92m");
    v.clear();
    TermColor::Index(200).fg(&mut v);
    assert_eq!(v, b"\x1b[38;5;200m");
    v.clear();
    TermColor::Rgb(rgb(1, 2, 3)).fg(&mut v);
    assert_eq!(v, b"\x1b[38;2;1;2;3m");
    v.clear();
    TermColor::Reset.fg(&mut v);
    assert_eq!(v, b"\x1b[39m");
}

#[test]
fn background_escapes() {
    let mut v: Vec<u8> = Vec::new();
    TermColor::Dark(1).bg(&mut v);
    assert_eq!(v, b"\x1b[41m");
    v.clear();
    TermColor::Bright(9).bg(&mut v);
    assert_eq!(v, b"\x1b[101m");
    v.clear();
    TermColor::Index(17).bg(&mut v);
    assert_eq!(v, b"\x1b[48;5;17m");
    v.clear();
    TermColor::Rgb(rgb(255, 0, 128)).bg(&mut v);
    assert_eq!(v, b"\x1b[48;2;255;0;128m");
    v.clear();
    TermColor::Reset.bg(&mut v);
    assert_eq!(v, b"\x1b[49m");
}

#[test]
fn decimal_and_hex_formatting() {
    let mut v: Vec<u8> = Vec::new();
    push_dec(&mut v, 0);
    assert_eq!(v, b"0");
    v.clear();
    push_dec(&mut v, 12345);
    assert_eq!(v, b"12345");
    v.clear();
    push_hex8(&mut v, 0x41);
    assert_eq!(v, b"00000041");
    v.clear();
    push_hex8(&mut v, 0x1_0000_002a);
    assert_eq!(v, b"10000002a");
}
