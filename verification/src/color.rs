//! Colors, gradients, palette quantization and terminal color escapes.
//!
//! A gradient is built by interpolating anchor colors in HSV space; when
//! truecolor is unavailable, each color is mapped to the nearest entry of a
//! fixed terminal palette by a perceptual (CIEDE2000) color difference.  The
//! color-space conversions and the difference formula come from the `palette`
//! crate behind trusted wrappers; everything around them is verified.

use vstd::prelude::*;

verus! {

/// An RGB color with 8-bit channels.
#[derive(Clone, Copy, PartialEq, Eq, Structural, Debug)]
pub struct Color {
    pub r: u8,
    pub g: u8,
    pub b: u8,
}

/// The color that interpolating from `a` to `b` in HSV space at fraction
/// `num/den` yields; a function of its arguments alone.
pub uninterp spec fn blend_of(a: Color, b: Color, num: usize, den: usize) -> Color;

/// The CIEDE2000 perceptual difference between two colors, as the IEEE-754
/// bit pattern of the non-negative difference; bit patterns of non-negative
/// floats order like the floats, so comparing these keys compares distances.
pub uninterp spec fn color_distance(a: Color, b: Color) -> u32;

/// Relies on palette's `Gradient`: its `new` places the two anchors at 0 and
/// 1, and sample `num` of `take(den + 1)` interpolates hue, saturation and
/// value at fraction `num/den`; the sRGB⇄HSV conversions are palette's too.
#[verifier::external_body]
fn blend(a: Color, b: Color, num: usize, den: usize) -> (r: Color)
    requires
        0 < den < usize::MAX,
        num <= den,
    ensures
        r == blend_of(a, b, num, den),
{
    let fa: palette::Hsv = palette::IntoColor::into_color(
        palette::Srgb::new(a.r, a.g, a.b).into_format(),
    );
    let fb: palette::Hsv = palette::IntoColor::into_color(
        palette::Srgb::new(b.r, b.g, b.b).into_format(),
    );
    let mixed = palette::Gradient::new(vec![fa, fb]).take(den + 1).nth(num).unwrap();
    let rgb: palette::Srgb = palette::IntoColor::into_color(mixed);
    let out = rgb.into_format();
    Color { r: out.red, g: out.green, b: out.blue }
}

/// Relies on palette's sRGB→L*a*b* conversion and
/// `Lab::get_color_difference` (CIEDE2000): the difference is a non-negative
/// float determined by the two colors alone; equal colors differ by zero,
/// whose bit pattern is zero.
#[verifier::external_body]
fn distance_key(a: Color, b: Color) -> (r: u32)
    ensures
        r == color_distance(a, b),
        a == b ==> r == 0,
{
    let la: palette::Lab = palette::IntoColor::into_color(
        palette::Srgb::new(a.r, a.g, a.b).into_format(),
    );
    let lb: palette::Lab = palette::IntoColor::into_color(
        palette::Srgb::new(b.r, b.g, b.b).into_format(),
    );
    palette::ColorDifference::get_color_difference(&la, &lb).to_bits()
}

/// Where sample `j` of `len` falls among the anchors, and what color it gets:
/// anchor `i` of `n` sits at `i/(n-1)` along `[0,1]`, samples sit at
/// `j/(len-1)`, and a sample inside a segment is blended at its fractional
/// position.  A single anchor is broadcast to every sample.
pub open spec fn gradient_sample(anchors: Seq<Color>, len: int, j: int) -> Color
    recommends
        anchors.len() >= 1,
        len >= 1,
        0 <= j < len,
{
    let n = anchors.len() as int;
    if n == 1 || len == 1 {
        anchors[0]
    } else {
        let pos = j * (n - 1);
        let den = len - 1;
        let k = if pos / den > n - 2 {
            n - 2
        } else {
            pos / den
        };
        let unum = pos - k * den;
        if unum == 0 {
            anchors[k]
        } else if unum == den {
            anchors[k + 1]
        } else {
            blend_of(anchors[k], anchors[k + 1], unum as usize, den as usize)
        }
    }
}

/// Build a gradient of exactly `len` colors from the ordered anchors,
/// piecewise-linearly interpolated in HSV space.
pub fn make_gradient(colors: &Vec<Color>, len: usize) -> (r: Vec<Color>)
    requires
        colors.len() >= 1,
        len >= 1,
    ensures
        r.len() == len,
        forall|j: int| 0 <= j < len ==> r@[j] == gradient_sample(colors@, len as int, j),
{
    let n = colors.len();
    let mut out: Vec<Color> = Vec::new();
    if n == 1 || len == 1 {
        let c = colors[0];
        for j in 0..len
            invariant
                out.len() == j,
                n == colors.len(),
                c == colors@[0],
                n == 1 || len == 1,
                forall|m: int| 0 <= m < j ==> out@[m] == gradient_sample(colors@, len as int, m),
        {
            out.push(c);
        }
    } else {
        for j in 0..len
            invariant
                out.len() == j,
                n == colors.len(),
                n >= 2,
                len >= 2,
                forall|m: int| 0 <= m < j ==> out@[m] == gradient_sample(colors@, len as int, m),
        {
            proof {
                assert((j as int) * ((n - 1) as int) < 0x1_0000_0000_0000_0000_0000_0000_0000_0000)
                    by (nonlinear_arith)
                    requires
                        0 <= j < 0x1_0000_0000_0000_0000,
                        2 <= n <= 0x1_0000_0000_0000_0000,
                ;
            }
            let pos: u128 = (j as u128) * ((n - 1) as u128);
            let den: u128 = (len - 1) as u128;
            let kw: u128 = pos / den;
            let k: usize = if kw > (n - 2) as u128 {
                n - 2
            } else {
                kw as usize
            };
            proof {
                vstd::arithmetic::div_mod::lemma_fundamental_div_mod(pos as int, den as int);
                assert((k as int) * (den as int) <= (kw as int) * (den as int))
                    by (nonlinear_arith)
                    requires
                        k as int <= kw as int,
                        0 <= k,
                        den as int >= 1,
                ;
                assert((kw as int) * (den as int) <= pos as int);
            }
            let unum: u128 = pos - (k as u128) * den;
            proof {
                let posi = j * (n - 1);
                let deni = len - 1;
                assert(pos == posi && den == deni);
                if kw <= (n - 2) as u128 {
                    assert(kw == posi / deni);
                    vstd::arithmetic::div_mod::lemma_fundamental_div_mod(posi as int, deni as int);
                    assert(unum == posi % deni);
                    assert(0 <= unum < den);
                } else {
                    assert(k == n - 2);
                    assert(posi <= (len - 1) * (n - 1)) by (nonlinear_arith)
                        requires
                            0 <= j < len,
                            n >= 2,
                            posi == j * (n - 1),
                    ;
                    assert(posi / deni >= n - 1) by {
                        assert(kw >= (n - 1) as u128);
                    }
                    assert(posi >= (n - 1) * deni) by {
                        vstd::arithmetic::div_mod::lemma_fundamental_div_mod(
                            posi as int,
                            deni as int,
                        );
                        assert(posi == deni * (posi / deni) + posi % deni);
                        assert(deni * (posi / deni) >= deni * (n - 1)) by (nonlinear_arith)
                            requires
                                posi / deni >= n - 1,
                                deni >= 1,
                        ;
                    }
                    assert((len - 1) * (n - 1) == (n - 1) * deni) by (nonlinear_arith)
                        requires
                            deni == len - 1,
                    ;
                    assert(posi == (n - 1) * deni);
                    assert(unum == posi - (n - 2) * deni);
                    assert((n - 1) * deni - (n - 2) * deni == deni) by (nonlinear_arith);
                    assert(unum == den);
                }
            }
            let c: Color = if unum == 0 {
                colors[k]
            } else if unum == den {
                colors[k + 1]
            } else {
                blend(colors[k], colors[k + 1], unum as usize, den as usize)
            };
            out.push(c);
            proof {
                assert(out@[j as int] == gradient_sample(colors@, len as int, j as int));
            }
        }
    }
    out
}

/// The first index in `pal` of an entry nearest to `c`: a later entry wins
/// only by being strictly nearer.
pub open spec fn nearest_index(c: Color, pal: Seq<Color>) -> int
    decreases pal.len(),
{
    if pal.len() <= 1 {
        0
    } else {
        let prev = nearest_index(c, pal.drop_last());
        if color_distance(c, pal.last()) < color_distance(c, pal[prev]) {
            pal.len() - 1
        } else {
            prev
        }
    }
}

/// Law: the nearest index is in range, no entry is nearer, and every earlier
/// entry is strictly farther (ties keep the first minimum).
pub proof fn lemma_nearest_index_minimal(c: Color, pal: Seq<Color>)
    requires
        pal.len() >= 1,
    ensures
        0 <= nearest_index(c, pal) < pal.len(),
        forall|j: int|
            0 <= j < pal.len() ==> color_distance(c, pal[nearest_index(c, pal)]) <= color_distance(
                c,
                #[trigger] pal[j],
            ),
        forall|j: int|
            0 <= j < nearest_index(c, pal) ==> color_distance(c, #[trigger] pal[j])
                > color_distance(c, pal[nearest_index(c, pal)]),
    decreases pal.len(),
{
    if pal.len() == 1 {
    } else {
        lemma_nearest_index_minimal(c, pal.drop_last());
        assert(forall|j: int| 0 <= j < pal.len() - 1 ==> pal.drop_last()[j] == #[trigger] pal[j]);
    }
}

/// Map every color to the index of the nearest palette entry, scanning the
/// palette in order and keeping the first minimum.  An exact match in the
/// palette is found: the chosen entry is then at distance zero, no later
/// than the first exact occurrence.
pub fn quantize(colors: &Vec<Color>, palette: &Vec<Color>) -> (r: Vec<usize>)
    ensures
        r.len() == colors.len(),
        forall|k: int| 0 <= k < colors.len() ==> r@[k] == nearest_index(colors@[k], palette@),
        forall|k: int, j: int|
            #![trigger colors@[k], palette@[j]]
            0 <= k < colors.len() && 0 <= j < palette.len() && palette@[j] == colors@[k]
                ==> color_distance(colors@[k], palette@[r@[k] as int]) == 0 && r@[k] <= j,
{
    let n = colors.len();
    let pn = palette.len();
    let mut out: Vec<usize> = Vec::new();
    for k in 0..n
        invariant
            out.len() == k,
            n == colors.len(),
            pn == palette.len(),
            forall|m: int| 0 <= m < k ==> out@[m] == nearest_index(colors@[m], palette@),
            forall|m: int, j: int|
                #![trigger colors@[m], palette@[j]]
                0 <= m < k && 0 <= j < pn && palette@[j] == colors@[m] ==> color_distance(
                    colors@[m],
                    palette@[out@[m] as int],
                ) == 0 && out@[m] <= j,
    {
        let c = colors[k];
        if pn == 0 {
            out.push(0);
        } else {
            let mut winner: usize = 0;
            let mut score: u32 = distance_key(c, palette[0]);
            proof {
                assert(palette@.take(1).drop_last() =~= palette@.take(0));
            }
            for i in 1..pn
                invariant
                    pn == palette.len(),
                    1 <= pn,
                    winner < i <= pn,
                    c == colors@[k as int],
                    winner == nearest_index(c, palette@.take(i as int)),
                    score == color_distance(c, palette@[winner as int]),
                    forall|j: int|
                        0 <= j < i && palette@[j] == c ==> score == 0 && winner <= j,
            {
                let d = distance_key(c, palette[i]);
                proof {
                    assert(palette@.take(i + 1).drop_last() =~= palette@.take(i as int));
                    assert(palette@.take(i + 1).last() == palette@[i as int]);
                    let sub = palette@.take(i + 1);
                    assert(sub[winner as int] == palette@[winner as int]);
                }
                if d < score {
                    winner = i;
                    score = d;
                }
            }
            proof {
                assert(palette@.take(pn as int) =~= palette@);
            }
            out.push(winner);
        }
    }
    out
}

/// `quantize`, for colors already in RGB form: the two entry points differ
/// only in how their inputs reach the perceptual space, which the trusted
/// distance wrapper absorbs.
pub fn quantize_rgb(colors: &Vec<Color>, palette: &Vec<Color>) -> (r: Vec<usize>)
    ensures
        r.len() == colors.len(),
        forall|k: int| 0 <= k < colors.len() ==> r@[k] == nearest_index(colors@[k], palette@),
{
    quantize(colors, palette)
}

/// Build a gradient of `len` colors and quantize every entry to the palette.
pub fn make_quantized_gradient(colors: &Vec<Color>, len: usize, palette: &Vec<Color>) -> (r: Vec<
    usize,
>)
    requires
        colors.len() >= 1,
        len >= 1,
    ensures
        r.len() == len,
        forall|j: int|
            0 <= j < len ==> r@[j] == nearest_index(
                gradient_sample(colors@, len as int, j),
                palette@,
            ),
{
    let g = make_gradient(colors, len);
    let q = quantize(&g, palette);
    proof {
        assert(forall|j: int|
            0 <= j < len ==> q@[j] == nearest_index(
                gradient_sample(colors@, len as int, j),
                palette@,
            ));
    }
    q
}

/// One entry of the 6x6x6 color cube's channel scale: 0, then 95 to 255 in
/// steps of 40.
pub open spec fn cube_level(v: int) -> u8 {
    if v == 0 {
        0
    } else {
        (55 + 40 * v) as u8
    }
}

/// Entry `i` of the `xterm-256color` palette tail: the 216-entry color cube
/// followed by 24 greys, i.e. terminal colors 16 to 255.
pub open spec fn xterm_color(i: int) -> Color {
    if i < 216 {
        Color { r: cube_level(i / 36), g: cube_level((i / 6) % 6), b: cube_level(i % 6) }
    } else {
        let v = (8 + 10 * (i - 216)) as u8;
        Color { r: v, g: v, b: v }
    }
}

/// The 240 `xterm-256color` colors above the 16 base entries, as a palette.
pub fn xterm_palette() -> (r: Vec<Color>)
    ensures
        r.len() == 240,
        forall|i: int| 0 <= i < 240 ==> r@[i] == xterm_color(i),
{
    let mut out: Vec<Color> = Vec::new();
    for i in 0..216usize
        invariant
            out.len() == i,
            forall|m: int| 0 <= m < i ==> out@[m] == xterm_color(m),
    {
        let rl: usize = i / 36;
        let gl: usize = (i / 6) % 6;
        let bl: usize = i % 6;
        let c = Color {
            r: if rl == 0 { 0 } else { (55 + 40 * rl) as u8 },
            g: if gl == 0 { 0 } else { (55 + 40 * gl) as u8 },
            b: if bl == 0 { 0 } else { (55 + 40 * bl) as u8 },
        };
        out.push(c);
    }
    for i in 216..240usize
        invariant
            out.len() == i,
            forall|m: int| 0 <= m < i ==> out@[m] == xterm_color(m),
    {
        let v: u8 = (8 + 10 * (i - 216)) as u8;
        out.push(Color { r: v, g: v, b: v });
    }
    out
}

/// The decimal digits of `v`, most significant first.
pub open spec fn dec_digits(v: nat) -> Seq<u8>
    decreases v,
{
    if v <= 9 {
        seq![(48 + v) as u8]
    } else {
        dec_digits(v / 10).push((48 + v % 10) as u8)
    }
}

/// The lowercase hex digit for a value below 16.
pub open spec fn hex_digit(d: int) -> u8 {
    if d < 10 {
        (48 + d) as u8
    } else {
        (87 + d) as u8
    }
}

/// The lowercase hex digits of `v`, most significant first.
pub open spec fn hex_digits(v: nat) -> Seq<u8>
    decreases v,
{
    if v <= 15 {
        seq![hex_digit(v as int)]
    } else {
        hex_digits(v / 16).push(hex_digit((v % 16) as int))
    }
}

/// `v` in hex, zero-padded on the left to at least eight digits.
pub open spec fn hex8(v: nat) -> Seq<u8> {
    Seq::new(if hex_digits(v).len() >= 8 { 0 } else { (8 - hex_digits(v).len()) as nat }, |i: int| 48u8)
        + hex_digits(v)
}

/// Append the decimal digits of `v`.
pub fn push_dec(out: &mut Vec<u8>, v: u64)
    ensures
        final(out)@ == old(out)@ + dec_digits(v as nat),
    decreases v,
{
    if v <= 9 {
        out.push(48 + v as u8);
        proof {
            assert(final(out)@ =~= old(out)@ + dec_digits(v as nat));
        }
    } else {
        push_dec(out, v / 10);
        out.push(48 + (v % 10) as u8);
        proof {
            assert(final(out)@ =~= old(out)@ + dec_digits(v as nat));
        }
    }
}

/// Append the hex digits of `v`.
fn push_hex(out: &mut Vec<u8>, v: u64)
    ensures
        final(out)@ == old(out)@ + hex_digits(v as nat),
    decreases v,
{
    let d: u8 = (v % 16) as u8;
    let dc: u8 = if d < 10 {
        48 + d
    } else {
        87 + d
    };
    if v <= 15 {
        out.push(dc);
        proof {
            assert(final(out)@ =~= old(out)@ + hex_digits(v as nat));
        }
    } else {
        push_hex(out, v / 16);
        out.push(dc);
        proof {
            assert(final(out)@ =~= old(out)@ + hex_digits(v as nat));
        }
    }
}

/// The number of hex digits of `v` is how long its digit sequence is.
proof fn lemma_hex_digits_len(v: nat)
    ensures
        hex_digits(v).len() >= 1,
    decreases v,
{
    if v <= 15 {
    } else {
        lemma_hex_digits_len(v / 16);
    }
}

/// Append `v` in hex, zero-padded on the left to at least eight digits.
pub fn push_hex8(out: &mut Vec<u8>, v: u64)
    ensures
        final(out)@ == old(out)@ + hex8(v as nat),
{
    let mut tmp: Vec<u8> = Vec::new();
    push_hex(&mut tmp, v);
    proof {
        lemma_hex_digits_len(v as nat);
    }
    let nd = tmp.len();
    let mut z = nd;
    proof {
        assert(out@ =~= old(out)@ + Seq::new(0, |i: int| 48u8));
    }
    while z < 8
        invariant
            nd <= z,
            z <= 8 || z == nd,
            tmp@ == hex_digits(v as nat),
            nd == tmp.len(),
            out@ == old(out)@ + Seq::new((z - nd) as nat, |i: int| 48u8),
        decreases 8 - z,
    {
        out.push(48);
        proof {
            assert(out@ =~= old(out)@ + Seq::new((z + 1 - nd) as nat, |i: int| 48u8));
        }
        z = z + 1;
    }
    out.append(&mut tmp);
    proof {
        assert(final(out)@ =~= old(out)@ + hex8(v as nat));
    }
}

/// A color as a terminal can show it: one of the dark or bright base colors,
/// an indexed palette entry, a 24-bit color, or the default.
#[derive(Clone, Copy, PartialEq, Eq, Structural, Debug)]
pub enum TermColor {
    Dark(u8),
    Bright(u8),
    Index(usize),
    Rgb(Color),
    Reset,
}

/// The ANSI escape that sets the foreground to this color.
pub open spec fn fg_bytes(tc: TermColor) -> Seq<u8> {
    match tc {
        TermColor::Dark(c) => seq![27u8, 91u8] + dec_digits(((c & 7) + 30) as nat) + seq![109u8],
        TermColor::Bright(c) => seq![27u8, 91u8] + dec_digits(((c & 7) + 90) as nat) + seq![109u8],
        TermColor::Index(i) => seq![27u8, 91u8, 51u8, 56u8, 59u8, 53u8, 59u8] + dec_digits(
            i as nat,
        ) + seq![109u8],
        TermColor::Rgb(c) => seq![27u8, 91u8, 51u8, 56u8, 59u8, 50u8, 59u8] + dec_digits(c.r as nat)
            + seq![59u8] + dec_digits(c.g as nat) + seq![59u8] + dec_digits(c.b as nat)
            + seq![109u8],
        TermColor::Reset => seq![27u8, 91u8, 51u8, 57u8, 109u8],
    }
}

/// The ANSI escape that sets the background to this color.
pub open spec fn bg_bytes(tc: TermColor) -> Seq<u8> {
    match tc {
        TermColor::Dark(c) => seq![27u8, 91u8] + dec_digits(((c & 7) + 40) as nat) + seq![109u8],
        TermColor::Bright(c) => seq![27u8, 91u8] + dec_digits(((c & 7) + 100) as nat) + seq![109u8],
        TermColor::Index(i) => seq![27u8, 91u8, 52u8, 56u8, 59u8, 53u8, 59u8] + dec_digits(
            i as nat,
        ) + seq![109u8],
        TermColor::Rgb(c) => seq![27u8, 91u8, 52u8, 56u8, 59u8, 50u8, 59u8] + dec_digits(c.r as nat)
            + seq![59u8] + dec_digits(c.g as nat) + seq![59u8] + dec_digits(c.b as nat)
            + seq![109u8],
        TermColor::Reset => seq![27u8, 91u8, 52u8, 57u8, 109u8],
    }
}

impl TermColor {
    /// Append the escape that sets the foreground on a terminal to this color.
    pub fn fg(self, out: &mut Vec<u8>)
        ensures
            final(out)@ == old(out)@ + fg_bytes(self),
    {
        out.push(27);
        out.push(91);
        match self {
            TermColor::Dark(c) => {
                proof {
                    assert((c & 7) <= 7) by (bit_vector);
                }
                push_dec(out, ((c & 7) + 30) as u64);
                out.push(109);
            },
            TermColor::Bright(c) => {
                proof {
                    assert((c & 7) <= 7) by (bit_vector);
                }
                push_dec(out, ((c & 7) + 90) as u64);
                out.push(109);
            },
            TermColor::Index(i) => {
                out.push(51);
                out.push(56);
                out.push(59);
                out.push(53);
                out.push(59);
                push_dec(out, i as u64);
                out.push(109);
            },
            TermColor::Rgb(c) => {
                out.push(51);
                out.push(56);
                out.push(59);
                out.push(50);
                out.push(59);
                push_dec(out, c.r as u64);
                out.push(59);
                push_dec(out, c.g as u64);
                out.push(59);
                push_dec(out, c.b as u64);
                out.push(109);
            },
            TermColor::Reset => {
                out.push(51);
                out.push(57);
                out.push(109);
            },
        }
        proof {
            assert(final(out)@ =~= old(out)@ + fg_bytes(self));
        }
    }

    /// Append the escape that sets the background on a terminal to this color.
    pub fn bg(self, out: &mut Vec<u8>)
        ensures
            final(out)@ == old(out)@ + bg_bytes(self),
    {
        out.push(27);
        out.push(91);
        match self {
            TermColor::Dark(c) => {
                proof {
                    assert((c & 7) <= 7) by (bit_vector);
                }
                push_dec(out, ((c & 7) + 40) as u64);
                out.push(109);
            },
            TermColor::Bright(c) => {
                proof {
                    assert((c & 7) <= 7) by (bit_vector);
                }
                push_dec(out, ((c & 7) + 100) as u64);
                out.push(109);
            },
            TermColor::Index(i) => {
                out.push(52);
                out.push(56);
                out.push(59);
                out.push(53);
                out.push(59);
                push_dec(out, i as u64);
                out.push(109);
            },
            TermColor::Rgb(c) => {
                out.push(52);
                out.push(56);
                out.push(59);
                out.push(50);
                out.push(59);
                push_dec(out, c.r as u64);
                out.push(59);
                push_dec(out, c.g as u64);
                out.push(59);
                push_dec(out, c.b as u64);
                out.push(109);
            },
            TermColor::Reset => {
                out.push(52);
                out.push(57);
                out.push(109);
            },
        }
        proof {
            assert(final(out)@ =~= old(out)@ + bg_bytes(self));
        }
    }
}

} // verus!
