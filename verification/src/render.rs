//! The streaming render engine.
//!
//! Input bytes arrive one at a time and are grouped into chunks sized so
//! base-N glyph boundaries align to byte boundaries.  Each chunk is laid out
//! into glyphs, words and lines, colored through the calculator and the color
//! ramp, and emitted as ANSI-escaped text; an optional ASCII side panel echoes
//! the raw bytes of each line.  The whole pass is a pure function of the
//! configuration and the input, stated by `render_spec`.

use vstd::prelude::*;

use crate::calculator::Calc;
use crate::calculator::Op;
use crate::calculator::calc_value;
use crate::calculator::mask_of;
use crate::color::Color;
use crate::color::TermColor;
use crate::color::fg_bytes;
use crate::color::hex8;
use crate::color::gradient_sample;
use crate::color::nearest_index;
use crate::color::xterm_color;
use crate::color::make_gradient;
use crate::color::make_quantized_gradient;
use crate::color::quantize_rgb;
use crate::color::xterm_palette;
use crate::color::push_hex8;

verus! {

/// Colors for the five ASCII panel categories.
#[derive(Clone, Copy, PartialEq, Eq, Structural, Debug)]
pub struct AsciiOpts {
    pub unprintable: Color,
    pub upper: Color,
    pub lower: Color,
    pub number: Color,
    pub punct: Color,
}

/// What counter labels each output row: nothing, the byte offset, the word
/// index, or the line index.
#[derive(Clone, Copy, PartialEq, Eq, Structural, Debug)]
pub enum RowLabelStyle {
    Hidden,
    Byte,
    Word,
    Line,
}

/// Configuration for one rendering run.  `bytes_per_word` counts chunks, as
/// the layout works chunk by chunk; for single-byte chunks the two agree.
pub struct RenderOpts {
    pub log2_base: u32,
    pub bytes_per_word: u32,
    pub words_per_line: u32,
    /// Byte order for multi-byte word display; byte order within a chunk is
    /// always little-endian.
    pub little_endian: bool,
    pub display_offset_start: u64,
    pub limit: u64,
    pub gradient: Vec<Color>,
    pub use_truecolor: bool,
    pub color_single_glyphs: bool,
    pub ascii: Option<AsciiOpts>,
    pub uppercase: bool,
    pub row_label_style: RowLabelStyle,
    pub calc: Calc,
}

/// How many bytes one chunk holds: lcm(8, log2(base)) / 8.
pub open spec fn chunk_len_of(l2b: u32) -> u64 {
    if l2b == 3 {
        3
    } else if l2b == 5 {
        5
    } else if l2b == 6 {
        3
    } else {
        1
    }
}

/// How many glyphs one chunk decodes to: 8 * chunk_len / log2(base),
/// spelled out per base width.
pub open spec fn glyphs_per_chunk(l2b: u32) -> u64 {
    if l2b == 2 {
        4
    } else if l2b == 4 {
        2
    } else if l2b == 6 {
        4
    } else {
        8
    }
}

/// The glyph columns of one full line: glyphs plus inter-word spaces.
pub open spec fn line_glyphs_of(o: RenderOpts) -> int {
    o.words_per_line as int * o.bytes_per_word as int * glyphs_per_chunk(o.log2_base) as int
        + o.words_per_line as int - 1
}

/// The raw bytes of one full line.
pub open spec fn line_bytes_of(o: RenderOpts) -> int {
    o.words_per_line as int * o.bytes_per_word as int * chunk_len_of(o.log2_base) as int
}

/// A well-formed configuration: a power-of-two base up to 64, at least one
/// chunk per word and word per line, at least one gradient anchor, no
/// uppercase glyphs in base 64 (case is semantic there), and a line short
/// enough to count on this machine.
pub open spec fn valid_opts(o: RenderOpts) -> bool {
    &&& 1 <= o.log2_base <= 6
    &&& o.bytes_per_word >= 1
    &&& o.words_per_line >= 1
    &&& o.gradient.len() >= 1
    &&& !(o.uppercase && o.log2_base == 6)
    &&& line_glyphs_of(o) + 1 <= usize::MAX
}

/// A chunk never holds more bytes than a line.
proof fn lemma_chunk_le_glyphs(l2b: u32)
    requires
        1 <= l2b <= 6,
    ensures
        1 <= chunk_len_of(l2b) <= glyphs_per_chunk(l2b),
        glyphs_per_chunk(l2b) <= 8,
{
    if l2b == 1 {
        assert(glyphs_per_chunk(1) == 8);
    } else if l2b == 2 {
        assert(glyphs_per_chunk(2) == 4);
    } else if l2b == 3 {
        assert(glyphs_per_chunk(3) == 8);
    } else if l2b == 4 {
        assert(glyphs_per_chunk(4) == 2);
    } else if l2b == 5 {
        assert(glyphs_per_chunk(5) == 8);
    } else {
        assert(glyphs_per_chunk(6) == 4);
    }
}

/// The color ramp, in 24-bit colors or as palette indices.
pub enum Ramp {
    True(Vec<Color>),
    Quantized(Vec<usize>),
}

/// The ramp as its abstract contents.
#[verifier::ext_equal]
pub ghost enum RampModel {
    True(Seq<Color>),
    Quantized(Seq<usize>),
}

pub open spec fn ramp_model(r: Ramp) -> RampModel {
    match r {
        Ramp::True(v) => RampModel::True(v@),
        Ramp::Quantized(v) => RampModel::Quantized(v@),
    }
}

pub open spec fn ramp_model_wf(r: RampModel, len: int) -> bool {
    match r {
        RampModel::True(s) => s.len() == len,
        RampModel::Quantized(s) => s.len() == len && forall|i: int| 0 <= i < s.len() ==> s[i] < 240,
    }
}

/// The terminal color of ramp entry `idx`: the color itself, or its palette
/// index shifted past the 16 base terminal colors.
pub open spec fn ramp_tc(r: RampModel, idx: int) -> TermColor {
    match r {
        RampModel::True(s) => TermColor::Rgb(s[idx]),
        RampModel::Quantized(s) => TermColor::Index((s[idx] + 16) as usize),
    }
}

/// The state the engine carries between chunks, as plain values.
#[verifier::ext_equal]
pub ghost struct Model {
    pub log2_base: u32,
    pub bytes_per_word: u32,
    pub words_per_line: u32,
    pub limit: u64,
    pub color_single_glyphs: bool,
    pub uppercase: bool,
    pub row_label_style: RowLabelStyle,
    pub ops: Seq<Op>,
    pub ramp: RampModel,
    pub ascii_ramp: Option<RampModel>,
    pub chunk: Seq<u8>,
    pub started: bool,
    pub chunk_in_word: u32,
    pub word_in_line: u32,
    pub last_color: Option<u64>,
    pub glyphs_in_line: u64,
    pub ascii_buf: Seq<u8>,
    pub file_offset: u64,
    pub done: bool,
}

/// The little-endian value of a byte sequence.
pub open spec fn le_value(bytes: Seq<u8>) -> nat
    decreases bytes.len(),
{
    if bytes.len() == 0 {
        0
    } else {
        (bytes[0] + 256 * le_value(bytes.drop_first())) as nat
    }
}

/// The ASCII panel category of a byte: unprintable, uppercase, lowercase,
/// digit, or punctuation.
pub open spec fn ascii_category(b: u8) -> u8 {
    if 65 <= b <= 90 {
        1
    } else if 97 <= b <= 122 {
        2
    } else if 48 <= b <= 57 {
        3
    } else if (33 <= b <= 47) || (58 <= b <= 64) || (91 <= b <= 96) || (123 <= b <= 126) {
        4
    } else {
        0
    }
}

/// How the panel echoes one byte: printable bytes as themselves, the rest as
/// the placeholder glyph (a UTF-8 middle dot).
pub open spec fn panel_char(b: u8) -> Seq<u8> {
    if 0x1f < b < 0x7f {
        seq![b]
    } else {
        seq![0xc2u8, 0xb7u8]
    }
}

/// The panel text for a run of bytes, with color escapes emitted only when
/// the category changes.
pub open spec fn panel_body(bytes: Seq<u8>, ar: RampModel, last: Option<u8>) -> Seq<u8>
    decreases bytes.len(),
{
    if bytes.len() == 0 {
        Seq::<u8>::empty()
    } else {
        let cat = ascii_category(bytes[0]);
        let esc = if last == Some(cat) {
            Seq::<u8>::empty()
        } else {
            fg_bytes(ramp_tc(ar, cat as int))
        };
        esc + panel_char(bytes[0]) + panel_body(bytes.drop_first(), ar, Some(cat))
    }
}

/// `count` zero bytes.
pub open spec fn zero_pad(count: int) -> Seq<u8> {
    Seq::new(if count <= 0 { 0 } else { count as nat }, |i: int| 0u8)
}

/// One flushed panel: the buffered bytes zero-padded to a full line, framed
/// by `  |` and `|`, reset to the default color on both sides.
pub open spec fn panel_spec(buf: Seq<u8>, lb: int, ar: RampModel) -> Seq<u8> {
    fg_bytes(TermColor::Reset) + seq![32u8, 32u8, 124u8] + panel_body(
        buf + zero_pad(lb - buf.len()),
        ar,
        Option::None,
    ) + fg_bytes(TermColor::Reset) + seq![124u8]
}

/// What flushing a panel emits: nothing when the panel is disabled.
pub open spec fn panel_flush_of(ar: Option<RampModel>, buf: Seq<u8>, lb: int) -> Seq<u8> {
    match ar {
        Option::Some(a) => panel_spec(buf, lb, a),
        Option::None => Seq::<u8>::empty(),
    }
}

/// What the engine's panel flush emits.
pub open spec fn panel_flush_out(m: Model) -> Seq<u8> {
    panel_flush_of(
        m.ascii_ramp,
        m.ascii_buf,
        m.words_per_line as int * m.bytes_per_word as int * chunk_len_of(m.log2_base) as int,
    )
}

/// A row label: `0x`, the counter in at least eight hex digits, `:` and two
/// spaces.
pub open spec fn label_of(v: nat) -> Seq<u8> {
    seq![48u8, 120u8] + hex8(v) + seq![58u8, 32u8, 32u8]
}

/// The label of the row starting at absolute offset `off`, per the style.
pub open spec fn label_out(m: Model) -> Seq<u8> {
    let word_size = chunk_len_of(m.log2_base) as int * m.bytes_per_word as int;
    let line_size = word_size * m.words_per_line as int;
    match m.row_label_style {
        RowLabelStyle::Hidden => Seq::<u8>::empty(),
        RowLabelStyle::Byte => label_of(m.file_offset as nat),
        RowLabelStyle::Word => label_of((m.file_offset as int / word_size) as nat),
        RowLabelStyle::Line => label_of((m.file_offset as int / line_size) as nat),
    }
}

/// What a chunk emits before its glyphs: at a line start, the previous
/// line's panel and newline (once a line exists), a color reset and the row
/// label; at a word start inside a line, a single space.
pub open spec fn prefix_out(m: Model) -> Seq<u8> {
    if m.chunk_in_word == 0 {
        if m.word_in_line == 0 {
            (if m.started {
                panel_flush_out(m) + seq![10u8]
            } else {
                Seq::<u8>::empty()
            }) + fg_bytes(TermColor::Reset) + label_out(m)
        } else {
            seq![32u8]
        }
    } else {
        Seq::<u8>::empty()
    }
}

/// The glyph character: digits, then lowercase, uppercase, `+` and `/`; or
/// the 36-character uppercase alphabet.
pub open spec fn alphabet_char(i: int, uppercase: bool) -> u8 {
    if uppercase {
        if i < 10 {
            (48 + i) as u8
        } else {
            (55 + i) as u8
        }
    } else {
        if i < 10 {
            (48 + i) as u8
        } else if i < 36 {
            (87 + i) as u8
        } else if i < 62 {
            (29 + i) as u8
        } else if i == 62 {
            43
        } else {
            47
        }
    }
}

/// The glyph in the top `l2b` bits of the chunk value's `cbits`-bit window.
pub open spec fn glyph_at(bits: u64, cbits: u32, l2b: u32) -> u64 {
    (bits >> ((cbits - l2b) as u32)) & (((1u64 << l2b) - 1) as u64)
}

/// Scale a `maxv`-bounded value onto the 256-entry ramp, the top value
/// landing exactly on index 255.
pub open spec fn scale_255(v: u64, maxv: u64) -> int {
    (v as int * 255) / (maxv as int)
}

/// The glyph characters of a chunk, interleaved (in per-glyph color mode)
/// with color escapes de-duplicated against the last emitted color; yields
/// the text and the color cache after the run.
pub open spec fn glyphs_out(m: Model, bits: u64, g: nat, last: Option<u64>) -> (Seq<u8>, Option<
    u64,
>)
    decreases g,
{
    if g == 0 {
        (Seq::<u8>::empty(), last)
    } else {
        let cbits = (8 * chunk_len_of(m.log2_base)) as u32;
        let glyph = glyph_at(bits, cbits, m.log2_base);
        let (esc, last1): (Seq<u8>, Option<u64>) = if m.color_single_glyphs {
            let v = calc_value(m.ops, glyph, m.log2_base);
            if last == Some(v) {
                (Seq::<u8>::empty(), last)
            } else {
                (fg_bytes(ramp_tc(m.ramp, scale_255(v, mask_of(m.log2_base)))), Some(v))
            }
        } else {
            (Seq::<u8>::empty(), last)
        };
        let ch = alphabet_char(glyph as int, m.uppercase);
        let (rest, last2) = glyphs_out(m, bits << m.log2_base, (g - 1) as nat, last1);
        (esc + seq![ch] + rest, last2)
    }
}

/// The per-chunk color escape (default mode): one calculator run over the
/// whole chunk value, scaled onto the ramp, emitted only when it changes.
pub open spec fn chunk_color_out(m: Model, bits: u64, last: Option<u64>) -> (Seq<u8>, Option<
    u64,
>) {
    if m.color_single_glyphs {
        (Seq::<u8>::empty(), last)
    } else {
        let cbits = (8 * chunk_len_of(m.log2_base)) as u32;
        let v = calc_value(m.ops, bits, cbits);
        if last == Some(v) {
            (Seq::<u8>::empty(), last)
        } else {
            (fg_bytes(ramp_tc(m.ramp, scale_255(v, mask_of(cbits)))), Some(v))
        }
    }
}

/// The engine state after a chunk's line/word bookkeeping: at a line start
/// the color cache, glyph column count and panel buffer reset; at a word
/// start inside a line the separating space is counted.
pub open spec fn after_prefix(m: Model) -> Model {
    let line_start = m.chunk_in_word == 0 && m.word_in_line == 0;
    let word_start = m.chunk_in_word == 0;
    Model {
        last_color: if line_start {
            Option::None
        } else {
            m.last_color
        },
        glyphs_in_line: if line_start && m.started {
            0
        } else if word_start && !line_start {
            m.glyphs_in_line.wrapping_add(1)
        } else {
            m.glyphs_in_line
        },
        ascii_buf: if line_start && m.started && m.ascii_ramp is Some {
            Seq::<u8>::empty()
        } else {
            m.ascii_buf
        },
        ..m
    }
}

/// Drawing a chunk's body, after the bookkeeping: the (de-duplicated) color
/// escape, the glyphs, the panel buffering, and the advanced counters.
pub open spec fn draw_body_result(m1: Model, bytes: Seq<u8>) -> (Model, Seq<u8>) {
    let bits = le_value(bytes) as u64;
    let (out2, last2) = chunk_color_out(m1, bits, m1.last_color);
    let (out3, last3) = glyphs_out(m1, bits, glyphs_per_chunk(m1.log2_base) as nat, last2);
    let buf2 = if m1.ascii_ramp is Some {
        m1.ascii_buf + bytes
    } else {
        m1.ascii_buf
    };
    let ciw2: u32 = if m1.chunk_in_word + 1 == m1.bytes_per_word {
        0
    } else {
        (m1.chunk_in_word + 1) as u32
    };
    let wil2: u32 = if ciw2 != 0 {
        m1.word_in_line
    } else if m1.word_in_line + 1 == m1.words_per_line {
        0
    } else {
        (m1.word_in_line + 1) as u32
    };
    let m2 = Model {
        chunk: Seq::<u8>::empty(),
        started: true,
        chunk_in_word: ciw2,
        word_in_line: wil2,
        last_color: last3,
        glyphs_in_line: m1.glyphs_in_line.wrapping_add(glyphs_per_chunk(m1.log2_base)),
        ascii_buf: buf2,
        file_offset: m1.file_offset.wrapping_add(bytes.len() as u64),
        ..m1
    };
    (m2, out2 + out3)
}

/// Drawing one chunk: the line/word prefix, then the chunk body.
pub open spec fn draw_result(m: Model, bytes: Seq<u8>) -> (Model, Seq<u8>) {
    let m1 = after_prefix(m);
    let (m2, o) = draw_body_result(m1, bytes);
    (m2, prefix_out(m) + o)
}

/// Feeding one byte: nothing once the run is done or the chunk countdown has
/// reached zero; otherwise the byte joins the chunk, and a full chunk is
/// drawn.  The flag says whether the engine accepts more input.
pub open spec fn push_result(m: Model, b: u8) -> (Model, Seq<u8>, bool) {
    if m.done {
        (m, Seq::<u8>::empty(), false)
    } else if m.limit == 0 {
        (Model { done: true, ..m }, Seq::<u8>::empty(), false)
    } else {
        let c2 = m.chunk.push(b);
        if c2.len() == chunk_len_of(m.log2_base) {
            let (m2, out) = draw_result(Model { limit: (m.limit - 1) as u64, chunk: c2, ..m }, c2);
            (m2, out, true)
        } else {
            (Model { chunk: c2, ..m }, Seq::<u8>::empty(), true)
        }
    }
}

/// `count` spaces.
pub open spec fn space_pad(count: int) -> Seq<u8> {
    Seq::new(if count <= 0 { 0 } else { count as nat }, |i: int| 32u8)
}

/// Finishing the run: a pending partial chunk is drawn zero-padded, a
/// pending panel is aligned with spaces and flushed, and the color resets.
pub open spec fn finish_result(m: Model) -> Seq<u8> {
    let (m1, out1): (Model, Seq<u8>) = if m.chunk.len() > 0 && !m.done {
        draw_result(m, m.chunk)
    } else {
        (m, Seq::<u8>::empty())
    };
    let lg = m.words_per_line as int * m.bytes_per_word as int * glyphs_per_chunk(
        m.log2_base,
    ) as int + m.words_per_line as int - 1;
    let out2 = if m1.ascii_ramp is Some && m1.ascii_buf.len() > 0 {
        space_pad(lg - m1.glyphs_in_line as int) + panel_flush_out(m1)
    } else {
        Seq::<u8>::empty()
    };
    out1 + out2 + fg_bytes(TermColor::Reset) + seq![10u8]
}

/// Feeding a whole input, stopping where the engine does.
pub open spec fn run_bytes(m: Model, input: Seq<u8>) -> (Model, Seq<u8>)
    decreases input.len(),
{
    if input.len() == 0 {
        (m, Seq::<u8>::empty())
    } else {
        let (m1, o1, more) = push_result(m, input[0]);
        if !more {
            (m1, o1)
        } else {
            let (m2, o2) = run_bytes(m1, input.drop_first());
            (m2, o1 + o2)
        }
    }
}

/// A full rendering pass over an in-memory input.
pub open spec fn render_spec(m: Model, input: Seq<u8>) -> Seq<u8> {
    let (m1, o) = run_bytes(m, input);
    o + finish_result(m1)
}

/// The fixed terminal palette the quantized ramps are built against.
pub open spec fn xterm_seq() -> Seq<Color> {
    Seq::new(240, |i: int| xterm_color(i))
}

/// The 256-entry color ramp a configuration builds at startup.
pub open spec fn ramp_of(o: RenderOpts) -> RampModel {
    if o.use_truecolor {
        RampModel::True(Seq::new(256, |j: int| gradient_sample(o.gradient@, 256, j)))
    } else {
        RampModel::Quantized(
            Seq::new(
                256,
                |j: int| nearest_index(gradient_sample(o.gradient@, 256, j), xterm_seq()) as usize,
            ),
        )
    }
}

/// The five panel colors in category order.
pub open spec fn ascii_colors_of(a: AsciiOpts) -> Seq<Color> {
    seq![a.unprintable, a.upper, a.lower, a.number, a.punct]
}

/// The panel's five-entry ramp, if the panel is enabled.
pub open spec fn ascii_ramp_of(o: RenderOpts) -> Option<RampModel> {
    match o.ascii {
        Option::Some(a) => Option::Some(
            if o.use_truecolor {
                RampModel::True(ascii_colors_of(a))
            } else {
                RampModel::Quantized(
                    Seq::new(5, |j: int| nearest_index(ascii_colors_of(a)[j], xterm_seq()) as usize),
                )
            },
        ),
        Option::None => Option::None,
    }
}

/// The engine state a configuration starts from.
pub open spec fn init_model(o: RenderOpts) -> Model {
    Model {
        log2_base: o.log2_base,
        bytes_per_word: o.bytes_per_word,
        words_per_line: o.words_per_line,
        limit: o.limit,
        color_single_glyphs: o.color_single_glyphs,
        uppercase: o.uppercase,
        row_label_style: o.row_label_style,
        ops: o.calc.0@,
        ramp: ramp_of(o),
        ascii_ramp: ascii_ramp_of(o),
        chunk: Seq::<u8>::empty(),
        started: false,
        chunk_in_word: 0,
        word_in_line: 0,
        last_color: Option::None,
        glyphs_in_line: 0,
        ascii_buf: Seq::<u8>::empty(),
        file_offset: o.display_offset_start,
        done: false,
    }
}

/// Law: rendering is deterministic — the same configuration and the same
/// input yield byte-identical output, however often the pass is repeated.
pub proof fn lemma_render_deterministic(o1: RenderOpts, o2: RenderOpts, in1: Seq<u8>, in2: Seq<u8>)
    requires
        o1 == o2,
        in1 == in2,
    ensures
        render_spec(init_model(o1), in1) == render_spec(init_model(o2), in2),
{
}

fn copy_colors(v: &Vec<Color>) -> (r: Vec<Color>)
    ensures
        r@ == v@,
{
    let mut out: Vec<Color> = Vec::new();
    for i in 0..v.len()
        invariant
            out@ == v@.take(i as int),
    {
        out.push(v[i]);
        proof {
            assert(out@ =~= v@.take(i + 1));
        }
    }
    proof {
        assert(v@.take(v@.len() as int) =~= v@);
    }
    out
}

fn copy_ops(v: &Vec<Op>) -> (r: Vec<Op>)
    ensures
        r@ == v@,
{
    let mut out: Vec<Op> = Vec::new();
    for i in 0..v.len()
        invariant
            out@ == v@.take(i as int),
    {
        out.push(v[i]);
        proof {
            assert(out@ =~= v@.take(i + 1));
        }
    }
    proof {
        assert(v@.take(v@.len() as int) =~= v@);
    }
    out
}

impl Ramp {
    /// The terminal color of entry `idx`.
    fn color(&self, idx: usize) -> (r: TermColor)
        requires
            match ramp_model(*self) {
                RampModel::True(s) => idx < s.len(),
                RampModel::Quantized(s) => idx < s.len() && s[idx as int] < 240,
            },
        ensures
            r == ramp_tc(ramp_model(*self), idx as int),
    {
        match self {
            Ramp::True(v) => TermColor::Rgb(v[idx]),
            Ramp::Quantized(v) => TermColor::Index(v[idx] + 16),
        }
    }
}

pub open spec fn opt_ramp_model(o: Option<Ramp>) -> Option<RampModel> {
    match o {
        Option::Some(r) => Option::Some(ramp_model(r)),
        Option::None => Option::None,
    }
}

/// Flush a pending ASCII panel: pad the buffered bytes with zeros to a full
/// line, emit the framed, colorized echo, and clear the buffer.  Disabled
/// panels emit and change nothing.
#[verifier::rlimit(50)]
fn flush_panel(ar: &Option<Ramp>, buf: &mut Vec<u8>, out: &mut Vec<u8>, lb: u64)
    requires
        match opt_ramp_model(*ar) {
            Option::Some(a) => ramp_model_wf(a, 5),
            Option::None => true,
        },
    ensures
        final(out)@ == old(out)@ + panel_flush_of(opt_ramp_model(*ar), old(buf)@, lb as int),
        final(buf)@ == (if ar is Some {
            Seq::<u8>::empty()
        } else {
            old(buf)@
        }),
{
    match ar {
        Option::None => {},
        Option::Some(rampv) => {
            while (buf.len() as u64) < lb
                invariant
                    buf@ == old(buf)@ + zero_pad(buf@.len() - old(buf)@.len()),
                    buf@.len() >= old(buf)@.len(),
                    (old(buf)@.len() >= lb && buf@.len() == old(buf)@.len()) || buf@.len()
                        <= lb,
                decreases lb - buf@.len(),
            {
                buf.push(0);
                proof {
                    assert(buf@ =~= old(buf)@ + zero_pad(buf@.len() - old(buf)@.len()));
                }
            }
            let ghost padded = buf@;
            proof {
                assert(padded =~= old(buf)@ + zero_pad(lb - old(buf)@.len()));
            }
            TermColor::Reset.fg(out);
            out.push(32);
            out.push(32);
            out.push(124);
            let ghost base = out@;
            let ghost arm = ramp_model(*rampv);
            let mut have_last: bool = false;
            let mut last: u8 = 0;
            let ghost mut emitted: Seq<u8> = Seq::<u8>::empty();
            let n = buf.len();
            proof {
                assert(padded.skip(0) =~= padded);
                assert(emitted + panel_body(padded, arm, Option::None) =~= panel_body(
                    padded,
                    arm,
                    Option::None,
                ));
            }
            for i in 0..n
                invariant
                    n == buf@.len(),
                    buf@ == padded,
                    out@ == base + emitted,
                    arm == ramp_model(*rampv),
                    ramp_model_wf(arm, 5),
                    panel_body(padded, arm, Option::None) == emitted + panel_body(
                        padded.skip(i as int),
                        arm,
                        if have_last {
                            Option::Some(last)
                        } else {
                            Option::None
                        },
                    ),
            {
                proof {
                    assert(padded.skip(i as int)[0] == padded[i as int]);
                    assert(padded.skip(i as int).drop_first() =~= padded.skip(i + 1));
                }
                let bb = buf[i];
                let cat: u8 = if 65 <= bb && bb <= 90 {
                    1
                } else if 97 <= bb && bb <= 122 {
                    2
                } else if 48 <= bb && bb <= 57 {
                    3
                } else if (33 <= bb && bb <= 47) || (58 <= bb && bb <= 64) || (91 <= bb && bb
                    <= 96) || (123 <= bb && bb <= 126) {
                    4
                } else {
                    0
                };
                if !(have_last && last == cat) {
                    let tc = rampv.color(cat as usize);
                    tc.fg(out);
                    have_last = true;
                    last = cat;
                    proof {
                        emitted = emitted + fg_bytes(ramp_tc(arm, cat as int));
                    }
                }
                if bb > 0x1f && bb < 0x7f {
                    out.push(bb);
                } else {
                    out.push(0xc2);
                    out.push(0xb7);
                }
                proof {
                    emitted = emitted + panel_char(bb);
                    assert(out@ =~= base + emitted);
                }
            }
            proof {
                assert(padded.skip(n as int) =~= Seq::<u8>::empty());
            }
            TermColor::Reset.fg(out);
            out.push(124);
            buf.clear();
            proof {
                assert(final(out)@ =~= old(out)@ + panel_flush_of(
                    opt_ramp_model(*ar),
                    old(buf)@,
                    lb as int,
                ));
            }
        },
    }
}

/// Emit the glyphs of one chunk, updating the color cache; in per-glyph
/// color mode each glyph is colored through the calculator first.
#[verifier::rlimit(50)]
fn emit_glyphs(
    calc: &Calc,
    ramp: &Ramp,
    stack: &mut Vec<u64>,
    last: &mut Option<u64>,
    out: &mut Vec<u8>,
    bits0: u64,
    l2b: u32,
    single: bool,
    uppercase: bool,
    Ghost(m): Ghost<Model>,
)
    requires
        1 <= l2b <= 6,
        m.log2_base == l2b,
        m.ops == calc.0@,
        m.ramp == ramp_model(*ramp),
        ramp_model_wf(m.ramp, 256),
        m.color_single_glyphs == single,
        m.uppercase == uppercase,
    ensures
        final(out)@ == old(out)@ + glyphs_out(
            m,
            bits0,
            glyphs_per_chunk(l2b) as nat,
            *old(last),
        ).0,
        *final(last) == glyphs_out(m, bits0, glyphs_per_chunk(l2b) as nat, *old(last)).1,
{
    let clen: u64 = if l2b == 3 {
        3
    } else if l2b == 5 {
        5
    } else if l2b == 6 {
        3
    } else {
        1
    };
    let gpc: u64 = (8 * clen) / (l2b as u64);
    let cbits: u32 = (8 * clen) as u32;
    let sh: u32 = cbits - l2b;
    proof {
        assert(1u64 << l2b >= 2 && ((1u64 << l2b) - 1) as u64 <= 63) by (bit_vector)
            requires
                1 <= l2b <= 6,
        ;
    }
    let base1: u64 = (1u64 << l2b) - 1;
    let mut bits: u64 = bits0;
    let mut g: u64 = 0;
    let ghost base_out = out@;
    let ghost last0 = *last;
    let ghost mut emitted: Seq<u8> = Seq::<u8>::empty();
    proof {
        assert(emitted + glyphs_out(m, bits0, gpc as nat, last0).0 =~= glyphs_out(
            m,
            bits0,
            gpc as nat,
            last0,
        ).0);
    }
    while g < gpc
        invariant
            g <= gpc,
            1 <= l2b <= 6,
            m.log2_base == l2b,
            m.ops == calc.0@,
            m.ramp == ramp_model(*ramp),
            ramp_model_wf(m.ramp, 256),
            m.color_single_glyphs == single,
            m.uppercase == uppercase,
            clen == chunk_len_of(l2b),
            gpc == glyphs_per_chunk(l2b),
            cbits == (8 * chunk_len_of(l2b)) as u32,
            sh == cbits - l2b,
            base1 == ((1u64 << l2b) - 1) as u64,
            1 <= base1 <= 63,
            out@ == base_out + emitted,
            glyphs_out(m, bits0, gpc as nat, last0) == (
                emitted + glyphs_out(m, bits, (gpc - g) as nat, *last).0,
                glyphs_out(m, bits, (gpc - g) as nat, *last).1,
            ),
        decreases gpc - g,
    {
        let glyph: u64 = (bits >> sh) & base1;
        proof {
            assert((bits >> sh) & base1 <= base1) by (bit_vector);
            assert(glyph == glyph_at(bits, cbits, l2b));
        }
        if single {
            let cb = calc.execute(glyph, l2b, stack);
            let changed = match *last {
                Option::Some(l) => l != cb,
                Option::None => true,
            };
            if changed {
                *last = Option::Some(cb);
                proof {
                    assert(base1 == mask_of(l2b));
                    assert(cb as int * 255 <= 255 * (base1 as int));
                    vstd::arithmetic::div_mod::lemma_div_is_ordered(
                        cb as int * 255,
                        255 * (base1 as int),
                        base1 as int,
                    );
                    vstd::arithmetic::div_mod::lemma_div_by_multiple(255, base1 as int);
                }
                let idx: usize = ((cb * 255) / base1) as usize;
                let tc = ramp.color(idx);
                tc.fg(out);
                proof {
                    emitted = emitted + fg_bytes(ramp_tc(m.ramp, scale_255(cb, base1)));
                }
            }
        }
        let ch: u8 = if uppercase {
            if glyph < 10 {
                (48 + glyph) as u8
            } else {
                (55 + glyph) as u8
            }
        } else {
            if glyph < 10 {
                (48 + glyph) as u8
            } else if glyph < 36 {
                (87 + glyph) as u8
            } else if glyph < 62 {
                (29 + glyph) as u8
            } else if glyph == 62 {
                43
            } else {
                47
            }
        };
        proof {
            assert(ch == alphabet_char(glyph as int, uppercase));
        }
        out.push(ch);
        proof {
            emitted = emitted + seq![ch];
            assert(out@ =~= base_out + emitted);
        }
        bits = bits << l2b;
        g = g + 1;
    }
}

/// The little-endian value of a buffered chunk of at most five bytes.
fn chunk_value(chunk: &Vec<u8>) -> (bits: u64)
    requires
        chunk.len() <= 5,
    ensures
        bits == le_value(chunk@),
        le_value(chunk@) < 0x100_0000_0000,
{
    let ghost cbytes = chunk@;
    proof {
        assert(cbytes.skip(cbytes.len() as int) =~= Seq::<u8>::empty());
        vstd::arithmetic::power2::lemma2_to64();
            vstd::arithmetic::power2::lemma2_to64_rest();
    }
    let mut bits: u64 = 0;
    let mut bi = chunk.len();
    while bi > 0
        invariant
            bi <= cbytes.len() <= 5,
            chunk@ == cbytes,
            bits == le_value(cbytes.skip(bi as int)),
            bits < vstd::arithmetic::power2::pow2((8 * (cbytes.len() - bi)) as nat),
        decreases bi,
    {
        proof {
            vstd::arithmetic::power2::lemma_pow2_adds((8 * (cbytes.len() - bi)) as nat, 8);
            vstd::arithmetic::power2::lemma2_to64();
            vstd::arithmetic::power2::lemma2_to64_rest();
            assert(cbytes.skip(bi - 1)[0] == cbytes[bi - 1]);
            assert(cbytes.skip(bi - 1).drop_first() =~= cbytes.skip(bi as int));
            let p = vstd::arithmetic::power2::pow2((8 * (cbytes.len() - bi)) as nat);
            assert(256 * bits + cbytes[bi - 1] < 256 * p) by (nonlinear_arith)
                requires
                    bits < p,
                    cbytes[bi - 1] < 256,
                    p >= 1,
            ;
            vstd::arithmetic::power2::lemma_pow2_subtracts((8 * (cbytes.len() - bi + 1)) as nat, 40);
            vstd::arithmetic::power2::lemma_pow2_pos((40 - 8 * (cbytes.len() - bi + 1)) as nat);
            let q = vstd::arithmetic::power2::pow2((8 * (cbytes.len() - bi + 1)) as nat);
            let r = vstd::arithmetic::power2::pow2((40 - 8 * (cbytes.len() - bi + 1)) as nat);
            assert(q * r >= q * 1) by (nonlinear_arith)
                requires
                    r >= 1,
                    q >= 0,
            ;
            assert(q <= 0x100_0000_0000);
        }
        bi = bi - 1;
        bits = bits * 256 + (chunk[bi] as u64);
    }
    proof {
        assert(cbytes.skip(0) =~= cbytes);
        vstd::arithmetic::power2::lemma_pow2_subtracts((8 * cbytes.len()) as nat, 40);
        vstd::arithmetic::power2::lemma_pow2_pos((40 - 8 * cbytes.len()) as nat);
        vstd::arithmetic::power2::lemma2_to64();
            vstd::arithmetic::power2::lemma2_to64_rest();
        let q = vstd::arithmetic::power2::pow2((8 * cbytes.len()) as nat);
        let r = vstd::arithmetic::power2::pow2((40 - 8 * cbytes.len()) as nat);
        vstd::arithmetic::power2::lemma_pow2_adds((8 * cbytes.len()) as nat, (40 - 8
            * cbytes.len()) as nat);
        assert(q * r >= q * 1) by (nonlinear_arith)
            requires
                r >= 1,
                q >= 0,
        ;
    }
    bits
}

/// The streaming render engine: owns its configuration, the color ramps, and
/// all per-run state, and turns input bytes into output bytes chunk by chunk.
pub struct Renderer {
    pub opts: RenderOpts,
    pub ramp: Ramp,
    pub ascii_ramp: Option<Ramp>,
    pub chunk: Vec<u8>,
    pub limit: u64,
    pub started: bool,
    pub chunk_in_word: u32,
    pub word_in_line: u32,
    pub last_color: Option<u64>,
    pub glyphs_in_line: u64,
    pub ascii_buf: Vec<u8>,
    pub file_offset: u64,
    pub calc_stack: Vec<u64>,
    pub done: bool,
}

impl Renderer {
    /// The engine's state as plain values.
    pub open spec fn model(self) -> Model {
        Model {
            log2_base: self.opts.log2_base,
            bytes_per_word: self.opts.bytes_per_word,
            words_per_line: self.opts.words_per_line,
            limit: self.limit,
            color_single_glyphs: self.opts.color_single_glyphs,
            uppercase: self.opts.uppercase,
            row_label_style: self.opts.row_label_style,
            ops: self.opts.calc.0@,
            ramp: ramp_model(self.ramp),
            ascii_ramp: opt_ramp_model(self.ascii_ramp),
            chunk: self.chunk@,
            started: self.started,
            chunk_in_word: self.chunk_in_word,
            word_in_line: self.word_in_line,
            last_color: self.last_color,
            glyphs_in_line: self.glyphs_in_line,
            ascii_buf: self.ascii_buf@,
            file_offset: self.file_offset,
            done: self.done,
        }
    }

    /// Everything an engine state satisfies between chunks, except that the
    /// chunk buffer may momentarily be full while one is drawn.
    pub open spec fn wf_base(self) -> bool {
        &&& valid_opts(self.opts)
        &&& ramp_model_wf(ramp_model(self.ramp), 256)
        &&& match self.ascii_ramp {
            Option::Some(r) => self.opts.ascii is Some && ramp_model_wf(ramp_model(r), 5),
            Option::None => self.opts.ascii is None,
        }
        &&& self.chunk_in_word < self.opts.bytes_per_word
        &&& self.word_in_line < self.opts.words_per_line
        &&& (self.ascii_ramp is None ==> self.ascii_buf.len() == 0)
    }

    /// A well-formed engine state between chunks.
    pub open spec fn wf(self) -> bool {
        self.wf_base() && self.chunk.len() < chunk_len_of(self.opts.log2_base)
    }

    /// Build an engine from a configuration: the 256-entry color ramp (and
    /// the panel's five colors) are interpolated, and quantized to the
    /// terminal palette unless truecolor is on.
    pub fn new(opts: &RenderOpts) -> (r: Renderer)
        requires
            valid_opts(*opts),
        ensures
            r.wf(),
            r.model() == init_model(*opts),
    {
        let pal = xterm_palette();
        proof {
            assert(pal@ =~= xterm_seq());
        }
        let ramp: Ramp = if opts.use_truecolor {
            let g = make_gradient(&opts.gradient, 256);
            proof {
                assert(g@ =~= Seq::new(256, |j: int| gradient_sample(opts.gradient@, 256, j)));
            }
            Ramp::True(g)
        } else {
            let q = make_quantized_gradient(&opts.gradient, 256, &pal);
            proof {
                assert(q@ =~= Seq::new(
                    256,
                    |j: int|
                        nearest_index(
                            gradient_sample(opts.gradient@, 256, j),
                            xterm_seq(),
                        ) as usize,
                ));
                assert forall|i: int| 0 <= i < q@.len() implies q@[i] < 240 by {
                    crate::color::lemma_nearest_index_minimal(
                        gradient_sample(opts.gradient@, 256, i),
                        xterm_seq(),
                    );
                }
            }
            Ramp::Quantized(q)
        };
        let ascii_ramp: Option<Ramp> = match &opts.ascii {
            Option::None => Option::None,
            Option::Some(a) => {
                let mut five: Vec<Color> = Vec::new();
                five.push(a.unprintable);
                five.push(a.upper);
                five.push(a.lower);
                five.push(a.number);
                five.push(a.punct);
                proof {
                    assert(five@ =~= ascii_colors_of(*a));
                }
                if opts.use_truecolor {
                    Option::Some(Ramp::True(five))
                } else {
                    let q = quantize_rgb(&five, &pal);
                    proof {
                        assert(q@ =~= Seq::new(
                            5,
                            |j: int| nearest_index(ascii_colors_of(*a)[j], xterm_seq()) as usize,
                        ));
                        assert forall|i: int| 0 <= i < q@.len() implies q@[i] < 240 by {
                            crate::color::lemma_nearest_index_minimal(
                                ascii_colors_of(*a)[i],
                                xterm_seq(),
                            );
                        }
                    }
                    Option::Some(Ramp::Quantized(q))
                }
            },
        };
        let stored = RenderOpts {
            log2_base: opts.log2_base,
            bytes_per_word: opts.bytes_per_word,
            words_per_line: opts.words_per_line,
            little_endian: opts.little_endian,
            display_offset_start: opts.display_offset_start,
            limit: opts.limit,
            gradient: copy_colors(&opts.gradient),
            use_truecolor: opts.use_truecolor,
            color_single_glyphs: opts.color_single_glyphs,
            ascii: opts.ascii,
            uppercase: opts.uppercase,
            row_label_style: opts.row_label_style,
            calc: Calc(copy_ops(&opts.calc.0)),
        };
        let r = Renderer {
            opts: stored,
            ramp,
            ascii_ramp,
            chunk: Vec::new(),
            limit: opts.limit,
            started: false,
            chunk_in_word: 0,
            word_in_line: 0,
            last_color: Option::None,
            glyphs_in_line: 0,
            ascii_buf: Vec::new(),
            file_offset: opts.display_offset_start,
            calc_stack: Vec::new(),
            done: false,
        };
        proof {
            assert(r.model() =~= init_model(*opts));
        }
        r
    }

    /// One full line of panel bytes, as the engine computes it.
    fn line_bytes(&self) -> (lb: u64)
        requires
            self.wf_base(),
        ensures
            lb == line_bytes_of(self.opts),
    {
        let l2b = self.opts.log2_base;
        let clen: u64 = if l2b == 3 {
            3
        } else if l2b == 5 {
            5
        } else if l2b == 6 {
            3
        } else {
            1
        };
        let w: u64 = self.opts.words_per_line as u64;
        let b: u64 = self.opts.bytes_per_word as u64;
        proof {
            lemma_chunk_le_glyphs(l2b);
            assert((w as int) * (b as int) < 0x1_0000_0000_0000_0000) by (nonlinear_arith)
                requires
                    w < 0x1_0000_0000,
                    b < 0x1_0000_0000,
            ;
            assert((w as int) * (b as int) * (clen as int) <= (w as int) * (b as int) * (
            glyphs_per_chunk(l2b) as int)) by (nonlinear_arith)
                requires
                    0 < clen <= glyphs_per_chunk(l2b),
                    w >= 1,
                    b >= 1,
            ;
        }
        w * b * clen
    }

    /// Emit the row label of the line starting at the current offset, per
    /// the configured style.
    #[verifier::rlimit(100)]
    fn emit_label(&self, out: &mut Vec<u8>)
        requires
            self.wf_base(),
        ensures
            final(out)@ == old(out)@ + label_out(self.model()),
    {
        let ghost out0 = out@;
        let l2b = self.opts.log2_base;
        let clen: u64 = if l2b == 3 {
            3
        } else if l2b == 5 {
            5
        } else if l2b == 6 {
            3
        } else {
            1
        };
        proof {
            assert((clen as int) * (self.opts.bytes_per_word as int) >= 1) by (nonlinear_arith)
                requires
                    clen >= 1,
                    self.opts.bytes_per_word >= 1,
            ;
        }
        let ws: u64 = clen * (self.opts.bytes_per_word as u64);
        match self.opts.row_label_style {
            RowLabelStyle::Hidden => {},
            RowLabelStyle::Byte => {
                out.push(48);
                out.push(120);
                push_hex8(out, self.file_offset);
                out.push(58);
                out.push(32);
                out.push(32);
            },
            RowLabelStyle::Word => {
                out.push(48);
                out.push(120);
                push_hex8(out, self.file_offset / ws);
                out.push(58);
                out.push(32);
                out.push(32);
            },
            RowLabelStyle::Line => {
                proof {
                    lemma_chunk_le_glyphs(l2b);
                    let w = self.opts.words_per_line as int;
                    let b = self.opts.bytes_per_word as int;
                    assert((clen as int) * b * w == w * b * (clen as int)) by (nonlinear_arith);
                    assert(w * b * (clen as int) <= w * b * (glyphs_per_chunk(l2b) as int))
                        by (nonlinear_arith)
                        requires
                            0 < clen <= glyphs_per_chunk(l2b),
                            w >= 1,
                            b >= 1,
                    ;
                    assert((ws as int) * (self.opts.words_per_line as int) >= 1)
                        by (nonlinear_arith)
                        requires
                            ws >= 1,
                            self.opts.words_per_line >= 1,
                    ;
                }
                let ls: u64 = ws * (self.opts.words_per_line as u64);
                out.push(48);
                out.push(120);
                push_hex8(out, self.file_offset / ls);
                out.push(58);
                out.push(32);
                out.push(32);
            },
        }
        proof {
            assert(out@ =~= out0 + label_out(self.model()));
        }
    }

    /// Emit what comes before a chunk's glyphs: at a line start the previous
    /// line's panel, a newline, a color reset and the row label; at a word
    /// start inside a line a single separating space.
    #[verifier::rlimit(100)]
    fn line_prefix(&mut self, out: &mut Vec<u8>)
        requires
            old(self).wf_base(),
        ensures
            final(self).wf_base(),
            final(out)@ == old(out)@ + prefix_out(old(self).model()),
            final(self).model() == after_prefix(old(self).model()),
            final(self).chunk@ == old(self).chunk@,
    {
        let ghost m = old(self).model();
        let ghost out0 = out@;
        let l2b = self.opts.log2_base;
        let clen: u64 = if l2b == 3 {
            3
        } else if l2b == 5 {
            5
        } else if l2b == 6 {
            3
        } else {
            1
        };
        if self.chunk_in_word == 0 {
            if self.word_in_line == 0 {
                if self.started {
                    let lb = self.line_bytes();
                    flush_panel(&self.ascii_ramp, &mut self.ascii_buf, out, lb);
                    out.push(10);
                    self.glyphs_in_line = 0;
                }
                TermColor::Reset.fg(out);
                self.last_color = None;
                let ghost m1 = self.model();
                self.emit_label(out);
                proof {
                    assert(label_out(m1) == label_out(m));
                }
            } else {
                out.push(32);
                self.glyphs_in_line = self.glyphs_in_line.wrapping_add(1);
            }
        }
        proof {
            assert(out@ =~= out0 + prefix_out(m));
            assert(self.model() =~= after_prefix(m));
        }
    }

    /// Draw the buffered chunk: the line and word bookkeeping, the color
    /// escape, the glyphs, the panel buffering, and the advanced counters.
    #[verifier::rlimit(100)]
    fn draw(&mut self, out: &mut Vec<u8>)
        requires
            old(self).wf_base(),
            1 <= old(self).chunk.len() <= chunk_len_of(old(self).opts.log2_base),
        ensures
            final(self).wf(),
            final(self).model() == draw_result(old(self).model(), old(self).chunk@).0,
            final(out)@ == old(out)@ + draw_result(old(self).model(), old(self).chunk@).1,
    {
        let ghost m = old(self).model();
        let ghost out0 = out@;
        self.line_prefix(out);
        self.draw_body(out);
        proof {
            assert(out@ =~= out0 + draw_result(m, old(self).chunk@).1);
        }
    }

    /// Draw the chunk's body: the color escape, the glyphs, the panel
    /// buffering, and the advanced counters.
    #[verifier::rlimit(100)]
    fn draw_body(&mut self, out: &mut Vec<u8>)
        requires
            old(self).wf_base(),
            1 <= old(self).chunk.len() <= chunk_len_of(old(self).opts.log2_base),
        ensures
            final(self).wf(),
            final(self).model() == draw_body_result(old(self).model(), old(self).chunk@).0,
            final(out)@ == old(out)@ + draw_body_result(old(self).model(), old(self).chunk@).1,
    {
        let ghost m = old(self).model();
        let ghost out0 = out@;
        let l2b = self.opts.log2_base;
        let clen: u64 = if l2b == 3 {
            3
        } else if l2b == 5 {
            5
        } else if l2b == 6 {
            3
        } else {
            1
        };
        let gpc: u64 = if l2b == 2 {
            4
        } else if l2b == 4 {
            2
        } else if l2b == 6 {
            4
        } else {
            8
        };
        let cbits: u32 = (8 * clen) as u32;
        let ghost out1 = out@;
        let ghost cbytes = self.chunk@;
        let bits: u64 = chunk_value(&self.chunk);
        let ghost last1 = self.last_color;
        // one color per chunk (the default granularity)
        if !self.opts.color_single_glyphs {
            let cb = self.opts.calc.execute(bits, cbits, &mut self.calc_stack);
            let changed = match self.last_color {
                Option::Some(l) => l != cb,
                Option::None => true,
            };
            if changed {
                self.last_color = Some(cb);
                proof {
                    assert(1u64 << cbits >= 2 && ((1u64 << cbits) - 1) as u64
                        <= 0xff_ffff_ffff) by (bit_vector)
                        requires
                            cbits == 8 || cbits == 24 || cbits == 40,
                    ;
                }
                let maxv: u64 = (1u64 << cbits) - 1;
                proof {
                    assert(maxv == mask_of(cbits));
                    assert(cb as int * 255 <= 255 * (maxv as int));
                    vstd::arithmetic::div_mod::lemma_div_is_ordered(
                        cb as int * 255,
                        255 * (maxv as int),
                        maxv as int,
                    );
                    vstd::arithmetic::div_mod::lemma_div_by_multiple(255, maxv as int);
                }
                let idx: usize = ((cb * 255) / maxv) as usize;
                let tc = self.ramp.color(idx);
                tc.fg(out);
            }
        }
        proof {
            assert(out@ =~= out1 + chunk_color_out(m, bits, last1).0);
            assert(self.last_color == chunk_color_out(m, bits, last1).1);
        }
        let ghost out2 = out@;
        // the glyphs
        emit_glyphs(
            &self.opts.calc,
            &self.ramp,
            &mut self.calc_stack,
            &mut self.last_color,
            out,
            bits,
            l2b,
            self.opts.color_single_glyphs,
            self.opts.uppercase,
            Ghost(m),
        );
        self.glyphs_in_line = self.glyphs_in_line.wrapping_add(gpc);
        // panel buffering
        if self.ascii_ramp.is_some() {
            self.ascii_buf.extend_from_slice(self.chunk.as_slice());
        }
        // counters
        self.chunk_in_word = self.chunk_in_word + 1;
        if self.chunk_in_word == self.opts.bytes_per_word {
            self.chunk_in_word = 0;
            self.word_in_line = self.word_in_line + 1;
            if self.word_in_line == self.opts.words_per_line {
                self.word_in_line = 0;
            }
        }
        self.started = true;
        self.file_offset = self.file_offset.wrapping_add(self.chunk.len() as u64);
        self.chunk.clear();
        proof {
            let (m2, outseq) = draw_body_result(m, cbytes);
            assert(self.model() =~= m2);
            assert(out@ =~= out0 + outseq);
        }
    }

    /// Feed one byte.  Returns false once the engine takes no more input:
    /// the chunk countdown has run out.
    pub fn push_byte(&mut self, b: u8, out: &mut Vec<u8>) -> (more: bool)
        requires
            old(self).wf(),
        ensures
            final(self).wf(),
            final(self).model() == push_result(old(self).model(), b).0,
            final(out)@ == old(out)@ + push_result(old(self).model(), b).1,
            more == push_result(old(self).model(), b).2,
    {
        if self.done {
            proof {
                assert(final(out)@ =~= old(out)@ + push_result(old(self).model(), b).1);
            }
            return false;
        }
        if self.limit == 0 {
            self.done = true;
            proof {
                assert(self.model() =~= push_result(old(self).model(), b).0);
                assert(final(out)@ =~= old(out)@ + push_result(old(self).model(), b).1);
            }
            return false;
        }
        let l2b = self.opts.log2_base;
        let clen: u64 = if l2b == 3 {
            3
        } else if l2b == 5 {
            5
        } else if l2b == 6 {
            3
        } else {
            1
        };
        self.chunk.push(b);
        if self.chunk.len() as u64 == clen {
            self.limit = self.limit - 1;
            self.draw(out);
        } else {
            proof {
                assert(self.model() =~= push_result(old(self).model(), b).0);
                assert(final(out)@ =~= old(out)@ + push_result(old(self).model(), b).1);
            }
        }
        true
    }

    /// Finish the run: draw a pending partial chunk zero-padded, align and
    /// flush a pending panel, and reset the terminal color.
    #[verifier::rlimit(100)]
    pub fn finish(&mut self, out: &mut Vec<u8>)
        requires
            old(self).wf(),
        ensures
            final(out)@ == old(out)@ + finish_result(old(self).model()),
    {
        let ghost m = old(self).model();
        let ghost out0 = out@;
        if self.chunk.len() > 0 && !self.done {
            self.draw(out);
        }
        let ghost out1 = out@;
        let ghost m1 = if m.chunk.len() > 0 && !m.done {
            draw_result(m, m.chunk).0
        } else {
            m
        };
        proof {
            assert(self.model() == m1);
        }
        let panel_owed = match &self.ascii_ramp {
            Option::Some(_) => self.ascii_buf.len() > 0,
            Option::None => false,
        };
        if panel_owed {
            let l2b = self.opts.log2_base;
            let gpc: u64 = if l2b == 2 {
                4
            } else if l2b == 4 {
                2
            } else if l2b == 6 {
                4
            } else {
                8
            };
            let w: u64 = self.opts.words_per_line as u64;
            let bw: u64 = self.opts.bytes_per_word as u64;
            proof {
                assert((w as int) * (bw as int) < 0x1_0000_0000_0000_0000) by (nonlinear_arith)
                    requires
                        w < 0x1_0000_0000,
                        bw < 0x1_0000_0000,
                ;
            }
            let lg: u64 = w * bw * gpc + w - 1;
            let ghost gil0 = self.glyphs_in_line;
            let mut gl: u64 = self.glyphs_in_line;
            proof {
                assert(out@ =~= out1 + space_pad(gl - gil0));
            }
            while gl < lg
                invariant
                    gl >= gil0,
                    (gil0 >= lg && gl == gil0) || gl <= lg,
                    out@ == out1 + space_pad(gl - gil0),
                decreases lg - gl,
            {
                out.push(32);
                gl = gl + 1;
                proof {
                    assert(out@ =~= out1 + space_pad(gl - gil0));
                }
            }
            let lb = self.line_bytes();
            flush_panel(&self.ascii_ramp, &mut self.ascii_buf, out, lb);
        }
        TermColor::Reset.fg(out);
        out.push(10);
        proof {
            assert(out@ =~= out0 + finish_result(m));
        }
    }
}

impl RenderOpts {
    /// Render a whole in-memory input: the streaming engine fed byte by
    /// byte, then flushed.
    pub fn render(&self, input: &Vec<u8>) -> (out: Vec<u8>)
        requires
            valid_opts(*self),
        ensures
            out@ == render_spec(init_model(*self), input@),
    {
        let ghost init = init_model(*self);
        let mut r = Renderer::new(self);
        let mut out: Vec<u8> = Vec::new();
        let n = input.len();
        let mut i: usize = 0;
        let mut more: bool = true;
        proof {
            assert(input@.skip(0) =~= input@);
        }
        while i < n && more
            invariant
                i <= n,
                n == input@.len(),
                r.wf(),
                run_bytes(init, input@).0 == run_bytes(r.model(), input@.skip(i as int)).0,
                run_bytes(init, input@).1 == out@ + run_bytes(r.model(), input@.skip(i as int)).1,
                !more ==> r.model().done,
            decreases n - i,
        {
            proof {
                assert(input@.skip(i as int)[0] == input@[i as int]);
                assert(input@.skip(i as int).drop_first() =~= input@.skip(i + 1));
            }
            let ghost mprev = r.model();
            more = r.push_byte(input[i], &mut out);
            i = i + 1;
            proof {
                if !more {
                    assert(r.model().done);
                    let rest = input@.skip(i as int);
                    if rest.len() > 0 {
                        assert(run_bytes(r.model(), rest) == (
                            r.model(),
                            Seq::<u8>::empty(),
                        ));
                    }
                }
            }
        }
        proof {
            if i == n as usize {
                assert(input@.skip(n as int) =~= Seq::<u8>::empty());
            } else {
                assert(!more);
                let rest = input@.skip(i as int);
                if rest.len() > 0 {
                    assert(run_bytes(r.model(), rest) == (r.model(), Seq::<u8>::empty()));
                }
            }
            assert(run_bytes(init, input@).0 == r.model());
            assert(run_bytes(init, input@).1 == out@);
        }
        r.finish(&mut out);
        proof {
            assert(out@ =~= render_spec(init, input@));
        }
        out
    }
}

} // verus!
