//! The `.ascicam` recording format: an 11-byte header (`ACAM`, version 1,
//! width and height as little-endian `u16`, frames per second, flags), then one
//! record per frame: a type byte (keyframe, delta or skip), a little-endian
//! `u64` timestamp in milliseconds, a little-endian `u32` payload length and
//! the payload, zlib-compressed when the header says so. Skip records carry no
//! payload.

use std::io::{Read, Write};

use vstd::bytes::*;
use vstd::prelude::*;
use vstd::slice::*;
use vstd::utf8::*;

use crate::color::Rgb;
use crate::render::{grid_ok, row_views, string_views, RenderError, RenderedFrame};

verus! {

/// Options of a recording.
#[derive(Clone, Copy, Debug, PartialEq, Eq, Structural)]
pub struct RecordingOptions {
    /// Compress payloads with zlib.
    pub compress: bool,
    /// Write a skip record for a frame identical to the one before.
    pub skip_identical: bool,
    /// Every this many frames is a keyframe (0 counts as 1).
    pub keyframe_interval: u32,
}

impl Default for RecordingOptions {
    fn default() -> (o: Self)
        ensures
            o == (RecordingOptions { compress: true, skip_identical: true, keyframe_interval: 30 }),
    {
        RecordingOptions { compress: true, skip_identical: true, keyframe_interval: 30 }
    }
}

/// A frame read back from a recording, with its timestamp.
#[derive(Clone, Debug, PartialEq, Eq)]
pub struct DecodedFrame {
    pub timestamp_ms: u64,
    pub frame: RenderedFrame,
}

/// Why a recording could not be written or read.
#[derive(Clone, Copy, Debug, PartialEq, Eq, Structural)]
pub enum RecordingError {
    /// Width or height above the format's `u16` limit.
    DimensionsTooLarge,
    /// A frame whose dimensions differ from the recording's.
    FrameSize { width: usize, height: usize, expected_width: usize, expected_height: usize },
    /// The compressor failed.
    Compression,
    /// The data ended inside a header, record or payload.
    Truncated,
    /// The data does not start with `ACAM`.
    BadMagic,
    /// A format version other than 1.
    UnsupportedVersion(u8),
    /// A skip record before any frame.
    SkipBeforeFirstFrame,
    /// A delta record before any keyframe.
    DeltaBeforeKeyframe,
    /// A record type other than keyframe, delta or skip.
    UnknownFrameType(u8),
    /// The payload did not decompress.
    Decompression,
    /// A keyframe payload with no bytes.
    EmptyKeyframe,
    /// A keyframe payload shorter than its text.
    TruncatedKeyframeText,
    /// A keyframe payload shorter than its colours.
    TruncatedKeyframeColors,
    /// Text that is not UTF-8.
    NotUtf8,
    /// A delta payload shorter than its 5-byte header.
    TruncatedDelta,
    /// A delta payload shorter than its entries.
    TruncatedDeltaEntries,
    /// A delta entry past the last row.
    DeltaIndexOutsideFrame,
    /// The decoded frame has an inconsistent shape.
    Frame(RenderError),
    /// A keyframe with text in a recording of width 0, whose text cannot be
    /// split into rows.
    ZeroWidthKeyframe,
}

/// What a frame shows: its dimensions, the characters of each line and the
/// colours of each row, if any.
#[verifier::ext_equal]
pub struct FrameModel {
    pub width: nat,
    pub height: nat,
    pub lines: Seq<Seq<char>>,
    pub colors: Option<Seq<Seq<Rgb>>>,
}

impl RenderedFrame {
    /// What the frame shows.
    pub open spec fn model(&self) -> FrameModel {
        FrameModel {
            width: self.width as nat,
            height: self.height as nat,
            lines: self.line_views(),
            colors: self.color_views(),
        }
    }
}

/// zlib output of `flate2`'s encoder at `Compression::best()` for `data`.
pub uninterp spec fn zlib_compressed(data: Seq<u8>) -> Seq<u8>;

/// What `flate2`'s zlib decoder reads to the end from `data`, if it succeeds.
pub uninterp spec fn zlib_inflated(data: Seq<u8>) -> Option<Seq<u8>>;

/// Whether `flate2`'s encoder at `Compression::best()` finishes on `data`
/// without reporting an error.
pub uninterp spec fn zlib_compress_ok(data: Seq<u8>) -> bool;

/// Compresses `data` with `flate2::write::ZlibEncoder` at `Compression::best()`
/// into a `Vec`; the contract says that there is a result exactly when the
/// encoder finishes without error, that it is that encoder's output, and that
/// the zlib decoder gives `data` back from it.
#[verifier::external_body]
fn zlib_compress(data: &[u8]) -> (r: Option<Vec<u8>>)
    ensures
        r is Some <==> zlib_compress_ok(data@),
        r matches Some(v) ==> v@ == zlib_compressed(data@),
        r matches Some(v) ==> zlib_inflated(v@) == Some(data@),
{
    let mut encoder = flate2::write::ZlibEncoder::new(Vec::new(), flate2::Compression::best());
    if encoder.write_all(data).is_err() {
        return None;
    }
    encoder.finish().ok()
}

/// Reads `data` to the end through `flate2::read::ZlibDecoder`; the contract says
/// that the result is a function of `data` and that the output of `zlib_compress`
/// decodes to what was compressed.
#[verifier::external_body]
fn zlib_decompress(data: &[u8]) -> (r: Option<Vec<u8>>)
    ensures
        r matches Some(v) ==> zlib_inflated(data@) == Some(v@),
        r is None <==> zlib_inflated(data@) is None,
        r is None ==> forall|q: Seq<u8>| zlib_compressed(q) != data@,
        r matches Some(v) ==> forall|q: Seq<u8>| zlib_compressed(q) == data@ ==> v@ == q,
{
    let mut decoder = flate2::read::ZlibDecoder::new(data);
    let mut out = Vec::new();
    match decoder.read_to_end(&mut out) {
        Ok(_) => Some(out),
        Err(_) => None,
    }
}

/// `String::from_utf8`: the bytes as a string when they are valid UTF-8.
#[verifier::external_body]
fn string_from_utf8(bytes: Vec<u8>) -> (r: Option<String>)
    ensures
        r is Some <==> valid_utf8(bytes@),
        r matches Some(s) ==> s@ == decode_utf8(bytes@),
{
    String::from_utf8(bytes).ok()
}

} // verus!

verus! {

/// The flag byte of the header: bit 0 for compression, bit 1 for skipping
/// identical frames.
pub open spec fn flags_of(o: RecordingOptions) -> u8 {
    ((if o.compress { 1u8 } else { 0u8 }) + (if o.skip_identical { 2u8 } else { 0u8 })) as u8
}

/// The header: `ACAM`, version 1, width, height, frames per second, flags.
pub open spec fn header_bytes(width: u16, height: u16, fps: u8, flags: u8) -> Seq<u8> {
    seq![0x41u8, 0x43u8, 0x41u8, 0x4du8, 1u8] + spec_u16_to_le_bytes(width) + spec_u16_to_le_bytes(
        height,
    ) + seq![fps, flags]
}

/// A record: type byte, timestamp, payload length (truncated to 32 bits) and payload.
pub open spec fn record_bytes(kind: u8, timestamp_ms: u64, payload: Seq<u8>) -> Seq<u8> {
    seq![kind] + spec_u64_to_le_bytes(timestamp_ms) + spec_u32_to_le_bytes(payload.len() as u32)
        + payload
}

/// The UTF-8 bytes of each line.
pub open spec fn line_bytes(lines: Seq<Seq<char>>) -> Seq<Seq<u8>> {
    lines.map_values(|l: Seq<char>| encode_utf8(l))
}

/// A colour as three bytes.
pub open spec fn rgb_bytes(c: Rgb) -> Seq<u8> {
    seq![c.r, c.g, c.b]
}

/// A row of colours as bytes.
pub open spec fn row_bytes(row: Seq<Rgb>) -> Seq<u8> {
    row.map_values(|c: Rgb| rgb_bytes(c)).flatten_alt()
}

/// The colour bytes of a frame, row after row.
pub open spec fn grid_bytes(rows: Seq<Seq<Rgb>>) -> Seq<u8> {
    rows.map_values(|row: Seq<Rgb>| row_bytes(row)).flatten_alt()
}

/// A keyframe payload: 1 when the frame has colours else 0, the bytes of every
/// line, then the colours.
pub open spec fn keyframe_payload(m: FrameModel) -> Seq<u8> {
    seq![if m.colors is Some { 1u8 } else { 0u8 }] + line_bytes(m.lines).flatten_alt() + match m.colors {
        Some(rows) => grid_bytes(rows),
        None => Seq::empty(),
    }
}

proof fn lemma_flatten_alt_take_step<A>(s: Seq<Seq<A>>, k: int)
    requires
        0 <= k < s.len(),
    ensures
        s.take(k + 1).flatten_alt() == s.take(k).flatten_alt() + s[k],
{
    assert(s.take(k + 1).drop_last() =~= s.take(k));
}

fn append_bytes(out: &mut Vec<u8>, src: &[u8])
    ensures
        final(out)@ == old(out)@ + src@,
{
    let mut v = slice_to_vec(src);
    out.append(&mut v);
}

fn push_rgb(out: &mut Vec<u8>, c: Rgb)
    ensures
        final(out)@ == old(out)@ + rgb_bytes(c),
{
    out.push(c.r);
    out.push(c.g);
    out.push(c.b);
    assert(final(out)@ =~= old(out)@ + rgb_bytes(c));
}

fn append_row(out: &mut Vec<u8>, row: &Vec<Rgb>)
    ensures
        final(out)@ == old(out)@ + row_bytes(row@),
{
    let ghost start = out@;
    let ghost parts = row@.map_values(|c: Rgb| rgb_bytes(c));
    let mut x: usize = 0;
    assert(parts.take(0) =~= Seq::<Seq<u8>>::empty());
    assert(out@ =~= start + parts.take(0).flatten_alt());
    while x < row.len()
        invariant
            x <= row@.len(),
            parts == row@.map_values(|c: Rgb| rgb_bytes(c)),
            out@ == start + parts.take(x as int).flatten_alt(),
        decreases row.len() - x,
    {
        proof {
            lemma_flatten_alt_take_step(parts, x as int);
        }
        push_rgb(out, row[x]);
        x = x + 1;
        assert(out@ =~= start + parts.take(x as int).flatten_alt());
    }
    assert(parts.take(x as int) =~= parts);
}

/// The keyframe payload of `frame`.
fn encode_keyframe(frame: &RenderedFrame) -> (out: Vec<u8>)
    ensures
        out@ == keyframe_payload(frame.model()),
{
    let mut out: Vec<u8> = Vec::new();
    out.push(if frame.colors.is_some() { 1u8 } else { 0u8 });
    let ghost m = frame.model();
    let ghost lb = line_bytes(m.lines);
    let ghost head = out@;
    let mut y: usize = 0;
    assert(lb.take(0) =~= Seq::<Seq<u8>>::empty());
    assert(out@ =~= head + lb.take(0).flatten_alt());
    while y < frame.lines.len()
        invariant
            y <= frame.lines@.len(),
            m == frame.model(),
            lb == line_bytes(m.lines),
            lb.len() == frame.lines@.len(),
            out@ == head + lb.take(y as int).flatten_alt(),
        decreases frame.lines.len() - y,
    {
        proof {
            lemma_flatten_alt_take_step(lb, y as int);
        }
        let bytes = frame.lines[y].as_str().as_bytes();
        assert(bytes@ == lb[y as int]);
        append_bytes(&mut out, bytes);
        y = y + 1;
        assert(out@ =~= head + lb.take(y as int).flatten_alt());
    }
    assert(lb.take(y as int) =~= lb);
    let ghost text = out@;
    match &frame.colors {
        Some(rows) => {
            let ghost parts = row_views(rows@).map_values(|row: Seq<Rgb>| row_bytes(row));
            let mut r: usize = 0;
            assert(parts.take(0) =~= Seq::<Seq<u8>>::empty());
            assert(out@ =~= text + parts.take(0).flatten_alt());
            while r < rows.len()
                invariant
                    r <= rows@.len(),
                    parts == row_views(rows@).map_values(|row: Seq<Rgb>| row_bytes(row)),
                    out@ == text + parts.take(r as int).flatten_alt(),
                decreases rows.len() - r,
            {
                proof {
                    lemma_flatten_alt_take_step(parts, r as int);
                }
                append_row(&mut out, &rows[r]);
                r = r + 1;
                assert(out@ =~= text + parts.take(r as int).flatten_alt());
            }
            assert(parts.take(r as int) =~= parts);
        },
        None => {},
    }
    assert(out@ =~= keyframe_payload(frame.model()));
    out
}

} // verus!

verus! {

/// A changed cell: its index `y * width + x`, its byte and its colour, if any.
pub type Change = (usize, u8, Option<Rgb>);

/// Every line up to row `height` has at least `width` bytes.
pub open spec fn bytes_cover(m: FrameModel, width: nat, height: nat) -> bool {
    &&& m.lines.len() >= height
    &&& forall|y: int| 0 <= y < height ==> #[trigger] encode_utf8(m.lines[y]).len() >= width
}

/// Byte `x` of line `y`.
pub open spec fn cell_byte(m: FrameModel, y: int, x: int) -> u8 {
    encode_utf8(m.lines[y])[x]
}

/// The colour of cell `(x, y)`, if the frame has one there.
pub open spec fn cell_color(m: FrameModel, y: int, x: int) -> Option<Rgb> {
    match m.colors {
        Some(rows) => if 0 <= y < rows.len() && 0 <= x < rows[y].len() {
            Some(rows[y][x])
        } else {
            None
        },
        None => None,
    }
}

/// The cells among the first `n` (row-major, rows of `width`) whose byte or
/// colour differs between `prev` and `cur`, with `cur`'s byte and colour.
pub open spec fn changes_upto(prev: FrameModel, cur: FrameModel, width: nat, n: nat) -> Seq<Change>
    decreases n,
{
    if n == 0 {
        Seq::empty()
    } else {
        let k = (n - 1) as nat;
        let y = k / width;
        let x = k % width;
        let rest = changes_upto(prev, cur, width, k);
        if cell_byte(cur, y as int, x as int) != cell_byte(prev, y as int, x as int) || cell_color(
            cur,
            y as int,
            x as int,
        ) != cell_color(prev, y as int, x as int) {
            rest.push((k as usize, cell_byte(cur, y as int, x as int), cell_color(cur, y as int, x as int)))
        } else {
            rest
        }
    }
}

/// The bytes of a delta entry: index, byte and, when colours are on, the colour
/// (white when the cell has none).
pub open spec fn entry_bytes(c: Change, colors_on: bool) -> Seq<u8> {
    spec_u32_to_le_bytes(c.0 as u32) + seq![c.1] + if colors_on {
        rgb_bytes(
            match c.2 {
                Some(rgb) => rgb,
                None => Rgb { r: 255, g: 255, b: 255 },
            },
        )
    } else {
        Seq::empty()
    }
}

/// A delta payload: the number of entries, the colour flag, the entries.
pub open spec fn delta_bytes(changes: Seq<Change>, colors_on: bool) -> Seq<u8> {
    spec_u32_to_le_bytes(changes.len() as u32) + seq![if colors_on { 1u8 } else { 0u8 }]
        + changes.map_values(|c: Change| entry_bytes(c, colors_on)).flatten_alt()
}

/// The delta payload from `prev` to `cur`, or none for a frame to skip.
pub open spec fn delta_payload(
    prev: FrameModel,
    cur: FrameModel,
    width: nat,
    height: nat,
    skip_identical: bool,
) -> Option<Seq<u8>> {
    let changes = changes_upto(prev, cur, width, width * height);
    if changes.len() == 0 && skip_identical {
        None
    } else {
        Some(delta_bytes(changes, cur.colors is Some))
    }
}

fn cell_color_exec(frame: &RenderedFrame, y: usize, x: usize) -> (c: Option<Rgb>)
    ensures
        c == cell_color(frame.model(), y as int, x as int),
{
    match &frame.colors {
        Some(rows) => {
            if y < rows.len() && x < rows[y].len() {
                assert(row_views(rows@)[y as int] == rows@[y as int]@);
                Some(rows[y][x])
            } else {
                proof {
                    if y < rows@.len() {
                        assert(row_views(rows@)[y as int] == rows@[y as int]@);
                    }
                }
                None
            }
        },
        None => None,
    }
}

proof fn lemma_row_major(y: nat, x: nat, w: nat)
    requires
        x < w,
    ensures
        (y * w + x) / w == y,
        (y * w + x) % w == x,
{
    vstd::arithmetic::div_mod::lemma_fundamental_div_mod_converse(
        (y * w + x) as int,
        w as int,
        y as int,
        x as int,
    );
}

fn append_entry(out: &mut Vec<u8>, c: Change, colors_on: bool)
    ensures
        final(out)@ == old(out)@ + entry_bytes(c, colors_on),
{
    let mut index_bytes = u32_to_le_bytes(c.0 as u32);
    out.append(&mut index_bytes);
    out.push(c.1);
    if colors_on {
        let rgb = match c.2 {
            Some(rgb) => rgb,
            None => Rgb { r: 255, g: 255, b: 255 },
        };
        push_rgb(out, rgb);
    }
    assert(final(out)@ =~= old(out)@ + entry_bytes(c, colors_on));
}

/// The delta payload from `previous` to `frame` over `width` by `height` cells.
fn encode_delta(
    previous: &RenderedFrame,
    frame: &RenderedFrame,
    width: usize,
    height: usize,
    skip_identical: bool,
) -> (r: Option<Vec<u8>>)
    requires
        width <= 0xffff,
        height <= 0xffff,
        bytes_cover(previous.model(), width as nat, height as nat),
        bytes_cover(frame.model(), width as nat, height as nat),
    ensures
        match delta_payload(previous.model(), frame.model(), width as nat, height as nat, skip_identical) {
            Some(p) => r matches Some(v) && v@ == p,
            None => r is None,
        },
{
    let ghost pm = previous.model();
    let ghost cm = frame.model();
    let colors_on = frame.colors.is_some();
    let mut changes: Vec<Change> = Vec::new();
    let mut y: usize = 0;
    assert(width * height <= 0xffff * 0xffff) by (nonlinear_arith)
        requires width <= 0xffff, height <= 0xffff;
    while y < height
        invariant
            y <= height <= 0xffff,
            width <= 0xffff,
            width * height <= 0xffff * 0xffff,
            pm == previous.model(),
            cm == frame.model(),
            bytes_cover(pm, width as nat, height as nat),
            bytes_cover(cm, width as nat, height as nat),
            changes@ == changes_upto(pm, cm, width as nat, (y * width) as nat),
            changes@.len() <= y * width,
        decreases height - y,
    {
        let cur_line = frame.lines[y].as_str().as_bytes();
        let prev_line = previous.lines[y].as_str().as_bytes();
        assert(cm.lines[y as int] == frame.lines@[y as int]@);
        assert(pm.lines[y as int] == previous.lines@[y as int]@);
        assert(encode_utf8(cm.lines[y as int]).len() >= width);
        assert(encode_utf8(pm.lines[y as int]).len() >= width);
        assert((y + 1) * width <= width * height) by (nonlinear_arith)
            requires y < height;
        let mut x: usize = 0;
        while x < width
            invariant
                y < height <= 0xffff,
                width <= 0xffff,
                (y + 1) * width <= width * height <= 0xffff * 0xffff,
                x <= width,
                pm == previous.model(),
                cm == frame.model(),
                cur_line@ == encode_utf8(cm.lines[y as int]),
                prev_line@ == encode_utf8(pm.lines[y as int]),
                cur_line@.len() >= width,
                prev_line@.len() >= width,
                changes@ == changes_upto(pm, cm, width as nat, (y * width + x) as nat),
                changes@.len() <= y * width + x,
            decreases width - x,
        {
            assert(y * width + x < (y + 1) * width) by (nonlinear_arith)
                requires x < width;
            let index = y * width + x;
            let current_color = cell_color_exec(frame, y, x);
            let previous_color = cell_color_exec(previous, y, x);
            proof {
                lemma_row_major(y as nat, x as nat, width as nat);
            }
            if cur_line[x] != prev_line[x] || current_color != previous_color {
                changes.push((index, cur_line[x], current_color));
            }
            x = x + 1;
            assert(y * width + x == index + 1);
        }
        assert(y * width + width == (y + 1) * width) by (nonlinear_arith);
        y = y + 1;
    }
    assert(y * width == width * height) by (nonlinear_arith)
        requires y == height;
    if changes.len() == 0 && skip_identical {
        return None;
    }
    let mut out = u32_to_le_bytes(changes.len() as u32);
    out.push(if colors_on { 1u8 } else { 0u8 });
    let ghost head = out@;
    let ghost parts = changes@.map_values(|c: Change| entry_bytes(c, colors_on));
    let mut i: usize = 0;
    assert(parts.take(0) =~= Seq::<Seq<u8>>::empty());
    assert(out@ =~= head + parts.take(0).flatten_alt());
    while i < changes.len()
        invariant
            i <= changes@.len(),
            parts == changes@.map_values(|c: Change| entry_bytes(c, colors_on)),
            out@ == head + parts.take(i as int).flatten_alt(),
        decreases changes.len() - i,
    {
        proof {
            lemma_flatten_alt_take_step(parts, i as int);
        }
        append_entry(&mut out, changes[i], colors_on);
        i = i + 1;
        assert(out@ =~= head + parts.take(i as int).flatten_alt());
    }
    assert(parts.take(i as int) =~= parts);
    assert(out@ =~= delta_bytes(changes@, colors_on));
    Some(out)
}

} // verus!

verus! {

/// Every byte string is valid UTF-8.
pub open spec fn all_valid_utf8(l: Seq<Seq<u8>>) -> bool {
    forall|y: int| 0 <= y < l.len() ==> valid_utf8(#[trigger] l[y])
}

/// Row `y` of a keyframe's text: `width` bytes after the flag byte.
pub open spec fn keyframe_text_row(p: Seq<u8>, width: nat, y: int) -> Seq<u8> {
    p.subrange(1 + y * width, 1 + y * width + width)
}

/// The colour of cell `(x, y)` in a keyframe: three bytes after the text.
pub open spec fn keyframe_color(p: Seq<u8>, width: nat, height: nat, y: int, x: int) -> Rgb {
    let o = 1 + width * height + 3 * (y * width + x);
    Rgb { r: p[o], g: p[o + 1], b: p[o + 2] }
}

/// A frame model from decoded lines and colours, or the error `new` gives.
pub open spec fn checked_model(
    width: nat,
    height: nat,
    lines: Seq<Seq<char>>,
    colors: Option<Seq<Seq<Rgb>>>,
) -> Result<FrameModel, RecordingError> {
    if grid_ok(width, height, lines, colors) {
        Ok(FrameModel { width, height, lines, colors })
    } else {
        Err(RecordingError::Frame(crate::render::new_error(width as usize, height as usize, lines)))
    }
}

/// Decoding a keyframe payload `p` of a `width` by `height` recording.
pub open spec fn decode_keyframe_spec(width: nat, height: nat, p: Seq<u8>) -> Result<
    FrameModel,
    RecordingError,
> {
    let text_len = width * height;
    if p.len() == 0 {
        Err(RecordingError::EmptyKeyframe)
    } else if p.len() < 1 + text_len {
        Err(RecordingError::TruncatedKeyframeText)
    } else if !all_valid_utf8(Seq::new(height, |y: int| keyframe_text_row(p, width, y))) {
        Err(RecordingError::NotUtf8)
    } else {
        let lines = Seq::new(height, |y: int| decode_utf8(keyframe_text_row(p, width, y)));
        let colors_on = p[0] != 0;
        if colors_on && p.len() - (1 + text_len) < 3 * text_len {
            Err(RecordingError::TruncatedKeyframeColors)
        } else {
            let colors = if colors_on {
                Some(
                    Seq::new(
                        height,
                        |y: int| Seq::new(width, |x: int| keyframe_color(p, width, height, y, x)),
                    ),
                )
            } else {
                None
            };
            checked_model(width, height, lines, colors)
        }
    }
}

/// Builds a frame from decoded parts, with the error `RenderedFrame::new` reports.
fn build_frame(width: usize, height: usize, lines: Vec<String>, colors: Option<Vec<Vec<Rgb>>>) -> (r:
    Result<RenderedFrame, RecordingError>)
    ensures
        match checked_model(
            width as nat,
            height as nat,
            string_views(lines@),
            match colors {
                Some(rows) => Some(row_views(rows@)),
                None => None,
            },
        ) {
            Ok(m) => r matches Ok(f) && f.model() == m && f.cached_text() is None,
            Err(e) => r == Err::<RenderedFrame, RecordingError>(e),
        },
{
    match RenderedFrame::new(width, height, lines, colors) {
        Ok(f) => Ok(f),
        Err(e) => Err(RecordingError::Frame(e)),
    }
}

/// Decodes a keyframe payload.
fn decode_keyframe(width: usize, height: usize, p: &[u8]) -> (r: Result<RenderedFrame, RecordingError>)
    requires
        0 < width <= 0xffff,
        height <= 0xffff,
    ensures
        match decode_keyframe_spec(width as nat, height as nat, p@) {
            Ok(m) => r matches Ok(f) && f.model() == m && f.cached_text() is None,
            Err(e) => r == Err::<RenderedFrame, RecordingError>(e),
        },
{
    if p.len() == 0 {
        return Err(RecordingError::EmptyKeyframe);
    }
    let colors_on = p[0] != 0;
    assert(width * height <= 0xffff * 0xffff) by (nonlinear_arith)
        requires width <= 0xffff, height <= 0xffff;
    let text_len = width * height;
    let plen = p.len();
    if plen < 1 + text_len {
        return Err(RecordingError::TruncatedKeyframeText);
    }
    let mut lines: Vec<String> = Vec::new();
    let mut y: usize = 0;
    while y < height
        invariant
            y <= height <= 0xffff,
            0 < width <= 0xffff,
            text_len == width * height,
            p@.len() >= 1 + text_len,
            plen == p@.len(),
            lines@.len() == y,
            forall|k: int| 0 <= k < y ==> valid_utf8(#[trigger] keyframe_text_row(p@, width as nat, k)),
            forall|k: int|
                0 <= k < y ==> #[trigger] lines@[k]@ == decode_utf8(keyframe_text_row(p@, width as nat, k)),
        decreases height - y,
    {
        assert(1 + y * width + width <= 1 + text_len) by (nonlinear_arith)
            requires y < height, text_len == width * height;
        let start = 1 + y * width;
        let row = slice_to_vec(slice_subrange(p, start, start + width));
        assert(row@ == keyframe_text_row(p@, width as nat, y as int));
        match string_from_utf8(row) {
            Some(s) => {
                lines.push(s);
            },
            None => {
                assert(!all_valid_utf8(Seq::new(height as nat, |k: int| keyframe_text_row(p@, width as nat, k))))
                    by {
                    assert(Seq::new(height as nat, |k: int| keyframe_text_row(p@, width as nat, k))[y as int]
                        == keyframe_text_row(p@, width as nat, y as int));
                }
                return Err(RecordingError::NotUtf8);
            },
        }
        y = y + 1;
    }
    let ghost line_model = Seq::new(height as nat, |k: int| decode_utf8(keyframe_text_row(p@, width as nat, k)));
    assert(all_valid_utf8(Seq::new(height as nat, |k: int| keyframe_text_row(p@, width as nat, k))));
    assert(string_views(lines@) =~= line_model);
    let colors = if colors_on {
        let rest = p.len() - (1 + text_len);
        if rest / 3 < text_len {
            return Err(RecordingError::TruncatedKeyframeColors);
        }
        assert(rest >= 3 * text_len);
        let mut rows: Vec<Vec<Rgb>> = Vec::new();
        let mut y: usize = 0;
        while y < height
            invariant
                y <= height <= 0xffff,
                0 < width <= 0xffff,
                text_len == width * height,
                p@.len() >= 1 + text_len + 3 * text_len,
                plen == p@.len(),
                rows@.len() == y,
                forall|k: int|
                    0 <= k < y ==> #[trigger] rows@[k]@ == Seq::new(
                        width as nat,
                        |x: int| keyframe_color(p@, width as nat, height as nat, k, x),
                    ),
            decreases height - y,
        {
            let mut row: Vec<Rgb> = Vec::new();
            let mut x: usize = 0;
            while x < width
                invariant
                    y < height <= 0xffff,
                    0 < width <= 0xffff,
                    x <= width,
                    text_len == width * height,
                    p@.len() >= 1 + text_len + 3 * text_len,
                    plen == p@.len(),
                    row@.len() == x,
                    forall|j: int| 0 <= j < x ==> #[trigger] row@[j] == keyframe_color(p@, width as nat, height as nat, y as int, j),
                decreases width - x,
            {
                assert(y * width + x < text_len) by (nonlinear_arith)
                    requires y < height, x < width, text_len == width * height;
                assert(1 + text_len + 3 * (y * width + x) + 2 < plen);
                let o = 1 + text_len + 3 * (y * width + x);
                row.push(Rgb { r: p[o], g: p[o + 1], b: p[o + 2] });
                x = x + 1;
            }
            assert(row@ =~= Seq::new(width as nat, |x: int| keyframe_color(p@, width as nat, height as nat, y as int, x)));
            rows.push(row);
            y = y + 1;
        }
        assert(row_views(rows@) =~= Seq::new(
            height as nat,
            |k: int| Seq::new(width as nat, |x: int| keyframe_color(p@, width as nat, height as nat, k, x)),
        ));
        Some(rows)
    } else {
        None
    };
    build_frame(width, height, lines, colors)
}

} // verus!

verus! {

/// The size of a delta entry.
pub open spec fn entry_len(colors_on: bool) -> nat {
    if colors_on {
        8
    } else {
        5
    }
}

/// Entry `i` of a delta payload: cell index, byte, colour bytes.
pub open spec fn delta_entry(p: Seq<u8>, i: int, colors_on: bool) -> (nat, u8, Rgb) {
    let o = 5 + i * entry_len(colors_on);
    let rgb = if colors_on {
        Rgb { r: p[o + 5], g: p[o + 6], b: p[o + 7] }
    } else {
        Rgb { r: 0, g: 0, b: 0 }
    };
    (spec_u32_from_le_bytes(p.subrange(o, o + 4)) as nat, p[o + 4], rgb)
}

/// The line bytes and colours after applying the first `n` entries of a delta
/// payload, or none when an entry points past the last row.
pub open spec fn delta_apply(
    lines: Seq<Seq<u8>>,
    colors: Option<Seq<Seq<Rgb>>>,
    width: nat,
    height: nat,
    p: Seq<u8>,
    colors_on: bool,
    n: nat,
) -> Option<(Seq<Seq<u8>>, Option<Seq<Seq<Rgb>>>)>
    decreases n,
{
    if n == 0 {
        Some((lines, colors))
    } else {
        match delta_apply(lines, colors, width, height, p, colors_on, (n - 1) as nat) {
            None => None,
            Some((l, c)) => {
                let e = delta_entry(p, n - 1, colors_on);
                let y = (e.0 / width) as int;
                let x = (e.0 % width) as int;
                if y >= height {
                    None
                } else {
                    let c2 = if colors_on {
                        match c {
                            Some(rows) => Some(rows.update(y, rows[y].update(x, e.2))),
                            None => None,
                        }
                    } else {
                        c
                    };
                    Some((l.update(y, l[y].update(x, e.1)), c2))
                }
            },
        }
    }
}

/// Decoding a delta payload `p` against the frame before.
pub open spec fn decode_delta_spec(prev: FrameModel, p: Seq<u8>) -> Result<FrameModel, RecordingError> {
    if p.len() < 5 {
        Err(RecordingError::TruncatedDelta)
    } else {
        let count = spec_u32_from_le_bytes(p.subrange(0, 4)) as nat;
        let colors_on = p[4] != 0;
        if p.len() < 5 + count * entry_len(colors_on) {
            Err(RecordingError::TruncatedDeltaEntries)
        } else {
            match delta_apply(
                line_bytes(prev.lines),
                prev.colors,
                prev.width,
                prev.height,
                p,
                colors_on,
                count,
            ) {
                None => Err(RecordingError::DeltaIndexOutsideFrame),
                Some((l, c)) => if !all_valid_utf8(l) {
                    Err(RecordingError::NotUtf8)
                } else {
                    checked_model(
                        prev.width,
                        prev.height,
                        l.map_values(|b: Seq<u8>| decode_utf8(b)),
                        c,
                    )
                },
            }
        }
    }
}

proof fn lemma_encode_utf8_len(s: Seq<char>)
    ensures
        encode_utf8(s).len() >= s.len(),
    decreases s.len(),
{
    if s.len() > 0 {
        lemma_encode_utf8_len(s.drop_first());
    }
}

/// The UTF-8 bytes of each line.
fn lines_to_bytes(lines: &Vec<String>) -> (out: Vec<Vec<u8>>)
    ensures
        out@.map_values(|b: Vec<u8>| b@) == line_bytes(string_views(lines@)),
{
    let mut out: Vec<Vec<u8>> = Vec::new();
    let mut i: usize = 0;
    while i < lines.len()
        invariant
            i <= lines@.len(),
            out@.len() == i,
            forall|k: int| 0 <= k < i ==> #[trigger] out@[k]@ == encode_utf8(lines@[k]@),
        decreases lines.len() - i,
    {
        let b = slice_to_vec(lines[i].as_str().as_bytes());
        out.push(b);
        i = i + 1;
    }
    assert(out@.map_values(|b: Vec<u8>| b@) =~= line_bytes(string_views(lines@)));
    out
}

proof fn lemma_delta_apply_none_stays(
    lines: Seq<Seq<u8>>,
    colors: Option<Seq<Seq<Rgb>>>,
    width: nat,
    height: nat,
    p: Seq<u8>,
    colors_on: bool,
    n: nat,
    m: nat,
)
    requires
        n <= m,
        delta_apply(lines, colors, width, height, p, colors_on, n) is None,
    ensures
        delta_apply(lines, colors, width, height, p, colors_on, m) is None,
    decreases m - n,
{
    if n < m {
        lemma_delta_apply_none_stays(lines, colors, width, height, p, colors_on, n, (m - 1) as nat);
    }
}

/// Decodes a delta payload against `prev`.
fn decode_delta(prev: &RenderedFrame, p: &[u8]) -> (r: Result<RenderedFrame, RecordingError>)
    requires
        prev.well_formed(),
    ensures
        match decode_delta_spec(prev.model(), p@) {
            Ok(m) => r matches Ok(f) && f.model() == m && f.cached_text() is None,
            Err(e) => r == Err::<RenderedFrame, RecordingError>(e),
        },
{
    let plen = p.len();
    if plen < 5 {
        return Err(RecordingError::TruncatedDelta);
    }
    let count = u32_from_le_bytes(slice_subrange(p, 0, 4)) as usize;
    let colors_on = p[4] != 0;
    let el: usize = if colors_on { 8 } else { 5 };
    if (plen - 5) / el < count {
        assert(plen < 5 + count * el) by (nonlinear_arith)
            requires (plen - 5) / (el as int) < count, el > 0, plen >= 5;
        return Err(RecordingError::TruncatedDeltaEntries);
    }
    assert(count * el <= plen - 5) by (nonlinear_arith)
        requires (plen - 5) / (el as int) >= count, el > 0;
    let ghost pm = prev.model();
    let width = prev.width;
    let height = prev.height;
    let mut lines = lines_to_bytes(&prev.lines);
    let mut colors = crate::render::copy_colors(&prev.colors);
    let ghost l0 = line_bytes(pm.lines);
    proof {
        assert forall|y: int| 0 <= y < height implies #[trigger] l0[y].len() >= width by {
            lemma_encode_utf8_len(pm.lines[y]);
        }
    }
    proof {
        assert(lines@.map_values(|b: Vec<u8>| b@).len() == lines@.len());
        assert(pm.lines.len() == height);
        assert forall|y: int| 0 <= y < height implies #[trigger] lines@[y]@.len() == l0[y].len() by {
            assert(lines@.map_values(|b: Vec<u8>| b@)[y] == lines@[y]@);
        }
        if colors is Some {
            let rows = colors.unwrap();
            assert forall|y: int| 0 <= y < height implies #[trigger] rows@[y]@.len() == width by {
                assert(row_views(rows@)[y] == rows@[y]@);
            }
        }
    }
    let mut i: usize = 0;
    while i < count
        invariant
            i <= count,
            count * el <= plen - 5,
            plen == p@.len(),
            el == entry_len(colors_on),
            count == spec_u32_from_le_bytes(p@.subrange(0, 4)),
            colors_on == (p@[4] != 0),
            pm == prev.model(),
            prev.well_formed(),
            width == prev.width,
            height == prev.height,
            l0 == line_bytes(pm.lines),
            lines@.len() == height,
            forall|y: int| 0 <= y < height ==> #[trigger] lines@[y]@.len() == l0[y].len(),
            forall|y: int| 0 <= y < height ==> #[trigger] l0[y].len() >= width,
            colors matches Some(rows) ==> rows@.len() == height && forall|y: int|
                0 <= y < height ==> #[trigger] rows@[y]@.len() == width,
            colors is Some == pm.colors is Some,
            delta_apply(l0, pm.colors, width as nat, height as nat, p@, colors_on, i as nat) == Some(
                (
                    lines@.map_values(|b: Vec<u8>| b@),
                    match colors {
                        Some(rows) => Some(row_views(rows@)),
                        None => None,
                    },
                ),
            ),
        decreases count - i,
    {
        assert(5 + i * el + el <= 5 + count * el) by (nonlinear_arith)
            requires i < count;
        let off = 5 + i * el;
        let index = u32_from_le_bytes(slice_subrange(p, off, off + 4)) as usize;
        let ch = p[off + 4];
        let y = index / width;
        let x = index % width;
        assert(delta_entry(p@, i as int, colors_on).0 == index);
        if y >= height {
            proof {
                lemma_delta_apply_none_stays(l0, pm.colors, width as nat, height as nat, p@, colors_on, (i + 1) as nat, count as nat);
            }
            return Err(RecordingError::DeltaIndexOutsideFrame);
        }
        let ghost old_lines = lines@;
        let mut row: Vec<u8> = Vec::new();
        lines.set_and_swap(y, &mut row);
        row.set(x, ch);
        lines.set_and_swap(y, &mut row);
        if colors_on {
            let rgb = Rgb { r: p[off + 5], g: p[off + 6], b: p[off + 7] };
            match colors {
                Some(ref mut rows) => {
                    let mut crow: Vec<Rgb> = Vec::new();
                    rows.set_and_swap(y, &mut crow);
                    crow.set(x, rgb);
                    rows.set_and_swap(y, &mut crow);
                },
                None => {},
            }
        }
        i = i + 1;
        proof {
            assert(lines@.map_values(|b: Vec<u8>| b@) =~= old_lines.map_values(|b: Vec<u8>| b@).update(
                y as int,
                old_lines[y as int]@.update(x as int, ch),
            ));
        }
    }
    let mut strings: Vec<String> = Vec::new();
    let mut k: usize = 0;
    let ghost lv = lines@.map_values(|b: Vec<u8>| b@);
    let ghost cv = crate::render::opt_row_views(colors);
    while k < lines.len()
        invariant
            k <= lines@.len(),
            delta_apply(l0, pm.colors, width as nat, height as nat, p@, colors_on, count as nat) == Some((lv, cv)),
            count == spec_u32_from_le_bytes(p@.subrange(0, 4)),
            colors_on == (p@[4] != 0),
            plen == p@.len(),
            plen >= 5 + count * entry_len(colors_on),
            pm == prev.model(),
            width == prev.width,
            height == prev.height,
            l0 == line_bytes(pm.lines),
            lv == lines@.map_values(|b: Vec<u8>| b@),
            strings@.len() == k,
            forall|j: int| 0 <= j < k ==> valid_utf8(#[trigger] lv[j]),
            forall|j: int| 0 <= j < k ==> #[trigger] strings@[j]@ == decode_utf8(lv[j]),
        decreases lines.len() - k,
    {
        let b = slice_to_vec(lines[k].as_slice());
        assert(b@ == lv[k as int]);
        match string_from_utf8(b) {
            Some(s) => strings.push(s),
            None => {
                assert(!valid_utf8(lv[k as int]));
                assert(!all_valid_utf8(lv));
                return Err(RecordingError::NotUtf8);
            },
        }
        k = k + 1;
    }
    assert(string_views(strings@) =~= lv.map_values(|b: Seq<u8>| decode_utf8(b)));
    build_frame(width, height, strings, colors)
}

} // verus!

verus! {

/// Where an encoder stands: its dimensions, options, the last frame written and
/// how many frames it has written.
#[verifier::ext_equal]
pub struct EncoderModel {
    pub width: nat,
    pub height: nat,
    pub options: RecordingOptions,
    pub previous: Option<FrameModel>,
    pub count: nat,
}

/// Whether the next frame is a keyframe: the first frame, and every
/// `keyframe_interval`-th frame (an interval of 0 counts as 1).
pub open spec fn is_keyframe(st: EncoderModel) -> bool {
    let interval: nat = if st.options.keyframe_interval == 0 {
        1
    } else {
        st.options.keyframe_interval as nat
    };
    st.previous is None || st.count % interval == 0
}

/// A payload as stored: compressed when the options say so.
pub open spec fn stored(payload: Seq<u8>, compress: bool) -> Seq<u8> {
    if compress {
        zlib_compressed(payload)
    } else {
        payload
    }
}

/// The bytes an encoder in state `st` writes for frame `f` at `timestamp_ms`
/// when compression succeeds: a keyframe, a delta, or a skip record.
pub open spec fn frame_record(st: EncoderModel, timestamp_ms: u64, f: FrameModel) -> Seq<u8> {
    if is_keyframe(st) {
        record_bytes(0, timestamp_ms, stored(keyframe_payload(f), st.options.compress))
    } else {
        match delta_payload(st.previous.unwrap(), f, st.width, st.height, st.options.skip_identical) {
            Some(d) => record_bytes(1, timestamp_ms, stored(d, st.options.compress)),
            None => record_bytes(2, timestamp_ms, Seq::empty()),
        }
    }
}

/// The payload, before compression, that an encoder in state `st` writes for
/// frame `f`: the keyframe payload, the delta payload, or none for a skip
/// record.
pub open spec fn raw_payload(st: EncoderModel, f: FrameModel) -> Option<Seq<u8>> {
    if is_keyframe(st) {
        Some(keyframe_payload(f))
    } else {
        delta_payload(st.previous.unwrap(), f, st.width, st.height, st.options.skip_identical)
    }
}

/// Whether writing `f` in state `st` compresses a payload.
pub open spec fn needs_compression(st: EncoderModel, f: FrameModel) -> bool {
    st.options.compress && raw_payload(st, f) is Some
}

/// Whether compressing the payload for `f` in state `st` succeeds; true when
/// nothing is compressed.
pub open spec fn compression_succeeds(st: EncoderModel, f: FrameModel) -> bool {
    needs_compression(st, f) ==> zlib_compress_ok(raw_payload(st, f)->0)
}

/// The payload written for `f` in state `st` inflates back to itself when it
/// was compressed.
pub open spec fn payload_round_trips(st: EncoderModel, f: FrameModel) -> bool {
    needs_compression(st, f) ==> zlib_inflated(zlib_compressed(raw_payload(st, f)->0)) == Some(
        raw_payload(st, f)->0,
    )
}

/// Writes the `.ascicam` format to memory: the header first, then one record
/// per frame. The bytes accumulate until taken.
pub struct RecordingEncoder {
    width: usize,
    height: usize,
    options: RecordingOptions,
    previous: Option<RenderedFrame>,
    frame_count: u32,
    output: Vec<u8>,
}

impl RecordingEncoder {
    /// Where the encoder stands.
    pub closed spec fn model(&self) -> EncoderModel {
        EncoderModel {
            width: self.width as nat,
            height: self.height as nat,
            options: self.options,
            previous: match self.previous {
                Some(p) => Some(p.model()),
                None => None,
            },
            count: self.frame_count as nat,
        }
    }

    /// The bytes written and not yet taken.
    pub closed spec fn pending(&self) -> Seq<u8> {
        self.output@
    }

    /// The encoder's dimensions fit the format and its last frame has them.
    pub closed spec fn inv(&self) -> bool {
        &&& self.width <= 0xffff && self.height <= 0xffff
        &&& self.previous matches Some(p) ==> p.width == self.width && p.height == self.height
            && bytes_cover(p.model(), self.width as nat, self.height as nat)
    }

    /// An encoder for a `width` by `height` recording at `fps` frames per second,
    /// holding the header; dimensions above `u16::MAX` are refused.
    pub fn create(width: usize, height: usize, fps: u8, options: RecordingOptions) -> (r: Result<
        RecordingEncoder,
        RecordingError,
    >)
        ensures
            (width > 0xffff || height > 0xffff) <==> r is Err,
            r matches Err(e) ==> e == RecordingError::DimensionsTooLarge,
            r matches Ok(enc) ==> {
                &&& enc.inv()
                &&& enc.model() == (EncoderModel {
                    width: width as nat,
                    height: height as nat,
                    options,
                    previous: None,
                    count: 0,
                })
                &&& enc.pending() == header_bytes(width as u16, height as u16, fps, flags_of(options))
            },
    {
        if width > 0xffff || height > 0xffff {
            return Err(RecordingError::DimensionsTooLarge);
        }
        let mut output: Vec<u8> = Vec::new();
        output.push(0x41);
        output.push(0x43);
        output.push(0x41);
        output.push(0x4d);
        output.push(1);
        let mut w = u16_to_le_bytes(width as u16);
        output.append(&mut w);
        let mut h = u16_to_le_bytes(height as u16);
        output.append(&mut h);
        output.push(fps);
        let flags: u8 = (if options.compress { 1u8 } else { 0u8 }) + (if options.skip_identical {
            2u8
        } else {
            0u8
        });
        output.push(flags);
        let enc = RecordingEncoder { width, height, options, previous: None, frame_count: 0, output };
        assert(enc.pending() =~= header_bytes(width as u16, height as u16, fps, flags_of(options)));
        Ok(enc)
    }

    /// How many frames have been written.
    pub fn frame_count(&self) -> (n: u32)
        ensures
            n as nat == self.model().count,
    {
        self.frame_count
    }

    /// Takes the bytes written so far.
    pub fn take_output(&mut self) -> (bytes: Vec<u8>)
        ensures
            bytes@ == old(self).pending(),
            final(self).pending() == Seq::<u8>::empty(),
            final(self).model() == old(self).model(),
            final(self).inv() == old(self).inv(),
    {
        let mut bytes: Vec<u8> = Vec::new();
        std::mem::swap(&mut bytes, &mut self.output);
        bytes
    }

    /// Ends the recording and hands back the bytes not yet taken.
    pub fn finish(self) -> (bytes: Vec<u8>)
        ensures
            bytes@ == self.pending(),
    {
        self.output
    }

    fn write_record(&mut self, kind: u8, timestamp_ms: u64, payload: &[u8])
        ensures
            final(self).output@ == old(self).output@ + record_bytes(kind, timestamp_ms, payload@),
            final(self).width == old(self).width,
            final(self).height == old(self).height,
            final(self).options == old(self).options,
            final(self).previous == old(self).previous,
            final(self).frame_count == old(self).frame_count,
    {
        self.output.push(kind);
        let mut t = u64_to_le_bytes(timestamp_ms);
        self.output.append(&mut t);
        let mut l = u32_to_le_bytes(payload.len() as u32);
        self.output.append(&mut l);
        append_bytes(&mut self.output, payload);
        assert(self.output@ =~= old(self).output@ + record_bytes(kind, timestamp_ms, payload@));
    }

    /// Appends the record of `frame` taken at `timestamp_ms`: a keyframe for the
    /// first frame and every `keyframe_interval`-th one, else a delta of the cells
    /// that changed, or a skip record when none did and skipping is on.
    pub fn write_frame_at(&mut self, timestamp_ms: u64, frame: &RenderedFrame) -> (r: Result<
        (),
        RecordingError,
    >)
        requires
            old(self).inv(),
            frame.width == old(self).model().width && frame.height == old(self).model().height
                ==> old(self).model().count < 0xffff_ffff && bytes_cover(
                frame.model(),
                frame.width as nat,
                frame.height as nat,
            ),
        ensures
            final(self).inv(),
            frame.width != old(self).model().width || frame.height != old(self).model().height
                ==> r == Err::<(), RecordingError>(
                RecordingError::FrameSize {
                    width: frame.width,
                    height: frame.height,
                    expected_width: old(self).model().width as usize,
                    expected_height: old(self).model().height as usize,
                },
            ),
            frame.width == old(self).model().width && frame.height == old(self).model().height
                && compression_succeeds(old(self).model(), frame.model()) ==> r is Ok,
            r matches Err(e) ==> (e is FrameSize || (e == RecordingError::Compression
                && !compression_succeeds(old(self).model(), frame.model()))) && final(self).model()
                == old(self).model() && final(self).pending() == old(self).pending(),
            r is Ok ==> {
                &&& final(self).pending() == old(self).pending() + frame_record(
                    old(self).model(),
                    timestamp_ms,
                    frame.model(),
                )
                &&& final(self).model() == (EncoderModel {
                    previous: Some(frame.model()),
                    count: old(self).model().count + 1,
                    ..old(self).model()
                })
                &&& payload_round_trips(old(self).model(), frame.model())
            },
    {
        if frame.width != self.width || frame.height != self.height {
            return Err(
                RecordingError::FrameSize {
                    width: frame.width,
                    height: frame.height,
                    expected_width: self.width,
                    expected_height: self.height,
                },
            );
        }
        let interval = if self.options.keyframe_interval == 0 {
            1
        } else {
            self.options.keyframe_interval
        };
        let is_key = self.previous.is_none() || self.frame_count % interval == 0;
        let (kind, payload) = if is_key {
            (0u8, encode_keyframe(frame))
        } else {
            let previous = match &self.previous {
                Some(p) => p,
                None => {
                    return Err(RecordingError::DeltaBeforeKeyframe);
                },
            };
            match encode_delta(previous, frame, self.width, self.height, self.options.skip_identical) {
                Some(d) => (1u8, d),
                None => {
                    self.write_record(2, timestamp_ms, &[]);
                    self.previous = Some(frame.clone());
                    self.frame_count = self.frame_count + 1;
                    assert(self.model() =~= (EncoderModel {
                        previous: Some(frame.model()),
                        count: old(self).model().count + 1,
                        ..old(self).model()
                    }));
                    return Ok(());
                },
            }
        };
        let stored_payload = if self.options.compress {
            match zlib_compress(payload.as_slice()) {
                Some(c) => c,
                None => {
                    return Err(RecordingError::Compression);
                },
            }
        } else {
            payload
        };
        self.write_record(kind, timestamp_ms, stored_payload.as_slice());
        self.previous = Some(frame.clone());
        self.frame_count = self.frame_count + 1;
        assert(self.model() =~= (EncoderModel {
            previous: Some(frame.model()),
            count: old(self).model().count + 1,
            ..old(self).model()
        }));
        Ok(())
    }
}

} // verus!

verus! {

/// Where a decoder stands: the recording's bytes, the read position, the
/// dimensions and compression flag of the header, and the last frame decoded.
#[verifier::ext_equal]
pub struct DecoderModel {
    pub bytes: Seq<u8>,
    pub pos: nat,
    pub width: nat,
    pub height: nat,
    pub compressed: bool,
    pub current: Option<FrameModel>,
}

/// Opening a recording: its header, or why it is refused.
pub open spec fn open_spec(bytes: Seq<u8>) -> Result<DecoderModel, RecordingError> {
    if bytes.len() < 4 {
        Err(RecordingError::Truncated)
    } else if bytes.subrange(0, 4) != seq![0x41u8, 0x43u8, 0x41u8, 0x4du8] {
        Err(RecordingError::BadMagic)
    } else if bytes.len() < 5 {
        Err(RecordingError::Truncated)
    } else if bytes[4] != 1 {
        Err(RecordingError::UnsupportedVersion(bytes[4]))
    } else if bytes.len() < 11 {
        Err(RecordingError::Truncated)
    } else {
        Ok(
            DecoderModel {
                bytes,
                pos: 11,
                width: spec_u16_from_le_bytes(bytes.subrange(5, 7)) as nat,
                height: spec_u16_from_le_bytes(bytes.subrange(7, 9)) as nat,
                compressed: bytes[10] & 1 != 0,
                current: None,
            },
        )
    }
}

/// One read: the next frame with its timestamp (none at the end of the data),
/// or an error, and the decoder afterwards. The read position moves past what
/// the read consumed, whether it succeeds or not: to the end of the data when
/// the data ends inside a record, past the 13 header bytes of a skip record,
/// and past the whole record otherwise; the last frame changes only when a
/// frame is decoded.
pub open spec fn read_spec(st: DecoderModel) -> (
    Result<Option<(u64, FrameModel)>, RecordingError>,
    DecoderModel,
) {
    let b = st.bytes;
    let pos = st.pos as int;
    let at_end = DecoderModel { pos: b.len(), ..st };
    if pos >= b.len() {
        (Ok(None), st)
    } else if pos + 13 > b.len() {
        (Err(RecordingError::Truncated), at_end)
    } else {
        let kind = b[pos];
        let ts = spec_u64_from_le_bytes(b.subrange(pos + 1, pos + 9));
        let len = spec_u32_from_le_bytes(b.subrange(pos + 9, pos + 13)) as int;
        let start = pos + 13;
        let after_header = DecoderModel { pos: start as nat, ..st };
        if kind == 2 {
            match st.current {
                None => (Err(RecordingError::SkipBeforeFirstFrame), after_header),
                Some(c) => (Ok(Some((ts, c))), after_header),
            }
        } else if start + len > b.len() {
            (Err(RecordingError::Truncated), at_end)
        } else {
            let past = DecoderModel { pos: (start + len) as nat, ..st };
            let raw = b.subrange(start, start + len);
            let payload = if st.compressed {
                zlib_inflated(raw)
            } else {
                Some(raw)
            };
            match payload {
                None => (Err(RecordingError::Decompression), past),
                Some(p) => {
                    let decoded = if kind == 0 {
                        decode_keyframe_spec(st.width, st.height, p)
                    } else if kind == 1 {
                        match st.current {
                            None => Err(RecordingError::DeltaBeforeKeyframe),
                            Some(c) => decode_delta_spec(c, p),
                        }
                    } else {
                        Err(RecordingError::UnknownFrameType(kind))
                    };
                    match decoded {
                        Err(e) => (Err(e), past),
                        Ok(m) => (Ok(Some((ts, m))), DecoderModel { current: Some(m), ..past }),
                    }
                },
            }
        }
    }
}

/// The next record of `st` is a complete keyframe record whose payload, after
/// any decompression, is not empty, in a recording of width 0: its text cannot
/// be split into rows of that width.
pub open spec fn zero_width_keyframe_next(st: DecoderModel) -> bool {
    let b = st.bytes;
    let pos = st.pos as int;
    let len = spec_u32_from_le_bytes(b.subrange(pos + 9, pos + 13)) as int;
    let start = pos + 13;
    &&& st.width == 0
    &&& pos + 13 <= b.len()
    &&& b[pos] == 0
    &&& start + len <= b.len()
    &&& match (if st.compressed {
        zlib_inflated(b.subrange(start, start + len))
    } else {
        Some(b.subrange(start, start + len))
    }) {
        Some(p) => p.len() > 0,
        None => false,
    }
}

/// Reads the `.ascicam` format from memory, one frame at a time.
pub struct RecordingDecoder {
    bytes: Vec<u8>,
    pos: usize,
    width: usize,
    height: usize,
    compressed: bool,
    current: Option<RenderedFrame>,
}

impl RecordingDecoder {
    /// Where the decoder stands.
    pub closed spec fn model(&self) -> DecoderModel {
        DecoderModel {
            bytes: self.bytes@,
            pos: self.pos as nat,
            width: self.width as nat,
            height: self.height as nat,
            compressed: self.compressed,
            current: match self.current {
                Some(c) => Some(c.model()),
                None => None,
            },
        }
    }

    /// The decoder's dimensions fit the format and its last frame is well formed.
    pub closed spec fn inv(&self) -> bool {
        &&& self.width <= 0xffff && self.height <= 0xffff
        &&& self.current matches Some(c) ==> c.well_formed() && c.width == self.width && c.height
            == self.height && c.cached_text() is None
    }

    /// A decoder over a whole recording, after checking its header.
    pub fn open(bytes: Vec<u8>) -> (r: Result<RecordingDecoder, RecordingError>)
        ensures
            match open_spec(bytes@) {
                Ok(m) => r matches Ok(d) && d.model() == m && d.inv(),
                Err(e) => r matches Err(e2) && e2 == e,
            },
    {
        if bytes.len() < 4 {
            return Err(RecordingError::Truncated);
        }
        if bytes[0] != 0x41 || bytes[1] != 0x43 || bytes[2] != 0x41 || bytes[3] != 0x4d {
            proof {
                let m = seq![0x41u8, 0x43u8, 0x41u8, 0x4du8];
                if bytes@.subrange(0, 4) == m {
                    assert(bytes@.subrange(0, 4)[0] == m[0]);
                    assert(bytes@.subrange(0, 4)[1] == m[1]);
                    assert(bytes@.subrange(0, 4)[2] == m[2]);
                    assert(bytes@.subrange(0, 4)[3] == m[3]);
                }
            }
            return Err(RecordingError::BadMagic);
        }
        assert(bytes@.subrange(0, 4) =~= seq![0x41u8, 0x43u8, 0x41u8, 0x4du8]);
        if bytes.len() < 5 {
            return Err(RecordingError::Truncated);
        }
        if bytes[4] != 1 {
            return Err(RecordingError::UnsupportedVersion(bytes[4]));
        }
        if bytes.len() < 11 {
            return Err(RecordingError::Truncated);
        }
        let width = u16_from_le_bytes(slice_subrange(bytes.as_slice(), 5, 7)) as usize;
        let height = u16_from_le_bytes(slice_subrange(bytes.as_slice(), 7, 9)) as usize;
        let compressed = bytes[10] & 1 != 0;
        let d = RecordingDecoder { bytes, pos: 11, width, height, compressed, current: None };
        assert(d.model() =~= open_spec(d.bytes@)->Ok_0);
        Ok(d)
    }

    /// The width the header gives.
    pub fn width(&self) -> (w: usize)
        ensures
            w as nat == self.model().width,
    {
        self.width
    }

    /// The height the header gives.
    pub fn height(&self) -> (h: usize)
        ensures
            h as nat == self.model().height,
    {
        self.height
    }

    /// The next frame, as `read_frame` gives it, or `ZeroWidthKeyframe`, with
    /// the decoder unchanged, where the next record is a keyframe with text in
    /// a recording of width 0.
    pub fn try_read_frame(&mut self) -> (r: Result<Option<DecodedFrame>, RecordingError>)
        requires
            old(self).inv(),
        ensures
            final(self).inv(),
            zero_width_keyframe_next(old(self).model()) ==> r == Err::<
                Option<DecodedFrame>,
                RecordingError,
            >(RecordingError::ZeroWidthKeyframe) && final(self).model() == old(self).model(),
            !zero_width_keyframe_next(old(self).model()) ==> {
                &&& final(self).model() == read_spec(old(self).model()).1
                &&& match read_spec(old(self).model()).0 {
                    Ok(None) => r matches Ok(None),
                    Ok(Some((ts, m))) => r matches Ok(Some(d)) && d.timestamp_ms == ts
                        && d.frame.model() == m && d.frame.cached_text() is None,
                    Err(e) => r matches Err(e2) && e2 == e,
                }
            },
    {
        if self.next_is_zero_width_keyframe() {
            return Err(RecordingError::ZeroWidthKeyframe);
        }
        self.read_frame()
    }

    /// The next frame: none at the end of the data, a copy of the last frame for
    /// a skip record, else the keyframe or the delta applied to the last frame.
    /// After an error the position has moved past what was read, as
    /// `read_spec` says.
    /// Whether the next record is a keyframe of a recording of width 0 with a
    /// non-empty payload, which `read_frame` cannot decode.
    pub fn next_is_zero_width_keyframe(&self) -> (b: bool)
        requires
            self.inv(),
        ensures
            b == zero_width_keyframe_next(self.model()),
    {
        let len = self.bytes.len();
        let pos = self.pos;
        if self.width != 0 || pos >= len || len - pos < 13 || self.bytes[pos] != 0 {
            return false;
        }
        let plen = u32_from_le_bytes(slice_subrange(self.bytes.as_slice(), pos + 9, pos + 13)) as usize;
        let start = pos + 13;
        if len - start < plen {
            return false;
        }
        let raw = slice_subrange(self.bytes.as_slice(), start, start + plen);
        if self.compressed {
            match zlib_decompress(raw) {
                Some(v) => v.len() > 0,
                None => false,
            }
        } else {
            raw.len() > 0
        }
    }

    pub fn read_frame(&mut self) -> (r: Result<Option<DecodedFrame>, RecordingError>)
        requires
            old(self).inv(),
            !zero_width_keyframe_next(old(self).model()),
        ensures
            final(self).inv(),
            final(self).model() == read_spec(old(self).model()).1,
            match read_spec(old(self).model()).0 {
                Ok(None) => r matches Ok(None),
                Ok(Some((ts, m))) => r matches Ok(Some(d)) && d.timestamp_ms == ts && d.frame.model()
                    == m && d.frame.cached_text() is None,
                Err(e) => r matches Err(e2) && e2 == e,
            },
    {
        let len = self.bytes.len();
        let pos = self.pos;
        if pos >= len {
            return Ok(None);
        }
        if len - pos < 13 {
            self.pos = len;
            return Err(RecordingError::Truncated);
        }
        let kind = self.bytes[pos];
        let ts = u64_from_le_bytes(slice_subrange(self.bytes.as_slice(), pos + 1, pos + 9));
        let plen = u32_from_le_bytes(slice_subrange(self.bytes.as_slice(), pos + 9, pos + 13)) as usize;
        let start = pos + 13;
        if kind == 2 {
            match &self.current {
                None => {
                    self.pos = start;
                    return Err(RecordingError::SkipBeforeFirstFrame);
                },
                Some(c) => {
                    let frame = c.duplicate();
                    self.pos = start;
                    return Ok(Some(DecodedFrame { timestamp_ms: ts, frame }));
                },
            }
        }
        if len - start < plen {
            self.pos = len;
            return Err(RecordingError::Truncated);
        }
        let raw = slice_subrange(self.bytes.as_slice(), start, start + plen);
        let decompressed;
        let payload: &[u8] = if self.compressed {
            match zlib_decompress(raw) {
                Some(v) => {
                    decompressed = v;
                    decompressed.as_slice()
                },
                None => {
                    self.pos = start + plen;
                    return Err(RecordingError::Decompression);
                },
            }
        } else {
            raw
        };
        let decoded = if kind == 0 {
            if payload.len() == 0 {
                Err(RecordingError::EmptyKeyframe)
            } else {
                decode_keyframe(self.width, self.height, payload)
            }
        } else if kind == 1 {
            match &self.current {
                None => Err(RecordingError::DeltaBeforeKeyframe),
                Some(c) => decode_delta(c, payload),
            }
        } else {
            Err(RecordingError::UnknownFrameType(kind))
        };
        match decoded {
            Err(e) => {
                self.pos = start + plen;
                Err(e)
            },
            Ok(frame) => {
                let kept = frame.duplicate();
                self.current = Some(kept);
                self.pos = start + plen;
                Ok(Some(DecodedFrame { timestamp_ms: ts, frame }))
            },
        }
    }
}

} // verus!

verus! {

/// Every piece has length `n`.
pub open spec fn uniform<A>(s: Seq<Seq<A>>, n: nat) -> bool {
    forall|i: int| 0 <= i < s.len() ==> (#[trigger] s[i]).len() == n
}

proof fn lemma_flatten_uniform<A>(s: Seq<Seq<A>>, n: nat)
    requires
        uniform(s, n),
    ensures
        s.flatten_alt().len() == s.len() * n,
        forall|i: int, j: int|
            0 <= i < s.len() && 0 <= j < n ==> #[trigger] s.flatten_alt()[i * n + j] == s[i][j],
    decreases s.len(),
{
    if s.len() > 0 {
        let t = s.drop_last();
        assert(uniform(t, n));
        lemma_flatten_uniform(t, n);
        assert(s.flatten_alt() == t.flatten_alt() + s.last());
        assert(s.len() * n == t.len() * n + n) by (nonlinear_arith)
            requires s.len() == t.len() + 1;
        assert forall|i: int, j: int| 0 <= i < s.len() && 0 <= j < n implies #[trigger] s.flatten_alt()[i
            * n + j] == s[i][j] by {
            if i < t.len() {
                assert(i * n + j < t.len() * n) by (nonlinear_arith)
                    requires i < t.len(), j < n;
                assert(t[i] == s[i]);
            } else {
                assert(i * n == t.len() * n) by (nonlinear_arith)
                    requires i == t.len();
            }
        }
    }
}

proof fn lemma_flatten_uniform_row<A>(s: Seq<Seq<A>>, n: nat, i: int)
    requires
        uniform(s, n),
        0 <= i < s.len(),
    ensures
        s.flatten_alt().subrange(i * n, i * n + n) == s[i],
{
    lemma_flatten_uniform(s, n);
    assert(i * n + n <= s.len() * n) by (nonlinear_arith)
        requires i < s.len();
    assert forall|j: int| 0 <= j < n implies #[trigger] s.flatten_alt().subrange(i * n, i * n + n)[j]
        == s[i][j] by {
        assert(s.flatten_alt()[i * n + j] == s[i][j]);
    }
    assert(s.flatten_alt().subrange(i * n, i * n + n) =~= s[i]);
}

} // verus!

verus! {

/// A frame the format carries unchanged: `width` by `height`, the shape `new`
/// checks, and ASCII text (the format stores one byte per cell).
pub open spec fn recordable(m: FrameModel, width: nat, height: nat) -> bool {
    &&& m.width == width && m.height == height
    &&& grid_ok(width, height, m.lines, m.colors)
    &&& forall|y: int| 0 <= y < height ==> is_ascii_chars(#[trigger] m.lines[y])
}

proof fn lemma_ascii_line_bytes(m: FrameModel, width: nat, height: nat)
    requires
        recordable(m, width, height),
    ensures
        uniform(line_bytes(m.lines), width),
        line_bytes(m.lines).len() == height,
        forall|y: int, x: int|
            0 <= y < height && 0 <= x < width ==> #[trigger] line_bytes(m.lines)[y][x] == m.lines[y][x] as u8,
        forall|y: int| 0 <= y < height ==> valid_utf8(#[trigger] line_bytes(m.lines)[y]),
        forall|y: int| 0 <= y < height ==> decode_utf8(#[trigger] line_bytes(m.lines)[y]) == m.lines[y],
{
    let lb = line_bytes(m.lines);
    assert forall|y: int| 0 <= y < lb.len() implies (#[trigger] lb[y]).len() == width by {
        assert(is_ascii_chars(m.lines[y]));
        is_ascii_chars_encode_utf8(m.lines[y]);
    }
    assert forall|y: int, x: int| 0 <= y < height && 0 <= x < width implies #[trigger] lb[y][x]
        == m.lines[y][x] as u8 by {
        assert(is_ascii_chars(m.lines[y]));
        is_ascii_chars_encode_utf8(m.lines[y]);
    }
    assert forall|y: int| 0 <= y < height implies valid_utf8(#[trigger] lb[y]) by {
        encode_utf8_valid_utf8(m.lines[y]);
    }
    assert forall|y: int| 0 <= y < height implies decode_utf8(#[trigger] lb[y]) == m.lines[y] by {
        encode_utf8_decode_utf8(m.lines[y]);
    }
}

proof fn lemma_row_bytes(row: Seq<Rgb>)
    ensures
        row_bytes(row).len() == 3 * row.len(),
        forall|x: int|
            0 <= x < row.len() ==> {
                &&& #[trigger] row_bytes(row)[3 * x] == row[x].r
                &&& row_bytes(row)[3 * x + 1] == row[x].g
                &&& row_bytes(row)[3 * x + 2] == row[x].b
            },
{
    let parts = row.map_values(|c: Rgb| rgb_bytes(c));
    assert(uniform(parts, 3));
    lemma_flatten_uniform(parts, 3);
    assert(row.len() * 3 == 3 * row.len()) by (nonlinear_arith);
    assert forall|x: int| 0 <= x < row.len() implies {
        &&& #[trigger] row_bytes(row)[3 * x] == row[x].r
        &&& row_bytes(row)[3 * x + 1] == row[x].g
        &&& row_bytes(row)[3 * x + 2] == row[x].b
    } by {
        assert(x * 3 == 3 * x) by (nonlinear_arith);
        assert(parts.flatten_alt()[x * 3 + 0] == parts[x][0]);
        assert(parts.flatten_alt()[x * 3 + 1] == parts[x][1]);
        assert(parts.flatten_alt()[x * 3 + 2] == parts[x][2]);
    }
}

/// A keyframe payload decodes to the frame it was made from.
pub proof fn lemma_keyframe_round_trip(m: FrameModel, width: nat, height: nat)
    requires
        recordable(m, width, height),
    ensures
        decode_keyframe_spec(width, height, keyframe_payload(m)) == Ok::<FrameModel, RecordingError>(m),
{
    let lb = line_bytes(m.lines);
    lemma_ascii_line_bytes(m, width, height);
    lemma_flatten_uniform(lb, width);
    let text = lb.flatten_alt();
    let p = keyframe_payload(m);
    let tl = width * height;
    assert(height * width == tl) by (nonlinear_arith)
        requires tl == width * height;
    let tail: Seq<u8> = match m.colors {
        Some(rows) => grid_bytes(rows),
        None => Seq::empty(),
    };
    assert(p == seq![if m.colors is Some { 1u8 } else { 0u8 }] + text + tail);
    assert(p.len() >= 1 + tl);
    let rows_text = Seq::new(height, |y: int| keyframe_text_row(p, width, y));
    assert forall|y: int| 0 <= y < height implies #[trigger] rows_text[y] == lb[y] by {
        lemma_flatten_uniform_row(lb, width, y);
        assert(y * width + width <= tl) by (nonlinear_arith)
            requires y < height, tl == width * height;
        assert(keyframe_text_row(p, width, y) =~= text.subrange(y * width, y * width + width));
    }
    assert(all_valid_utf8(rows_text));
    let lines = Seq::new(height, |y: int| decode_utf8(keyframe_text_row(p, width, y)));
    assert forall|y: int| 0 <= y < height implies #[trigger] lines[y] == m.lines[y] by {
        assert(rows_text[y] == lb[y]);
    }
    assert(lines =~= m.lines);
    match m.colors {
        Some(rows) => {
            let gb = rows.map_values(|row: Seq<Rgb>| row_bytes(row));
            assert forall|y: int| 0 <= y < gb.len() implies (#[trigger] gb[y]).len() == 3 * width by {
                lemma_row_bytes(rows[y]);
            }
            assert(uniform(gb, 3 * width));
            lemma_flatten_uniform(gb, 3 * width);
            assert(gb.len() * (3 * width) == 3 * tl) by (nonlinear_arith)
                requires gb.len() == height, tl == width * height;
            assert(p[0] != 0);
            assert(p.len() - (1 + tl) == 3 * tl);
            let colors = Seq::new(
                height,
                |y: int| Seq::new(width, |x: int| keyframe_color(p, width, height, y, x)),
            );
            assert forall|y: int| 0 <= y < height implies #[trigger] colors[y] =~= rows[y] by {
                assert forall|x: int| 0 <= x < width implies #[trigger] colors[y][x] == rows[y][x] by {
                    lemma_row_bytes(rows[y]);
                    let o = 1 + tl + 3 * (y * width + x);
                    let k = 3 * (y * width + x);
                    assert(3 * (y * width + x) == y * (3 * width) + 3 * x) by (nonlinear_arith);
                    assert(y * width + x < tl) by (nonlinear_arith)
                        requires y < height, x < width, tl == width * height;
                    assert(p[o] == gb.flatten_alt()[k]);
                    assert(p[o + 1] == gb.flatten_alt()[k + 1]);
                    assert(p[o + 2] == gb.flatten_alt()[k + 2]);
                    assert(gb.flatten_alt()[y * (3 * width) + 3 * x] == gb[y][3 * x]);
                    assert(gb.flatten_alt()[y * (3 * width) + (3 * x + 1)] == gb[y][3 * x + 1]);
                    assert(gb.flatten_alt()[y * (3 * width) + (3 * x + 2)] == gb[y][3 * x + 2]);
                    assert(p[o] == rows[y][x].r);
                    assert(p[o + 1] == rows[y][x].g);
                    assert(p[o + 2] == rows[y][x].b);
                }
            }
            assert(colors =~= rows);
        },
        None => {
            assert(p[0] == 0);
        },
    }
    assert(checked_model(width, height, m.lines, m.colors) == Ok::<FrameModel, RecordingError>(m));
}

} // verus!

verus! {

/// Two frames whose colours are both present or both absent.
pub open spec fn same_color_presence(a: FrameModel, b: FrameModel) -> bool {
    (a.colors is Some) == (b.colors is Some)
}

/// The bytes of `cur` in the first `n` cells and of `prev` in the rest.
pub open spec fn mix_lines(prev: FrameModel, cur: FrameModel, width: nat, height: nat, n: nat) -> Seq<
    Seq<u8>,
> {
    Seq::new(
        height,
        |y: int|
            Seq::new(
                width,
                |x: int|
                    if y * width + x < n {
                        cell_byte(cur, y, x)
                    } else {
                        cell_byte(prev, y, x)
                    },
            ),
    )
}

/// The colours of `cur` in the first `n` cells and of `prev` in the rest.
pub open spec fn mix_colors(prev: FrameModel, cur: FrameModel, width: nat, height: nat, n: nat) -> Option<
    Seq<Seq<Rgb>>,
> {
    match (prev.colors, cur.colors) {
        (Some(pr), Some(cr)) => Some(
            Seq::new(
                height,
                |y: int|
                    Seq::new(
                        width,
                        |x: int|
                            if y * width + x < n {
                                cr[y][x]
                            } else {
                                pr[y][x]
                            },
                    ),
            ),
        ),
        _ => prev.colors,
    }
}

proof fn lemma_changes_bounds(prev: FrameModel, cur: FrameModel, width: nat, n: nat)
    ensures
        changes_upto(prev, cur, width, n).len() <= n,
        forall|i: int|
            0 <= i < changes_upto(prev, cur, width, n).len() ==> (#[trigger] changes_upto(
                prev,
                cur,
                width,
                n,
            )[i]).0 < n,
    decreases n,
{
    if n > 0 {
        lemma_changes_bounds(prev, cur, width, (n - 1) as nat);
    }
}

proof fn lemma_changes_prefix(prev: FrameModel, cur: FrameModel, width: nat, n: nat, m: nat)
    requires
        n <= m,
    ensures
        changes_upto(prev, cur, width, n).len() <= changes_upto(prev, cur, width, m).len(),
        changes_upto(prev, cur, width, m).take(changes_upto(prev, cur, width, n).len() as int)
            == changes_upto(prev, cur, width, n),
    decreases m - n,
{
    if n < m {
        lemma_changes_prefix(prev, cur, width, n, (m - 1) as nat);
        let a = changes_upto(prev, cur, width, n);
        let b = changes_upto(prev, cur, width, (m - 1) as nat);
        let c = changes_upto(prev, cur, width, m);
        assert(c.take(a.len() as int) =~= b.take(a.len() as int));
    } else {
        let a = changes_upto(prev, cur, width, n);
        assert(a.take(a.len() as int) =~= a);
    }
}

proof fn lemma_delta_entries(changes: Seq<Change>, colors_on: bool)
    requires
        changes.len() < 0x1_0000_0000,
        forall|i: int| 0 <= i < changes.len() ==> (#[trigger] changes[i]).0 < 0x1_0000_0000,
    ensures
        delta_bytes(changes, colors_on).len() == 5 + changes.len() * entry_len(colors_on),
        spec_u32_from_le_bytes(delta_bytes(changes, colors_on).subrange(0, 4)) == changes.len(),
        delta_bytes(changes, colors_on)[4] == if colors_on { 1u8 } else { 0u8 },
        forall|i: int|
            0 <= i < changes.len() ==> {
                let e = #[trigger] delta_entry(delta_bytes(changes, colors_on), i, colors_on);
                &&& e.0 == changes[i].0 as nat
                &&& e.1 == changes[i].1
                &&& colors_on ==> e.2 == match changes[i].2 {
                    Some(rgb) => rgb,
                    None => Rgb { r: 255, g: 255, b: 255 },
                }
            },
{
    lemma_auto_spec_u32_to_from_le_bytes();
    let el = entry_len(colors_on);
    let parts = changes.map_values(|c: Change| entry_bytes(c, colors_on));
    assert forall|i: int| 0 <= i < parts.len() implies (#[trigger] parts[i]).len() == el by {
        assert(spec_u32_to_le_bytes(changes[i].0 as u32).len() == 4);
    }
    lemma_flatten_uniform(parts, el);
    let ent = parts.flatten_alt();
    let p = delta_bytes(changes, colors_on);
    let head = spec_u32_to_le_bytes(changes.len() as u32);
    assert(head.len() == 4);
    assert(p == head + seq![if colors_on { 1u8 } else { 0u8 }] + ent);
    assert(changes.len() * el == el * changes.len()) by (nonlinear_arith);
    assert(p.subrange(0, 4) =~= head);
    assert forall|i: int| 0 <= i < changes.len() implies {
        let e = #[trigger] delta_entry(p, i, colors_on);
        &&& e.0 == changes[i].0 as nat
        &&& e.1 == changes[i].1
        &&& colors_on ==> e.2 == match changes[i].2 {
            Some(rgb) => rgb,
            None => Rgb { r: 255, g: 255, b: 255 },
        }
    } by {
        let o = 5 + i * el;
        let eb = entry_bytes(changes[i], colors_on);
        assert(parts[i] == eb);
        assert forall|j: int| 0 <= j < el implies #[trigger] p[o + j] == eb[j] by {
            assert(ent[i * el + j] == parts[i][j]);
        }
        let ib = spec_u32_to_le_bytes(changes[i].0 as u32);
        assert(p.subrange(o, o + 4) =~= ib) by {
            assert forall|j: int| 0 <= j < 4 implies p.subrange(o, o + 4)[j] == ib[j] by {
                assert(p[o + j] == eb[j]);
            }
        }
        assert(p[o + 4] == eb[4]);
        if colors_on {
            assert(p[o + 5] == eb[5]);
            assert(p[o + 6] == eb[6]);
            assert(p[o + 7] == eb[7]);
        }
    }
}

} // verus!

verus! {

proof fn lemma_row_major_unique(y: int, x: int, w: int, k: int)
    requires
        0 <= x < w,
        0 <= y,
        y * w + x == k,
    ensures
        y == k / w,
        x == k % w,
{
    vstd::arithmetic::div_mod::lemma_fundamental_div_mod_converse(k, w, y, x);
}

proof fn lemma_row_major_of(k: int, w: int)
    requires
        w > 0,
        k >= 0,
    ensures
        (k / w) * w + k % w == k,
{
    vstd::arithmetic::div_mod::lemma_fundamental_div_mod(k, w);
    assert(w * (k / w) == (k / w) * w) by (nonlinear_arith);
}

#[verifier::spinoff_prover]
#[verifier::rlimit(40)]
proof fn lemma_delta_mix(prev: FrameModel, cur: FrameModel, width: nat, height: nat, n: nat)
    requires
        recordable(prev, width, height),
        recordable(cur, width, height),
        same_color_presence(prev, cur),
        width <= 0xffff,
        height <= 0xffff,
        n <= width * height,
    ensures
        delta_apply(
            line_bytes(prev.lines),
            prev.colors,
            width,
            height,
            delta_bytes(changes_upto(prev, cur, width, width * height), cur.colors is Some),
            cur.colors is Some,
            changes_upto(prev, cur, width, n).len(),
        ) == Some((mix_lines(prev, cur, width, height, n), mix_colors(prev, cur, width, height, n))),
    decreases n,
{
    let total = width * height;
    let f = changes_upto(prev, cur, width, total);
    let on = cur.colors is Some;
    let p = delta_bytes(f, on);
    lemma_ascii_line_bytes(prev, width, height);
    lemma_ascii_line_bytes(cur, width, height);
    if n == 0 {
        assert(mix_lines(prev, cur, width, height, 0) =~= line_bytes(prev.lines)) by {
            assert forall|y: int| 0 <= y < height implies #[trigger] mix_lines(prev, cur, width, height, 0)[y]
                =~= line_bytes(prev.lines)[y] by {}
        }
        match (prev.colors, cur.colors) {
            (Some(pr), Some(cr)) => {
                assert(mix_colors(prev, cur, width, height, 0)->Some_0 =~= pr) by {
                    assert forall|y: int| 0 <= y < height implies #[trigger] mix_colors(prev, cur, width, height, 0)->Some_0[y]
                        =~= pr[y] by {}
                }
            },
            _ => {},
        }
    } else {
        let k = (n - 1) as nat;
        lemma_delta_mix(prev, cur, width, height, k);
        let y = (k / width) as int;
        let x = (k % width) as int;
        assert(width > 0);
        assert(0 <= x < width);
        assert(y < height) by {
            vstd::arithmetic::div_mod::lemma_fundamental_div_mod(k as int, width as int);
            assert(k < width * height);
            if y >= height {
                assert(false) by (nonlinear_arith)
                    requires y >= height, width > 0, k == width * y + x, x >= 0, k < width * height;
            }
        }
        let ck = changes_upto(prev, cur, width, k);
        let cn = changes_upto(prev, cur, width, n);
        lemma_changes_bounds(prev, cur, width, total);
        lemma_changes_prefix(prev, cur, width, n, total);
        assert(total <= 0xffff * 0xffff) by (nonlinear_arith)
            requires total == width * height, width <= 0xffff, height <= 0xffff;
        lemma_delta_entries(f, on);
        let ml = mix_lines(prev, cur, width, height, k);
        let mc = mix_colors(prev, cur, width, height, k);
        let changed = cell_byte(cur, y, x) != cell_byte(prev, y, x) || cell_color(cur, y, x)
            != cell_color(prev, y, x);
        if changed {
            assert(cn == ck.push((k as usize, cell_byte(cur, y, x), cell_color(cur, y, x))));
            assert(f[ck.len() as int] == cn[ck.len() as int]);
            let e = delta_entry(p, ck.len() as int, on);
            assert(e.0 == k);
            assert(e.1 == cell_byte(cur, y, x));
            let ml2 = ml.update(y, ml[y].update(x, e.1));
            assert(ml2 =~= mix_lines(prev, cur, width, height, n)) by {
                assert forall|yy: int| 0 <= yy < height implies #[trigger] ml2[yy] =~= mix_lines(
                    prev,
                    cur,
                    width,
                    height,
                    n,
                )[yy] by {
                    assert forall|xx: int| 0 <= xx < width implies #[trigger] ml2[yy][xx] == mix_lines(
                        prev,
                        cur,
                        width,
                        height,
                        n,
                    )[yy][xx] by {
                        if yy * width + xx == k {
                            lemma_row_major_unique(yy, xx, width as int, k as int);
                        }
                        if yy == y && xx == x {
                            lemma_row_major_of(k as int, width as int);
                        }
                    }
                }
            }
            match (prev.colors, cur.colors) {
                (Some(pr), Some(cr)) => {
                    let rows = mc->Some_0;
                    assert(e.2 == cr[y][x]);
                    let rows2 = rows.update(y, rows[y].update(x, e.2));
                    assert(rows2 =~= mix_colors(prev, cur, width, height, n)->Some_0) by {
                        assert forall|yy: int| 0 <= yy < height implies #[trigger] rows2[yy] =~= mix_colors(
                            prev,
                            cur,
                            width,
                            height,
                            n,
                        )->Some_0[yy] by {
                            assert forall|xx: int| 0 <= xx < width implies #[trigger] rows2[yy][xx]
                                == mix_colors(prev, cur, width, height, n)->Some_0[yy][xx] by {
                                if yy * width + xx == k {
                                    lemma_row_major_unique(yy, xx, width as int, k as int);
                                }
                                if yy == y && xx == x {
                                    lemma_row_major_of(k as int, width as int);
                                }
                            }
                        }
                    }
                },
                _ => {},
            }
        } else {
            assert(cn == ck);
            assert(ml =~= mix_lines(prev, cur, width, height, n)) by {
                assert forall|yy: int| 0 <= yy < height implies #[trigger] ml[yy] =~= mix_lines(
                    prev,
                    cur,
                    width,
                    height,
                    n,
                )[yy] by {
                    assert forall|xx: int| 0 <= xx < width implies #[trigger] ml[yy][xx] == mix_lines(
                        prev,
                        cur,
                        width,
                        height,
                        n,
                    )[yy][xx] by {
                        if yy * width + xx == k {
                            lemma_row_major_unique(yy, xx, width as int, k as int);
                        }
                    }
                }
            }
            match (prev.colors, cur.colors) {
                (Some(pr), Some(cr)) => {
                    assert(mc =~= mix_colors(prev, cur, width, height, n)) by {
                        assert(mc->Some_0 =~= mix_colors(prev, cur, width, height, n)->Some_0) by {
                            assert forall|yy: int| 0 <= yy < height implies #[trigger] mc->Some_0[yy]
                                =~= mix_colors(prev, cur, width, height, n)->Some_0[yy] by {
                                assert forall|xx: int| 0 <= xx < width implies #[trigger] mc->Some_0[yy][xx]
                                    == mix_colors(prev, cur, width, height, n)->Some_0[yy][xx] by {
                                    if yy * width + xx == k {
                                        lemma_row_major_unique(yy, xx, width as int, k as int);
                                    }
                                }
                            }
                        }
                    }
                },
                _ => {},
            }
        }
    }
}

} // verus!

verus! {

proof fn lemma_mix_complete(prev: FrameModel, cur: FrameModel, width: nat, height: nat)
    requires
        recordable(prev, width, height),
        recordable(cur, width, height),
        same_color_presence(prev, cur),
    ensures
        mix_lines(prev, cur, width, height, width * height) == line_bytes(cur.lines),
        mix_colors(prev, cur, width, height, width * height) == cur.colors,
{
    lemma_ascii_line_bytes(cur, width, height);
    let total = width * height;
    assert(mix_lines(prev, cur, width, height, total) =~= line_bytes(cur.lines)) by {
        assert forall|y: int| 0 <= y < height implies #[trigger] mix_lines(prev, cur, width, height, total)[y]
            =~= line_bytes(cur.lines)[y] by {
            assert forall|x: int| 0 <= x < width implies #[trigger] mix_lines(
                prev,
                cur,
                width,
                height,
                total,
            )[y][x] == line_bytes(cur.lines)[y][x] by {
                assert(y * width + x < total) by (nonlinear_arith)
                    requires 0 <= y < height, 0 <= x < width, total == width * height;
            }
        }
    }
    match (prev.colors, cur.colors) {
        (Some(pr), Some(cr)) => {
            assert(mix_colors(prev, cur, width, height, total)->Some_0 =~= cr) by {
                assert forall|y: int| 0 <= y < height implies #[trigger] mix_colors(
                    prev,
                    cur,
                    width,
                    height,
                    total,
                )->Some_0[y] =~= cr[y] by {
                    assert forall|x: int| 0 <= x < width implies #[trigger] mix_colors(
                        prev,
                        cur,
                        width,
                        height,
                        total,
                    )->Some_0[y][x] == cr[y][x] by {
                        assert(y * width + x < total) by (nonlinear_arith)
                            requires 0 <= y < height, 0 <= x < width, total == width * height;
                    }
                }
            }
        },
        _ => {},
    }
}

/// A delta payload decodes, against the frame before, to the frame it was made
/// from; a frame for which no delta is written is the frame before.
pub proof fn lemma_delta_round_trip(
    prev: FrameModel,
    cur: FrameModel,
    width: nat,
    height: nat,
    skip_identical: bool,
)
    requires
        recordable(prev, width, height),
        recordable(cur, width, height),
        same_color_presence(prev, cur),
        width <= 0xffff,
        height <= 0xffff,
    ensures
        match delta_payload(prev, cur, width, height, skip_identical) {
            Some(d) => decode_delta_spec(prev, d) == Ok::<FrameModel, RecordingError>(cur),
            None => cur == prev,
        },
{
    let total = width * height;
    let f = changes_upto(prev, cur, width, total);
    let on = cur.colors is Some;
    let p = delta_bytes(f, on);
    assert(total <= 0xffff * 0xffff) by (nonlinear_arith)
        requires total == width * height, width <= 0xffff, height <= 0xffff;
    lemma_delta_mix(prev, cur, width, height, total);
    lemma_mix_complete(prev, cur, width, height);
    lemma_changes_bounds(prev, cur, width, total);
    lemma_delta_entries(f, on);
    lemma_ascii_line_bytes(prev, width, height);
    lemma_ascii_line_bytes(cur, width, height);
    match delta_payload(prev, cur, width, height, skip_identical) {
        Some(d) => {
            assert(d == p);
            let lb = line_bytes(cur.lines);
            assert(all_valid_utf8(lb));
            assert(lb.map_values(|b: Seq<u8>| decode_utf8(b)) =~= cur.lines);
            assert(checked_model(width, height, cur.lines, cur.colors) == Ok::<FrameModel, RecordingError>(cur));
        },
        None => {
            assert(f.len() == 0);
            assert(line_bytes(prev.lines) == line_bytes(cur.lines));
            assert(prev.lines =~= cur.lines) by {
                assert forall|y: int| 0 <= y < height implies #[trigger] prev.lines[y] == cur.lines[y] by {
                    assert(line_bytes(prev.lines)[y] == line_bytes(cur.lines)[y]);
                }
            }
            assert(prev.colors == cur.colors);
            assert(cur =~= prev);
        },
    }
}

} // verus!

verus! {

/// The encoder state after writing `frames` from `st`.
pub open spec fn encoder_after(st: EncoderModel, frames: Seq<(u64, FrameModel)>) -> EncoderModel {
    if frames.len() == 0 {
        st
    } else {
        EncoderModel { previous: Some(frames.last().1), count: st.count + frames.len(), ..st }
    }
}

/// The records written for `frames`, one after another, from `st`.
pub open spec fn records(st: EncoderModel, frames: Seq<(u64, FrameModel)>) -> Seq<u8>
    decreases frames.len(),
{
    if frames.len() == 0 {
        Seq::empty()
    } else {
        records(st, frames.drop_last()) + frame_record(
            encoder_after(st, frames.drop_last()),
            frames.last().0,
            frames.last().1,
        )
    }
}

/// A fresh encoder.
pub open spec fn new_encoder(width: nat, height: nat, options: RecordingOptions) -> EncoderModel {
    EncoderModel { width, height, options, previous: None, count: 0 }
}

/// The whole recording of `frames`: what `create` holds and each successful
/// `write_frame_at` appends.
pub open spec fn recording_bytes(
    width: nat,
    height: nat,
    fps: u8,
    options: RecordingOptions,
    frames: Seq<(u64, FrameModel)>,
) -> Seq<u8> {
    header_bytes(width as u16, height as u16, fps, flags_of(options)) + records(
        new_encoder(width, height, options),
        frames,
    )
}

/// `n` reads from `st` that each give a frame, with the decoder afterwards.
pub open spec fn read_frames(st: DecoderModel, n: nat) -> Option<(Seq<(u64, FrameModel)>, DecoderModel)>
    decreases n,
{
    if n == 0 {
        Some((Seq::empty(), st))
    } else {
        match read_frames(st, (n - 1) as nat) {
            None => None,
            Some((got, st2)) => match read_spec(st2).0 {
                Ok(Some(fr)) => Some((got.push(fr), read_spec(st2).1)),
                _ => None,
            },
        }
    }
}

proof fn lemma_read_record(b: Seq<u8>, pos: int, kind: u8, ts: u64, payload: Seq<u8>)
    requires
        0 <= pos,
        payload.len() <= 0xffff_ffff,
        pos + record_bytes(kind, ts, payload).len() <= b.len(),
        b.subrange(pos, pos + record_bytes(kind, ts, payload).len()) == record_bytes(kind, ts, payload),
    ensures
        record_bytes(kind, ts, payload).len() == 13 + payload.len(),
        b[pos] == kind,
        spec_u64_from_le_bytes(b.subrange(pos + 1, pos + 9)) == ts,
        spec_u32_from_le_bytes(b.subrange(pos + 9, pos + 13)) == payload.len(),
        b.subrange(pos + 13, pos + 13 + payload.len()) == payload,
{
    lemma_auto_spec_u64_to_from_le_bytes();
    lemma_auto_spec_u32_to_from_le_bytes();
    let r = record_bytes(kind, ts, payload);
    let tb = spec_u64_to_le_bytes(ts);
    let lb = spec_u32_to_le_bytes(payload.len() as u32);
    assert(r == seq![kind] + tb + lb + payload);
    assert(r.len() == 13 + payload.len());
    let w = b.subrange(pos, pos + r.len());
    assert(b[pos] == w[0]);
    assert(b.subrange(pos + 1, pos + 9) =~= tb) by {
        assert forall|j: int| 0 <= j < 8 implies b.subrange(pos + 1, pos + 9)[j] == tb[j] by {
            assert(w[1 + j] == r[1 + j]);
        }
    }
    assert(b.subrange(pos + 9, pos + 13) =~= lb) by {
        assert forall|j: int| 0 <= j < 4 implies b.subrange(pos + 9, pos + 13)[j] == lb[j] by {
            assert(w[9 + j] == r[9 + j]);
        }
    }
    assert(b.subrange(pos + 13, pos + 13 + payload.len()) =~= payload) by {
        assert forall|j: int| 0 <= j < payload.len() implies b.subrange(
            pos + 13,
            pos + 13 + payload.len(),
        )[j] == payload[j] by {
            assert(w[13 + j] == r[13 + j]);
        }
    }
}

} // verus!

verus! {

proof fn lemma_open_header(width: nat, height: nat, fps: u8, options: RecordingOptions, rest: Seq<u8>)
    requires
        width <= 0xffff,
        height <= 0xffff,
    ensures
        open_spec(header_bytes(width as u16, height as u16, fps, flags_of(options)) + rest) == Ok::<
            DecoderModel,
            RecordingError,
        >(
            DecoderModel {
                bytes: header_bytes(width as u16, height as u16, fps, flags_of(options)) + rest,
                pos: 11,
                width,
                height,
                compressed: options.compress,
                current: None,
            },
        ),
{
    lemma_auto_spec_u16_to_from_le_bytes();
    let hb = header_bytes(width as u16, height as u16, fps, flags_of(options));
    let b = hb + rest;
    let wb = spec_u16_to_le_bytes(width as u16);
    let htb = spec_u16_to_le_bytes(height as u16);
    assert(hb.len() == 11);
    assert(b.subrange(0, 4) =~= seq![0x41u8, 0x43u8, 0x41u8, 0x4du8]);
    assert(b.subrange(5, 7) =~= wb);
    assert(b.subrange(7, 9) =~= htb);
    let flags = flags_of(options);
    assert(b[10] == flags);
    assert((flags & 1 != 0) == options.compress) by {
        if options.compress && options.skip_identical {
            assert(3u8 & 1u8 == 1u8) by (bit_vector);
        } else if options.compress {
            assert(1u8 & 1u8 == 1u8) by (bit_vector);
        } else if options.skip_identical {
            assert(2u8 & 1u8 == 0u8) by (bit_vector);
        } else {
            assert(0u8 & 1u8 == 0u8) by (bit_vector);
        }
    }
}

proof fn lemma_records_step(st: EncoderModel, frames: Seq<(u64, FrameModel)>, k: int)
    requires
        0 <= k < frames.len(),
    ensures
        records(st, frames.take(k + 1)) == records(st, frames.take(k)) + frame_record(
            encoder_after(st, frames.take(k)),
            frames[k].0,
            frames[k].1,
        ),
{
    assert(frames.take(k + 1).drop_last() =~= frames.take(k));
}

proof fn lemma_records_prefix(st: EncoderModel, frames: Seq<(u64, FrameModel)>, m: int)
    requires
        0 <= m <= frames.len(),
    ensures
        records(st, frames.take(m)).len() <= records(st, frames).len(),
        records(st, frames).subrange(0, records(st, frames.take(m)).len() as int) == records(
            st,
            frames.take(m),
        ),
    decreases frames.len() - m,
{
    if m == frames.len() {
        assert(frames.take(m) =~= frames);
        assert(records(st, frames).subrange(0, records(st, frames).len() as int) =~= records(st, frames));
    } else {
        lemma_records_prefix(st, frames, m + 1);
        lemma_records_step(st, frames, m);
        let a = records(st, frames.take(m));
        let b = records(st, frames.take(m + 1));
        let c = records(st, frames);
        assert(c.subrange(0, a.len() as int) =~= b.subrange(0, a.len() as int));
        assert(b.subrange(0, a.len() as int) =~= a);
    }
}

proof fn lemma_keyframe_len(m: FrameModel, width: nat, height: nat)
    requires
        recordable(m, width, height),
    ensures
        keyframe_payload(m).len() <= 1 + 4 * (width * height),
{
    let lb = line_bytes(m.lines);
    lemma_ascii_line_bytes(m, width, height);
    lemma_flatten_uniform(lb, width);
    assert(height * width == width * height) by (nonlinear_arith);
    match m.colors {
        Some(rows) => {
            let gb = rows.map_values(|row: Seq<Rgb>| row_bytes(row));
            assert forall|y: int| 0 <= y < gb.len() implies (#[trigger] gb[y]).len() == 3 * width by {
                lemma_row_bytes(rows[y]);
            }
            lemma_flatten_uniform(gb, 3 * width);
            assert(height * (3 * width) == 3 * (width * height)) by (nonlinear_arith);
        },
        None => {},
    }
}

proof fn lemma_delta_len(prev: FrameModel, cur: FrameModel, width: nat, height: nat, skip: bool)
    requires
        width <= 0xffff,
        height <= 0xffff,
    ensures
        delta_payload(prev, cur, width, height, skip) matches Some(d) ==> d.len() <= 5 + 8 * (width
            * height),
{
    let total = width * height;
    let f = changes_upto(prev, cur, width, total);
    lemma_changes_bounds(prev, cur, width, total);
    assert(total <= 0xffff * 0xffff) by (nonlinear_arith)
        requires total == width * height, width <= 0xffff, height <= 0xffff;
    lemma_delta_entries(f, cur.colors is Some);
    assert(f.len() * entry_len(cur.colors is Some) <= 8 * total) by (nonlinear_arith)
        requires f.len() <= total, entry_len(cur.colors is Some) <= 8;
}

} // verus!

verus! {

/// The payload written for `f` in state `st`, as stored, fits the record's
/// 32-bit length field.
pub open spec fn payload_fits(st: EncoderModel, f: FrameModel) -> bool {
    raw_payload(st, f) matches Some(p) ==> stored(p, st.options.compress).len() <= 0xffff_ffff
}

/// Without compression a payload fits the length field whenever `5 + 8 *
/// width * height` does.
pub proof fn lemma_uncompressed_payload_fits(st: EncoderModel, f: FrameModel)
    requires
        !st.options.compress,
        recordable(f, st.width, st.height),
        st.width <= 0xffff,
        st.height <= 0xffff,
        5 + 8 * (st.width * st.height) <= 0xffff_ffff,
    ensures
        payload_fits(st, f),
{
    if is_keyframe(st) {
        lemma_keyframe_len(f, st.width, st.height);
    } else {
        lemma_delta_len(st.previous.unwrap(), f, st.width, st.height, st.options.skip_identical);
    }
}

/// What the round trip needs of the frames and the options.
pub open spec fn round_trip_ok(
    width: nat,
    height: nat,
    options: RecordingOptions,
    frames: Seq<(u64, FrameModel)>,
) -> bool {
    &&& 0 < width <= 0xffff && 0 < height <= 0xffff
    &&& frames.len() <= 0xffff_ffff
    &&& forall|i: int| 0 <= i < frames.len() ==> recordable(#[trigger] frames[i].1, width, height)
    &&& forall|i: int, j: int|
        0 <= i < frames.len() && 0 <= j < frames.len() ==> same_color_presence(
            #[trigger] frames[i].1,
            #[trigger] frames[j].1,
        )
    &&& forall|k: int|
        0 <= k < frames.len() ==> {
            let st = encoder_after(new_encoder(width, height, options), #[trigger] frames.take(k));
            &&& payload_fits(st, frames[k].1)
            &&& payload_round_trips(st, frames[k].1)
        }
}

/// The decoder after reading the first `k` frames of `recording_bytes`.
pub open spec fn decoder_at(
    width: nat,
    height: nat,
    fps: u8,
    options: RecordingOptions,
    frames: Seq<(u64, FrameModel)>,
    k: int,
) -> DecoderModel {
    DecoderModel {
        bytes: recording_bytes(width, height, fps, options, frames),
        pos: 11 + records(new_encoder(width, height, options), frames.take(k)).len(),
        width,
        height,
        compressed: options.compress,
        current: if k == 0 {
            None
        } else {
            Some(frames[k - 1].1)
        },
    }
}

#[verifier::spinoff_prover]
#[verifier::rlimit(40)]
proof fn lemma_read_step(
    width: nat,
    height: nat,
    fps: u8,
    options: RecordingOptions,
    frames: Seq<(u64, FrameModel)>,
    k: int,
)
    requires
        round_trip_ok(width, height, options, frames),
        0 <= k < frames.len(),
    ensures
        read_spec(decoder_at(width, height, fps, options, frames, k)) == (
            Ok::<Option<(u64, FrameModel)>, RecordingError>(Some(frames[k])),
            decoder_at(width, height, fps, options, frames, k + 1),
        ),
{
    let init = new_encoder(width, height, options);
    let st = decoder_at(width, height, fps, options, frames, k);
    let b = st.bytes;
    let hb = header_bytes(width as u16, height as u16, fps, flags_of(options));
    assert(hb.len() == 11) by {
        lemma_auto_spec_u16_to_from_le_bytes();
    }
    let all = records(init, frames);
    assert(b == hb + all);
    lemma_records_step(init, frames, k);
    lemma_records_prefix(init, frames, k + 1);
    let rk = records(init, frames.take(k));
    let enc = encoder_after(init, frames.take(k));
    let (ts, f) = frames[k];
    let rec = frame_record(enc, ts, f);
    let pos: int = (11 + rk.len()) as int;
    assert(b.subrange(pos, pos + rec.len()) =~= rec) by {
        let rk1 = records(init, frames.take(k + 1));
        assert(rk1 == rk + rec);
        assert forall|j: int| 0 <= j < rec.len() implies b.subrange(pos, pos + rec.len())[j]
            == rec[j] by {
            assert(all.subrange(0, rk1.len() as int)[rk.len() + j] == rk1[rk.len() + j]);
        }
    }
    assert(recordable(f, width, height));
    assert(width * height <= 0xffff * 0xffff) by (nonlinear_arith)
        requires width <= 0xffff, height <= 0xffff;
    assert(enc.count == k) by {
        if k > 0 {
            assert(frames.take(k).len() == k);
        }
    }
    assert(k > 0 ==> enc.previous == Some(frames[k - 1].1)) by {
        if k > 0 {
            assert(frames.take(k).last() == frames[k - 1]);
        }
    }
    let next = decoder_at(width, height, fps, options, frames, k + 1);
    assert(payload_fits(enc, f) && payload_round_trips(enc, f)) by {
        assert(frames.take(k) == frames.take(k));
    }
    if is_keyframe(enc) {
        let kp = keyframe_payload(f);
        lemma_keyframe_round_trip(f, width, height);
        let sp = stored(kp, options.compress);
        assert(sp.len() <= 0xffff_ffff);
        assert(rec == record_bytes(0, ts, sp));
        lemma_read_record(b, pos, 0, ts, sp);
        assert(b.subrange(pos + 13, pos + 13 + sp.len()) == sp);
        assert(next.pos == pos + 13 + sp.len());
        assert(read_spec(st) == (Ok::<Option<(u64, FrameModel)>, RecordingError>(Some((ts, f))), next));
    } else {
        let prev = frames[k - 1].1;
        assert(same_color_presence(prev, f));
        lemma_delta_round_trip(prev, f, width, height, options.skip_identical);
        match delta_payload(prev, f, width, height, options.skip_identical) {
            Some(d) => {
                let sp = stored(d, options.compress);
                assert(sp.len() <= 0xffff_ffff);
                assert(rec == record_bytes(1, ts, sp));
                lemma_read_record(b, pos, 1, ts, sp);
                assert(next.pos == pos + 13 + sp.len());
                assert(read_spec(st) == (Ok::<Option<(u64, FrameModel)>, RecordingError>(Some((ts, f))), next));
            },
            None => {
                assert(rec == record_bytes(2, ts, Seq::empty()));
                lemma_read_record(b, pos, 2, ts, Seq::empty());
                assert(next.pos == pos + 13);
                assert(read_spec(st) == (Ok::<Option<(u64, FrameModel)>, RecordingError>(Some((ts, f))), next));
            },
        }
    }
}

} // verus!

verus! {

proof fn lemma_read_frames(
    width: nat,
    height: nat,
    fps: u8,
    options: RecordingOptions,
    frames: Seq<(u64, FrameModel)>,
    k: nat,
)
    requires
        round_trip_ok(width, height, options, frames),
        k <= frames.len(),
    ensures
        read_frames(decoder_at(width, height, fps, options, frames, 0), k) == Some(
            (frames.take(k as int), decoder_at(width, height, fps, options, frames, k as int)),
        ),
    decreases k,
{
    if k == 0 {
        assert(frames.take(0) =~= Seq::<(u64, FrameModel)>::empty());
    } else {
        lemma_read_frames(width, height, fps, options, frames, (k - 1) as nat);
        lemma_read_step(width, height, fps, options, frames, k - 1);
        assert(frames.take(k - 1).push(frames[k - 1]) =~= frames.take(k as int));
    }
}

/// Recording round trip: the bytes that `create` and a run of successful
/// `write_frame_at` calls produce for frames of the recording's size with ASCII
/// text and colours present throughout or absent throughout open, and reading
/// them gives back every frame with its timestamp, in order, then the end of
/// the recording. Each payload written must fit the 32-bit length field as
/// stored, and a compressed one must inflate back to itself, which
/// `write_frame_at` ensures of every payload it compresses.
pub proof fn lemma_recording_round_trip(
    width: nat,
    height: nat,
    fps: u8,
    options: RecordingOptions,
    frames: Seq<(u64, FrameModel)>,
)
    requires
        round_trip_ok(width, height, options, frames),
    ensures
        open_spec(recording_bytes(width, height, fps, options, frames)) == Ok::<
            DecoderModel,
            RecordingError,
        >(decoder_at(width, height, fps, options, frames, 0)),
        read_frames(decoder_at(width, height, fps, options, frames, 0), frames.len()) == Some(
            (frames, decoder_at(width, height, fps, options, frames, frames.len() as int)),
        ),
        read_spec(decoder_at(width, height, fps, options, frames, frames.len() as int)).0 == Ok::<
            Option<(u64, FrameModel)>,
            RecordingError,
        >(None),
{
    let init = new_encoder(width, height, options);
    lemma_open_header(width, height, fps, options, records(init, frames));
    assert(frames.take(0) =~= Seq::<(u64, FrameModel)>::empty());
    assert(decoder_at(width, height, fps, options, frames, 0) =~= DecoderModel {
        bytes: recording_bytes(width, height, fps, options, frames),
        pos: 11,
        width,
        height,
        compressed: options.compress,
        current: None,
    });
    lemma_read_frames(width, height, fps, options, frames, frames.len());
    assert(frames.take(frames.len() as int) =~= frames);
    lemma_auto_spec_u16_to_from_le_bytes();
    assert(header_bytes(width as u16, height as u16, fps, flags_of(options)).len() == 11);
}

} // verus!
