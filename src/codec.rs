//! Encoding pixel buffers into palette-indexed runs, the container layout,
//! and decoding it back into pixels.
use vstd::prelude::*;

use crate::error::{DecodeError, EncodeError};
use crate::palette::{
    colors_of, first_seen, indices_in, lemma_colors_of_flatten, lemma_colors_of_uniform,
    lemma_entry_in_bounds, lemma_first_seen_uniform, lemma_flatten_push, stride, Palette, PaletteModel, PixelFormat, MAX_COLORS,
};
use crate::rle::{expand, rle, rle_decode, rle_of, valid_runs, MAX_RUN};

verus! {

/// A decoded image: width × height pixels, row by row, each `stride(format)`
/// bytes in the palette's channel order.
#[derive(Debug, PartialEq)]
pub struct DecodedPIE {
    pub width: u16,
    pub height: u16,
    pub format: PixelFormat,
    pub pixels: Vec<u8>,
}

/// An encoded image in memory: `(count, index)` run pairs over the palette,
/// and the palette itself where it is to be embedded.
#[derive(Debug, PartialEq)]
pub struct EncodedPIE {
    pub width: u16,
    pub height: u16,
    pub indices: Vec<u8>,
    pub palette: Option<Palette>,
}

/// What a decoded image holds, as mathematical values.
pub struct DecodedModel {
    pub width: u16,
    pub height: u16,
    pub format: PixelFormat,
    pub pixels: Seq<u8>,
}

/// What an encoded image holds, as mathematical values.
pub struct EncodedModel {
    pub width: u16,
    pub height: u16,
    pub indices: Seq<u8>,
    pub palette: Option<PaletteModel>,
}

impl View for DecodedPIE {
    type V = DecodedModel;

    open spec fn view(&self) -> DecodedModel {
        DecodedModel {
            width: self.width,
            height: self.height,
            format: self.format,
            pixels: self.pixels@,
        }
    }
}

impl View for EncodedPIE {
    type V = EncodedModel;

    open spec fn view(&self) -> EncodedModel {
        EncodedModel {
            width: self.width,
            height: self.height,
            indices: self.indices@,
            palette: palette_model(self.palette),
        }
    }
}

/// The contents of an optional palette.
pub open spec fn palette_model(p: Option<Palette>) -> Option<PaletteModel> {
    match p {
        Some(p) => Some(p@),
        None => None,
    }
}

/// The contents of a palette handed in by the caller, if any.
pub open spec fn supplied(p: Option<&Palette>) -> Option<PaletteModel> {
    match p {
        Some(p) => Some(p@),
        None => None,
    }
}

/// The format of a buffer of `len` bytes holding width × height pixels: RGB
/// where it has three bytes a pixel, else RGBA where it has four.
pub open spec fn format_for(width: u16, height: u16, len: nat) -> Option<PixelFormat> {
    if len == width * height * 3 {
        Some(PixelFormat::RGB)
    } else if len == width * height * 4 {
        Some(PixelFormat::RGBA)
    } else {
        None
    }
}

/// The palette that encoding uses: the supplied one, or else the pixels'
/// own colors in first-seen order.
pub open spec fn resolved_palette(
    pixels: Seq<u8>,
    format: PixelFormat,
    supplied: Option<PaletteModel>,
) -> PaletteModel {
    match supplied {
        Some(p) => p,
        None => PaletteModel {
            format,
            colors: first_seen(colors_of(pixels, stride(format))).flatten(),
        },
    }
}

/// The outcome of encoding a width × height pixel buffer, with the palette
/// embedded or not, against a supplied palette or one built from the pixels.
pub open spec fn encoded(
    width: u16,
    height: u16,
    pixels: Seq<u8>,
    embed: bool,
    supplied: Option<PaletteModel>,
) -> Result<EncodedModel, EncodeError> {
    match format_for(width, height, pixels.len()) {
        None => Err(EncodeError::WrongPixelCount),
        Some(format) => {
            let cs = colors_of(pixels, stride(format));
            let pal = resolved_palette(pixels, format, supplied);
            let t = pal.table();
            if t.len() > MAX_COLORS {
                Err(EncodeError::TooManyColors)
            } else if exists|k: int| 0 <= k < cs.len() && !t.contains(#[trigger] cs[k]) {
                Err(EncodeError::ColorNotInPalette)
            } else {
                Ok(
                    EncodedModel {
                        width,
                        height,
                        indices: rle_of(indices_in(t, cs), MAX_RUN as nat),
                        palette: if embed {
                            Some(pal)
                        } else {
                            None
                        },
                    },
                )
            }
        },
    }
}

/// The format of a width × height pixel buffer of `len` bytes.
fn pixel_format(width: u16, height: u16, len: usize) -> (r: Option<PixelFormat>)
    ensures
        r == format_for(width, height, len as nat),
{
    assert(width * height <= 0xffff_ffff) by (nonlinear_arith)
        requires
            width <= 0xffff,
            height <= 0xffff,
    ;
    let area = width as u64 * height as u64;
    if len as u64 == area * 3 {
        Some(PixelFormat::RGB)
    } else if len as u64 == area * 4 {
        Some(PixelFormat::RGBA)
    } else {
        None
    }
}

/// Encode a width × height buffer of RGB or RGBA pixels: map each pixel to
/// its palette index and run-length encode the indices. Without a supplied
/// palette, one is built from the pixels in first-seen order. The palette is
/// kept in the result only where `embed_palette` asks for it.
pub fn encode(
    width: u16,
    height: u16,
    pixel_bytes: &[u8],
    embed_palette: bool,
    maybe_palette: Option<&Palette>,
) -> (r: Result<EncodedPIE, EncodeError>)
    ensures
        ({
            let want = encoded(width, height, pixel_bytes@, embed_palette, supplied(maybe_palette));
            match r {
                Ok(e) => want == Ok::<EncodedModel, EncodeError>(e@),
                Err(err) => want == Err::<EncodedModel, EncodeError>(err),
            }
        }),
{
    let format = match pixel_format(width, height, pixel_bytes.len()) {
        Some(f) => f,
        None => {
            return Err(EncodeError::WrongPixelCount);
        },
    };
    let s = format.stride();
    let ghost cs = colors_of(pixel_bytes@, s as nat);
    let palette = match maybe_palette {
        Some(p) => p.duplicate(),
        None => {
            let built = Palette::build(pixel_bytes, format);
            proof {
                let fs = first_seen(cs);
                lemma_colors_of_uniform(pixel_bytes@, s as nat);
                lemma_first_seen_uniform(cs, s as nat);
                lemma_colors_of_flatten(fs, s as nat);
            }
            match built {
                Ok(p) => p,
                Err(e) => {
                    return Err(e);
                },
            }
        },
    };
    if palette.colors.len() / palette.format.stride() > MAX_COLORS {
        return Err(EncodeError::TooManyColors);
    }
    let indices = match palette.index_pixels(pixel_bytes, s) {
        Some(idx) => idx,
        None => {
            return Err(EncodeError::ColorNotInPalette);
        },
    };
    let runs = rle(&indices, MAX_RUN);
    Ok(
        EncodedPIE {
            width,
            height,
            indices: runs,
            palette: if embed_palette {
                Some(palette)
            } else {
                None
            },
        },
    )
}

/// Size of the fixed header: magic, version, width, height, flags, run count.
pub const HEADER_SIZE: usize = 11;

/// Version byte written into the header.
pub const VERSION: u8 = 1;

/// Flag bit: the palette follows the runs.
pub const FLAG_PALETTE: u8 = 1;

/// Flag bit: colors have four channels (RGBA) rather than three.
pub const FLAG_TRANSPARENCY: u8 = 2;

/// Most runs the 16-bit run count of the header can record.
pub const MAX_RUNS: usize = 65535;

/// The magic bytes "PIE" that open the container.
pub open spec fn magic() -> Seq<u8> {
    seq![0x50u8, 0x49u8, 0x45u8]
}

/// A 16-bit field, high byte first.
pub open spec fn be16(v: nat) -> Seq<u8> {
    seq![(v / 256) as u8, (v % 256) as u8]
}

/// The value of a 16-bit field stored high byte first.
pub open spec fn be16_value(hi: u8, lo: u8) -> nat {
    hi as nat * 256 + lo as nat
}

/// The flags byte: bit 0 where the palette is embedded, bit 1 for RGBA.
pub open spec fn flags_for(embedded: bool, format: PixelFormat) -> u8 {
    ((if embedded {
        FLAG_PALETTE
    } else {
        0u8
    }) + (if format == PixelFormat::RGBA {
        FLAG_TRANSPARENCY
    } else {
        0u8
    })) as u8
}

/// The bytes of an encoded image of the given pixel format: the header, the
/// run pairs, then the palette's colors where it is embedded.
pub open spec fn container(e: EncodedModel, format: PixelFormat) -> Seq<u8> {
    magic() + seq![VERSION] + be16(e.width as nat) + be16(e.height as nat) + seq![
        flags_for(e.palette is Some, format),
    ] + be16(e.indices.len() / 2) + e.indices + match e.palette {
        Some(p) => p.colors,
        None => Seq::empty(),
    }
}

/// The outcome of encoding a pixel buffer and laying it out as container
/// bytes.
pub open spec fn serialized(
    width: u16,
    height: u16,
    pixels: Seq<u8>,
    embed: bool,
    supplied: Option<PaletteModel>,
) -> Result<Seq<u8>, EncodeError> {
    match encoded(width, height, pixels, embed, supplied) {
        Err(e) => Err(e),
        Ok(em) => if em.indices.len() / 2 > MAX_RUNS {
            Err(EncodeError::TooManyRuns)
        } else {
            Ok(container(em, format_for(width, height, pixels.len()).unwrap()))
        },
    }
}

/// Append the bytes of `src` from `from` up to `to` to `out`.
fn push_range(out: &mut Vec<u8>, src: &[u8], from: usize, to: usize)
    requires
        from <= to <= src@.len(),
    ensures
        final(out)@ == old(out)@ + src@.subrange(from as int, to as int),
{
    let mut i: usize = from;
    while i < to
        invariant
            from <= i <= to,
            to <= src@.len(),
            out@ == old(out)@ + src@.subrange(from as int, i as int),
        decreases to - i,
    {
        out.push(src[i]);
        assert(src@.subrange(from as int, i + 1) =~= src@.subrange(from as int, i as int).push(
            src@[i as int],
        ));
        i = i + 1;
    }
}

/// Append a 16-bit value, high byte first.
fn push_be16(out: &mut Vec<u8>, v: u16)
    ensures
        final(out)@ == old(out)@ + be16(v as nat),
{
    out.push((v / 256) as u8);
    out.push((v % 256) as u8);
    assert(final(out)@ =~= old(out)@ + be16(v as nat));
}

/// Encode a width × height pixel buffer as `encode` does and lay it out as
/// container bytes: the header, the run pairs, and the palette where
/// `embed_palette` asks for it. Fails with `TooManyRuns` where the runs do
/// not fit the header's 16-bit run count.
pub fn to_bytes(
    width: u16,
    height: u16,
    embed_palette: bool,
    maybe_palette: Option<&Palette>,
    pixels: &[u8],
) -> (r: Result<Vec<u8>, EncodeError>)
    ensures
        ({
            let want = serialized(width, height, pixels@, embed_palette, supplied(maybe_palette));
            match r {
                Ok(b) => want == Ok::<Seq<u8>, EncodeError>(b@),
                Err(e) => want == Err::<Seq<u8>, EncodeError>(e),
            }
        }),
{
    let encoded = match encode(width, height, pixels, embed_palette, maybe_palette) {
        Ok(e) => e,
        Err(e) => {
            return Err(e);
        },
    };
    let format = match pixel_format(width, height, pixels.len()) {
        Some(f) => f,
        None => {
            return Err(EncodeError::WrongPixelCount);
        },
    };
    let runs = encoded.indices.len() / 2;
    if runs > MAX_RUNS {
        return Err(EncodeError::TooManyRuns);
    }
    let mut flags: u8 = 0;
    if encoded.palette.is_some() {
        flags = flags + FLAG_PALETTE;
    }
    if format == PixelFormat::RGBA {
        flags = flags + FLAG_TRANSPARENCY;
    }
    let mut bytes: Vec<u8> = Vec::new();
    bytes.push(0x50);
    bytes.push(0x49);
    bytes.push(0x45);
    bytes.push(VERSION);
    push_be16(&mut bytes, width);
    push_be16(&mut bytes, height);
    bytes.push(flags);
    push_be16(&mut bytes, runs as u16);
    push_range(&mut bytes, &encoded.indices, 0, encoded.indices.len());
    match &encoded.palette {
        Some(p) => push_range(&mut bytes, &p.colors, 0, p.colors.len()),
        None => {},
    }
    proof {
        let em = encoded@;
        assert(em.indices.subrange(0, em.indices.len() as int) =~= em.indices);
        if let Some(p) = em.palette {
            assert(p.colors.subrange(0, p.colors.len() as int) =~= p.colors);
        }
        assert(bytes@ =~= container(em, format));
    }
    Ok(bytes)
}

/// The format that a flags byte announces: RGBA where bit 1 is set.
pub open spec fn format_of_flags(flags: u8) -> PixelFormat {
    if flags & FLAG_TRANSPARENCY != 0 {
        PixelFormat::RGBA
    } else {
        PixelFormat::RGB
    }
}

/// The colors that palette indices pick from `table`, laid end to end.
pub open spec fn paint(idx: Seq<u8>, table: Seq<Seq<u8>>) -> Seq<u8> {
    Seq::new(idx.len(), |k: int| table[idx[k] as int]).flatten()
}

/// Whether the decoder has a palette for a header with these flags: the
/// embedded one where bit 0 is set, else a supplied one of the image's
/// format.
pub open spec fn palette_available(flags: u8, supplied: Option<PaletteModel>) -> bool {
    flags & FLAG_PALETTE != 0 || (supplied matches Some(p) && p.format == format_of_flags(flags))
}

/// The palette table that a container with a header of the given flags
/// decodes against: the colors after the runs (`rest`) where bit 0 is set,
/// else the supplied palette.
pub open spec fn decode_table(
    flags: u8,
    rest: Seq<u8>,
    supplied: Option<PaletteModel>,
) -> Seq<Seq<u8>> {
    if flags & FLAG_PALETTE != 0 {
        colors_of(rest, stride(format_of_flags(flags)))
    } else {
        supplied.unwrap().table()
    }
}

/// The outcome of decoding container bytes, with `supplied` as the palette
/// where the container embeds none.
pub open spec fn decoded(bytes: Seq<u8>, supplied: Option<PaletteModel>) -> Result<
    DecodedModel,
    DecodeError,
> {
    if bytes.len() < HEADER_SIZE || bytes.take(3) != magic() {
        Err(DecodeError::MalformedHeader)
    } else {
        let width = be16_value(bytes[4], bytes[5]);
        let height = be16_value(bytes[6], bytes[7]);
        let flags = bytes[8];
        let body_end = HEADER_SIZE + 2 * be16_value(bytes[9], bytes[10]);
        if !palette_available(flags, supplied) {
            Err(DecodeError::MissingPalette)
        } else if bytes.len() < body_end {
            Err(DecodeError::MalformedHeader)
        } else {
            let body = bytes.subrange(HEADER_SIZE as int, body_end);
            let t = decode_table(flags, bytes.skip(body_end), supplied);
            let idx = expand(body);
            if !valid_runs(body) {
                Err(DecodeError::InvalidRun)
            } else if exists|k: int| 0 <= k < idx.len() && #[trigger] idx[k] >= t.len() {
                Err(DecodeError::ColorNotFound)
            } else if idx.len() != width * height {
                Err(DecodeError::MalformedHeader)
            } else {
                Ok(
                    DecodedModel {
                        width: width as u16,
                        height: height as u16,
                        format: format_of_flags(flags),
                        pixels: paint(idx, t),
                    },
                )
            }
        }
    }
}

/// Whether every byte of `idx` is below `bound`.
fn all_below(idx: &[u8], bound: usize) -> (r: bool)
    ensures
        r == (forall|k: int| 0 <= k < idx@.len() ==> #[trigger] idx@[k] < bound),
{
    let n = idx.len();
    let mut k: usize = 0;
    while k < n
        invariant
            n == idx@.len(),
            k <= n,
            forall|j: int| 0 <= j < k ==> #[trigger] idx@[j] < bound,
        decreases n - k,
    {
        if idx[k] as usize >= bound {
            assert(idx@[k as int] >= bound);
            return false;
        }
        k = k + 1;
    }
    true
}

/// Decode container bytes into pixels. Where the container embeds no
/// palette, `maybe_palette` must supply one of the image's format.
pub fn decode(bytes: &[u8], maybe_palette: Option<&Palette>) -> (r: Result<DecodedPIE, DecodeError>)
    ensures
        ({
            let want = decoded(bytes@, supplied(maybe_palette));
            match r {
                Ok(d) => want == Ok::<DecodedModel, DecodeError>(d@),
                Err(e) => want == Err::<DecodedModel, DecodeError>(e),
            }
        }),
{
    let len = bytes.len();
    if len < HEADER_SIZE || bytes[0] != 0x50 || bytes[1] != 0x49 || bytes[2] != 0x45 {
        proof {
            if len >= HEADER_SIZE {
                assert(bytes@.take(3)[0] == bytes@[0]);
                assert(bytes@.take(3)[1] == bytes@[1]);
                assert(bytes@.take(3)[2] == bytes@[2]);
            }
        }
        return Err(DecodeError::MalformedHeader);
    }
    assert(bytes@.take(3) =~= magic());
    let width = bytes[4] as u16 * 256 + bytes[5] as u16;
    let height = bytes[6] as u16 * 256 + bytes[7] as u16;
    let flags = bytes[8];
    let format = if flags & FLAG_TRANSPARENCY != 0 {
        PixelFormat::RGBA
    } else {
        PixelFormat::RGB
    };
    let s = format.stride();
    let runs = bytes[9] as usize * 256 + bytes[10] as usize;
    let body_end = HEADER_SIZE + 2 * runs;
    if flags & FLAG_PALETTE == 0 {
        match maybe_palette {
            Some(p) => {
                if p.format != format {
                    return Err(DecodeError::MissingPalette);
                }
            },
            None => {
                return Err(DecodeError::MissingPalette);
            },
        }
    }
    if len < body_end {
        return Err(DecodeError::MalformedHeader);
    }
    let palette = match maybe_palette {
        Some(p) if flags & FLAG_PALETTE == 0 => p.duplicate(),
        _ => {
            let mut colors: Vec<u8> = Vec::new();
            push_range(&mut colors, bytes, body_end, len);
            assert(colors@ =~= bytes@.skip(body_end as int));
            Palette { format, colors }
        },
    };
    let ghost t = palette@.table();
    assert(t == decode_table(flags, bytes@.skip(body_end as int), supplied(maybe_palette)));
    let mut body: Vec<u8> = Vec::new();
    push_range(&mut body, bytes, HEADER_SIZE, body_end);
    assert(body@ =~= bytes@.subrange(HEADER_SIZE as int, body_end as int));
    let idx = match rle_decode(&body) {
        Ok(v) => v,
        Err(e) => {
            return Err(e);
        },
    };
    let count = palette.colors.len() / s;
    let n = idx.len();
    if !all_below(&idx, count) {
        return Err(DecodeError::ColorNotFound);
    }
    assert(width * height <= 0xffff_ffff) by (nonlinear_arith)
        requires
            width <= 0xffff,
            height <= 0xffff,
    ;
    if n as u64 != width as u64 * height as u64 {
        return Err(DecodeError::MalformedHeader);
    }
    let mut pixels: Vec<u8> = Vec::new();
    let mut k: usize = 0;
    while k < n
        invariant
            n == idx@.len(),
            k <= n,
            s == stride(format),
            palette.format == format,
            t == palette@.table(),
            forall|j: int| 0 <= j < n ==> #[trigger] idx@[j] < t.len(),
            pixels@ == paint(idx@.take(k as int), t),
        decreases n - k,
    {
        let i = idx[k] as usize;
        proof {
            lemma_entry_in_bounds(palette.colors@.len(), s as nat, i as int);
        }
        let base = i * s;
        let ghost before = pixels@;
        push_range(&mut pixels, &palette.colors, base, base + s);
        proof {
            let prev = Seq::new(k as nat, |j: int| t[idx@.take(k as int)[j] as int]);
            let next = Seq::new((k + 1) as nat, |j: int| t[idx@.take(k + 1)[j] as int]);
            assert(next =~= prev.push(t[i as int]));
            lemma_flatten_push(prev, t[i as int]);
        }
        k = k + 1;
    }
    assert(idx@.take(n as int) =~= idx@);
    Ok(DecodedPIE { width, height, format, pixels })
}

} // verus!
