//! Laws that tie the encoder, the container layout and the decoder together.
use vstd::prelude::*;

use crate::codec::{
    be16, be16_value, container, decode_table, decoded, encoded, flags_for, format_for,
    format_of_flags, magic, paint, resolved_palette, serialized, DecodedModel, FLAG_PALETTE,
    HEADER_SIZE, MAX_RUNS, VERSION,
};
use crate::error::{DecodeError, EncodeError};
use crate::palette::{
    colors_of, first_seen, indices_in, lemma_colors_of_flatten, lemma_colors_of_uniform,
    lemma_first_seen, lemma_first_seen_len, lemma_first_seen_uniform, lemma_flatten_colors_of,
    lemma_index_in_contains, stride, PaletteModel, PixelFormat, MAX_COLORS,
};
use crate::rle::{rle_decode_inverts_rle, rle_of, MAX_RUN};

verus! {

/// The flags byte announces the format it was written for, and bit 0 tells
/// whether a palette is embedded.
proof fn lemma_flags(embedded: bool, format: PixelFormat)
    ensures
        format_of_flags(flags_for(embedded, format)) == format,
        (flags_for(embedded, format) & FLAG_PALETTE != 0) == embedded,
{
    assert(0u8 & 2u8 == 0u8) by (bit_vector);
    assert(1u8 & 2u8 == 0u8) by (bit_vector);
    assert(2u8 & 2u8 != 0u8) by (bit_vector);
    assert(3u8 & 2u8 != 0u8) by (bit_vector);
    assert(0u8 & 1u8 == 0u8) by (bit_vector);
    assert(1u8 & 1u8 != 0u8) by (bit_vector);
    assert(2u8 & 1u8 == 0u8) by (bit_vector);
    assert(3u8 & 1u8 != 0u8) by (bit_vector);
}

/// A 16-bit field reads back as the value written.
proof fn lemma_be16(v: nat)
    requires
        v <= 0xffff,
    ensures
        be16(v).len() == 2,
        be16_value(be16(v)[0], be16(v)[1]) == v,
{
}

/// The palette that a successful encoding resolves to holds every color of
/// the buffer, and the buffer's pixel count is width × height.
proof fn lemma_encoded_ok(
    width: u16,
    height: u16,
    pixels: Seq<u8>,
    embed: bool,
    supplied: Option<PaletteModel>,
)
    requires
        encoded(width, height, pixels, embed, supplied) is Ok,
    ensures
        ({
            let f = format_for(width, height, pixels.len()).unwrap();
            let cs = colors_of(pixels, stride(f));
            let t = resolved_palette(pixels, f, supplied).table();
            &&& format_for(width, height, pixels.len()) is Some
            &&& t.len() <= MAX_COLORS
            &&& forall|k: int| 0 <= k < cs.len() ==> t.contains(#[trigger] cs[k])
            &&& cs.len() == width * height
            &&& pixels.len() % stride(f) == 0
        }),
{
    let f = format_for(width, height, pixels.len()).unwrap();
    let s = stride(f);
    let cs = colors_of(pixels, s);
    let t = resolved_palette(pixels, f, supplied).table();
    assert(!(exists|k: int| 0 <= k < cs.len() && !t.contains(#[trigger] cs[k])));
    assert(pixels.len() / s == width * height && pixels.len() % s == 0) by (nonlinear_arith)
        requires
            pixels.len() == width * height * s,
            s > 0,
    ;
}

/// Container bytes written for a pixel buffer decode back to that buffer
/// wherever the decoder finds the palette the buffer was encoded against, and
/// fail with `MissingPalette` wherever it finds none.
proof fn lemma_decodes_back(
    width: u16,
    height: u16,
    pixels: Seq<u8>,
    embed: bool,
    supplied: Option<PaletteModel>,
    at_decode: Option<PaletteModel>,
)
    requires
        serialized(width, height, pixels, embed, supplied) is Ok,
        resolved_palette(pixels, format_for(width, height, pixels.len()).unwrap(), supplied).format
            == format_for(width, height, pixels.len()).unwrap(),
    ensures
        ({
            let f = format_for(width, height, pixels.len()).unwrap();
            let pal = resolved_palette(pixels, f, supplied);
            let bytes = serialized(width, height, pixels, embed, supplied)->Ok_0;
            let want = Ok::<DecodedModel, DecodeError>(
                DecodedModel { width, height, format: f, pixels },
            );
            &&& embed ==> decoded(bytes, at_decode) == want
            &&& !embed && at_decode == Some(pal) ==> decoded(bytes, at_decode) == want
            &&& !embed && at_decode is None ==> decoded(bytes, at_decode) == Err::<
                DecodedModel,
                DecodeError,
            >(DecodeError::MissingPalette)
        }),
{
    let f = format_for(width, height, pixels.len()).unwrap();
    let s = stride(f);
    let cs = colors_of(pixels, s);
    let pal = resolved_palette(pixels, f, supplied);
    let t = pal.table();
    lemma_encoded_ok(width, height, pixels, embed, supplied);
    let em = encoded(width, height, pixels, embed, supplied)->Ok_0;
    let idx = indices_in(t, cs);
    let runs = rle_of(idx, MAX_RUN as nat);
    assert(em.indices == runs);
    rle_decode_inverts_rle(idx, MAX_RUN as nat);
    let nr = runs.len() / 2;
    let tail = match em.palette {
        Some(p) => p.colors,
        None => Seq::empty(),
    };
    let flags = flags_for(em.palette is Some, f);
    lemma_flags(embed, f);
    lemma_be16(width as nat);
    lemma_be16(height as nat);
    lemma_be16(nr);
    let header = magic() + seq![VERSION] + be16(width as nat) + be16(height as nat) + seq![flags]
        + be16(nr);
    let bytes = container(em, f);
    assert(bytes =~= header + runs + tail);
    assert(bytes.take(3) =~= magic());
    let body_end = HEADER_SIZE + 2 * be16_value(bytes[9], bytes[10]);
    assert(body_end == HEADER_SIZE + runs.len());
    assert(bytes.subrange(HEADER_SIZE as int, body_end) =~= runs);
    assert(bytes.skip(body_end) =~= tail);
    assert forall|k: int| 0 <= k < idx.len() implies #[trigger] idx[k] < t.len() by {
        lemma_index_in_contains(t, cs[k]);
    }
    assert(Seq::new(idx.len(), |k: int| t[idx[k] as int]) =~= cs) by {
        assert forall|k: int| 0 <= k < idx.len() implies t[idx[k] as int] == cs[k] by {
            lemma_index_in_contains(t, cs[k]);
        }
    }
    lemma_flatten_colors_of(pixels, s);
    assert(paint(idx, t) == pixels);
    if embed {
        assert(decode_table(flags, tail, at_decode) == t);
    } else if at_decode == Some(pal) {
        assert(decode_table(flags, tail, at_decode) == t);
    }
}

/// Decoding the container bytes of a pixel buffer, encoded with an embedded
/// palette built from its own colors, gives the buffer back: three- and
/// four-channel pixels alike, wherever the buffer has at most 256 distinct
/// colors and its runs fit the header's run count.
pub proof fn decode_inverts_encode(width: u16, height: u16, pixels: Seq<u8>)
    requires
        format_for(width, height, pixels.len()) is Some,
        colors_of(pixels, stride(format_for(width, height, pixels.len()).unwrap())).to_set().len()
            <= MAX_COLORS,
        ({
            let cs = colors_of(pixels, stride(format_for(width, height, pixels.len()).unwrap()));
            rle_of(indices_in(first_seen(cs), cs), MAX_RUN as nat).len() / 2 <= MAX_RUNS
        }),
    ensures
        serialized(width, height, pixels, true, None) is Ok,
        decoded(serialized(width, height, pixels, true, None)->Ok_0, None) == Ok::<
            DecodedModel,
            DecodeError,
        >(
            DecodedModel {
                width,
                height,
                format: format_for(width, height, pixels.len()).unwrap(),
                pixels,
            },
        ),
{
    let f = format_for(width, height, pixels.len()).unwrap();
    let s = stride(f);
    let cs = colors_of(pixels, s);
    lemma_built_palette(pixels, s);
    lemma_first_seen_len(cs);
    lemma_decodes_back(width, height, pixels, true, None, None);
}

/// The palette built from a buffer's colors is the first-seen table of those
/// colors, and holds each of them.
proof fn lemma_built_palette(pixels: Seq<u8>, s: nat)
    requires
        s > 0,
    ensures
        ({
            let cs = colors_of(pixels, s);
            &&& colors_of(first_seen(cs).flatten(), s) == first_seen(cs)
            &&& forall|k: int| 0 <= k < cs.len() ==> first_seen(cs).contains(#[trigger] cs[k])
        }),
{
    let cs = colors_of(pixels, s);
    lemma_colors_of_uniform(pixels, s);
    lemma_first_seen_uniform(cs, s);
    lemma_colors_of_flatten(first_seen(cs), s);
    lemma_first_seen(cs);
}

/// With a palette built from the buffer, encoding succeeds exactly when the
/// buffer has at most 256 distinct colors, and fails with `TooManyColors`
/// when it has more.
pub proof fn palette_capacity(width: u16, height: u16, pixels: Seq<u8>, embed: bool)
    requires
        format_for(width, height, pixels.len()) is Some,
    ensures
        ({
            let cs = colors_of(pixels, stride(format_for(width, height, pixels.len()).unwrap()));
            &&& cs.to_set().len() <= MAX_COLORS ==> encoded(
                width,
                height,
                pixels,
                embed,
                None,
            ) is Ok
            &&& cs.to_set().len() > MAX_COLORS ==> encoded(width, height, pixels, embed, None)
                == Err::<crate::codec::EncodedModel, EncodeError>(EncodeError::TooManyColors)
        }),
{
    let f = format_for(width, height, pixels.len()).unwrap();
    let cs = colors_of(pixels, stride(f));
    lemma_built_palette(pixels, stride(f));
    lemma_first_seen_len(cs);
}

/// Encoding against a supplied palette that lacks one of the buffer's colors
/// fails with `ColorNotInPalette`, and no container bytes come of it.
pub proof fn unknown_color_rejected(
    width: u16,
    height: u16,
    pixels: Seq<u8>,
    embed: bool,
    palette: PaletteModel,
    k: int,
)
    requires
        format_for(width, height, pixels.len()) is Some,
        palette.table().len() <= MAX_COLORS,
        0 <= k < colors_of(pixels, stride(format_for(width, height, pixels.len()).unwrap())).len(),
        !palette.table().contains(
            colors_of(pixels, stride(format_for(width, height, pixels.len()).unwrap()))[k],
        ),
    ensures
        encoded(width, height, pixels, embed, Some(palette)) == Err::<
            crate::codec::EncodedModel,
            EncodeError,
        >(EncodeError::ColorNotInPalette),
        serialized(width, height, pixels, embed, Some(palette)) == Err::<Seq<u8>, EncodeError>(
            EncodeError::ColorNotInPalette,
        ),
{
}

/// Container bytes written without their palette decode only with it: with
/// none supplied, decoding fails with `MissingPalette`; with the palette the
/// buffer was encoded against, it gives the buffer back.
pub proof fn external_palette_needed(
    width: u16,
    height: u16,
    pixels: Seq<u8>,
    palette: PaletteModel,
)
    requires
        format_for(width, height, pixels.len()) == Some(palette.format),
        palette.table().len() <= MAX_COLORS,
        forall|k: int|
            0 <= k < colors_of(pixels, stride(palette.format)).len() ==> palette.table().contains(
                #[trigger] colors_of(pixels, stride(palette.format))[k],
            ),
        rle_of(
            indices_in(palette.table(), colors_of(pixels, stride(palette.format))),
            MAX_RUN as nat,
        ).len() / 2 <= MAX_RUNS,
    ensures
        serialized(width, height, pixels, false, Some(palette)) is Ok,
        decoded(serialized(width, height, pixels, false, Some(palette))->Ok_0, None) == Err::<
            DecodedModel,
            DecodeError,
        >(DecodeError::MissingPalette),
        decoded(serialized(width, height, pixels, false, Some(palette))->Ok_0, Some(palette))
            == Ok::<DecodedModel, DecodeError>(
            DecodedModel { width, height, format: palette.format, pixels },
        ),
{
    lemma_decodes_back(width, height, pixels, false, Some(palette), None);
    lemma_decodes_back(width, height, pixels, false, Some(palette), Some(palette));
}

} // verus!
