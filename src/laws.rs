//! Properties that relate the encoder and the decoder to each other, or a
//! function to itself over all inputs.
use vstd::prelude::*;

use crate::decode::{decode_into_spec, decode_spec, decode_to_vec_spec, output_channels};
use crate::encode::{
    delta, encode_prefix, lemma_encode_prefix_len, run_bytes, encode_into_spec, encode_ops, encode_spec, encode_to_vec_spec, encoded_image, large_fits,
    medium_fits, pixel_op, small_fits,
};
use crate::error::QoiError;
use crate::header::{channel_count, lemma_header_round_trip, magic, parse_header, Channels, QoiHeader};
use crate::pixel::{hash_of, lemma_raw_of_pixels, pixels_of, Pixel};
use crate::round_trip::{
    lemma_colour_tag, lemma_index_tag, lemma_large_tag, lemma_medium_tag, lemma_pixels_round_trip,
    lemma_small_tag,
};

verus! {

/// Decoding what the encoder makes of a raw image of `width * height`
/// pixels gives that raw image back, byte for byte, for three and four
/// channels and any size, empty included; also through the allocating calls
/// whenever the encoder's one succeeds.
pub proof fn lemma_round_trip(
    raw: Seq<u8>,
    width: u32,
    height: u32,
    channels: Channels,
    colour_space: u8,
)
    requires
        raw.len() == width * height * channel_count(channels),
    ensures
        encode_spec(raw, width, height, channels, colour_space).is_ok(),
        decode_spec(encode_spec(raw, width, height, channels, colour_space).unwrap(), None) == Ok::<
            Seq<u8>,
            QoiError,
        >(raw),
        encode_to_vec_spec(raw, width, height, channels, colour_space).is_ok() ==> decode_to_vec_spec(
            encode_to_vec_spec(raw, width, height, channels, colour_space).unwrap(),
            None,
        ) == Ok::<Seq<u8>, QoiError>(raw),
{
    let h = QoiHeader { width, height, channels, colour_space };
    let n = h.pixel_count();
    let px = pixels_of(raw, channels, n);
    let stream = encoded_image(h, px);
    assert(stream == h.bytes() + (encode_ops(px) + crate::encode::footer()));
    lemma_header_round_trip(h, encode_ops(px) + crate::encode::footer());
    lemma_pixels_round_trip(h, px);
    lemma_raw_of_pixels(raw, channels, n);
    assert(raw.subrange(0, (n * channel_count(channels)) as int) =~= raw);
    assert(output_channels(h, None) == channels);
}

/// A stream long enough to hold a header but without the magic tag is
/// refused as such, whatever else it holds.
pub proof fn lemma_bad_magic_rejected(stream: Seq<u8>, channels: Option<Channels>, capacity: nat)
    requires
        stream.len() >= 14,
        stream.subrange(0, 4) != magic(),
    ensures
        parse_header(stream) == Err::<QoiHeader, QoiError>(QoiError::IncorrectHeaderMagic),
        decode_spec(stream, channels) == Err::<Seq<u8>, QoiError>(QoiError::IncorrectHeaderMagic),
        decode_into_spec(stream, channels, capacity) == Err::<(), QoiError>(
            QoiError::IncorrectHeaderMagic,
        ),
        decode_to_vec_spec(stream, channels) == Err::<Seq<u8>, QoiError>(
            QoiError::IncorrectHeaderMagic,
        ),
{
}

/// A stream shorter than a header is refused as such.
pub proof fn lemma_short_stream_rejected(stream: Seq<u8>, channels: Option<Channels>, capacity: nat)
    requires
        stream.len() < 14,
    ensures
        decode_spec(stream, channels) == Err::<Seq<u8>, QoiError>(QoiError::InputSmallerThanHeader),
        decode_into_spec(stream, channels, capacity) == Err::<(), QoiError>(
            QoiError::InputSmallerThanHeader,
        ),
        decode_to_vec_spec(stream, channels) == Err::<Seq<u8>, QoiError>(
            QoiError::InputSmallerThanHeader,
        ),
{
}

/// A stream with a sound header but no room for its footer is refused as
/// truncated; decoding into a buffer reports a short buffer first.
pub proof fn lemma_missing_footer_rejected(stream: Seq<u8>, channels: Option<Channels>, capacity: nat)
    requires
        parse_header(stream).is_ok(),
        stream.len() < 18,
    ensures
        decode_spec(stream, channels) == Err::<Seq<u8>, QoiError>(QoiError::InputSize),
        capacity >= parse_header(stream).unwrap().raw_len(
            output_channels(parse_header(stream).unwrap(), channels),
        ) ==> decode_into_spec(stream, channels, capacity) == Err::<(), QoiError>(
            QoiError::InputSize,
        ),
        decode_to_vec_spec(stream, channels) == Err::<Seq<u8>, QoiError>(QoiError::InputSize),
{
}

/// Decoding a stream with a sound header into a buffer shorter than the raw
/// image fails with `OutputTooSmall`.
pub proof fn lemma_short_destination_rejected(stream: Seq<u8>, channels: Option<Channels>, capacity: nat)
    requires
        parse_header(stream).is_ok(),
        capacity < parse_header(stream).unwrap().raw_len(
            output_channels(parse_header(stream).unwrap(), channels),
        ),
    ensures
        decode_into_spec(stream, channels, capacity) == Err::<(), QoiError>(QoiError::OutputTooSmall),
{
}

/// Encoding from a raw buffer shorter than the image fails with `InputSize`,
/// whatever the destination.
pub proof fn lemma_short_raw_input_rejected(
    raw: Seq<u8>,
    width: u32,
    height: u32,
    channels: Channels,
    colour_space: u8,
    capacity: nat,
)
    requires
        raw.len() < width * height * channel_count(channels),
    ensures
        encode_spec(raw, width, height, channels, colour_space) == Err::<Seq<u8>, QoiError>(
            QoiError::InputSize,
        ),
        encode_into_spec(raw, width, height, channels, colour_space, capacity) == Err::<
            usize,
            QoiError,
        >(QoiError::InputSize),
{
}

/// The stream depends on the image's pixels alone: two raw buffers that agree
/// on the image's bytes encode to the same bytes, so encoding one pixel
/// sequence twice gives the same stream twice.
pub proof fn lemma_encode_deterministic(
    a: Seq<u8>,
    b: Seq<u8>,
    width: u32,
    height: u32,
    channels: Channels,
    colour_space: u8,
)
    requires
        a.len() >= width * height * channel_count(channels),
        b.len() >= width * height * channel_count(channels),
        a.subrange(0, width * height * channel_count(channels) as int) == b.subrange(
            0,
            width * height * channel_count(channels) as int,
        ),
    ensures
        encode_spec(a, width, height, channels, colour_space) == encode_spec(
            b,
            width,
            height,
            channels,
            colour_space,
        ),
{
    let h = QoiHeader { width, height, channels, colour_space };
    let n = h.pixel_count();
    let k = channel_count(channels);
    let len: int = width * height * k;
    assert forall|x: int| 0 <= x < len implies #[trigger] a[x] == b[x] by {
        assert(a.subrange(0, len)[x] == b.subrange(0, len)[x]);
    }
    assert forall|i: int| 0 <= i < n implies #[trigger] pixels_of(a, channels, n)[i] == pixels_of(
        b,
        channels,
        n,
    )[i] by {
        assert(i * k + k <= n * k) by (nonlinear_arith)
            requires
                0 <= i < n,
        ;
    }
    assert(pixels_of(a, channels, n) =~= pixels_of(b, channels, n));
}

/// The operation for a pixel that differs from the previous one: its cache
/// slot when the cache holds it there; otherwise the one-byte delta (tag
/// `10`) when alpha is unchanged and each colour delta lies in [-2, 1]; else
/// the two-byte delta (tag `110`) when alpha is unchanged, red lies in
/// [-16, 15] and green and blue in [-8, 7]; else the three-byte delta (tag
/// `1110`) when all four deltas lie in [-16, 15]; else the literal colour
/// (tag `1111`) with one flag per changed channel, followed by exactly the
/// changed channels' values.
pub proof fn lemma_delta_tiers(prev: Pixel, cache: Seq<Pixel>, p: Pixel)
    requires
        cache.len() == 64,
    ensures
        ({
            let op = pixel_op(prev, cache, p);
            let dr = delta(p.r, prev.r);
            let dg = delta(p.g, prev.g);
            let db = delta(p.b, prev.b);
            let da = delta(p.a, prev.a);
            let changed = (if dr != 0 { 1int } else { 0 }) + (if dg != 0 { 1int } else { 0 }) + (
            if db != 0 { 1int } else { 0 }) + (if da != 0 { 1int } else { 0 });
            if cache[hash_of(p)] == p {
                op.len() == 1 && op[0] == hash_of(p) && op[0] & 0xc0 == 0
            } else if small_fits(dr, dg, db, da) {
                op.len() == 1 && op[0] & 0xc0 == 0x80
            } else if medium_fits(dr, dg, db, da) {
                op.len() == 2 && op[0] & 0xe0 == 0xc0
            } else if large_fits(dr, dg, db, da) {
                op.len() == 3 && op[0] & 0xf0 == 0xe0
            } else {
                &&& op.len() == 1 + changed
                &&& op[0] & 0xf0 == 0xf0
                &&& (op[0] & 8 != 0) == (dr != 0)
                &&& (op[0] & 4 != 0) == (dg != 0)
                &&& (op[0] & 2 != 0) == (db != 0)
                &&& (op[0] & 1 != 0) == (da != 0)
            }
        }),
{
    let op = pixel_op(prev, cache, p);
    let dr = delta(p.r, prev.r);
    let dg = delta(p.g, prev.g);
    let db = delta(p.b, prev.b);
    let da = delta(p.a, prev.a);
    if cache[hash_of(p)] == p {
        lemma_index_tag(hash_of(p) as u8);
    } else if small_fits(dr, dg, db, da) {
        lemma_small_tag(op[0], (dr + 2) as u8, (dg + 2) as u8, (db + 2) as u8);
    } else if medium_fits(dr, dg, db, da) {
        lemma_medium_tag(op[0], op[1], (dr + 16) as u8, (dg + 8) as u8, (db + 8) as u8);
    } else if large_fits(dr, dg, db, da) {
        lemma_large_tag(
            op[0],
            op[1],
            op[2],
            (dr + 16) as u8,
            (dg + 16) as u8,
            (db + 16) as u8,
            (da + 16) as u8,
        );
    } else {
        let fr: u8 = if dr != 0 { 1 } else { 0 };
        let fg: u8 = if dg != 0 { 1 } else { 0 };
        let fb: u8 = if db != 0 { 1 } else { 0 };
        let fa: u8 = if da != 0 { 1 } else { 0 };
        lemma_colour_tag(op[0], fr, fg, fb, fa);
    }
}

/// In the stream, a pixel that differs from the previous one is written as
/// the pending run, if any, followed by exactly the operation that
/// `lemma_delta_tiers` describes for it against the previous pixel and the
/// encoder's cache at that point.
pub proof fn lemma_new_pixel_written(px: Seq<Pixel>, i: nat)
    requires
        i < px.len(),
        px[i as int] != encode_prefix(px, i).0.prev,
    ensures
        ({
            let (e, before) = encode_prefix(px, i);
            let flushed = if e.run > 0 {
                run_bytes(e.run)
            } else {
                seq![]
            };
            &&& e.cache.len() == 64
            &&& encode_prefix(px, i + 1).1 == before + flushed + pixel_op(e.prev, e.cache, px[i as int])
        }),
{
    lemma_encode_prefix_len(px, i);
    let (e, before) = encode_prefix(px, i);
    let flushed = if e.run > 0 {
        run_bytes(e.run)
    } else {
        seq![]
    };
    assert(encode_prefix(px, i + 1).1 =~= before + flushed + pixel_op(e.prev, e.cache, px[i as int]));
}

} // verus!
