use vstd::prelude::*;

use crate::decode::{
    apply_op, decode_from, decode_step, decoder_start, lemma_decode_from_split, DecoderModel,
};
use crate::encode::{
    colour_bytes, delta, encode_prefix, encode_step, encoded_image, large_fits,
    lemma_encode_prefix_extends, lemma_encode_prefix_len, lemma_pixel_op_len, medium_fits,
    pixel_op, run_bytes, small_fits, EncoderModel,
};
use crate::header::QoiHeader;
use crate::pixel::{empty_cache, hash_of, start_pixel, zero_pixel, Pixel};

verus! {

/// The one-byte delta's tag and fields read back.
pub proof fn lemma_small_tag(b: u8, x: u8, y: u8, z: u8)
    requires
        x < 4,
        y < 4,
        z < 4,
        b == 0x80 + x * 16 + y * 4 + z,
    ensures
        b & 0xc0 == 0x80,
        b & 0xe0 != 0x40,
        b & 0xe0 != 0x60,
        (b >> 4u8) & 3 == x,
        (b >> 2u8) & 3 == y,
        b & 3 == z,
{
    assert(b & 0xc0 == 0x80 && b & 0xe0 != 0x40 && b & 0xe0 != 0x60 && (b >> 4u8) & 3 == x && (b
        >> 2u8) & 3 == y && b & 3 == z) by (bit_vector)
        requires
            x < 4,
            y < 4,
            z < 4,
            b == 0x80 + x * 16 + y * 4 + z,
    ;
}

/// The two-byte delta's tag and fields read back.
pub proof fn lemma_medium_tag(b1: u8, b2: u8, x: u8, y: u8, z: u8)
    requires
        x < 32,
        y < 16,
        z < 16,
        b1 == 0xc0 + x,
        b2 == y * 16 + z,
    ensures
        b1 & 0xc0 != 0,
        b1 & 0xc0 != 0x80,
        b1 & 0xe0 == 0xc0,
        b1 & 0x1f == x,
        b2 >> 4u8 == y,
        b2 & 0x0f == z,
{
    assert(b1 & 0xc0 != 0 && b1 & 0xc0 != 0x80 && b1 & 0xe0 == 0xc0 && b1 & 0x1f == x && b2 >> 4u8
        == y && b2 & 0x0f == z) by (bit_vector)
        requires
            x < 32,
            y < 16,
            z < 16,
            b1 == 0xc0 + x,
            b2 == y * 16 + z,
    ;
}

/// The three-byte delta's tag and fields read back.
pub proof fn lemma_large_tag(b1: u8, b2: u8, b3: u8, x: u8, y: u8, z: u8, w: u8)
    requires
        x < 32,
        y < 32,
        z < 32,
        w < 32,
        b1 == 0xe0 + x / 2,
        b2 == x % 2 * 128 + y * 4 + z / 8,
        b3 == z % 8 * 32 + w,
    ensures
        b1 & 0xc0 != 0,
        b1 & 0xc0 != 0x80,
        b1 & 0xe0 != 0x40,
        b1 & 0xe0 != 0x60,
        b1 & 0xe0 != 0xc0,
        b1 & 0xf0 == 0xe0,
        ((b1 & 0x0f) << 1u8) | (b2 >> 7u8) == x,
        (b2 & 0x7c) >> 2u8 == y,
        ((b2 & 0x03) << 3u8) | ((b3 & 0xe0) >> 5u8) == z,
        b3 & 0x1f == w,
{
    assert(b1 & 0xc0 != 0 && b1 & 0xc0 != 0x80 && b1 & 0xe0 != 0x40 && b1 & 0xe0 != 0x60 && b1
        & 0xe0 != 0xc0 && b1 & 0xf0 == 0xe0 && ((b1 & 0x0f) << 1u8) | (b2 >> 7u8) == x && (b2
        & 0x7c) >> 2u8 == y && ((b2 & 0x03) << 3u8) | ((b3 & 0xe0) >> 5u8) == z && b3 & 0x1f == w)
        by (bit_vector)
        requires
            x < 32,
            y < 32,
            z < 32,
            w < 32,
            b1 == 0xe0 + x / 2,
            b2 == x % 2 * 128 + y * 4 + z / 8,
            b3 == z % 8 * 32 + w,
    ;
}

/// The literal colour's tag and flags read back.
pub proof fn lemma_colour_tag(b: u8, fr: u8, fg: u8, fb: u8, fa: u8)
    requires
        fr < 2,
        fg < 2,
        fb < 2,
        fa < 2,
        b == 0xf0 + fr * 8 + fg * 4 + fb * 2 + fa,
    ensures
        b & 0xc0 != 0,
        b & 0xc0 != 0x80,
        b & 0xe0 != 0x40,
        b & 0xe0 != 0x60,
        b & 0xe0 != 0xc0,
        b & 0xf0 != 0xe0,
        b & 0xf0 == 0xf0,
        (b & 8 != 0) == (fr == 1),
        (b & 4 != 0) == (fg == 1),
        (b & 2 != 0) == (fb == 1),
        (b & 1 != 0) == (fa == 1),
{
    assert(b & 0xc0 != 0 && b & 0xc0 != 0x80 && b & 0xe0 != 0x40 && b & 0xe0 != 0x60 && b & 0xe0
        != 0xc0 && b & 0xf0 != 0xe0 && b & 0xf0 == 0xf0 && (b & 8 != 0) == (fr == 1) && (b & 4 != 0) == (fg == 1) && (b
        & 2 != 0) == (fb == 1) && (b & 1 != 0) == (fa == 1)) by (bit_vector)
        requires
            fr < 2,
            fg < 2,
            fb < 2,
            fa < 2,
            b == 0xf0 + fr * 8 + fg * 4 + fb * 2 + fa,
    ;
}

/// The run operations' tags and lengths read back.
proof fn lemma_run_tag(b1: u8, b2: u8, len: u16)
    requires
        1 <= len <= 0x2020,
        len <= 32 ==> b1 == 0x40 + len - 1,
        len > 32 ==> b1 == 0x60 + (len - 33) / 256 && b2 == (len - 33) % 256,
    ensures
        b1 & 0xc0 != 0,
        len <= 32 ==> b1 & 0xe0 == 0x40 && b1 & 0x1f == len - 1,
        len > 32 ==> b1 & 0xe0 == 0x60 && (b1 & 0x1f) * 256 + b2 + 32 == len - 1,
{
    assert(b1 & 0xc0 != 0 && (len <= 32 ==> b1 & 0xe0 == 0x40 && b1 & 0x1f == len - 1) && (len > 32
        ==> b1 & 0xe0 == 0x60 && (b1 & 0x1f) * 256 + b2 + 32 == len - 1)) by (bit_vector)
        requires
            1 <= len <= 0x2020,
            len <= 32 ==> b1 == 0x40 + len - 1,
            len > 32 ==> b1 == 0x60 + (len - 33) / 256 && b2 == (len - 33) % 256,
    ;
}

/// A cache slot below 64 is an index tag.
pub proof fn lemma_index_tag(b: u8)
    requires
        b < 64,
    ensures
        b & 0xc0 == 0,
{
    assert(b & 0xc0 == 0) by (bit_vector)
        requires
            b < 64,
    ;
}

/// Every slot whose pixel belongs there holds the same pixel in the decoder's
/// cache as in the encoder's.
pub open spec fn cache_agrees(enc: Seq<Pixel>, dec: Seq<Pixel>) -> bool {
    &&& enc.len() == 64
    &&& dec.len() == 64
    &&& forall|h: int| 0 <= h < 64 && hash_of(#[trigger] enc[h]) == h ==> dec[h] == enc[h]
}

/// Applying a delta that was measured from the same pixel restores it.
proof fn lemma_wrap_delta(prev: u8, p: u8)
    ensures
        crate::pixel::wrap_add(prev, delta(p, prev)) == p,
{
}

proof fn lemma_decode_small(s: DecoderModel, src: Seq<u8>, p: Pixel)
    requires
        small_fits(delta(p.r, s.px.r), delta(p.g, s.px.g), delta(p.b, s.px.b), delta(p.a, s.px.a)),
        0 <= s.pos < src.len(),
        src[s.pos] == crate::encode::small_bytes(
            delta(p.r, s.px.r),
            delta(p.g, s.px.g),
            delta(p.b, s.px.b),
        )[0],
    ensures
        apply_op(s, src) == (p, 0nat, 1int),
{
    let prev = s.px;
    lemma_small_tag(
        src[s.pos],
        (delta(p.r, prev.r) + 2) as u8,
        (delta(p.g, prev.g) + 2) as u8,
        (delta(p.b, prev.b) + 2) as u8,
    );
    lemma_wrap_delta(prev.r, p.r);
    lemma_wrap_delta(prev.g, p.g);
    lemma_wrap_delta(prev.b, p.b);
}

proof fn lemma_decode_medium(s: DecoderModel, src: Seq<u8>, p: Pixel)
    requires
        medium_fits(delta(p.r, s.px.r), delta(p.g, s.px.g), delta(p.b, s.px.b), delta(p.a, s.px.a)),
        0 <= s.pos,
        s.pos + 1 < src.len(),
        src.subrange(s.pos, s.pos + 2) == crate::encode::medium_bytes(
            delta(p.r, s.px.r),
            delta(p.g, s.px.g),
            delta(p.b, s.px.b),
        ),
    ensures
        apply_op(s, src) == (p, 0nat, 2int),
{
    let prev = s.px;
    assert(src[s.pos] == src.subrange(s.pos, s.pos + 2)[0]);
    assert(src[s.pos + 1] == src.subrange(s.pos, s.pos + 2)[1]);
    lemma_medium_tag(
        src[s.pos],
        src[s.pos + 1],
        (delta(p.r, prev.r) + 16) as u8,
        (delta(p.g, prev.g) + 8) as u8,
        (delta(p.b, prev.b) + 8) as u8,
    );
    lemma_wrap_delta(prev.r, p.r);
    lemma_wrap_delta(prev.g, p.g);
    lemma_wrap_delta(prev.b, p.b);
}

proof fn lemma_decode_large(s: DecoderModel, src: Seq<u8>, p: Pixel)
    requires
        large_fits(delta(p.r, s.px.r), delta(p.g, s.px.g), delta(p.b, s.px.b), delta(p.a, s.px.a)),
        0 <= s.pos,
        s.pos + 2 < src.len(),
        src.subrange(s.pos, s.pos + 3) == crate::encode::large_bytes(
            delta(p.r, s.px.r),
            delta(p.g, s.px.g),
            delta(p.b, s.px.b),
            delta(p.a, s.px.a),
        ),
    ensures
        apply_op(s, src) == (p, 0nat, 3int),
{
    let prev = s.px;
    assert(src[s.pos] == src.subrange(s.pos, s.pos + 3)[0]);
    assert(src[s.pos + 1] == src.subrange(s.pos, s.pos + 3)[1]);
    assert(src[s.pos + 2] == src.subrange(s.pos, s.pos + 3)[2]);
    lemma_large_tag(
        src[s.pos],
        src[s.pos + 1],
        src[s.pos + 2],
        (delta(p.r, prev.r) + 16) as u8,
        (delta(p.g, prev.g) + 16) as u8,
        (delta(p.b, prev.b) + 16) as u8,
        (delta(p.a, prev.a) + 16) as u8,
    );
    lemma_wrap_delta(prev.r, p.r);
    lemma_wrap_delta(prev.g, p.g);
    lemma_wrap_delta(prev.b, p.b);
    lemma_wrap_delta(prev.a, p.a);
}

proof fn lemma_decode_colour(s: DecoderModel, src: Seq<u8>, p: Pixel)
    requires
        0 <= s.pos,
        s.pos + colour_bytes(p, s.px).len() <= src.len(),
        src.subrange(s.pos, s.pos + colour_bytes(p, s.px).len()) == colour_bytes(p, s.px),
    ensures
        apply_op(s, src) == (p, 0nat, colour_bytes(p, s.px).len() as int),
{
    let prev = s.px;
    let op = colour_bytes(p, prev);
    let fr: u8 = if p.r != prev.r { 1 } else { 0 };
    let fg: u8 = if p.g != prev.g { 1 } else { 0 };
    let fb: u8 = if p.b != prev.b { 1 } else { 0 };
    let fa: u8 = if p.a != prev.a { 1 } else { 0 };
    assert forall|k: int| 0 <= k < op.len() implies src[s.pos + k] == op[k] by {
        assert(src.subrange(s.pos, s.pos + op.len())[k] == src[s.pos + k]);
    }
    let nr = fr as int;
    let ng = fg as int;
    let nb = fb as int;
    let na = fa as int;
    assert(op.len() == 1 + nr + ng + nb + na);
    assert(op[0] == 0xf0 + fr * 8 + fg * 4 + fb * 2 + fa);
    lemma_colour_tag(op[0], fr, fg, fb, fa);
    assert(fr == 1 ==> op[1] == p.r);
    assert(fg == 1 ==> op[1 + nr] == p.g);
    assert(fb == 1 ==> op[1 + nr + ng] == p.b);
    assert(fa == 1 ==> op[1 + nr + ng + nb] == p.a);
}

/// Reading the operation the encoder wrote for `p` gives `p` back.
proof fn lemma_decode_op(s: DecoderModel, src: Seq<u8>, enc: Seq<Pixel>, p: Pixel)
    requires
        s.run == 0,
        p != s.px,
        cache_agrees(enc, s.cache),
        0 <= s.pos,
        s.pos + pixel_op(s.px, enc, p).len() <= src.len() - 4,
        src.subrange(s.pos, s.pos + pixel_op(s.px, enc, p).len()) == pixel_op(s.px, enc, p),
    ensures
        decode_step(s, src) == (DecoderModel {
            px: p,
            run: 0,
            cache: s.cache.update(hash_of(p), p),
            pos: s.pos + pixel_op(s.px, enc, p).len(),
        }),
{
    let op = pixel_op(s.px, enc, p);
    let prev = s.px;
    lemma_pixel_op_len(prev, enc, p);
    let h = hash_of(p);
    let dr = delta(p.r, prev.r);
    let dg = delta(p.g, prev.g);
    let db = delta(p.b, prev.b);
    let da = delta(p.a, prev.a);
    if enc[h] == p {
        assert(src[s.pos] == op[0]) by {
            assert(src.subrange(s.pos, s.pos + op.len())[0] == src[s.pos]);
        }
        lemma_index_tag(h as u8);
        assert(apply_op(s, src) == (p, 0nat, 1int));
    } else if small_fits(dr, dg, db, da) {
        assert(src[s.pos] == op[0]) by {
            assert(src.subrange(s.pos, s.pos + op.len())[0] == src[s.pos]);
        }
        lemma_decode_small(s, src, p);
    } else if medium_fits(dr, dg, db, da) {
        lemma_decode_medium(s, src, p);
    } else if large_fits(dr, dg, db, da) {
        lemma_decode_large(s, src, p);
    } else {
        lemma_decode_colour(s, src, p);
    }
}

/// A pending run repeats the current pixel and reads nothing.
proof fn lemma_decode_repeat(s: DecoderModel, src: Seq<u8>, m: nat)
    requires
        s.run >= m,
    ensures
        decode_from(s, src, m).0 == (DecoderModel { run: (s.run - m) as nat, ..s }),
        decode_from(s, src, m).1 == Seq::new(m, |j: int| s.px),
    decreases m,
{
    if m > 0 {
        let s1 = decode_step(s, src);
        lemma_decode_repeat(s1, src, (m - 1) as nat);
        assert(decode_from(s, src, m).1 =~= Seq::new(m, |j: int| s.px));
    } else {
        assert(decode_from(s, src, m).1 =~= Seq::new(m, |j: int| s.px));
    }
}

/// Reading a run operation of length `len` gives `len` copies of the current
/// pixel.
proof fn lemma_decode_run(s: DecoderModel, src: Seq<u8>, len: nat)
    requires
        s.run == 0,
        1 <= len <= 0x2020,
        0 <= s.pos,
        s.pos + run_bytes(len).len() <= src.len() - 4,
        src.subrange(s.pos, s.pos + run_bytes(len).len()) == run_bytes(len),
    ensures
        decode_from(s, src, len).0 == (DecoderModel {
            px: s.px,
            run: 0,
            cache: s.cache.update(hash_of(s.px), s.px),
            pos: s.pos + run_bytes(len).len(),
        }),
        decode_from(s, src, len).1 == Seq::new(len, |j: int| s.px),
{
    let op = run_bytes(len);
    assert forall|k: int| 0 <= k < op.len() implies src[s.pos + k] == op[k] by {
        assert(src.subrange(s.pos, s.pos + op.len())[k] == src[s.pos + k]);
    }
    let b2: u8 = if len > 32 { op[1] } else { 0 };
    lemma_run_tag(op[0], b2, len as u16);
    let s1 = decode_step(s, src);
    assert(s1 == DecoderModel {
        px: s.px,
        run: (len - 1) as nat,
        cache: s.cache.update(hash_of(s.px), s.px),
        pos: s.pos + op.len(),
    });
    lemma_decode_repeat(s1, src, (len - 1) as nat);
    assert(decode_from(s, src, len).1 =~= Seq::new(len, |j: int| s.px));
}

/// The encoder's cache holds its previous pixel in that pixel's slot, unless
/// the slot holds a pixel that does not belong there.
pub open spec fn prev_slot_ok(e: EncoderModel) -> bool {
    hash_of(e.cache[hash_of(e.prev)]) == hash_of(e.prev) ==> e.cache[hash_of(e.prev)] == e.prev
}

/// Storing the current pixel in its own slot keeps the caches in agreement.
proof fn lemma_agree_after_refresh(e: EncoderModel, dec: Seq<Pixel>)
    requires
        cache_agrees(e.cache, dec),
        prev_slot_ok(e),
    ensures
        cache_agrees(e.cache, dec.update(hash_of(e.prev), e.prev)),
{
    let d2 = dec.update(hash_of(e.prev), e.prev);
    assert forall|h: int| 0 <= h < 64 && hash_of(#[trigger] e.cache[h]) == h implies d2[h]
        == e.cache[h] by {
        if h == hash_of(e.prev) {
        } else {
        }
    }
}

/// The bytes the encoder writes for pixel `i` stand in the stream right after
/// those for the pixels before it, ahead of the footer.
proof fn lemma_step_in_stream(h: QoiHeader, px: Seq<Pixel>, i: nat)
    requires
        i < px.len(),
    ensures
        ({
            let src = encoded_image(h, px);
            let (e, b) = encode_prefix(px, i);
            let step = encode_step(e, px[i as int], i + 1 == px.len()).1;
            &&& 14 + b.len() + step.len() <= src.len() - 4
            &&& src.subrange(14 + b.len() as int, 14 + b.len() + step.len() as int) == step
        }),
{
    let src = encoded_image(h, px);
    let (e, b) = encode_prefix(px, i);
    let step = encode_step(e, px[i as int], i + 1 == px.len()).1;
    let ops = encode_prefix(px, px.len()).1;
    lemma_encode_prefix_extends(px, (i + 1) as nat, px.len());
    let b1 = encode_prefix(px, (i + 1) as nat).1;
    assert(b1 == b + step);
    assert forall|t: int| 0 <= t < step.len() implies src[14 + b.len() + t] == step[t] by {
        assert(ops.subrange(0, b1.len() as int)[b.len() + t] == ops[b.len() + t]);
        assert(b1[b.len() + t] == step[t]);
    }
    assert(src.subrange(14 + b.len() as int, 14 + b.len() + step.len() as int) =~= step);
}

/// The decoder keeps pace with the encoder: once the encoder has taken `i`
/// pixels, the last `run` of which wait in a pending run, the decoder has
/// produced the first `i - run` of them, reads where the encoder's output
/// stopped, stands on the same pixel, and agrees with its cache.
spec fn follows(h: QoiHeader, px: Seq<Pixel>, i: nat) -> bool {
    let src = encoded_image(h, px);
    let (e, b) = encode_prefix(px, i);
    let k = (i - e.run) as nat;
    let (d, out) = decode_from(decoder_start(), src, k);
    &&& e.run <= i
    &&& d.run == 0
    &&& d.px == e.prev
    &&& d.pos == 14 + b.len()
    &&& cache_agrees(e.cache, d.cache)
    &&& prev_slot_ok(e)
    &&& out == px.subrange(0, k as int)
    &&& forall|j: int| k <= j < i ==> px[j] == e.prev
}

proof fn lemma_follows_start(h: QoiHeader, px: Seq<Pixel>)
    ensures
        follows(h, px, 0),
{
    assert(0u8 ^ 0u8 ^ 0u8 ^ 255u8 == 255u8 && 0u8 ^ 0u8 ^ 0u8 ^ 0u8 == 0u8) by (bit_vector);
    assert(hash_of(start_pixel()) == 63);
    assert(hash_of(zero_pixel()) == 0);
    assert(empty_cache()[63] == zero_pixel());
    assert(px.subrange(0, 0) =~= Seq::<Pixel>::empty());
}

/// A repeat of the previous pixel: the run grows, or is written and read back.
proof fn lemma_follows_repeat(h: QoiHeader, px: Seq<Pixel>, j: nat)
    requires
        j < px.len(),
        follows(h, px, j),
        px[j as int] == encode_prefix(px, j).0.prev,
    ensures
        follows(h, px, j + 1),
{
    let src = encoded_image(h, px);
    let start = decoder_start();
    let i = j + 1;
    lemma_encode_prefix_len(px, j);
    lemma_step_in_stream(h, px, j);
    let (e, b) = encode_prefix(px, j);
    let k = (j - e.run) as nat;
    let (d, out) = decode_from(start, src, k);
    let p = px[j as int];
    let last = i == px.len();
    let (e2, step) = encode_step(e, p, last);
    assert(encode_prefix(px, i) == (e2, b + step));
    let run = (e.run + 1) as nat;
    if run == 0x2020 || last {
        lemma_decode_run(d, src, run);
        lemma_decode_from_split(start, src, k, run);
        lemma_agree_after_refresh(e, d.cache);
        assert(k + run == i);
        assert(out + Seq::new(run, |t: int| d.px) =~= px.subrange(0, i as int));
    }
}

/// A new pixel: the pending run, then the pixel's operation, are read back.
#[verifier::rlimit(40)]
proof fn lemma_follows_new(h: QoiHeader, px: Seq<Pixel>, j: nat)
    requires
        j < px.len(),
        follows(h, px, j),
        px[j as int] != encode_prefix(px, j).0.prev,
    ensures
        follows(h, px, j + 1),
{
    let src = encoded_image(h, px);
    let start = decoder_start();
    let i = j + 1;
    lemma_encode_prefix_len(px, j);
    lemma_step_in_stream(h, px, j);
    let (e, b) = encode_prefix(px, j);
    let k = (j - e.run) as nat;
    let (d, out) = decode_from(start, src, k);
    let p = px[j as int];
    let last = i == px.len();
    let (e2, step) = encode_step(e, p, last);
    assert(encode_prefix(px, i) == (e2, b + step));
    let pos: int = 14 + b.len() as int;
    let flushed = if e.run > 0 {
        run_bytes(e.run)
    } else {
        seq![]
    };
    let op = pixel_op(e.prev, e.cache, p);
    assert(step == flushed + op);
    assert(src.subrange(pos + flushed.len() as int, pos + step.len() as int) =~= op) by {
        assert forall|t: int| 0 <= t < op.len() implies src[pos + flushed.len() + t] == op[t] by {
            assert(src.subrange(pos, pos + step.len() as int)[flushed.len() + t] == src[pos
                + flushed.len() + t]);
        }
    }
    lemma_decode_from_split(start, src, k, e.run);
    let mid = decode_from(d, src, e.run).0;
    if e.run > 0 {
        assert(src.subrange(pos, pos + flushed.len() as int) =~= flushed) by {
            assert forall|t: int| 0 <= t < flushed.len() implies src[pos + t] == flushed[t] by {
                assert(src.subrange(pos, pos + step.len() as int)[t] == src[pos + t]);
            }
        }
        lemma_decode_run(d, src, e.run);
        lemma_agree_after_refresh(e, d.cache);
    } else {
        assert(decode_from(d, src, 0).1 =~= Seq::new(0, |t: int| d.px));
    }
    assert(decode_from(d, src, e.run).1 =~= Seq::new(e.run, |t: int| d.px));
    assert(cache_agrees(e.cache, mid.cache));
    assert(mid.run == 0 && mid.px == e.prev && mid.pos == pos + flushed.len());
    lemma_decode_op(mid, src, e.cache, p);
    lemma_decode_from_split(start, src, k + e.run, 1);
    let mid2 = decode_step(mid, src);
    assert(decode_from(mid2, src, 0).1 == Seq::<Pixel>::empty());
    assert(decode_from(mid, src, 1).1 =~= seq![p]);
    assert(k + e.run + 1 == i);
    assert(out + Seq::new(e.run, |t: int| d.px) + seq![p] =~= px.subrange(0, i as int));
    let d2 = mid2.cache;
    assert forall|x: int| 0 <= x < 64 && hash_of(#[trigger] e2.cache[x]) == x implies d2[x]
        == e2.cache[x] by {
        if x != hash_of(p) {
            assert(e2.cache[x] == e.cache[x]);
        }
    }
}

proof fn lemma_decoder_follows(h: QoiHeader, px: Seq<Pixel>, i: nat)
    requires
        i <= px.len(),
    ensures
        follows(h, px, i),
    decreases i,
{
    if i == 0 {
        lemma_follows_start(h, px);
    } else {
        let j = (i - 1) as nat;
        lemma_decoder_follows(h, px, j);
        if px[j as int] == encode_prefix(px, j).0.prev {
            lemma_follows_repeat(h, px, j);
        } else {
            lemma_follows_new(h, px, j);
        }
    }
}

/// Decoding the stream made from a pixel sequence gives that sequence back.
pub proof fn lemma_pixels_round_trip(h: QoiHeader, px: Seq<Pixel>)
    ensures
        crate::decode::decode_pixels(encoded_image(h, px), px.len()) == px,
{
    lemma_decoder_follows(h, px, px.len());
    lemma_encode_prefix_len(px, px.len());
    assert(px.subrange(0, px.len() as int) =~= px);
}

} // verus!
