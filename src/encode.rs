use vstd::prelude::*;

use crate::error::QoiError;
use crate::header::{channel_count, Channels, Qoi, QoiHeader};
use crate::pixel::{empty_cache, hash_of, pixels_of, start_pixel, Pixel};

verus! {

/// The signed difference `new - old` of one channel.
pub open spec fn delta(new: u8, old: u8) -> int {
    new as int - old as int
}

/// The one-byte delta applies: alpha unchanged, each colour delta in [-2, 1].
pub open spec fn small_fits(dr: int, dg: int, db: int, da: int) -> bool {
    da == 0 && -2 <= dr <= 1 && -2 <= dg <= 1 && -2 <= db <= 1
}

/// The two-byte delta applies: alpha unchanged, red in [-16, 15], green and
/// blue in [-8, 7].
pub open spec fn medium_fits(dr: int, dg: int, db: int, da: int) -> bool {
    da == 0 && -16 <= dr <= 15 && -8 <= dg <= 7 && -8 <= db <= 7
}

/// The three-byte delta applies: all four deltas in [-16, 15].
pub open spec fn large_fits(dr: int, dg: int, db: int, da: int) -> bool {
    -16 <= dr <= 15 && -16 <= dg <= 15 && -16 <= db <= 15 && -16 <= da <= 15
}

/// Tag `10`, then the three deltas biased by 2, two bits each.
pub open spec fn small_bytes(dr: int, dg: int, db: int) -> Seq<u8> {
    seq![(0x80 + (dr + 2) * 16 + (dg + 2) * 4 + (db + 2)) as u8]
}

/// Tag `110` and red biased by 16; then green and blue biased by 8, a nibble
/// each.
pub open spec fn medium_bytes(dr: int, dg: int, db: int) -> Seq<u8> {
    seq![(0xc0 + dr + 16) as u8, ((dg + 8) * 16 + db + 8) as u8]
}

/// Tag `1110`, then the four deltas biased by 16, five bits each, packed
/// across three bytes.
pub open spec fn large_bytes(dr: int, dg: int, db: int, da: int) -> Seq<u8> {
    seq![
        (0xe0 + (dr + 16) / 2) as u8,
        ((dr + 16) % 2 * 128 + (dg + 16) * 4 + (db + 16) / 8) as u8,
        ((db + 16) % 8 * 32 + da + 16) as u8,
    ]
}

/// One byte when `b` holds, none otherwise.
pub open spec fn byte_if(b: bool, v: u8) -> Seq<u8> {
    if b {
        seq![v]
    } else {
        seq![]
    }
}

/// `v` when `b` holds, 0 otherwise.
pub open spec fn flag(b: bool, v: int) -> int {
    if b {
        v
    } else {
        0
    }
}

/// Tag `1111` with one flag per channel that changed, then the new value of
/// each changed channel in R, G, B, A order.
pub open spec fn colour_bytes(p: Pixel, prev: Pixel) -> Seq<u8> {
    seq![
        (0xf0 + flag(p.r != prev.r, 8) + flag(p.g != prev.g, 4) + flag(p.b != prev.b, 2)
            + flag(p.a != prev.a, 1)) as u8,
    ] + byte_if(p.r != prev.r, p.r) + byte_if(p.g != prev.g, p.g) + byte_if(p.b != prev.b, p.b)
        + byte_if(p.a != prev.a, p.a)
}

/// The operation that stores `p` after `prev`: the cache slot when the cache
/// already holds `p` there, otherwise the cheapest delta that applies, and a
/// literal colour when none does.
pub open spec fn pixel_op(prev: Pixel, cache: Seq<Pixel>, p: Pixel) -> Seq<u8> {
    let h = hash_of(p);
    let dr = delta(p.r, prev.r);
    let dg = delta(p.g, prev.g);
    let db = delta(p.b, prev.b);
    let da = delta(p.a, prev.a);
    if cache[h] == p {
        seq![h as u8]
    } else if small_fits(dr, dg, db, da) {
        small_bytes(dr, dg, db)
    } else if medium_fits(dr, dg, db, da) {
        medium_bytes(dr, dg, db)
    } else if large_fits(dr, dg, db, da) {
        large_bytes(dr, dg, db, da)
    } else {
        colour_bytes(p, prev)
    }
}

/// The operation for a run of `len` repeats of the previous pixel: one byte
/// with tag `010` up to 32, else two bytes with tag `011` and 13 bits.
pub open spec fn run_bytes(len: nat) -> Seq<u8> {
    if len <= 32 {
        seq![(0x40 + len - 1) as u8]
    } else {
        seq![(0x60 + (len - 33) / 256) as u8, ((len - 33) % 256) as u8]
    }
}

/// What the encoder carries from one pixel to the next.
pub struct EncoderModel {
    pub prev: Pixel,
    pub run: nat,
    pub cache: Seq<Pixel>,
}

pub open spec fn encoder_start() -> EncoderModel {
    EncoderModel { prev: start_pixel(), run: 0, cache: empty_cache() }
}

/// One pixel of the encoder: the next state and the bytes written.
/// A repeat of the previous pixel extends the run, which is written when it
/// reaches its cap or the image ends; any other pixel first writes the pending
/// run, then its own operation, and takes its slot in the cache.
pub open spec fn encode_step(s: EncoderModel, p: Pixel, last: bool) -> (EncoderModel, Seq<u8>) {
    if p == s.prev {
        let run = s.run + 1;
        if run == Qoi::MAX_RUN || last {
            (EncoderModel { run: 0, ..s }, run_bytes(run))
        } else {
            (EncoderModel { run, ..s }, seq![])
        }
    } else {
        let flushed = if s.run > 0 {
            run_bytes(s.run)
        } else {
            seq![]
        };
        (
            EncoderModel { prev: p, run: 0, cache: s.cache.update(hash_of(p), p) },
            flushed + pixel_op(s.prev, s.cache, p),
        )
    }
}

/// The encoder after the first `k` pixels of `px`, with the bytes written.
pub open spec fn encode_prefix(px: Seq<Pixel>, k: nat) -> (EncoderModel, Seq<u8>)
    decreases k,
{
    if k == 0 {
        (encoder_start(), seq![])
    } else {
        let (s, out) = encode_prefix(px, (k - 1) as nat);
        let (s2, b) = encode_step(s, px[k - 1], k == px.len());
        (s2, out + b)
    }
}

/// The operation stream for a pixel sequence.
pub open spec fn encode_ops(px: Seq<Pixel>) -> Seq<u8> {
    encode_prefix(px, px.len()).1
}

/// The four zero bytes that end every stream.
pub open spec fn footer() -> Seq<u8> {
    seq![0u8, 0u8, 0u8, 0u8]
}

/// The whole stream for an image: header, operations, footer.
pub open spec fn encoded_image(h: QoiHeader, px: Seq<Pixel>) -> Seq<u8> {
    h.bytes() + encode_ops(px) + footer()
}

/// What encoding `src` as a `width` by `height` image gives: the stream, or
/// `InputSize` when `src` is shorter than the image.
pub open spec fn encode_spec(src: Seq<u8>, width: u32, height: u32, channels: Channels, colour_space: u8) -> Result<
    Seq<u8>,
    QoiError,
> {
    let h = QoiHeader { width, height, channels, colour_space };
    if src.len() < h.raw_len(channels) {
        Err(QoiError::InputSize)
    } else {
        Ok(encoded_image(h, pixels_of(src, channels, h.pixel_count())))
    }
}

/// `new` holds what `old` held from `from` on.
pub open spec fn tail_kept(new: Seq<u8>, old: Seq<u8>, from: int) -> bool {
    forall|j: int| from <= j < old.len() ==> #[trigger] new[j] == old[j]
}

/// Copies the first `len` bytes of `bytes` to `dest` at `pos`, or fails when
/// they do not fit.
fn emit(dest: &mut [u8], pos: usize, bytes: &[u8], len: usize) -> (r: Result<usize, QoiError>)
    requires
        len <= bytes@.len(),
    ensures
        final(dest)@.len() == old(dest)@.len(),
        match r {
            Ok(end) => {
                &&& end == pos + len
                &&& end <= old(dest)@.len()
                &&& tail_kept(final(dest)@, old(dest)@, end as int)
                &&& final(dest)@.subrange(0, end as int) == old(dest)@.subrange(0, pos as int)
                    + bytes@.subrange(0, len as int)
            },
            Err(e) => e == QoiError::OutputTooSmall && pos + len > old(dest)@.len(),
        },
{
    if len > dest.len() || pos > dest.len() - len {
        return Err(QoiError::OutputTooSmall);
    }
    let mut k: usize = 0;
    while k < len
        invariant
            k <= len,
            len <= bytes@.len(),
            pos + len <= dest.len(),
            dest@.len() == old(dest)@.len(),
            tail_kept(dest@, old(dest)@, pos + k),
            dest@.subrange(0, pos + k) == old(dest)@.subrange(0, pos as int) + bytes@.subrange(
                0,
                k as int,
            ),
        decreases len - k,
    {
        let ghost before = dest@;
        dest[pos + k] = bytes[k];
        assert(dest@ == before.update(pos + k, bytes@[k as int]));
        assert(dest@.subrange(0, pos + k + 1) =~= before.subrange(0, pos + k).push(bytes@[k as int]));
        assert(bytes@.subrange(0, k + 1) =~= bytes@.subrange(0, k as int).push(bytes@[k as int]));
        k += 1;
    }
    Ok(pos + len)
}

fn is_between(x: i16, low: i16, high: i16) -> (r: bool)
    ensures
        r == (low <= x <= high),
{
    x >= low && x <= high
}

/// Writes the operation for a run of `run` repeats.
fn write_run(dest: &mut [u8], pos: usize, run: u16) -> (r: Result<usize, QoiError>)
    requires
        1 <= run <= Qoi::MAX_RUN,
    ensures
        final(dest)@.len() == old(dest)@.len(),
        match r {
            Ok(end) => {
                &&& end == pos + run_bytes(run as nat).len()
                &&& end <= old(dest)@.len()
                &&& tail_kept(final(dest)@, old(dest)@, end as int)
                &&& final(dest)@.subrange(0, end as int) == old(dest)@.subrange(0, pos as int)
                    + run_bytes(run as nat)
            },
            Err(e) => e == QoiError::OutputTooSmall && pos + run_bytes(run as nat).len()
                > old(dest)@.len(),
        },
{
    if run < 33 {
        let x = (run - 1) as u8;
        let op = [Qoi::RUN_8 | x];
        proof {
            assert(0x40u8 | x == 0x40 + x) by (bit_vector)
                requires x < 32;
            assert(op@ =~= run_bytes(run as nat));
        }
        emit(dest, pos, &op, 1)
    } else {
        let x = run - 33;
        let op = [Qoi::RUN_16 | ((x >> 8u16) as u8), x as u8];
        proof {
            assert(0x60u8 | ((x >> 8u16) as u8) == 0x60 + x / 256 && (x as u8) == x % 256)
                by (bit_vector)
                requires x < 0x2000;
            assert(op@ =~= run_bytes(run as nat));
        }
        emit(dest, pos, &op, 2)
    }
}

fn can_diff_8(dr: i16, dg: i16, db: i16, da: i16) -> (r: bool)
    ensures
        r == small_fits(dr as int, dg as int, db as int, da as int),
{
    da == 0 && is_between(dr, -2, 1) && is_between(dg, -2, 1) && is_between(db, -2, 1)
}

fn diff_8(dr: i16, dg: i16, db: i16) -> (b: u8)
    requires
        small_fits(dr as int, dg as int, db as int, 0),
    ensures
        seq![b] == small_bytes(dr as int, dg as int, db as int),
{
    let x = (dr + 2) as u8;
    let y = (dg + 2) as u8;
    let z = (db + 2) as u8;
    let b = Qoi::DIFF_8 | (x << 4u8) | (y << 2u8) | z;
    assert(b == 0x80 + x * 16 + y * 4 + z) by (bit_vector)
        requires
            x < 4,
            y < 4,
            z < 4,
            b == 0x80u8 | (x << 4u8) | (y << 2u8) | z,
    ;
    b
}

fn can_diff_16(dr: i16, dg: i16, db: i16, da: i16) -> (r: bool)
    ensures
        r == medium_fits(dr as int, dg as int, db as int, da as int),
{
    da == 0 && is_between(dr, -16, 15) && is_between(dg, -8, 7) && is_between(db, -8, 7)
}

fn diff_16(dr: i16, dg: i16, db: i16, dest: &mut [u8], pos: usize) -> (r: Result<usize, QoiError>)
    requires
        medium_fits(dr as int, dg as int, db as int, 0),
    ensures
        final(dest)@.len() == old(dest)@.len(),
        match r {
            Ok(end) => {
                &&& end == pos + 2
                &&& end <= old(dest)@.len()
                &&& tail_kept(final(dest)@, old(dest)@, end as int)
                &&& final(dest)@.subrange(0, end as int) == old(dest)@.subrange(0, pos as int)
                    + medium_bytes(dr as int, dg as int, db as int)
            },
            Err(e) => e == QoiError::OutputTooSmall && pos + 2 > old(dest)@.len(),
        },
{
    let x = (dr + 16) as u8;
    let y = (dg + 8) as u8;
    let z = (db + 8) as u8;
    let op = [Qoi::DIFF_16 | x, (y << 4u8) | z];
    proof {
        assert(0xc0u8 | x == 0xc0 + x && (y << 4u8) | z == y * 16 + z) by (bit_vector)
            requires
                x < 32,
                y < 16,
                z < 16,
        ;
        assert(op@ =~= medium_bytes(dr as int, dg as int, db as int));
    }
    emit(dest, pos, &op, 2)
}

fn can_diff_24(dr: i16, dg: i16, db: i16, da: i16) -> (r: bool)
    ensures
        r == large_fits(dr as int, dg as int, db as int, da as int),
{
    is_between(dr, -16, 15) && is_between(dg, -16, 15) && is_between(db, -16, 15) && is_between(
        da,
        -16,
        15,
    )
}

fn diff_24(dr: i16, dg: i16, db: i16, da: i16, dest: &mut [u8], pos: usize) -> (r: Result<
    usize,
    QoiError,
>)
    requires
        large_fits(dr as int, dg as int, db as int, da as int),
    ensures
        final(dest)@.len() == old(dest)@.len(),
        match r {
            Ok(end) => {
                &&& end == pos + 3
                &&& end <= old(dest)@.len()
                &&& tail_kept(final(dest)@, old(dest)@, end as int)
                &&& final(dest)@.subrange(0, end as int) == old(dest)@.subrange(0, pos as int)
                    + large_bytes(dr as int, dg as int, db as int, da as int)
            },
            Err(e) => e == QoiError::OutputTooSmall && pos + 3 > old(dest)@.len(),
        },
{
    let r = (dr + 16) as u8;
    let g = (dg + 16) as u8;
    let b = (db + 16) as u8;
    let a = (da + 16) as u8;
    let op = [Qoi::DIFF_24 | (r >> 1u8), (r << 7u8) | (g << 2u8) | (b >> 3u8), (b << 5u8) | a];
    proof {
        assert(0xe0u8 | (r >> 1u8) == 0xe0 + r / 2 && (r << 7u8) | (g << 2u8) | (b >> 3u8) == r
            % 2 * 128 + g * 4 + b / 8 && (b << 5u8) | a == b % 8 * 32 + a) by (bit_vector)
            requires
                r < 32,
                g < 32,
                b < 32,
                a < 32,
        ;
        assert(op@ =~= large_bytes(dr as int, dg as int, db as int, da as int));
    }
    emit(dest, pos, &op, 3)
}

/// Writes the literal-colour operation for `p` after `prev`.
fn write_colour(p: Pixel, prev: Pixel, dest: &mut [u8], pos: usize) -> (r: Result<usize, QoiError>)
    ensures
        final(dest)@.len() == old(dest)@.len(),
        match r {
            Ok(end) => {
                &&& end == pos + colour_bytes(p, prev).len()
                &&& end <= old(dest)@.len()
                &&& tail_kept(final(dest)@, old(dest)@, end as int)
                &&& final(dest)@.subrange(0, end as int) == old(dest)@.subrange(0, pos as int)
                    + colour_bytes(p, prev)
            },
            Err(e) => e == QoiError::OutputTooSmall && pos + colour_bytes(p, prev).len()
                > old(dest)@.len(),
        },
{
    let mut op = [0u8; 5];
    let mut command = Qoi::COLOR;
    let mut len: usize = 1;
    if p.r != prev.r {
        assert(command | 8 == command + 8) by (bit_vector)
            requires
                command == 0xf0,
        ;
        command = command | 8;
        op[len] = p.r;
        len += 1;
    }
    if p.g != prev.g {
        assert(command | 4 == command + 4) by (bit_vector)
            requires
                command == 0xf0 || command == 0xf8,
        ;
        command = command | 4;
        op[len] = p.g;
        len += 1;
    }
    if p.b != prev.b {
        assert(command | 2 == command + 2) by (bit_vector)
            requires
                command == 0xf0 || command == 0xf4 || command == 0xf8 || command == 0xfc,
        ;
        command = command | 2;
        op[len] = p.b;
        len += 1;
    }
    if p.a != prev.a {
        assert(command | 1 == command + 1) by (bit_vector)
            requires
                0xf0 <= command,
                command % 2 == 0,
        ;
        command = command | 1;
        op[len] = p.a;
        len += 1;
    }
    op[0] = command;
    assert(op@.subrange(0, len as int) =~= colour_bytes(p, prev));
    emit(dest, pos, &op, len)
}

/// Writes the operation for a pixel `p` that differs from `prev`, and stores
/// `p` in its cache slot.
fn write_pixel_op(prev: Pixel, cache: &mut [Pixel; 64], p: Pixel, dest: &mut [u8], pos: usize) -> (r:
    Result<usize, QoiError>)
    ensures
        final(cache)@ == old(cache)@.update(hash_of(p), p),
        final(dest)@.len() == old(dest)@.len(),
        match r {
            Ok(end) => {
                &&& end == pos + pixel_op(prev, old(cache)@, p).len()
                &&& end <= old(dest)@.len()
                &&& tail_kept(final(dest)@, old(dest)@, end as int)
                &&& final(dest)@.subrange(0, end as int) == old(dest)@.subrange(0, pos as int)
                    + pixel_op(prev, old(cache)@, p)
            },
            Err(e) => e == QoiError::OutputTooSmall && pos + pixel_op(prev, old(cache)@, p).len()
                > old(dest)@.len(),
        },
{
    let cache_index = p.cache_index();
    if p == cache[cache_index] {
        assert(old(cache)@.update(hash_of(p), p) =~= old(cache)@);
        let x = cache_index as u8;
        let op = [Qoi::INDEX | x];
        assert(0u8 | x == x) by (bit_vector);
        assert(op@ =~= pixel_op(prev, old(cache)@, p));
        emit(dest, pos, &op, 1)
    } else {
        cache[cache_index] = p;
        let dr = p.r as i16 - prev.r as i16;
        let dg = p.g as i16 - prev.g as i16;
        let db = p.b as i16 - prev.b as i16;
        let da = p.a as i16 - prev.a as i16;
        if can_diff_8(dr, dg, db, da) {
            let op = [diff_8(dr, dg, db)];
            assert(op@ =~= pixel_op(prev, old(cache)@, p));
            emit(dest, pos, &op, 1)
        } else if can_diff_16(dr, dg, db, da) {
            diff_16(dr, dg, db, dest, pos)
        } else if can_diff_24(dr, dg, db, da) {
            diff_24(dr, dg, db, da, dest, pos)
        } else {
            write_colour(p, prev, dest, pos)
        }
    }
}

/// The encoder's state between pixels: the previous pixel, the length of the
/// pending run and the colour cache.
struct EncodeState {
    previous: Pixel,
    run: u16,
    cache: [Pixel; 64],
}

impl EncodeState {
    spec fn model(&self) -> EncoderModel {
        EncoderModel { prev: self.previous, run: self.run as nat, cache: self.cache@ }
    }

    spec fn wf(&self) -> bool {
        self.run < Qoi::MAX_RUN
    }

    fn new() -> (s: EncodeState)
        ensures
            s.model() == encoder_start(),
            s.wf(),
    {
        let zero = Pixel::default();
        let cache: [Pixel; 64] = vstd::array::array_fill_for_copy_types(zero);
        assert(cache@ =~= empty_cache());
        let s = EncodeState { previous: Pixel::new(0, 0, 0, 255), run: 0, cache };
        s
    }

    /// Encodes one pixel; `last` tells whether it ends the image.
    fn push(&mut self, p: Pixel, last: bool, dest: &mut [u8], pos: usize) -> (r: Result<
        usize,
        QoiError,
    >)
        requires
            old(self).wf(),
            pos <= old(dest)@.len(),
        ensures
            final(dest)@.len() == old(dest)@.len(),
            ({
                let (next, bytes) = encode_step(old(self).model(), p, last);
                match r {
                    Ok(end) => {
                        &&& end == pos + bytes.len()
                        &&& end <= old(dest)@.len()
                        &&& tail_kept(final(dest)@, old(dest)@, end as int)
                        &&& final(dest)@.subrange(0, end as int) == old(dest)@.subrange(
                            0,
                            pos as int,
                        ) + bytes
                        &&& final(self).model() == next
                        &&& final(self).wf()
                    },
                    Err(e) => e == QoiError::OutputTooSmall && pos + bytes.len() > old(
                        dest,
                    )@.len(),
                }
            }),
    {
        if p == self.previous {
            self.run = self.run + 1;
            if self.run == Qoi::MAX_RUN || last {
                let r = write_run(dest, pos, self.run);
                self.run = 0;
                r
            } else {
                Ok(pos)
            }
        } else {
            let ghost flushed = if self.run > 0 {
                run_bytes(self.run as nat)
            } else {
                seq![]
            };
            let mut at = pos;
            if self.run > 0 {
                at = match write_run(dest, pos, self.run) {
                    Ok(end) => end,
                    Err(e) => {
                        return Err(e);
                    },
                };
                self.run = 0;
            }
            assert(dest@.subrange(0, at as int) =~= old(dest)@.subrange(0, pos as int) + flushed);
            let r = write_pixel_op(self.previous, &mut self.cache, p, dest, at);
            assert(r.is_ok() ==> old(dest)@.subrange(0, pos as int) + flushed + pixel_op(
                old(self).previous,
                old(self).cache@,
                p,
            ) =~= old(dest)@.subrange(0, pos as int) + (flushed + pixel_op(
                old(self).previous,
                old(self).cache@,
                p,
            )));
            self.previous = p;
            r
        }
    }
}

/// The bytes written for the first `i` pixels start the bytes written for the
/// first `j`.
pub proof fn lemma_encode_prefix_extends(px: Seq<Pixel>, i: nat, j: nat)
    requires
        i <= j <= px.len(),
    ensures
        encode_prefix(px, i).1.len() <= encode_prefix(px, j).1.len(),
        encode_prefix(px, j).1.subrange(0, encode_prefix(px, i).1.len() as int) == encode_prefix(
            px,
            i,
        ).1,
    decreases j - i,
{
    let a = encode_prefix(px, i).1;
    if i < j {
        lemma_encode_prefix_extends(px, i, (j - 1) as nat);
        let b = encode_prefix(px, (j - 1) as nat).1;
        let c = encode_prefix(px, j).1;
        assert(c.subrange(0, a.len() as int) =~= b.subrange(0, a.len() as int));
    } else {
        assert(a.subrange(0, a.len() as int) =~= a);
    }
}

/// One pixel operation takes one to five bytes, and at most four when alpha
/// stays the same.
pub proof fn lemma_pixel_op_len(prev: Pixel, cache: Seq<Pixel>, p: Pixel)
    ensures
        1 <= pixel_op(prev, cache, p).len() <= 5,
        p.a == prev.a ==> pixel_op(prev, cache, p).len() <= 4,
{
}

/// When every pixel is opaque, as in a three-channel image, every pixel costs
/// at most four bytes.
pub proof fn lemma_encode_prefix_len_opaque(px: Seq<Pixel>, k: nat)
    requires
        k <= px.len(),
        forall|j: int| 0 <= j < px.len() ==> #[trigger] px[j].a == 255,
    ensures
        encode_prefix(px, k).0.prev.a == 255,
        encode_prefix(px, k).1.len() + 4 * encode_prefix(px, k).0.run <= 4 * k,
    decreases k,
{
    lemma_encode_prefix_len(px, k);
    if k > 0 {
        lemma_encode_prefix_len_opaque(px, (k - 1) as nat);
        lemma_encode_prefix_len(px, (k - 1) as nat);
        let s = encode_prefix(px, (k - 1) as nat).0;
        assert(px[k - 1].a == 255);
        lemma_pixel_op_len(s.prev, s.cache, px[k - 1]);
    }
}

/// Every pixel costs at most five bytes, a pending run costing nothing yet.
pub proof fn lemma_encode_prefix_len(px: Seq<Pixel>, k: nat)
    requires
        k <= px.len(),
    ensures
        encode_prefix(px, k).0.run <= k,
        encode_prefix(px, k).1.len() + 5 * encode_prefix(px, k).0.run <= 5 * k,
        encode_prefix(px, k).0.run < Qoi::MAX_RUN,
        encode_prefix(px, k).0.cache.len() == 64,
        k == px.len() ==> encode_prefix(px, k).0.run == 0,
    decreases k,
{
    if k > 0 {
        lemma_encode_prefix_len(px, (k - 1) as nat);
        let s = encode_prefix(px, (k - 1) as nat).0;
        lemma_pixel_op_len(s.prev, s.cache, px[k - 1]);
    }
}

/// Encodes raw images into streams.
pub trait QoiEncode {
    /// Encodes the image into `dest` and returns the number of bytes written.
    fn qoi_encode(
        &self,
        width: u32,
        height: u32,
        channels: Channels,
        colour_space: u8,
        dest: &mut [u8],
    ) -> Result<usize, QoiError>;

    /// Encodes the image into a new vector.
    fn qoi_encode_to_vec(&self, width: u32, height: u32, channels: Channels, colour_space: u8) -> Result<
        Vec<u8>,
        QoiError,
    >;
}

/// What the allocating encoder gives: `TooBig` when the raw image with header
/// and footer would pass the size ceiling, else what `encode_spec` gives.
pub open spec fn encode_to_vec_spec(src: Seq<u8>, width: u32, height: u32, channels: Channels, colour_space: u8) -> Result<
    Seq<u8>,
    QoiError,
> {
    if width * height * channel_count(channels) + 18 > Qoi::MAX_SIZE {
        Err(QoiError::TooBig)
    } else {
        encode_spec(src, width, height, channels, colour_space)
    }
}

/// What encoding into a buffer of `capacity` bytes returns: the length of the
/// stream, or why there is none.
pub open spec fn encode_into_spec(
    src: Seq<u8>,
    width: u32,
    height: u32,
    channels: Channels,
    colour_space: u8,
    capacity: nat,
) -> Result<usize, QoiError> {
    match encode_spec(src, width, height, channels, colour_space) {
        Err(e) => Err(e),
        Ok(out) => if out.len() > capacity {
            Err(QoiError::OutputTooSmall)
        } else {
            Ok(out.len() as usize)
        },
    }
}

impl QoiEncode for [u8] {
    fn qoi_encode(
        &self,
        width: u32,
        height: u32,
        channels: Channels,
        colour_space: u8,
        dest: &mut [u8],
    ) -> (r: Result<usize, QoiError>)
        ensures
            final(dest)@.len() == old(dest)@.len(),
            r == encode_into_spec(self@, width, height, channels, colour_space, old(dest)@.len()),
            r.is_ok() ==> final(dest)@.subrange(0, r.unwrap() as int) == encode_spec(
                self@,
                width,
                height,
                channels,
                colour_space,
            ).unwrap(),
            r.is_ok() ==> final(dest)@.subrange(r.unwrap() as int, old(dest)@.len() as int) == old(
                dest,
            )@.subrange(r.unwrap() as int, old(dest)@.len() as int),
    {
        let src = self;
        let src_len = src.len();
        let header = QoiHeader::new(width, height, channels, colour_space);
        let c = channels.len() as usize;
        let n = match (width as usize).checked_mul(height as usize) {
            Some(n) => n,
            None => {
                assert(header.raw_len(channels) >= header.pixel_count()) by (nonlinear_arith)
                    requires
                        header.raw_len(channels) == header.pixel_count() * channel_count(channels),
                        channel_count(channels) >= 3,
                ;
                return Err(QoiError::InputSize);
            },
        };
        assert(n == header.pixel_count());
        let raw = match n.checked_mul(c) {
            Some(raw) => raw,
            None => {
                assert(header.raw_len(channels) > usize::MAX);
                return Err(QoiError::InputSize);
            },
        };
        assert(raw == header.raw_len(channels));
        if src.len() < raw {
            return Err(QoiError::InputSize);
        }
        let ghost px = pixels_of(src@, channels, n as nat);
        let ghost out = encoded_image(header, px);
        assert(header == QoiHeader { width, height, channels, colour_space });
        assert(encode_spec(self@, width, height, channels, colour_space) == Ok::<Seq<u8>, QoiError>(out));
        proof {
            lemma_encode_prefix_extends(px, 0, n as nat);
            lemma_encode_prefix_len(px, n as nat);
        }
        let head = header.to_array();
        let mut pos = match emit(dest, 0, &head, 14) {
            Ok(end) => end,
            Err(e) => {
                return Err(e);
            },
        };
        assert(dest@.subrange(0, pos as int) =~= header.bytes() + encode_prefix(px, 0).1);
        let mut state = EncodeState::new();
        let mut i: usize = 0;
        let mut o: usize = 0;
        while i < n
            invariant
                i <= n,
                o == i * c,
                raw == n * c,
                raw <= src@.len(),
                c == channel_count(channels),
                px == pixels_of(src@, channels, n as nat),
                out == encoded_image(header, px),
                encode_spec(self@, width, height, channels, colour_space) == Ok::<Seq<u8>, QoiError>(out),
                header.bytes().len() == 14,
                state.wf(),
                state.model() == encode_prefix(px, i as nat).0,
                pos == 14 + encode_prefix(px, i as nat).1.len(),
                pos <= dest@.len(),
                dest@.len() == old(dest)@.len(),
                dest@.subrange(0, pos as int) == header.bytes() + encode_prefix(px, i as nat).1,
                tail_kept(dest@, old(dest)@, pos as int),
            decreases n - i,
        {
            assert(i * c + c <= n * c) by (nonlinear_arith)
                requires
                    i < n,
            ;
            let a = if c == 4 {
                src[o + 3]
            } else {
                255
            };
            let p = Pixel::new(src[o], src[o + 1], src[o + 2], a);
            assert(p == px[i as int]);
            let ghost prefix = encode_prefix(px, i as nat).1;
            assert(encode_prefix(px, (i + 1) as nat).1 == prefix + encode_step(
                encode_prefix(px, i as nat).0,
                p,
                i + 1 == n,
            ).1);
            let r = state.push(p, i + 1 == n, dest, pos);
            proof {
                lemma_encode_prefix_extends(px, (i + 1) as nat, n as nat);
            }
            pos = match r {
                Ok(end) => end,
                Err(e) => {
                    return Err(e);
                },
            };
            assert(header.bytes() + prefix + encode_step(encode_prefix(px, i as nat).0, p, i + 1 == n).1
                =~= header.bytes() + encode_prefix(px, (i + 1) as nat).1);
            i += 1;
            o += c;
        }
        let zeros = [0u8; 4];
        let end = match emit(dest, pos, &zeros, 4) {
            Ok(end) => end,
            Err(e) => {
                return Err(e);
            },
        };
        assert(header.bytes() + encode_ops(px) + zeros@.subrange(0, 4) =~= out);
        assert(dest@.subrange(end as int, dest@.len() as int) =~= old(dest)@.subrange(
            end as int,
            old(dest)@.len() as int,
        ));
        Ok(end)
    }

    fn qoi_encode_to_vec(&self, width: u32, height: u32, channels: Channels, colour_space: u8) -> (r:
        Result<Vec<u8>, QoiError>)
        ensures
            match encode_to_vec_spec(self@, width, height, channels, colour_space) {
                Err(e) => r == Err::<Vec<u8>, QoiError>(e),
                Ok(out) => r.is_ok() && r.unwrap()@ == out,
            },
    {
        let header = QoiHeader::new(width, height, channels, colour_space);
        let size = header.raw_image_size(channels).saturating_add(Qoi::HEADER_SIZE).saturating_add(
            Qoi::PADDING_SIZE,
        );
        if size > Qoi::MAX_SIZE {
            return Err(QoiError::TooBig);
        }
        proof {
            let count = header.pixel_count();
            assert(count * channel_count(channels) >= count) by (nonlinear_arith)
                requires
                    channel_count(channels) >= 3,
            ;
            assert(header.raw_len(channels) + 18 <= Qoi::MAX_SIZE);
            assert(count * 5 <= 2 * Qoi::MAX_SIZE) by (nonlinear_arith)
                requires
                    count * channel_count(channels) <= Qoi::MAX_SIZE,
                    channel_count(channels) >= 3,
            ;
        }
        let n = width as usize * height as usize;
        // Room for the worst case: one byte per pixel more than its channels.
        let per_pixel = channels.len() as usize + 1;
        assert(n * per_pixel <= n * 5) by (nonlinear_arith)
            requires
                per_pixel <= 5,
        ;
        let capacity = n * per_pixel + Qoi::HEADER_SIZE + Qoi::PADDING_SIZE;
        let mut dest = vec![0u8; capacity];
        proof {
            if self@.len() >= header.raw_len(channels) {
                let px = pixels_of(self@, channels, n as nat);
                lemma_encode_prefix_len(px, n as nat);
                if channels == Channels::Three {
                    lemma_encode_prefix_len_opaque(px, n as nat);
                    assert(n * per_pixel == 4 * n);
                } else {
                    assert(n * per_pixel == 5 * n);
                }
            }
        }
        match self.qoi_encode(width, height, channels, colour_space, dest.as_mut_slice()) {
            Ok(len) => {
                dest.truncate(len);
                Ok(dest)
            },
            Err(e) => Err(e),
        }
    }
}

} // verus!
