use vstd::prelude::*;

use crate::error::QoiError;
use crate::header::{channel_count, parse_header, Channels, Qoi, QoiHeader};
use crate::pixel::{
    empty_cache, hash_of, lemma_raw_of_len, lemma_raw_of_push, pixel_bytes, raw_of, start_pixel,
    wrap_add, Pixel,
};

verus! {

/// What the decoder carries from one output pixel to the next: the current
/// pixel, the repeats still owed by a run, the colour cache and the read
/// position in the stream.
pub struct DecoderModel {
    pub px: Pixel,
    pub run: nat,
    pub cache: Seq<Pixel>,
    pub pos: int,
}

/// The decoder before the first pixel: reading starts right after the header.
pub open spec fn decoder_start() -> DecoderModel {
    DecoderModel { px: start_pixel(), run: 0, cache: empty_cache(), pos: 14 }
}

/// The byte `k` places after the operation's tag.
pub open spec fn op_byte(s: DecoderModel, src: Seq<u8>, k: int) -> u8 {
    src[s.pos + k]
}

/// One if the flag is set in `tag`.
pub open spec fn has(tag: u8, bit: u8) -> int {
    if tag & bit != 0 {
        1
    } else {
        0
    }
}

/// The operation that starts at `s.pos`, applied: the new pixel, the repeats
/// it owes after this one, and how many bytes it takes. The tag is matched on
/// its top two bits first, then three, then four.
pub open spec fn apply_op(s: DecoderModel, src: Seq<u8>) -> (Pixel, nat, int) {
    let b1 = src[s.pos];
    let p = s.px;
    if b1 & Qoi::MASK_2 == Qoi::INDEX {
        (s.cache[b1 as int], 0, 1)
    } else if b1 & Qoi::MASK_3 == Qoi::RUN_8 {
        (p, (b1 & 0x1f) as nat, 1)
    } else if b1 & Qoi::MASK_3 == Qoi::RUN_16 {
        (p, (((b1 & 0x1f) as nat) * 256 + op_byte(s, src, 1) + 32) as nat, 2)
    } else if b1 & Qoi::MASK_2 == Qoi::DIFF_8 {
        (
            Pixel {
                r: wrap_add(p.r, ((b1 >> 4u8) & 3) - 2),
                g: wrap_add(p.g, ((b1 >> 2u8) & 3) - 2),
                b: wrap_add(p.b, (b1 & 3) - 2),
                a: p.a,
            },
            0,
            1,
        )
    } else if b1 & Qoi::MASK_3 == Qoi::DIFF_16 {
        let b2 = op_byte(s, src, 1);
        (
            Pixel {
                r: wrap_add(p.r, (b1 & 0x1f) - 16),
                g: wrap_add(p.g, (b2 >> 4u8) - 8),
                b: wrap_add(p.b, (b2 & 0x0f) - 8),
                a: p.a,
            },
            0,
            2,
        )
    } else if b1 & Qoi::MASK_4 == Qoi::DIFF_24 {
        let b2 = op_byte(s, src, 1);
        let b3 = op_byte(s, src, 2);
        (
            Pixel {
                r: wrap_add(p.r, (((b1 & 0x0f) << 1u8) | (b2 >> 7u8)) - 16),
                g: wrap_add(p.g, ((b2 & 0x7c) >> 2u8) - 16),
                b: wrap_add(p.b, (((b2 & 0x03) << 3u8) | ((b3 & 0xe0) >> 5u8)) - 16),
                a: wrap_add(p.a, (b3 & 0x1f) - 16),
            },
            0,
            3,
        )
    } else {
        // The tag is `1111`: a literal colour.
        let nr = has(b1, 8);
        let ng = has(b1, 4);
        let nb = has(b1, 2);
        let na = has(b1, 1);
        (
            Pixel {
                r: if nr == 1 {
                    op_byte(s, src, 1)
                } else {
                    p.r
                },
                g: if ng == 1 {
                    op_byte(s, src, 1 + nr)
                } else {
                    p.g
                },
                b: if nb == 1 {
                    op_byte(s, src, 1 + nr + ng)
                } else {
                    p.b
                },
                a: if na == 1 {
                    op_byte(s, src, 1 + nr + ng + nb)
                } else {
                    p.a
                },
            },
            0,
            1 + nr + ng + nb + na,
        )
    }
}

/// The decoder after one more output pixel. A pending run repeats the pixel;
/// otherwise the next operation is read while any remain before the footer,
/// and the resulting pixel takes its cache slot; once they are used up the
/// last pixel repeats.
pub open spec fn decode_step(s: DecoderModel, src: Seq<u8>) -> DecoderModel {
    if s.run > 0 {
        DecoderModel { run: (s.run - 1) as nat, ..s }
    } else if s.pos < src.len() - 4 {
        let (p, run, used) = apply_op(s, src);
        DecoderModel { px: p, run, cache: s.cache.update(hash_of(p), p), pos: s.pos + used }
    } else {
        s
    }
}

/// `m` output pixels from state `s`: the state after them, and the pixels.
pub open spec fn decode_from(s: DecoderModel, src: Seq<u8>, m: nat) -> (DecoderModel, Seq<Pixel>)
    decreases m,
{
    if m == 0 {
        (s, seq![])
    } else {
        let s1 = decode_step(s, src);
        let (s2, out) = decode_from(s1, src, (m - 1) as nat);
        (s2, seq![s1.px] + out)
    }
}

/// The first `n` pixels a stream decodes to.
pub open spec fn decode_pixels(src: Seq<u8>, n: nat) -> Seq<Pixel> {
    decode_from(decoder_start(), src, n).1
}

/// The channel count of the output: the one asked for, else the stored one.
pub open spec fn output_channels(h: QoiHeader, channels: Option<Channels>) -> Channels {
    match channels {
        Some(c) => c,
        None => h.channels,
    }
}

/// The raw image a stream decodes to, with `channels` per pixel if given.
/// A stream with no room for its four-byte footer is `InputSize`.
pub open spec fn decode_spec(src: Seq<u8>, channels: Option<Channels>) -> Result<Seq<u8>, QoiError> {
    match parse_header(src) {
        Err(e) => Err(e),
        Ok(h) => if src.len() < 18 {
            Err(QoiError::InputSize)
        } else {
            Ok(raw_of(decode_pixels(src, h.pixel_count()), output_channels(h, channels)))
        },
    }
}

/// What decoding into a buffer of `capacity` bytes returns: header errors,
/// then `OutputTooSmall` for a buffer shorter than the raw image, then
/// `InputSize` for a stream with no room for its footer.
pub open spec fn decode_into_spec(src: Seq<u8>, channels: Option<Channels>, capacity: nat) -> Result<
    (),
    QoiError,
> {
    match parse_header(src) {
        Err(e) => Err(e),
        Ok(h) => if capacity < h.raw_len(output_channels(h, channels)) {
            Err(QoiError::OutputTooSmall)
        } else if src.len() < 18 {
            Err(QoiError::InputSize)
        } else {
            Ok(())
        },
    }
}

/// What the allocating decoder returns: header errors, then `InputSize` for a
/// stream with no room for its footer, then `TooBig` past the size ceiling.
pub open spec fn decode_to_vec_spec(src: Seq<u8>, channels: Option<Channels>) -> Result<
    Seq<u8>,
    QoiError,
> {
    match parse_header(src) {
        Err(e) => Err(e),
        Ok(h) => if src.len() < 18 {
            Err(QoiError::InputSize)
        } else if h.raw_len(output_channels(h, channels)) > Qoi::MAX_SIZE {
            Err(QoiError::TooBig)
        } else {
            decode_spec(src, channels)
        },
    }
}

/// Decoding `a + b` pixels is decoding `a`, then `b` more.
pub proof fn lemma_decode_from_split(s: DecoderModel, src: Seq<u8>, a: nat, b: nat)
    ensures
        decode_from(s, src, a + b).0 == decode_from(decode_from(s, src, a).0, src, b).0,
        decode_from(s, src, a + b).1 == decode_from(s, src, a).1 + decode_from(
            decode_from(s, src, a).0,
            src,
            b,
        ).1,
    decreases a,
{
    if a == 0 {
        assert(decode_from(s, src, a).1 + decode_from(s, src, b).1 =~= decode_from(s, src, b).1);
    } else {
        let s1 = decode_step(s, src);
        lemma_decode_from_split(s1, src, (a - 1) as nat, b);
        assert((a + b - 1) as nat == (a - 1) as nat + b);
        assert(decode_from(s, src, a + b).1 =~= decode_from(s, src, a).1 + decode_from(
            decode_from(s, src, a).0,
            src,
            b,
        ).1);
    }
}

/// The decoder's state between output pixels.
struct DecodeState {
    pixel: Pixel,
    run: u16,
    cache: [Pixel; 64],
    pos: usize,
}

impl DecodeState {
    spec fn model(&self) -> DecoderModel {
        DecoderModel {
            px: self.pixel,
            run: self.run as nat,
            cache: self.cache@,
            pos: self.pos as int,
        }
    }

    spec fn wf(&self, src: Seq<u8>) -> bool {
        self.pos <= src.len()
    }

    fn new() -> (s: DecodeState)
        ensures
            s.model() == decoder_start(),
    {
        let zero = Pixel::default();
        let cache: [Pixel; 64] = vstd::array::array_fill_for_copy_types(zero);
        assert(cache@ =~= empty_cache());
        DecodeState { pixel: Pixel::new(0, 0, 0, 255), run: 0, cache, pos: Qoi::HEADER_SIZE }
    }

    /// Advances by one output pixel.
    fn next(&mut self, src: &[u8])
        requires
            old(self).wf(src@),
            src@.len() >= Qoi::HEADER_SIZE,
        ensures
            final(self).model() == decode_step(old(self).model(), src@),
            final(self).wf(src@),
    {
        if self.run > 0 {
            self.run = self.run - 1;
        } else if self.pos < src.len() - Qoi::PADDING_SIZE {
            let b1 = src[self.pos];
            self.pos = self.pos + 1;
            if b1 & Qoi::MASK_2 == Qoi::INDEX {
                assert(b1 ^ 0 == b1 && b1 < 64) by (bit_vector)
                    requires
                        b1 & 0xc0 == 0,
                ;
                self.pixel = self.cache[(b1 ^ Qoi::INDEX) as usize];
            } else if b1 & Qoi::MASK_3 == Qoi::RUN_8 {
                self.run = (b1 & 0x1f) as u16;
            } else if b1 & Qoi::MASK_3 == Qoi::RUN_16 {
                let b2 = src[self.pos];
                self.pos = self.pos + 1;
                assert((((b1 & 0x1f) as u16) << 8u16) | (b2 as u16) == (b1 & 0x1f) * 256 + b2 && b1
                    & 0x1f < 32) by (bit_vector);
                self.run = ((((b1 & 0x1f) as u16) << 8u16) | b2 as u16) + 32;
            } else if b1 & Qoi::MASK_2 == Qoi::DIFF_8 {
                assert((b1 >> 4u8) & 3 < 4 && (b1 >> 2u8) & 3 < 4 && b1 & 3 < 4) by (bit_vector);
                self.pixel.modify_r(((b1 >> 4u8) & 0x03) as i8 - 2);
                self.pixel.modify_g(((b1 >> 2u8) & 0x03) as i8 - 2);
                self.pixel.modify_b((b1 & 0x03) as i8 - 2);
            } else if b1 & Qoi::MASK_3 == Qoi::DIFF_16 {
                let b2 = src[self.pos];
                self.pos = self.pos + 1;
                assert(b1 & 0x1f < 32 && b2 >> 4u8 < 16 && b2 & 0x0f < 16) by (bit_vector);
                self.pixel.modify_r((b1 & 0x1f) as i8 - 16);
                self.pixel.modify_g((b2 >> 4u8) as i8 - 8);
                self.pixel.modify_b((b2 & 0x0f) as i8 - 8);
            } else if b1 & Qoi::MASK_4 == Qoi::DIFF_24 {
                let b2 = src[self.pos];
                self.pos = self.pos + 1;
                let b3 = src[self.pos];
                self.pos = self.pos + 1;
                assert(((b1 & 0x0f) << 1u8) | (b2 >> 7u8) < 32 && (b2 & 0x7c) >> 2u8 < 32 && ((b2
                    & 0x03) << 3u8) | ((b3 & 0xe0) >> 5u8) < 32 && b3 & 0x1f < 32) by (bit_vector);
                self.pixel.modify_r((((b1 & 0x0f) << 1u8) | (b2 >> 7u8)) as i8 - 16);
                self.pixel.modify_g(((b2 & 0x7c) >> 2u8) as i8 - 16);
                self.pixel.modify_b((((b2 & 0x03) << 3u8) | ((b3 & 0xe0) >> 5u8)) as i8 - 16);
                self.pixel.modify_a((b3 & 0x1f) as i8 - 16);
            } else {
                // The tag is `1111`: a literal colour.
                if b1 & 8 != 0 {
                    self.pixel.r = src[self.pos];
                    self.pos = self.pos + 1;
                }
                if b1 & 4 != 0 {
                    self.pixel.g = src[self.pos];
                    self.pos = self.pos + 1;
                }
                if b1 & 2 != 0 {
                    self.pixel.b = src[self.pos];
                    self.pos = self.pos + 1;
                }
                if b1 & 1 != 0 {
                    self.pixel.a = src[self.pos];
                    self.pos = self.pos + 1;
                }
            }
            let slot = self.pixel.cache_index();
            self.cache[slot] = self.pixel;
        }
    }
}

/// Decoding `m` pixels gives `m` pixels.
pub proof fn lemma_decode_from_len(s: DecoderModel, src: Seq<u8>, m: nat)
    ensures
        decode_from(s, src, m).1.len() == m,
    decreases m,
{
    if m > 0 {
        lemma_decode_from_len(decode_step(s, src), src, (m - 1) as nat);
    }
}

/// Decodes streams into raw images.
pub trait QoiDecode {
    /// Decodes the stream into `dest`, with `channels` per pixel if given,
    /// else as many as the header says.
    fn qoi_decode(&self, channels: Option<Channels>, dest: &mut [u8]) -> Result<(), QoiError>;

    /// Decodes the stream into a new vector.
    fn qoi_decode_to_vec(&self, channels: Option<Channels>) -> Result<Vec<u8>, QoiError>;

    /// Reads the stream's header.
    fn load_qoi_header(&self) -> Result<QoiHeader, QoiError>;
}

impl QoiDecode for [u8] {
    fn qoi_decode(&self, channels: Option<Channels>, dest: &mut [u8]) -> (r: Result<(), QoiError>)
        ensures
            final(dest)@.len() == old(dest)@.len(),
            r == decode_into_spec(self@, channels, old(dest)@.len()),
            r.is_ok() ==> ({
                let out = decode_spec(self@, channels).unwrap();
                &&& final(dest)@.subrange(0, out.len() as int) == out
                &&& final(dest)@.subrange(out.len() as int, old(dest)@.len() as int) == old(
                    dest,
                )@.subrange(out.len() as int, old(dest)@.len() as int)
            }),
    {
        let dest_len = dest.len();
        let header = match QoiHeader::new_from_slice(self) {
            Ok(h) => h,
            Err(e) => {
                return Err(e);
            },
        };
        let channels = match channels {
            Some(c) => c,
            None => header.channels,
        };
        let c = channels.len() as usize;
        let n = match (header.width as usize).checked_mul(header.height as usize) {
            Some(n) => n,
            None => {
                assert(header.raw_len(channels) >= header.pixel_count()) by (nonlinear_arith)
                    requires
                        header.raw_len(channels) == header.pixel_count() * channel_count(channels),
                        channel_count(channels) >= 3,
                ;
                return Err(QoiError::OutputTooSmall);
            },
        };
        let raw = match n.checked_mul(c) {
            Some(raw) => raw,
            None => {
                return Err(QoiError::OutputTooSmall);
            },
        };
        if dest.len() < raw {
            return Err(QoiError::OutputTooSmall);
        }
        if self.len() < Qoi::HEADER_SIZE + Qoi::PADDING_SIZE {
            return Err(QoiError::InputSize);
        }
        let ghost start = decoder_start();
        let mut state = DecodeState::new();
        let mut i: usize = 0;
        let mut o: usize = 0;
        while i < n
            invariant
                i <= n,
                o == i * c,
                raw == n * c,
                raw <= dest@.len(),
                c == channel_count(channels),
                self@.len() >= 14,
                state.wf(self@),
                state.model() == decode_from(start, self@, i as nat).0,
                dest@.len() == old(dest)@.len(),
                dest@.subrange(0, o as int) == raw_of(decode_from(start, self@, i as nat).1, channels),
                forall|j: int| o <= j < dest@.len() ==> dest@[j] == old(dest)@[j],
            decreases n - i,
        {
            assert(i * c + c <= n * c) by (nonlinear_arith)
                requires
                    i < n,
            ;
            let ghost si = state.model();
            state.next(self);
            proof {
                lemma_decode_from_split(start, self@, i as nat, 1);
                assert(decode_from(decode_step(si, self@), self@, 0).1 == Seq::<Pixel>::empty());
                assert(decode_from(si, self@, 1).1 =~= seq![state.pixel]);
                lemma_raw_of_push(decode_from(start, self@, i as nat).1, state.pixel, channels);
                assert(decode_from(start, self@, (i + 1) as nat).1 =~= decode_from(
                    start,
                    self@,
                    i as nat,
                ).1.push(state.pixel));
            }
            let ghost before = dest@;
            let p = state.pixel;
            dest[o] = p.r;
            dest[o + 1] = p.g;
            dest[o + 2] = p.b;
            if c == 4 {
                dest[o + 3] = p.a;
            }
            assert(dest@.subrange(0, o + c) =~= before.subrange(0, o as int) + pixel_bytes(
                p,
                channels,
            ));
            i += 1;
            o += c;
        }
        proof {
            lemma_decode_from_len(start, self@, n as nat);
            lemma_raw_of_len(decode_from(start, self@, n as nat).1, channels);
            assert(dest@.subrange(raw as int, dest@.len() as int) =~= old(dest)@.subrange(
                raw as int,
                old(dest)@.len() as int,
            ));
        }
        Ok(())
    }

    fn qoi_decode_to_vec(&self, channels: Option<Channels>) -> (r: Result<Vec<u8>, QoiError>)
        ensures
            match decode_to_vec_spec(self@, channels) {
                Err(e) => r == Err::<Vec<u8>, QoiError>(e),
                Ok(out) => r.is_ok() && r.unwrap()@ == out,
            },
    {
        let header = match QoiHeader::new_from_slice(self) {
            Ok(h) => h,
            Err(e) => {
                return Err(e);
            },
        };
        if self.len() < Qoi::HEADER_SIZE + Qoi::PADDING_SIZE {
            return Err(QoiError::InputSize);
        }
        let channels = match channels {
            Some(c) => c,
            None => header.channels,
        };
        let size = header.raw_image_size(channels);
        if size > Qoi::MAX_SIZE {
            return Err(QoiError::TooBig);
        }
        let mut dest = vec![0u8; size];
        match self.qoi_decode(Some(channels), dest.as_mut_slice()) {
            Ok(()) => {
                proof {
                    lemma_decode_from_len(decoder_start(), self@, header.pixel_count());
                    lemma_raw_of_len(decode_pixels(self@, header.pixel_count()), channels);
                    assert(dest@.subrange(0, size as int) =~= dest@);
                }
                Ok(dest)
            },
            Err(e) => Err(e),
        }
    }

    fn load_qoi_header(&self) -> (r: Result<QoiHeader, QoiError>)
        ensures
            r == parse_header(self@),
    {
        QoiHeader::new_from_slice(self)
    }
}

} // verus!
