use vstd::prelude::*;

use crate::error::QoiError;

verus! {

/// The format's constants: sizes, the size ceiling and the operation tags.
pub struct Qoi;

impl Qoi {
    pub const HEADER_SIZE: usize = 14;
    pub const PADDING_SIZE: usize = 4;
    /// The largest buffer the allocating calls will size: 1 GiB.
    pub const MAX_SIZE: usize = 1073741824;
    /// The largest run one run operation can carry.
    pub const MAX_RUN: u16 = 0x2020;

    pub const INDEX: u8 = 0b0000_0000;
    pub const RUN_8: u8 = 0b0100_0000;
    pub const RUN_16: u8 = 0b0110_0000;
    pub const DIFF_8: u8 = 0b1000_0000;
    pub const DIFF_16: u8 = 0b1100_0000;
    pub const DIFF_24: u8 = 0b1110_0000;
    pub const COLOR: u8 = 0b1111_0000;

    pub const MASK_2: u8 = 0b1100_0000;
    pub const MASK_3: u8 = 0b1110_0000;
    pub const MASK_4: u8 = 0b1111_0000;
}

/// How many 8-bit channels a raw pixel occupies.
#[derive(Clone, Copy, Debug, PartialEq, Eq, Structural)]
pub enum Channels {
    /// RGB; alpha is 255 and is never stored.
    Three,
    /// RGBA.
    Four,
}

/// The number of bytes one raw pixel takes.
pub open spec fn channel_count(c: Channels) -> nat {
    match c {
        Channels::Three => 3,
        Channels::Four => 4,
    }
}

/// The channel byte values the header accepts.
pub open spec fn channels_from_byte(v: u8) -> Result<Channels, QoiError> {
    if v == 3 {
        Ok(Channels::Three)
    } else if v == 4 {
        Ok(Channels::Four)
    } else {
        Err(QoiError::Channels)
    }
}

impl Channels {
    pub fn len(&self) -> (n: u8)
        ensures
            n == channel_count(*self),
    {
        match self {
            Channels::Three => 3,
            Channels::Four => 4,
        }
    }
}

impl TryFrom<u8> for Channels {
    type Error = QoiError;

    fn try_from(value: u8) -> (r: Result<Channels, QoiError>)
        ensures
            r == channels_from_byte(value),
    {
        if value == 3 {
            Ok(Channels::Three)
        } else if value == 4 {
            Ok(Channels::Four)
        } else {
            Err(QoiError::Channels)
        }
    }
}

impl vstd::std_specs::convert::TryFromSpecImpl<u8> for Channels {
    open spec fn obeys_try_from_spec() -> bool {
        true
    }

    open spec fn try_from_spec(v: u8) -> Result<Channels, QoiError> {
        channels_from_byte(v)
    }
}

/// What a stream says of the image it holds: its size, its channel count and
/// its colour-space byte, which the codec carries without reading it.
#[derive(Clone, Copy, Debug, PartialEq, Eq, Structural)]
pub struct QoiHeader {
    pub width: u32,
    pub height: u32,
    pub channels: Channels,
    pub colour_space: u8,
}

/// `x` capped at the largest `usize`.
pub open spec fn saturate(x: int) -> usize {
    if x > usize::MAX {
        usize::MAX
    } else {
        x as usize
    }
}

/// The four magic bytes every stream starts with: "qoif".
pub open spec fn magic() -> Seq<u8> {
    seq![0x71u8, 0x6fu8, 0x69u8, 0x66u8]
}

/// The four bytes of `x`, most significant first.
pub open spec fn be_bytes(x: u32) -> Seq<u8> {
    seq![(x / 0x100_0000) as u8, (x / 0x1_0000 % 0x100) as u8, (x / 0x100 % 0x100) as u8, (x % 0x100) as u8]
}

/// The number that four bytes spell, most significant first.
pub open spec fn be_u32(b0: u8, b1: u8, b2: u8, b3: u8) -> u32 {
    (b0 * 0x100_0000 + b1 * 0x1_0000 + b2 * 0x100 + b3) as u32
}

impl QoiHeader {
    /// The number of pixels in the image.
    pub open spec fn pixel_count(&self) -> nat {
        (self.width * self.height) as nat
    }

    /// The exact size of the raw image with `c` channels per pixel.
    pub open spec fn raw_len(&self, c: Channels) -> nat {
        self.pixel_count() * channel_count(c)
    }

    /// The fourteen bytes that stand for this header in a stream.
    pub open spec fn bytes(&self) -> Seq<u8> {
        magic() + be_bytes(self.width) + be_bytes(self.height) + seq![
            channel_count(self.channels) as u8,
            self.colour_space,
        ]
    }

    pub fn new(width: u32, height: u32, channels: Channels, colour_space: u8) -> (h: QoiHeader)
        ensures
            h.width == width,
            h.height == height,
            h.channels == channels,
            h.colour_space == colour_space,
    {
        QoiHeader { width, height, channels, colour_space }
    }

    pub fn to_array(&self) -> (a: [u8; 14])
        ensures
            a@ == self.bytes(),
    {
        let w = self.width;
        let h = self.height;
        let a: [u8; 14] = [
            0x71,
            0x6f,
            0x69,
            0x66,
            (w / 0x100_0000) as u8,
            (w / 0x1_0000 % 0x100) as u8,
            (w / 0x100 % 0x100) as u8,
            (w % 0x100) as u8,
            (h / 0x100_0000) as u8,
            (h / 0x1_0000 % 0x100) as u8,
            (h / 0x100 % 0x100) as u8,
            (h % 0x100) as u8,
            self.channels.len(),
            self.colour_space,
        ];
        assert(a@ =~= self.bytes());
        a
    }

    pub fn width(&self) -> (w: u32)
        ensures
            w == self.width,
    {
        self.width
    }

    pub fn height(&self) -> (h: u32)
        ensures
            h == self.height,
    {
        self.height
    }

    /// The size of the image in its raw, uncompressed format, with `channels`
    /// bytes per pixel; capped at the largest `usize`.
    pub fn raw_image_size(&self, channels: Channels) -> (n: usize)
        ensures
            n == saturate(self.raw_len(channels) as int),
    {
        let c = channels.len() as usize;
        let pixels = match (self.width as usize).checked_mul(self.height as usize) {
            Some(p) => p,
            None => usize::MAX,
        };
        let n = match pixels.checked_mul(c) {
            Some(n) => n,
            None => usize::MAX,
        };
        proof {
            let exact = self.width * self.height;
            if exact > usize::MAX {
                assert(usize::MAX * c > usize::MAX) by (nonlinear_arith)
                    requires c >= 3;
                assert(exact * c > usize::MAX) by (nonlinear_arith)
                    requires exact > usize::MAX, c >= 3;
            }
        }
        n
    }

    pub fn channels(&self) -> (c: Channels)
        ensures
            c == self.channels,
    {
        self.channels
    }

    pub fn colour_space(&self) -> (c: u8)
        ensures
            c == self.colour_space,
    {
        self.colour_space
    }

    /// Reads a header from the start of `input`.
    pub fn new_from_slice(input: &[u8]) -> (r: Result<QoiHeader, QoiError>)
        ensures
            r == parse_header(input@),
    {
        if input.len() < Qoi::HEADER_SIZE {
            return Err(QoiError::InputSmallerThanHeader);
        }
        if input[0] != 0x71 || input[1] != 0x6f || input[2] != 0x69 || input[3] != 0x66 {
            proof {
                assert(input@.subrange(0, 4) != magic()) by {
                    if input@.subrange(0, 4) == magic() {
                        assert(input@.subrange(0, 4)[0] == input@[0]);
                        assert(input@.subrange(0, 4)[1] == input@[1]);
                        assert(input@.subrange(0, 4)[2] == input@[2]);
                        assert(input@.subrange(0, 4)[3] == input@[3]);
                    }
                }
            }
            return Err(QoiError::IncorrectHeaderMagic);
        }
        assert(input@.subrange(0, 4) =~= magic());
        let channels = match Channels::try_from(input[12]) {
            Ok(c) => c,
            Err(e) => {
                return Err(e);
            },
        };
        let width = input[4] as u32 * 0x100_0000 + input[5] as u32 * 0x1_0000 + input[6] as u32
            * 0x100 + input[7] as u32;
        let height = input[8] as u32 * 0x100_0000 + input[9] as u32 * 0x1_0000 + input[10] as u32
            * 0x100 + input[11] as u32;
        Ok(QoiHeader { width, height, channels, colour_space: input[13] })
    }
}

/// What reading a header from the start of `s` gives.
pub open spec fn parse_header(s: Seq<u8>) -> Result<QoiHeader, QoiError> {
    if s.len() < 14 {
        Err(QoiError::InputSmallerThanHeader)
    } else if s.subrange(0, 4) != magic() {
        Err(QoiError::IncorrectHeaderMagic)
    } else {
        match channels_from_byte(s[12]) {
            Err(e) => Err(e),
            Ok(c) => Ok(
                QoiHeader {
                    width: be_u32(s[4], s[5], s[6], s[7]),
                    height: be_u32(s[8], s[9], s[10], s[11]),
                    channels: c,
                    colour_space: s[13],
                },
            ),
        }
    }
}

/// A header written out reads back as itself.
pub proof fn lemma_header_round_trip(h: QoiHeader, rest: Seq<u8>)
    ensures
        parse_header(h.bytes() + rest) == Ok::<QoiHeader, QoiError>(h),
{
    let s = h.bytes() + rest;
    assert(s.subrange(0, 4) =~= magic());
    lemma_be_round_trip(h.width);
    lemma_be_round_trip(h.height);
}

proof fn lemma_be_round_trip(x: u32)
    ensures
        be_u32(be_bytes(x)[0], be_bytes(x)[1], be_bytes(x)[2], be_bytes(x)[3]) == x,
{
    assert(((x / 0x100_0000) as u8) * 0x100_0000 + ((x / 0x1_0000 % 0x100) as u8) * 0x1_0000
        + ((x / 0x100 % 0x100) as u8) * 0x100 + ((x % 0x100) as u8) == x) by (bit_vector);
}

} // verus!
