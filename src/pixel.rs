use vstd::prelude::*;

use crate::header::{channel_count, Channels};

verus! {

/// Number of slots in the colour cache shared by the encoder and the decoder.
pub const CACHE_SIZE: usize = 64;

/// An RGBA pixel with 8-bit channels.
#[derive(Clone, Copy, Debug, PartialEq, Eq, Structural)]
pub struct Pixel {
    pub r: u8,
    pub g: u8,
    pub b: u8,
    pub a: u8,
}

/// `x + d` taken modulo 256: how a signed channel difference is applied.
pub open spec fn wrap_add(x: u8, d: int) -> u8 {
    ((x as int + d) % 256) as u8
}

/// The cache slot of a pixel: the XOR of its channels, modulo 64.
pub open spec fn hash_of(p: Pixel) -> int {
    ((p.r ^ p.g ^ p.b ^ p.a) as int) % 64
}

/// The pixel that both directions start from: opaque black.
pub open spec fn start_pixel() -> Pixel {
    Pixel { r: 0, g: 0, b: 0, a: 255 }
}

/// The value every cache slot holds before anything is stored in it.
pub open spec fn zero_pixel() -> Pixel {
    Pixel { r: 0, g: 0, b: 0, a: 0 }
}

/// The cache before anything is stored in it.
pub open spec fn empty_cache() -> Seq<Pixel> {
    Seq::new(64, |i: int| zero_pixel())
}


/// The pixel that starts at byte `i * c` of a raw buffer with `c` channels;
/// without an alpha byte, alpha is 255.
pub open spec fn pixel_at(src: Seq<u8>, c: Channels, i: int) -> Pixel {
    let o = i * channel_count(c);
    Pixel {
        r: src[o],
        g: src[o + 1],
        b: src[o + 2],
        a: if c == Channels::Four { src[o + 3] } else { 255 },
    }
}

/// The first `n` pixels of a raw buffer.
pub open spec fn pixels_of(src: Seq<u8>, c: Channels, n: nat) -> Seq<Pixel> {
    Seq::new(n, |i: int| pixel_at(src, c, i))
}

/// The raw bytes of one pixel; alpha only with four channels.
pub open spec fn pixel_bytes(p: Pixel, c: Channels) -> Seq<u8> {
    if c == Channels::Four {
        seq![p.r, p.g, p.b, p.a]
    } else {
        seq![p.r, p.g, p.b]
    }
}

/// The raw buffer that holds `px` with `c` channels per pixel.
pub open spec fn raw_of(px: Seq<Pixel>, c: Channels) -> Seq<u8>
    decreases px.len(),
{
    if px.len() == 0 {
        seq![]
    } else {
        raw_of(px.drop_last(), c) + pixel_bytes(px.last(), c)
    }
}


/// A raw buffer takes `c` bytes per pixel.
pub proof fn lemma_raw_of_len(px: Seq<Pixel>, c: Channels)
    ensures
        raw_of(px, c).len() == px.len() * channel_count(c),
    decreases px.len(),
{
    if px.len() > 0 {
        lemma_raw_of_len(px.drop_last(), c);
        assert(px.len() * channel_count(c) == (px.len() - 1) * channel_count(c) + channel_count(c))
            by (nonlinear_arith);
    }
}

/// Appending a pixel appends its bytes.
pub proof fn lemma_raw_of_push(px: Seq<Pixel>, p: Pixel, c: Channels)
    ensures
        raw_of(px.push(p), c) == raw_of(px, c) + pixel_bytes(p, c),
{
    assert(px.push(p).drop_last() =~= px);
}

/// Reading pixels out of a raw buffer and writing them back gives the buffer.
pub proof fn lemma_raw_of_pixels(src: Seq<u8>, c: Channels, n: nat)
    requires
        n * channel_count(c) <= src.len(),
    ensures
        raw_of(pixels_of(src, c, n), c) == src.subrange(0, (n * channel_count(c)) as int),
    decreases n,
{
    let k = channel_count(c);
    if n == 0 {
        assert(raw_of(pixels_of(src, c, n), c) =~= src.subrange(0, 0));
    } else {
        let m = (n - 1) as nat;
        assert(m * k + k == n * k) by (nonlinear_arith)
            requires
                m == n - 1,
        ;
        assert(m * k <= n * k) by (nonlinear_arith)
            requires
                m == n - 1,
        ;
        lemma_raw_of_pixels(src, c, m);
        assert(pixels_of(src, c, n).drop_last() =~= pixels_of(src, c, m));
        assert(raw_of(pixels_of(src, c, n), c) =~= src.subrange(0, (n * k) as int));
    }
}

impl Default for Pixel {
    fn default() -> (p: Pixel)
        ensures
            p == zero_pixel(),
    {
        Pixel { r: 0, g: 0, b: 0, a: 0 }
    }
}

impl Pixel {
    pub fn new(r: u8, g: u8, b: u8, a: u8) -> (p: Pixel)
        ensures
            p == (Pixel { r, g, b, a }),
    {
        Pixel { r, g, b, a }
    }

    /// The slot of the colour cache that this pixel belongs in.
    pub fn cache_index(&self) -> (i: usize)
        ensures
            i == hash_of(*self),
            i < CACHE_SIZE,
    {
        ((self.r ^ self.g ^ self.b ^ self.a) as usize) % CACHE_SIZE
    }

    pub fn modify_r(&mut self, change: i8)
        ensures
            *final(self) == (Pixel { r: wrap_add(old(self).r, change as int), ..*old(self) }),
    {
        proof { lemma_wrapping_add_i8(self.r, change); }
        self.r = self.r.wrapping_add(change as u8);
    }

    pub fn modify_g(&mut self, change: i8)
        ensures
            *final(self) == (Pixel { g: wrap_add(old(self).g, change as int), ..*old(self) }),
    {
        proof { lemma_wrapping_add_i8(self.g, change); }
        self.g = self.g.wrapping_add(change as u8);
    }

    pub fn modify_b(&mut self, change: i8)
        ensures
            *final(self) == (Pixel { b: wrap_add(old(self).b, change as int), ..*old(self) }),
    {
        proof { lemma_wrapping_add_i8(self.b, change); }
        self.b = self.b.wrapping_add(change as u8);
    }

    pub fn modify_a(&mut self, change: i8)
        ensures
            *final(self) == (Pixel { a: wrap_add(old(self).a, change as int), ..*old(self) }),
    {
        proof { lemma_wrapping_add_i8(self.a, change); }
        self.a = self.a.wrapping_add(change as u8);
    }
}

/// Adding a signed byte reinterpreted as unsigned is adding it modulo 256.
proof fn lemma_wrapping_add_i8(x: u8, d: i8)
    ensures
        x.wrapping_add(d as u8) == wrap_add(x, d as int),
{
    assert(((x as int + (d as u8) as int) % 256) == ((x as int + d as int) % 256)) by (bit_vector);
}

} // verus!
