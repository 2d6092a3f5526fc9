//! The carrier: an owned rectangular pixel buffer with four 8-bit channels
//! per pixel (RGBA style), stored row-major, channel-minor. The codec owns
//! one such buffer exclusively and mutates it in place while encoding.

use vstd::prelude::*;

verus! {

/// Channel bytes per pixel; the codec supports exactly four (RGBA).
pub const CHANNELS: usize = 4;

/// The mathematical content of a pixel buffer.
pub ghost struct PixelView {
    pub width: nat,
    pub height: nat,
    pub data: Seq<u8>,
}

impl PixelView {
    /// A valid buffer holds exactly one byte per channel of every pixel, and
    /// is small enough that its bit capacity can be counted in a `usize`.
    pub open spec fn wf(self) -> bool {
        &&& self.data.len() == self.width * self.height * (CHANNELS as nat)
        &&& self.data.len() * 8 <= usize::MAX
    }

    /// Total number of bit slots the buffer offers: one per bit plane of
    /// every channel byte.
    pub open spec fn cap(self) -> nat {
        self.data.len() * 8
    }
}

/// An owned `width x height` grid of pixels, each with four 8-bit channels,
/// laid out row-major with the channels of one pixel adjacent.
#[derive(Debug)]
pub struct PixelBuffer {
    width: u32,
    height: u32,
    data: Vec<u8>,
}

impl View for PixelBuffer {
    type V = PixelView;

    closed spec fn view(&self) -> PixelView {
        PixelView { width: self.width as nat, height: self.height as nat, data: self.data@ }
    }
}

impl Clone for PixelBuffer {
    fn clone(&self) -> (r: Self)
        ensures
            r@ == self@,
    {
        PixelBuffer { width: self.width, height: self.height, data: clone_bytes(&self.data) }
    }
}

/// A verified element-wise copy of a byte vector.
fn clone_bytes(v: &Vec<u8>) -> (r: Vec<u8>)
    ensures
        r@ == v@,
{
    let mut r: Vec<u8> = Vec::new();
    let mut i: usize = 0;
    while i < v.len()
        invariant
            i <= v@.len(),
            r@ =~= v@.take(i as int),
        decreases v@.len() - i,
    {
        r.push(v[i]);
        proof {
            assert(r@ =~= v@.take(i as int + 1));
        }
        i = i + 1;
    }
    proof {
        assert(v@.take(v@.len() as int) =~= v@);
    }
    r
}

impl PixelBuffer {
    /// Builds a buffer from its dimensions and raw channel bytes, which must
    /// hold exactly four bytes per pixel.
    pub fn new(width: u32, height: u32, data: Vec<u8>) -> (r: PixelBuffer)
        requires
            data@.len() == width as nat * height as nat * (CHANNELS as nat),
            data@.len() * 8 <= usize::MAX,
        ensures
            r@ == (PixelView { width: width as nat, height: height as nat, data: data@ }),
            r@.wf(),
    {
        PixelBuffer { width, height, data }
    }

    pub fn width(&self) -> (r: u32)
        ensures
            r as nat == self@.width,
    {
        self.width
    }

    pub fn height(&self) -> (r: u32)
        ensures
            r as nat == self@.height,
    {
        self.height
    }

    /// Number of channel bytes in the buffer.
    pub fn byte_len(&self) -> (r: usize)
        ensures
            r as nat == self@.data.len(),
    {
        self.data.len()
    }

    /// The raw channel bytes, row-major, channel-minor.
    pub fn data(&self) -> (r: &Vec<u8>)
        ensures
            r@ == self@.data,
    {
        &self.data
    }

    /// The channel byte at linear index `i`.
    pub fn byte_at(&self, i: usize) -> (r: u8)
        requires
            i < self@.data.len(),
        ensures
            r == self@.data[i as int],
    {
        self.data[i]
    }

    /// Overwrites the channel byte at linear index `i`.
    pub fn set_byte(&mut self, i: usize, v: u8)
        requires
            i < old(self)@.data.len(),
        ensures
            final(self)@.width == old(self)@.width,
            final(self)@.height == old(self)@.height,
            final(self)@.data == old(self)@.data.update(i as int, v),
    {
        self.data.set(i, v);
    }
}

} // verus!
