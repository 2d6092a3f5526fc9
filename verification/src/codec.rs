//! The LSB codec: a carrier pixel buffer together with a cursor over its bit
//! slots, and the bit-level read and write primitives every payload codec is
//! built from.
//!
//! The cursor `(current_width, current_height, current_channel, mask)` walks
//! the slots in channel-major, then width, then height, then bit-plane order,
//! so one whole bit plane is used across the image before the next, more
//! visible, plane is touched. Once the last slot of bit plane 7 has been
//! used the codec is exhausted and every further slot request fails.

use vstd::prelude::*;
use vstd::arithmetic::power2::pow2;
use vstd::bits::lemma_usize_shl_is_mul;

use crate::bits::{bit_char, bit_set, to_bits, to_bit_string, push_char};
use crate::error::StegoError;
use crate::pixel::{PixelBuffer, PixelView, CHANNELS};
use crate::stream::{stream_bit, lemma_stream_update, lemma_slot_split};

verus! {

/// The LSB steganographic codec over one exclusively owned carrier buffer.
pub struct LSBStego {
    /// Image loaded into the codec.
    image: PixelBuffer,
    /// Height of the loaded image.
    height: u32,
    /// Width of the loaded image.
    width: u32,
    /// Number of channels in the loaded image.
    channels: usize,
    /// Current width position of the cursor.
    current_width: u32,
    /// Current height position of the cursor.
    current_height: u32,
    /// Current channel position of the cursor.
    current_channel: usize,
    /// Index of the bit plane currently written: selects the OR mask that
    /// sets a bit.
    mask_one: usize,
    /// Index of the bit plane currently written: selects the AND mask that
    /// clears a bit. Advances in lockstep with `mask_one`.
    mask_zero: usize,
    /// True once every slot of every bit plane has been handed out.
    exhausted: bool,
}

impl LSBStego {
    /// The carrier as seen by the model.
    pub closed spec fn img(self) -> PixelView {
        self.image@
    }

    /// The carrier's channel bytes.
    pub open spec fn buf(self) -> Seq<u8> {
        self.img().data
    }

    /// Total number of bit slots of the carrier.
    pub open spec fn cap(self) -> nat {
        self.buf().len() * 8
    }

    /// The bit plane the cursor is on.
    pub closed spec fn mask(self) -> nat {
        self.mask_one as nat
    }

    /// The linear byte index the cursor points at inside the buffer.
    pub closed spec fn idx(self) -> nat {
        ((self.current_height as nat * self.width as nat + self.current_width as nat) * (
        CHANNELS as nat) + self.current_channel as nat)
    }

    /// The number of slots already handed out: the cursor's linear position.
    pub closed spec fn pos(self) -> nat {
        if self.exhausted {
            self.cap()
        } else {
            self.mask() * self.image@.data.len() + self.idx()
        }
    }

    /// The codec's invariant: a valid carrier, matching cached dimensions,
    /// the two mask indices in lockstep on a real bit plane, and the cursor
    /// inside the image whenever slots remain.
    pub closed spec fn wf(self) -> bool {
        &&& self.image@.wf()
        &&& self.width as nat == self.image@.width
        &&& self.height as nat == self.image@.height
        &&& self.channels == CHANNELS
        &&& self.mask_one == self.mask_zero
        &&& self.mask_one < 8
        &&& (!self.exhausted ==> self.current_width < self.width && self.current_height
            < self.height && self.current_channel < CHANNELS)
    }

    /// While slots remain the cursor addresses a byte inside the buffer and
    /// a position strictly below capacity.
    proof fn lemma_cursor(self)
        requires
            self.wf(),
            !self.exhausted,
        ensures
            self.idx() < self.buf().len(),
            self.pos() == self.mask() * self.buf().len() + self.idx(),
            self.pos() < self.cap(),
    {
        let w = self.width as nat;
        let h = self.height as nat;
        let cw = self.current_width as nat;
        let ch = self.current_height as nat;
        let cc = self.current_channel as nat;
        let n = self.buf().len();
        assert((ch * w + cw) * 4 + cc < w * h * 4) by (nonlinear_arith)
            requires
                cw < w,
                ch < h,
                cc < 4,
        ;
        assert(self.mask() * n + self.idx() < n * 8) by (nonlinear_arith)
            requires
                self.idx() < n,
                self.mask() < 8,
        ;
    }

    /// Create a new codec instance over a carrier buffer. The cursor starts
    /// at the first slot: bit plane 0 of the first channel of the first
    /// pixel.
    pub fn new(im: PixelBuffer) -> (r: Self)
        requires
            im@.wf(),
        ensures
            r.wf(),
            r.img() == im@,
            r.pos() == 0,
    {
        let width = im.width();
        let height = im.height();
        let exhausted = width == 0 || height == 0;
        proof {
            if width == 0 || height == 0 {
                assert(im@.data.len() == 0) by (nonlinear_arith)
                    requires
                        im@.data.len() == im@.width * im@.height * 4,
                        im@.width == 0 || im@.height == 0,
                ;
            }
        }
        let r = LSBStego {
            image: im,
            width,
            height,
            channels: CHANNELS,
            current_height: 0,
            current_width: 0,
            current_channel: 0,
            mask_one: 0,
            mask_zero: 0,
            exhausted,
        };
        proof {
            assert(r.idx() == 0);
            assert(r.mask() == 0);
            if !exhausted {
                assert(r.pos() == 0 * r.buf().len() + 0);
            }
        }
        r
    }

    /// Create a new codec instance over a carrier buffer; identical to
    /// `new`, kept for callers that already hold raw RGBA bytes.
    pub fn from_rgba(im: PixelBuffer) -> (r: Self)
        requires
            im@.wf(),
        ensures
            r.wf(),
            r.img() == im@,
            r.pos() == 0,
    {
        Self::new(im)
    }

    /// Returns the OR mask of the current bit plane: `2^mask`. While slots
    /// remain, the bit plane is the cursor's position divided by the number
    /// of channel bytes: the plane only advances once a full image pass at
    /// the current plane completes.
    pub fn get_mask_one(&self) -> (r: usize)
        requires
            self.wf(),
        ensures
            r == pow2(self.mask()),
            self.pos() < self.cap() ==> r == pow2(self.pos() / self.buf().len()),
    {
        proof {
            self.lemma_mask_of_pos();
            vstd::arithmetic::power2::lemma2_to64();
            if self.mask() < 7 {
                vstd::arithmetic::power2::lemma_pow2_strictly_increases(self.mask(), 7);
            }
            lemma_usize_shl_is_mul(1usize, self.mask_one as usize);
        }
        1usize << self.mask_one
    }

    /// Returns the AND mask of the current bit plane: `255 - 2^mask`, tied
    /// to the cursor's position as `get_mask_one` is.
    pub fn get_mask_zero(&self) -> (r: usize)
        requires
            self.wf(),
        ensures
            r == 255 - pow2(self.mask()),
            self.pos() < self.cap() ==> r == 255 - pow2(self.pos() / self.buf().len()),
    {
        proof {
            self.lemma_mask_of_pos();
            vstd::arithmetic::power2::lemma2_to64();
            if self.mask() < 7 {
                vstd::arithmetic::power2::lemma_pow2_strictly_increases(self.mask(), 7);
            }
            lemma_usize_shl_is_mul(1usize, self.mask_zero as usize);
        }
        255 - (1usize << self.mask_zero)
    }

    /// While slots remain, the bit plane the cursor is on is its linear
    /// position divided by the number of channel bytes: bit plane 0 serves
    /// the first `n` slots of an `n`-byte carrier, bit plane 1 the next
    /// `n`, and so on.
    pub proof fn lemma_mask_of_pos(self)
        requires
            self.wf(),
        ensures
            self.pos() < self.cap() ==> self.mask() == self.pos() / self.buf().len(),
    {
        if self.pos() < self.cap() {
            assert(!self.exhausted);
            self.lemma_cursor();
            lemma_slot_split(self.buf().len(), self.mask(), self.idx());
        }
    }

    /// Moves the cursor to the next slot where information can be mutated,
    /// in channel-major, then width, then height, then bit-plane order.
    /// Fails with `CapacityExhausted` exactly when no slot is left.
    #[verifier::rlimit(30)]
    pub fn next_slot(&mut self) -> (r: Result<(), StegoError>)
        requires
            old(self).wf(),
        ensures
            final(self).wf(),
            final(self).img() == old(self).img(),
            r is Ok <==> old(self).pos() < old(self).cap(),
            r is Ok ==> final(self).pos() == old(self).pos() + 1,
            r is Err ==> *final(self) == *old(self) && r == Err::<(), StegoError>(
                StegoError::CapacityExhausted,
            ),
    {
        if self.exhausted {
            return Err(StegoError::CapacityExhausted);
        }
        proof {
            self.lemma_cursor();
        }
        let ghost w = self.width as nat;
        let ghost h = self.height as nat;
        let ghost cw = self.current_width as nat;
        let ghost ch = self.current_height as nat;
        let ghost m = self.mask() as nat;
        let ghost n = self.buf().len();
        let ghost cc = self.current_channel as nat;
        let ghost oldpos = self.pos();
        proof {
            assert(oldpos == m * n + ((ch * w + cw) * 4 + cc));
        }
        if self.current_channel == self.channels - 1 {
            self.current_channel = 0;
            if self.current_width == self.width - 1 {
                self.current_width = 0;
                if self.current_height == self.height - 1 {
                    self.current_height = 0;
                    if self.mask_one == 7 {
                        self.exhausted = true;
                        proof {
                            assert(((h - 1) * w + (w - 1)) * 4 + 3 + 1 == w * h * 4)
                                by (nonlinear_arith)
                                requires
                                    w >= 1,
                                    h >= 1,
                            ;
                            assert(7 * n + n == n * 8) by (nonlinear_arith);
                            assert(self.pos() == oldpos + 1);
                        }
                    } else {
                        self.mask_one = self.mask_one + 1;
                        self.mask_zero = self.mask_zero + 1;
                        proof {
                            assert(((h - 1) * w + (w - 1)) * 4 + 3 + 1 == w * h * 4)
                                by (nonlinear_arith)
                                requires
                                    w >= 1,
                                    h >= 1,
                            ;
                            assert((m + 1) * n == m * n + n) by (nonlinear_arith);
                            assert(self.idx() == (0 * w + 0) * 4 + 0);
                            assert(self.pos() == (m + 1) * n + 0);
                            assert(self.pos() == oldpos + 1);
                        }
                    }
                } else {
                    self.current_height = self.current_height + 1;
                    proof {
                        assert(((ch + 1) * w + 0) * 4 == ((ch * w + (w - 1)) * 4 + 3) + 1)
                            by (nonlinear_arith)
                            requires
                                w >= 1,
                        ;
                        assert(self.idx() == ((ch + 1) * w + 0) * 4 + 0);
                        assert(self.pos() == oldpos + 1);
                    }
                }
            } else {
                self.current_width = self.current_width + 1;
                proof {
                    assert(self.idx() == (ch * w + (cw + 1)) * 4 + 0);
                    assert((ch * w + (cw + 1)) * 4 == (ch * w + cw) * 4 + 4);
                    assert(self.pos() == oldpos + 1);
                }
            }
        } else {
            self.current_channel = self.current_channel + 1;
            proof {
                assert(self.pos() == oldpos + 1);
            }
        }
        Ok(())
    }

    /// Writes one bit into the slot under the cursor by ORing or ANDing the
    /// current bit-plane mask onto the addressed channel byte, then advances.
    fn write_bit(&mut self, b: bool) -> (r: Result<(), StegoError>)
        requires
            old(self).wf(),
        ensures
            final(self).wf(),
            final(self).img().width == old(self).img().width,
            final(self).img().height == old(self).img().height,
            final(self).buf().len() == old(self).buf().len(),
            r is Ok <==> old(self).pos() < old(self).cap(),
            r is Err ==> *final(self) == *old(self) && r == Err::<(), StegoError>(
                StegoError::CapacityExhausted,
            ),
            r is Ok ==> final(self).pos() == old(self).pos() + 1 && stream_bit(
                final(self).buf(),
                old(self).pos(),
            ) == b && (forall|s: nat|
                s < old(self).cap() && s != old(self).pos() ==> stream_bit(final(self).buf(), s)
                    == stream_bit(old(self).buf(), s)),
    {
        if self.exhausted {
            return Err(StegoError::CapacityExhausted);
        }
        proof {
            self.lemma_cursor();
            assert((self.current_height as nat) * (self.width as nat) + (self.current_width
                as nat) < self.buf().len()) by (nonlinear_arith)
                requires
                    ((self.current_height as nat) * (self.width as nat) + (self.current_width
                        as nat)) * 4 + (self.current_channel as nat) < self.buf().len(),
            ;
        }
        let row = self.current_height as usize * self.width as usize + self.current_width as usize;
        let idx = row * CHANNELS + self.current_channel;
        let val = self.image.byte_at(idx);
        let k = self.mask_one as u8;
        let newval = if b {
            val | (1u8 << k)
        } else {
            val & !(1u8 << k)
        };
        let ghost olddata = self.buf();
        let ghost oldpos = self.pos();
        self.image.set_byte(idx, newval);
        proof {
            assert(newval == bit_set(olddata[idx as int], k, b));
            assert(oldpos == (k as nat) * olddata.len() + (idx as nat));
            assert forall|s: nat| s < olddata.len() * 8 implies {
                &&& (s == oldpos ==> stream_bit(self.buf(), s) == b)
                &&& (s != oldpos ==> stream_bit(self.buf(), s) == stream_bit(olddata, s))
            } by {
                lemma_stream_update(olddata, idx as nat, k, b, s);
            }
            lemma_stream_update(olddata, idx as nat, k, b, oldpos);
            assert(stream_bit(self.buf(), oldpos) == b);
        }
        let r = self.next_slot();
        proof {
            assert(r is Ok);
        }
        Ok(())
    }

    /// Reads the bit in the slot under the cursor as `'1'` or `'0'`, then
    /// advances. Read-only on the pixel buffer.
    fn read_bit(&mut self) -> (r: Result<char, StegoError>)
        requires
            old(self).wf(),
        ensures
            final(self).wf(),
            final(self).img() == old(self).img(),
            r is Ok <==> old(self).pos() < old(self).cap(),
            r is Err ==> *final(self) == *old(self) && r == Err::<char, StegoError>(
                StegoError::MalformedStream,
            ),
            r is Ok ==> final(self).pos() == old(self).pos() + 1 && r->Ok_0 == bit_char(
                stream_bit(old(self).buf(), old(self).pos()),
            ),
    {
        if self.exhausted {
            return Err(StegoError::MalformedStream);
        }
        proof {
            self.lemma_cursor();
            assert((self.current_height as nat) * (self.width as nat) + (self.current_width
                as nat) < self.buf().len()) by (nonlinear_arith)
                requires
                    ((self.current_height as nat) * (self.width as nat) + (self.current_width
                        as nat)) * 4 + (self.current_channel as nat) < self.buf().len(),
            ;
            lemma_slot_split(self.buf().len(), self.mask(), self.idx());
        }
        let row = self.current_height as usize * self.width as usize + self.current_width as usize;
        let idx = row * CHANNELS + self.current_channel;
        let val = self.image.byte_at(idx);
        let k = self.mask_one as u8;
        let bit = val & (1u8 << k);
        let c = if bit > 0 {
            '1'
        } else {
            '0'
        };
        let r = self.next_slot();
        proof {
            assert(r is Ok);
        }
        Ok(c)
    }

    /// Puts a string of binary values into the carrier: writes the bits in
    /// order, a `'1'` character setting and any other character clearing the
    /// current bit plane of the addressed byte. On exhaustion the bits that
    /// fitted remain written and `CapacityExhausted` is returned.
    pub fn put_binary_value(&mut self, bits: String) -> (r: Result<(), StegoError>)
        requires
            old(self).wf(),
        ensures
            final(self).wf(),
            final(self).img().width == old(self).img().width,
            final(self).img().height == old(self).img().height,
            final(self).buf().len() == old(self).buf().len(),
            r is Ok <==> old(self).pos() + bits@.len() <= old(self).cap(),
            r is Err ==> r == Err::<(), StegoError>(StegoError::CapacityExhausted),
            ({
                let k = if old(self).pos() + bits@.len() <= old(self).cap() {
                    bits@.len() as int
                } else {
                    old(self).cap() - old(self).pos()
                };
                &&& final(self).pos() == old(self).pos() + k
                &&& (forall|i: int|
                    0 <= i < k ==> stream_bit(final(self).buf(), (old(self).pos() + i) as nat) == (
                    bits@[i] == '1'))
                &&& (forall|s: nat|
                    s < old(self).cap() && !(old(self).pos() <= s < old(self).pos() + k)
                        ==> stream_bit(final(self).buf(), s) == stream_bit(old(self).buf(), s))
            }),
    {
        let n = bits.as_str().unicode_len();
        proof {
            if !self.exhausted {
                self.lemma_cursor();
            }
        }
        let mut i: usize = 0;
        while i < n
            invariant
                self.wf(),
                i <= n,
                n == bits@.len(),
                self.img().width == old(self).img().width,
                self.img().height == old(self).img().height,
                self.buf().len() == old(self).buf().len(),
                self.cap() == old(self).cap(),
                old(self).pos() + i <= old(self).cap(),
                self.pos() == old(self).pos() + i,
                forall|j: int|
                    0 <= j < i ==> stream_bit(self.buf(), (old(self).pos() + j) as nat) == (
                    bits@[j] == '1'),
                forall|s: nat|
                    s < old(self).cap() && !(old(self).pos() <= s < old(self).pos() + i)
                        ==> stream_bit(self.buf(), s) == stream_bit(old(self).buf(), s),
            decreases n - i,
        {
            let c = bits.as_str().get_char(i);
            match self.write_bit(c == '1') {
                Ok(()) => {},
                Err(e) => {
                    return Err(e);
                },
            }
            i = i + 1;
        }
        Ok(())
    }

    /// Reads `n` bits from the carrier as a string of `'1'`/`'0'`
    /// characters, in slot order. Fails with `MalformedStream` if fewer than
    /// `n` slots remain.
    pub(crate) fn read_bits(&mut self, n: u32) -> (r: Result<String, StegoError>)
        requires
            old(self).wf(),
        ensures
            final(self).wf(),
            final(self).img() == old(self).img(),
            r is Ok <==> old(self).pos() + n <= old(self).cap(),
            r is Err ==> r == Err::<String, StegoError>(StegoError::MalformedStream),
            r matches Ok(s) ==> final(self).pos() == old(self).pos() + n && s@.len() == n && (
            forall|i: int|
                0 <= i < n ==> s@[i] == bit_char(
                    stream_bit(old(self).buf(), (old(self).pos() + i) as nat),
                )),
    {
        let mut s = String::new();
        proof {
            if !self.exhausted {
                self.lemma_cursor();
            }
        }
        let mut i: u32 = 0;
        while i < n
            invariant
                self.wf(),
                i <= n,
                self.img() == old(self).img(),
                old(self).pos() + i <= old(self).cap(),
                self.pos() == old(self).pos() + i,
                s@.len() == i,
                forall|j: int|
                    0 <= j < i ==> s@[j] == bit_char(
                        stream_bit(old(self).buf(), (old(self).pos() + j) as nat),
                    ),
            decreases n - i,
        {
            match self.read_bit() {
                Ok(c) => {
                    push_char(&mut s, c);
                },
                Err(e) => {
                    return Err(e);
                },
            }
            i = i + 1;
        }
        Ok(s)
    }

    /// Returns a binary string in byte size of a given integer; fails with
    /// `Overflow` when the value does not fit eight bits.
    pub(crate) fn byte_value(&self, val: usize) -> (r: Result<String, StegoError>)
        ensures
            r is Ok <==> (val as nat) < 256,
            r matches Ok(s) ==> s@.len() == 8 && (forall|i: int|
                0 <= i < 8 ==> s@[i] == bit_char(to_bits(val as nat, 8)[i])),
            r is Err ==> r == Err::<String, StegoError>(StegoError::Overflow),
    {
        proof {
            vstd::arithmetic::power2::lemma2_to64();
        }
        self.binary_value(val, 8)
    }

    /// Returns the binary rendering of a given integer in `bitsize` bits,
    /// most significant bit first; fails with `Overflow` when the value
    /// needs more bits than that.
    pub(crate) fn binary_value(&self, val: usize, bitsize: usize) -> (r: Result<String, StegoError>)
        ensures
            r is Ok <==> (val as nat) < pow2(bitsize as nat),
            r matches Ok(s) ==> s@.len() == bitsize && (forall|i: int|
                0 <= i < bitsize ==> s@[i] == bit_char(to_bits(val as nat, bitsize as nat)[i])),
            r is Err ==> r == Err::<String, StegoError>(StegoError::Overflow),
    {
        to_bit_string(val as u64, bitsize)
    }

    /// Total bit capacity of the carrier, as a machine integer.
    pub(crate) fn capacity_bits(&self) -> (r: usize)
        requires
            self.wf(),
        ensures
            r as nat == self.cap(),
    {
        self.image.byte_len() * 8
    }

    /// The cursor's linear position, as a machine integer.
    pub(crate) fn pos_slots(&self) -> (r: usize)
        requires
            self.wf(),
        ensures
            r as nat == self.pos(),
            r as nat <= self.cap(),
    {
        if self.exhausted {
            self.image.byte_len() * 8
        } else {
            proof {
                self.lemma_cursor();
                assert((self.current_height as nat) * (self.width as nat) + (self.current_width
                    as nat) < self.buf().len()) by (nonlinear_arith)
                    requires
                        ((self.current_height as nat) * (self.width as nat) + (self.current_width
                            as nat)) * 4 + (self.current_channel as nat) < self.buf().len(),
                ;
            }
            let n = self.image.byte_len();
            let row = self.current_height as usize * self.width as usize
                + self.current_width as usize;
            let idx = row * CHANNELS + self.current_channel;
            self.mask_one * n + idx
        }
    }

    /// A copy of the carrier in its current state.
    pub(crate) fn image_clone(&self) -> (r: PixelBuffer)
        ensures
            r@ == self.img(),
    {
        self.image.clone()
    }

    /// Reads a byte of the carrier: the next eight bits as a bit string.
    pub(crate) fn read_byte(&mut self) -> (r: Result<String, StegoError>)
        requires
            old(self).wf(),
        ensures
            final(self).wf(),
            final(self).img() == old(self).img(),
            r is Ok <==> old(self).pos() + 8 <= old(self).cap(),
            r is Err ==> r == Err::<String, StegoError>(StegoError::MalformedStream),
            r matches Ok(s) ==> final(self).pos() == old(self).pos() + 8 && s@.len() == 8 && (
            forall|i: int|
                0 <= i < 8 ==> s@[i] == bit_char(
                    stream_bit(old(self).buf(), (old(self).pos() + i) as nat),
                )),
    {
        self.read_bits(8)
    }
}

} // verus!
