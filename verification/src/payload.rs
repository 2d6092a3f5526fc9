//! The payload codecs: encoding and decoding of text, binary data and
//! embedded images, built exclusively from the cursor, the bit I/O
//! primitives and the integer-to-bit-string framing helpers.

use vstd::prelude::*;
use vstd::arithmetic::power2::{pow2, lemma2_to64, lemma2_to64_rest};

use crate::bits::{
    bit_char, to_bits, char_bits, from_bit_string, push_char, lemma_to_bits_len,
    lemma_from_bits_bound,
};
use crate::codec::LSBStego;
use crate::error::StegoError;
use crate::pixel::PixelBuffer;
use crate::stream::{
    stream_bit, bits_seq, stream_u, text_frame, binary_frame, image_frame, fields8, parse_text,
    parse_binary, parse_image, lemma_field_index,
};

verus! {

/// `x <= y / 8` exactly when `8 * x <= y`, for nonnegative values.
proof fn lemma_div8(x: int, y: int)
    requires
        x >= 0,
        y >= 0,
    ensures
        x <= y / 8 <==> 8 * x <= y,
{
    vstd::arithmetic::div_mod::lemma_fundamental_div_mod(y, 8);
    vstd::arithmetic::div_mod::lemma_mod_division_less_than_divisor(y, 8);
}

/// Index of the first code point that does not fit an 8-bit field, or the
/// length of the text if every code point fits.
pub open spec fn first_wide(chars: Seq<char>) -> int
    decreases chars.len(),
{
    if chars.len() == 0 {
        0
    } else if chars[0] as nat >= 256 {
        0
    } else {
        1 + first_wide(chars.drop_first())
    }
}

/// `first_wide` marks the first over-wide code point: everything before it
/// fits eight bits, and the marked one (if any) does not.
pub proof fn lemma_first_wide_props(chars: Seq<char>)
    ensures
        0 <= first_wide(chars) <= chars.len(),
        forall|j: int| 0 <= j < first_wide(chars) ==> (chars[j] as nat) < 256,
        first_wide(chars) < chars.len() ==> (chars[first_wide(chars)] as nat) >= 256,
    decreases chars.len(),
{
    if chars.len() > 0 && (chars[0] as nat) < 256 {
        lemma_first_wide_props(chars.drop_first());
        assert(forall|j: int|
            0 <= j < first_wide(chars.drop_first()) ==> (chars.drop_first()[j] as nat) < 256);
        assert forall|j: int| 0 <= j < first_wide(chars) implies (chars[j] as nat) < 256 by {
            if j > 0 {
                assert(chars.drop_first()[j - 1] == chars[j]);
            }
        }
    }
}

/// Pinning `first_wide` down: if everything before `i` fits and `i` is the
/// length or marks an over-wide code point, then `first_wide` is `i`.
pub proof fn lemma_first_wide_at(chars: Seq<char>, i: int)
    requires
        0 <= i <= chars.len(),
        forall|j: int| 0 <= j < i ==> (chars[j] as nat) < 256,
        i < chars.len() ==> (chars[i] as nat) >= 256,
    ensures
        first_wide(chars) == i,
    decreases chars.len(),
{
    if chars.len() == 0 {
    } else if i == 0 {
    } else {
        assert((chars[0] as nat) < 256);
        assert forall|j: int| 0 <= j < i - 1 implies (chars.drop_first()[j] as nat) < 256 by {
            assert(chars.drop_first()[j] == chars[j + 1]);
        }
        if i - 1 < chars.drop_first().len() {
            assert(chars.drop_first()[i - 1] == chars[i]);
        }
        lemma_first_wide_at(chars.drop_first(), i - 1);
    }
}

/// When encoding a text succeeds: the code-point count fits 16 bits, every
/// code point fits 8 bits, and the whole frame fits the remaining slots.
pub open spec fn text_encode_ok(chars: Seq<char>, p: nat, cap: nat) -> bool {
    &&& chars.len() < 65536
    &&& first_wide(chars) == chars.len()
    &&& p + 16 + 8 * chars.len() <= cap
}

/// The error a failing text encode reports: `Overflow` for a count that
/// does not fit 16 bits, or for the first over-wide code point if the
/// cursor reaches it; `CapacityExhausted` when the slots run out first.
pub open spec fn text_encode_err(chars: Seq<char>, p: nat, cap: nat) -> StegoError {
    if chars.len() >= 65536 {
        StegoError::Overflow
    } else if first_wide(chars) < chars.len() && p + 16 + 8 * first_wide(chars) <= cap {
        StegoError::Overflow
    } else {
        StegoError::CapacityExhausted
    }
}

impl LSBStego {
    /// Encodes a text message into the carrier: a 16-bit code-point count,
    /// then each code point as an 8-bit field. Only code points below 256
    /// (Latin-1) are supported; a wider one fails with `Overflow`. Returns
    /// a copy of the mutated carrier.
    pub fn encode_text(&mut self, txt: String) -> (r: Result<PixelBuffer, StegoError>)
        requires
            old(self).wf(),
        ensures
            final(self).wf(),
            final(self).img().width == old(self).img().width,
            final(self).img().height == old(self).img().height,
            final(self).buf().len() == old(self).buf().len(),
            r is Ok <==> text_encode_ok(txt@, old(self).pos(), old(self).cap()),
            r matches Err(e) ==> e == text_encode_err(txt@, old(self).pos(), old(self).cap()),
            r matches Ok(pb) ==> final(self).pos() == old(self).pos() + 16 + 8 * txt@.len() && (
            forall|j: int|
                0 <= j < 16 + 8 * txt@.len() ==> stream_bit(
                    final(self).buf(),
                    (old(self).pos() + j) as nat,
                ) == text_frame(txt@)[j]) && (forall|s: nat|
                s < old(self).cap() && !(old(self).pos() <= s < old(self).pos() + 16 + 8
                    * txt@.len()) ==> stream_bit(final(self).buf(), s) == stream_bit(
                    old(self).buf(),
                    s,
                )) && pb@ == final(self).img(),
    {
        let ghost p = old(self).pos();
        let ghost cap0 = old(self).cap();
        proof {
            lemma_first_wide_props(txt@);
            lemma_to_bits_len(txt@.len(), 16);
            lemma2_to64();
        }
        let n = txt.as_str().unicode_len();
        let binl = match self.binary_value(n, 16) {
            Ok(s) => s,
            Err(e) => {
                return Err(e);
            },
        };
        match self.put_binary_value(binl) {
            Ok(()) => {},
            Err(e) => {
                return Err(e);
            },
        }
        proof {
            assert forall|j: int| 0 <= j < 16 implies stream_bit(self.buf(), (p + j) as nat)
                == text_frame(txt@)[j] by {
                assert(stream_bit(self.buf(), (p + j) as nat) == (binl@[j] == '1'));
                assert(text_frame(txt@)[j] == to_bits(txt@.len(), 16)[j]);
            }
        }
        let mut i: usize = 0;
        while i < n
            invariant
                self.wf(),
                i <= n,
                n == txt@.len() < 65536,
                self.img().width == old(self).img().width,
                self.img().height == old(self).img().height,
                self.buf().len() == old(self).buf().len(),
                self.cap() == cap0,
                p == old(self).pos(),
                cap0 == old(self).cap(),
                p + 16 + 8 * i <= cap0,
                self.pos() == p + 16 + 8 * i,
                forall|j: int| 0 <= j < i ==> (txt@[j] as nat) < 256,
                forall|j: int|
                    0 <= j < 16 + 8 * i ==> stream_bit(self.buf(), (p + j) as nat) == text_frame(
                        txt@,
                    )[j],
                forall|s: nat|
                    s < cap0 && !(p <= s < p + 16 + 8 * i) ==> stream_bit(self.buf(), s)
                        == stream_bit(old(self).buf(), s),
            decreases n - i,
        {
            proof {
                lemma_to_bits_len(txt@.len(), 16);
            }
            let c = txt.as_str().get_char(i);
            let cv = c as u32;
            let bv = match self.byte_value(cv as usize) {
                Ok(s) => s,
                Err(e) => {
                    proof {
                        lemma_first_wide_at(txt@, i as int);
                    }
                    return Err(e);
                },
            };
            let ghost prev = self.buf();
            let ghost prevpos = self.pos();
            match self.put_binary_value(bv) {
                Ok(()) => {},
                Err(e) => {
                    proof {
                        lemma_first_wide_props(txt@);
                        assert(first_wide(txt@) > i as int) by {
                            if first_wide(txt@) <= i as int {
                                assert((txt@[first_wide(txt@)] as nat) >= 256);
                            }
                        }
                        assert(text_encode_err(txt@, p, cap0) == StegoError::CapacityExhausted);
                    }
                    return Err(e);
                },
            }
            proof {
                let ghost vals = txt@.map_values(|ci: char| ci as nat);
                assert forall|j: int| 0 <= j < 16 + 8 * (i + 1) implies stream_bit(
                    self.buf(),
                    (p + j) as nat,
                ) == text_frame(txt@)[j] by {
                    if j < 16 + 8 * i {
                        assert(stream_bit(self.buf(), (p + j) as nat) == stream_bit(
                            prev,
                            (p + j) as nat,
                        ));
                    } else {
                        let jj = j - 16 - 8 * i;
                        assert(stream_bit(self.buf(), (prevpos + jj) as nat) == (bv@[jj] == '1'));
                        assert(bv@[jj] == bit_char(to_bits((cv as usize) as nat, 8)[jj]));
                        lemma_field_index(i as nat, jj as nat);
                        assert(fields8(vals)[8 * (i as int) + jj] == to_bits(vals[i as int], 8)[jj]);
                        assert(vals[i as int] == txt@[i as int] as nat);
                        assert(text_frame(txt@)[j] == fields8(vals)[j - 16]);
                    }
                }
                assert forall|s: nat| s < cap0 && !(p <= s < p + 16 + 8 * (i + 1)) implies
                    stream_bit(self.buf(), s) == stream_bit(old(self).buf(), s) by {
                    assert(stream_bit(self.buf(), s) == stream_bit(prev, s));
                }
            }
            i = i + 1;
        }
        proof {
            lemma_first_wide_at(txt@, n as int);
        }
        Ok(self.image_clone())
    }

    /// Decodes a hidden text message from the carrier: reads the 16-bit
    /// code-point count, then that many 8-bit fields, reassembling each as
    /// one character.
    pub fn decode_text(&mut self) -> (r: Result<String, StegoError>)
        requires
            old(self).wf(),
        ensures
            final(self).wf(),
            final(self).img() == old(self).img(),
            r is Ok <==> parse_text(old(self).buf(), old(self).pos()) is Some,
            r matches Ok(s) ==> s@ == parse_text(old(self).buf(), old(self).pos())->Some_0
                && final(self).pos() == old(self).pos() + 16 + 8 * s@.len(),
            r is Err ==> r == Err::<String, StegoError>(StegoError::MalformedStream),
    {
        let ghost p = old(self).pos();
        let ghost cap0 = old(self).cap();
        let size = match self.read_bits(16) {
            Ok(s) => s,
            Err(e) => {
                return Err(e);
            },
        };
        proof {
            assert(char_bits(size@) =~= bits_seq(old(self).buf(), p, 16));
            lemma_from_bits_bound(char_bits(size@));
            lemma2_to64();
        }
        let l64 = from_bit_string(size.as_str());
        let ghost l = stream_u(old(self).buf(), p, 16);
        let l_sz = l64 as usize;
        let mut txt = String::new();
        let mut i: usize = 0;
        while i < l_sz
            invariant
                self.wf(),
                i <= l_sz,
                l_sz == l,
                l == stream_u(old(self).buf(), p, 16),
                self.img() == old(self).img(),
                p == old(self).pos(),
                cap0 == old(self).cap(),
                p + 16 + 8 * i <= cap0,
                self.pos() == p + 16 + 8 * i,
                txt@.len() == i,
                forall|j: int|
                    0 <= j < i ==> txt@[j] == ((stream_u(
                        old(self).buf(),
                        (p + 16 + 8 * j) as nat,
                        8,
                    ) as u8) as char),
            decreases l_sz - i,
        {
            let tmp = match self.read_byte() {
                Ok(s) => s,
                Err(e) => {
                    proof {
                        assert(p + 16 + 8 * l > cap0);
                        assert(parse_text(old(self).buf(), p) is None);
                    }
                    return Err(e);
                },
            };
            proof {
                assert(char_bits(tmp@) =~= bits_seq(old(self).buf(), (p + 16 + 8 * i) as nat, 8));
                lemma_from_bits_bound(char_bits(tmp@));
                lemma2_to64();
            }
            let v = from_bit_string(tmp.as_str());
            let c = (v as u8) as char;
            push_char(&mut txt, c);
            i = i + 1;
        }
        proof {
            assert(parse_text(old(self).buf(), p) is Some);
            assert(txt@ =~= parse_text(old(self).buf(), p)->Some_0);
        }
        Ok(txt)
    }

    /// Encodes a byte sequence into the carrier: a 64-bit byte count, then
    /// each byte as an 8-bit field. The carrier's total capacity is checked
    /// up front; nothing is written when it is too small. Returns a copy of
    /// the mutated carrier.
    pub fn encode_binary(&mut self, data: Vec<u8>) -> (r: Result<PixelBuffer, StegoError>)
        requires
            old(self).wf(),
        ensures
            final(self).wf(),
            final(self).img().width == old(self).img().width,
            final(self).img().height == old(self).img().height,
            final(self).buf().len() == old(self).buf().len(),
            r is Ok <==> 64 + 8 * data@.len() <= old(self).cap() && old(self).pos() + 64 + 8
                * data@.len() <= old(self).cap(),
            r == Err::<PixelBuffer, StegoError>(StegoError::CarrierTooSmall) <==> 64 + 8
                * data@.len() > old(self).cap(),
            r == Err::<PixelBuffer, StegoError>(StegoError::CarrierTooSmall) ==> *final(self)
                == *old(self),
            r == Err::<PixelBuffer, StegoError>(StegoError::CapacityExhausted) <==> (64 + 8
                * data@.len() <= old(self).cap() && old(self).pos() + 64 + 8 * data@.len()
                > old(self).cap()),
            r matches Ok(pb) ==> final(self).pos() == old(self).pos() + 64 + 8 * data@.len() && (
            forall|j: int|
                0 <= j < 64 + 8 * data@.len() ==> stream_bit(
                    final(self).buf(),
                    (old(self).pos() + j) as nat,
                ) == binary_frame(data@)[j]) && (forall|s: nat|
                s < old(self).cap() && !(old(self).pos() <= s < old(self).pos() + 64 + 8
                    * data@.len()) ==> stream_bit(final(self).buf(), s) == stream_bit(
                    old(self).buf(),
                    s,
                )) && pb@ == final(self).img(),
    {
        let ghost p = old(self).pos();
        let ghost cap0 = old(self).cap();
        proof {
            lemma_to_bits_len(data@.len() as nat, 64);
            lemma2_to64_rest();
        }
        let length = data.len();
        let cap = self.capacity_bits();
        if cap < 64 || length > (cap - 64) / 8 {
            proof {
                if cap >= 64 {
                    lemma_div8(data@.len() as int, (cap - 64) as int);
                }
            }
            return Err(StegoError::CarrierTooSmall);
        }
        proof {
            lemma_div8(length as int, (cap - 64) as int);
            assert(64 + 8 * data@.len() <= cap0);
        }
        let binl = match self.binary_value(length, 64) {
            Ok(s) => s,
            Err(e) => {
                proof {
                    assert((length as nat) < pow2(64));
                    assert(false);
                }
                return Err(e);
            },
        };
        match self.put_binary_value(binl) {
            Ok(()) => {},
            Err(e) => {
                return Err(e);
            },
        }
        proof {
            assert forall|j: int| 0 <= j < 64 implies stream_bit(self.buf(), (p + j) as nat)
                == binary_frame(data@)[j] by {
                assert(stream_bit(self.buf(), (p + j) as nat) == (binl@[j] == '1'));
                assert(binary_frame(data@)[j] == to_bits(data@.len(), 64)[j]);
            }
        }
        let mut i: usize = 0;
        while i < length
            invariant
                self.wf(),
                i <= length,
                length == data@.len(),
                64 + 8 * data@.len() <= cap0,
                self.img().width == old(self).img().width,
                self.img().height == old(self).img().height,
                self.buf().len() == old(self).buf().len(),
                self.cap() == cap0,
                p == old(self).pos(),
                cap0 == old(self).cap(),
                p + 64 + 8 * i <= cap0,
                self.pos() == p + 64 + 8 * i,
                forall|j: int|
                    0 <= j < 64 + 8 * i ==> stream_bit(self.buf(), (p + j) as nat) == binary_frame(
                        data@,
                    )[j],
                forall|s: nat|
                    s < cap0 && !(p <= s < p + 64 + 8 * i) ==> stream_bit(self.buf(), s)
                        == stream_bit(old(self).buf(), s),
            decreases length - i,
        {
            proof {
                lemma_to_bits_len(data@.len() as nat, 64);
            }
            let byte = data[i];
            let bv = match self.byte_value(byte as usize) {
                Ok(s) => s,
                Err(e) => {
                    proof {
                        assert(false);
                    }
                    return Err(e);
                },
            };
            let ghost prev = self.buf();
            let ghost prevpos = self.pos();
            match self.put_binary_value(bv) {
                Ok(()) => {},
                Err(e) => {
                    return Err(e);
                },
            }
            proof {
                let ghost vals = data@.map_values(|b: u8| b as nat);
                assert forall|j: int| 0 <= j < 64 + 8 * (i + 1) implies stream_bit(
                    self.buf(),
                    (p + j) as nat,
                ) == binary_frame(data@)[j] by {
                    if j < 64 + 8 * i {
                        assert(stream_bit(self.buf(), (p + j) as nat) == stream_bit(
                            prev,
                            (p + j) as nat,
                        ));
                    } else {
                        let jj = j - 64 - 8 * i;
                        assert(stream_bit(self.buf(), (prevpos + jj) as nat) == (bv@[jj] == '1'));
                        assert(bv@[jj] == bit_char(to_bits((byte as usize) as nat, 8)[jj]));
                        lemma_field_index(i as nat, jj as nat);
                        assert(fields8(vals)[8 * (i as int) + jj] == to_bits(vals[i as int], 8)[jj]);
                        assert(vals[i as int] == data@[i as int] as nat);
                        assert(binary_frame(data@)[j] == fields8(vals)[j - 64]);
                    }
                }
                assert forall|s: nat| s < cap0 && !(p <= s < p + 64 + 8 * (i + 1)) implies
                    stream_bit(self.buf(), s) == stream_bit(old(self).buf(), s) by {
                    assert(stream_bit(self.buf(), s) == stream_bit(prev, s));
                }
            }
            i = i + 1;
        }
        Ok(self.image_clone())
    }

    /// Decodes a hidden byte sequence from the carrier: reads the 64-bit
    /// byte count, then that many 8-bit fields. A count that claims more
    /// than the carrier can hold is a truncated or foreign stream: the
    /// decode fails with `MalformedStream` before anything is allocated.
    pub fn decode_binary(&mut self) -> (r: Result<Vec<u8>, StegoError>)
        requires
            old(self).wf(),
        ensures
            final(self).wf(),
            final(self).img() == old(self).img(),
            r is Ok <==> parse_binary(old(self).buf(), old(self).pos()) is Some,
            r matches Ok(v) ==> v@ == parse_binary(old(self).buf(), old(self).pos())->Some_0
                && final(self).pos() == old(self).pos() + 64 + 8 * v@.len(),
            r is Err ==> r == Err::<Vec<u8>, StegoError>(StegoError::MalformedStream),
    {
        let ghost p = old(self).pos();
        let ghost cap0 = old(self).cap();
        let size = match self.read_bits(64) {
            Ok(s) => s,
            Err(e) => {
                return Err(e);
            },
        };
        proof {
            assert(char_bits(size@) =~= bits_seq(old(self).buf(), p, 64));
            lemma_from_bits_bound(char_bits(size@));
        }
        let l64 = from_bit_string(size.as_str());
        let ghost l = stream_u(old(self).buf(), p, 64);
        let cap = self.capacity_bits();
        if (cap as u64) < 64 || l64 > ((cap as u64) - 64) / 8 {
            proof {
                if (cap as u64) >= 64 {
                    lemma_div8(l as int, ((cap as u64) - 64) as int);
                }
                assert(p + 64 + 8 * l > cap0);
                assert(parse_binary(old(self).buf(), p) is None);
            }
            return Err(StegoError::MalformedStream);
        }
        proof {
            lemma_div8(l as int, ((cap as u64) - 64) as int);
            assert(64 + 8 * l <= cap0);
        }
        let l_sz = l64 as usize;
        let mut output: Vec<u8> = Vec::new();
        let mut i: usize = 0;
        while i < l_sz
            invariant
                self.wf(),
                i <= l_sz,
                l_sz == l,
                l == stream_u(old(self).buf(), p, 64),
                self.img() == old(self).img(),
                p == old(self).pos(),
                cap0 == old(self).cap(),
                64 + 8 * l <= cap0,
                p + 64 + 8 * i <= cap0,
                self.pos() == p + 64 + 8 * i,
                output@.len() == i,
                forall|j: int|
                    0 <= j < i ==> output@[j] == (stream_u(
                        old(self).buf(),
                        (p + 64 + 8 * j) as nat,
                        8,
                    ) as u8),
            decreases l_sz - i,
        {
            let tmp = match self.read_byte() {
                Ok(s) => s,
                Err(e) => {
                    proof {
                        assert(p + 64 + 8 * l > cap0);
                        assert(parse_binary(old(self).buf(), p) is None);
                    }
                    return Err(e);
                },
            };
            proof {
                assert(char_bits(tmp@) =~= bits_seq(old(self).buf(), (p + 64 + 8 * i) as nat, 8));
                lemma_from_bits_bound(char_bits(tmp@));
                lemma2_to64();
            }
            let v = from_bit_string(tmp.as_str());
            output.push(v as u8);
            i = i + 1;
        }
        proof {
            assert(parse_binary(old(self).buf(), p) is Some);
            assert(output@ =~= parse_binary(old(self).buf(), p)->Some_0);
        }
        Ok(output)
    }

    /// Encodes an image into the carrier: 16-bit width, 16-bit height, then
    /// every channel byte in row-major, channel-minor order as an 8-bit
    /// field. The carrier's total capacity is checked against the hidden
    /// image's bit count up front; nothing is written when it is too small.
    /// Returns a copy of the mutated carrier.
    pub fn encode_image(&mut self, im: PixelBuffer) -> (r: Result<PixelBuffer, StegoError>)
        requires
            old(self).wf(),
            im@.wf(),
        ensures
            final(self).wf(),
            final(self).img().width == old(self).img().width,
            final(self).img().height == old(self).img().height,
            final(self).buf().len() == old(self).buf().len(),
            r == Err::<PixelBuffer, StegoError>(StegoError::CarrierTooSmall) <==> old(self).cap()
                < im@.data.len() * 8,
            r == Err::<PixelBuffer, StegoError>(StegoError::Overflow) <==> (old(self).cap()
                >= im@.data.len() * 8 && (im@.width >= 65536 || im@.height >= 65536)),
            (r == Err::<PixelBuffer, StegoError>(StegoError::CarrierTooSmall) || r == Err::<
                PixelBuffer,
                StegoError,
            >(StegoError::Overflow)) ==> *final(self) == *old(self),
            r is Ok <==> (old(self).cap() >= im@.data.len() * 8 && im@.width < 65536 && im@.height
                < 65536 && old(self).pos() + 32 + im@.data.len() * 8 <= old(self).cap()),
            r == Err::<PixelBuffer, StegoError>(StegoError::CapacityExhausted) <==> (old(self).cap()
                >= im@.data.len() * 8 && im@.width < 65536 && im@.height < 65536 && old(self).pos()
                + 32 + im@.data.len() * 8 > old(self).cap()),
            r matches Ok(pb) ==> final(self).pos() == old(self).pos() + 32 + 8 * im@.data.len() && (
            forall|j: int|
                0 <= j < 32 + 8 * im@.data.len() ==> stream_bit(
                    final(self).buf(),
                    (old(self).pos() + j) as nat,
                ) == image_frame(im@.width, im@.height, im@.data)[j]) && (forall|s: nat|
                s < old(self).cap() && !(old(self).pos() <= s < old(self).pos() + 32 + 8
                    * im@.data.len()) ==> stream_bit(final(self).buf(), s) == stream_bit(
                    old(self).buf(),
                    s,
                )) && pb@ == final(self).img(),
    {
        let ghost p = old(self).pos();
        let ghost cap0 = old(self).cap();
        let ghost w = im@.width;
        let ghost h = im@.height;
        proof {
            lemma_to_bits_len(w, 16);
            lemma_to_bits_len(h, 16);
            lemma2_to64();
        }
        let ebytes = im.byte_len();
        let cap = self.capacity_bits();
        if cap < ebytes * 8 {
            return Err(StegoError::CarrierTooSmall);
        }
        let binw = match self.binary_value(im.width() as usize, 16) {
            Ok(s) => s,
            Err(e) => {
                return Err(e);
            },
        };
        let binh = match self.binary_value(im.height() as usize, 16) {
            Ok(s) => s,
            Err(e) => {
                return Err(e);
            },
        };
        match self.put_binary_value(binw) {
            Ok(()) => {},
            Err(e) => {
                return Err(e);
            },
        }
        proof {
            assert forall|j: int| 0 <= j < 16 implies stream_bit(self.buf(), (p + j) as nat)
                == image_frame(w, h, im@.data)[j] by {
                assert(stream_bit(self.buf(), (p + j) as nat) == (binw@[j] == '1'));
                assert(image_frame(w, h, im@.data)[j] == to_bits(w, 16)[j]);
            }
        }
        let ghost mid = self.buf();
        match self.put_binary_value(binh) {
            Ok(()) => {},
            Err(e) => {
                return Err(e);
            },
        }
        proof {
            assert forall|j: int| 0 <= j < 32 implies stream_bit(self.buf(), (p + j) as nat)
                == image_frame(w, h, im@.data)[j] by {
                if j < 16 {
                    assert(stream_bit(self.buf(), (p + j) as nat) == stream_bit(
                        mid,
                        (p + j) as nat,
                    ));
                } else {
                    assert(stream_bit(self.buf(), (p + j) as nat) == (binh@[j - 16] == '1'));
                    assert(image_frame(w, h, im@.data)[j] == to_bits(h, 16)[j - 16]);
                }
            }
        }
        let mut i: usize = 0;
        while i < ebytes
            invariant
                self.wf(),
                i <= ebytes,
                ebytes == im@.data.len(),
                w == im@.width,
                h == im@.height,
                self.img().width == old(self).img().width,
                self.img().height == old(self).img().height,
                self.buf().len() == old(self).buf().len(),
                self.cap() == cap0,
                p == old(self).pos(),
                cap0 == old(self).cap(),
                cap0 >= im@.data.len() * 8,
                w < 65536,
                h < 65536,
                p + 32 + 8 * i <= cap0,
                self.pos() == p + 32 + 8 * i,
                forall|j: int|
                    0 <= j < 32 + 8 * i ==> stream_bit(self.buf(), (p + j) as nat) == image_frame(
                        w,
                        h,
                        im@.data,
                    )[j],
                forall|s: nat|
                    s < cap0 && !(p <= s < p + 32 + 8 * i) ==> stream_bit(self.buf(), s)
                        == stream_bit(old(self).buf(), s),
            decreases ebytes - i,
        {
            proof {
                lemma_to_bits_len(w, 16);
                lemma_to_bits_len(h, 16);
            }
            let byte = im.byte_at(i);
            let bv = match self.byte_value(byte as usize) {
                Ok(s) => s,
                Err(e) => {
                    proof {
                        assert(false);
                    }
                    return Err(e);
                },
            };
            let ghost prev = self.buf();
            let ghost prevpos = self.pos();
            match self.put_binary_value(bv) {
                Ok(()) => {},
                Err(e) => {
                    return Err(e);
                },
            }
            proof {
                let ghost vals = im@.data.map_values(|b: u8| b as nat);
                assert forall|j: int| 0 <= j < 32 + 8 * (i + 1) implies stream_bit(
                    self.buf(),
                    (p + j) as nat,
                ) == image_frame(w, h, im@.data)[j] by {
                    if j < 32 + 8 * i {
                        assert(stream_bit(self.buf(), (p + j) as nat) == stream_bit(
                            prev,
                            (p + j) as nat,
                        ));
                    } else {
                        let jj = j - 32 - 8 * i;
                        assert(stream_bit(self.buf(), (prevpos + jj) as nat) == (bv@[jj] == '1'));
                        assert(bv@[jj] == bit_char(to_bits((byte as usize) as nat, 8)[jj]));
                        lemma_field_index(i as nat, jj as nat);
                        assert(fields8(vals)[8 * (i as int) + jj] == to_bits(vals[i as int], 8)[jj]);
                        assert(vals[i as int] == im@.data[i as int] as nat);
                        assert(image_frame(w, h, im@.data)[j] == fields8(vals)[j - 32]);
                    }
                }
                assert forall|s: nat| s < cap0 && !(p <= s < p + 32 + 8 * (i + 1)) implies
                    stream_bit(self.buf(), s) == stream_bit(old(self).buf(), s) by {
                    assert(stream_bit(self.buf(), s) == stream_bit(prev, s));
                }
            }
            i = i + 1;
        }
        Ok(self.image_clone())
    }

    /// Decodes a hidden image from the carrier: reads the 16-bit width and
    /// height, checks that the announced pixel data still fits the carrier
    /// (so the allocation cannot run away on a corrupt stream), then reads
    /// every channel byte in row-major, channel-minor order.
    pub fn decode_image(&mut self) -> (r: Result<PixelBuffer, StegoError>)
        requires
            old(self).wf(),
        ensures
            final(self).wf(),
            final(self).img() == old(self).img(),
            r is Ok <==> parse_image(old(self).buf(), old(self).pos()) is Some,
            r matches Ok(pb) ==> pb@ == parse_image(old(self).buf(), old(self).pos())->Some_0
                && pb@.wf() && final(self).pos() == old(self).pos() + 32 + 8 * pb@.data.len(),
            r is Err ==> r == Err::<PixelBuffer, StegoError>(StegoError::MalformedStream),
    {
        let ghost p = old(self).pos();
        let ghost cap0 = old(self).cap();
        let ws = match self.read_bits(16) {
            Ok(s) => s,
            Err(e) => {
                return Err(e);
            },
        };
        proof {
            assert(char_bits(ws@) =~= bits_seq(old(self).buf(), p, 16));
            lemma_from_bits_bound(char_bits(ws@));
            lemma2_to64();
        }
        let w64 = from_bit_string(ws.as_str());
        let ghost w = stream_u(old(self).buf(), p, 16);
        let hs = match self.read_bits(16) {
            Ok(s) => s,
            Err(e) => {
                return Err(e);
            },
        };
        proof {
            assert(char_bits(hs@) =~= bits_seq(old(self).buf(), (p + 16) as nat, 16));
            lemma_from_bits_bound(char_bits(hs@));
        }
        let h64 = from_bit_string(hs.as_str());
        let ghost h = stream_u(old(self).buf(), (p + 16) as nat, 16);
        proof {
            assert((w64 as nat) * (h64 as nat) * 32 <= 65535 * 65535 * 32) by (nonlinear_arith)
                requires
                    (w64 as nat) < 65536,
                    (h64 as nat) < 65536,
            ;
        }
        let need64: u64 = w64 * h64 * 32;
        let pos_now = self.pos_slots();
        let cap = self.capacity_bits();
        if need64 > (cap - pos_now) as u64 {
            proof {
                assert(w * h * 32 > cap0 - (p + 32));
                assert(parse_image(old(self).buf(), p) is None);
            }
            return Err(StegoError::MalformedStream);
        }
        proof {
            assert(p + 32 + w * h * 32 <= cap0);
        }
        let cnt = (w64 * h64 * 4) as usize;
        let mut out: Vec<u8> = Vec::new();
        let mut i: usize = 0;
        while i < cnt
            invariant
                self.wf(),
                i <= cnt,
                cnt == w * h * 4,
                w == stream_u(old(self).buf(), p, 16),
                h == stream_u(old(self).buf(), (p + 16) as nat, 16),
                self.img() == old(self).img(),
                p == old(self).pos(),
                cap0 == old(self).cap(),
                p + 32 + 8 * (w * h * 4) <= cap0,
                p + 32 + 8 * i <= cap0,
                self.pos() == p + 32 + 8 * i,
                out@.len() == i,
                forall|j: int|
                    0 <= j < i ==> out@[j] == (stream_u(
                        old(self).buf(),
                        (p + 32 + 8 * j) as nat,
                        8,
                    ) as u8),
            decreases cnt - i,
        {
            let tmp = match self.read_byte() {
                Ok(s) => s,
                Err(e) => {
                    proof {
                        assert(false);
                    }
                    return Err(e);
                },
            };
            proof {
                assert(char_bits(tmp@) =~= bits_seq(old(self).buf(), (p + 32 + 8 * i) as nat, 8));
                lemma_from_bits_bound(char_bits(tmp@));
                lemma2_to64();
            }
            let v = from_bit_string(tmp.as_str());
            out.push(v as u8);
            i = i + 1;
        }
        let pb = PixelBuffer::new(w64 as u32, h64 as u32, out);
        proof {
            assert(parse_image(old(self).buf(), p) is Some);
            assert(pb@.data =~= parse_image(old(self).buf(), p)->Some_0.data);
            assert(pb@ == parse_image(old(self).buf(), p)->Some_0);
        }
        Ok(pb)
    }
}

} // verus!
