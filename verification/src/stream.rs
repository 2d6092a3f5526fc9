//! The mathematical model of a carrier as a stream of bit slots.
//!
//! Slot `s` of a buffer of `n` channel bytes addresses bit plane `s / n` of
//! byte `s % n`: the cursor covers one whole bit plane across every channel
//! byte before moving to the next, so slots `0 .. n` are the LSBs of all the
//! bytes in order, slots `n .. 2n` the next plane, and so on up to `8n`.

use vstd::prelude::*;
use vstd::arithmetic::power2::pow2;
use vstd::arithmetic::div_mod::{
    lemma_fundamental_div_mod,
    lemma_fundamental_div_mod_converse,
    lemma_mod_division_less_than_divisor,
};

use crate::bits::{
    bit_get, bit_set, to_bits, from_bits, lemma_bit_set_get, lemma_to_bits_len,
    lemma_bit_string_round_trip,
};
use crate::pixel::PixelView;

verus! {

/// The bit stored in slot `s` of the carrier's bit stream.
pub open spec fn stream_bit(data: Seq<u8>, s: nat) -> bool {
    bit_get(data[(s % data.len()) as int], (s / data.len()) as u8)
}

/// The `n` stream bits starting at slot `p`.
pub open spec fn bits_seq(data: Seq<u8>, p: nat, n: nat) -> Seq<bool> {
    Seq::new(n, |i: int| stream_bit(data, (p + i) as nat))
}

/// The unsigned value of `w` stream bits starting at slot `p`, MSB first.
pub open spec fn stream_u(data: Seq<u8>, p: nat, w: nat) -> nat {
    from_bits(bits_seq(data, p, w))
}

/// A run of 8-bit fields: each value of `vals` rendered MSB first.
pub open spec fn fields8(vals: Seq<nat>) -> Seq<bool> {
    Seq::new(vals.len() * 8, |i: int| to_bits(vals[i / 8], 8)[i % 8])
}

/// The text frame: a 16-bit code-point count, then each code point as an
/// 8-bit field.
pub open spec fn text_frame(chars: Seq<char>) -> Seq<bool> {
    to_bits(chars.len(), 16) + fields8(chars.map_values(|c: char| c as nat))
}

/// The binary frame: a 64-bit byte count, then each byte as an 8-bit field.
pub open spec fn binary_frame(bytes: Seq<u8>) -> Seq<bool> {
    to_bits(bytes.len(), 64) + fields8(bytes.map_values(|b: u8| b as nat))
}

/// The embedded-image frame: 16-bit width, 16-bit height, then every channel
/// byte in row-major, channel-minor order as an 8-bit field.
pub open spec fn image_frame(width: nat, height: nat, data: Seq<u8>) -> Seq<bool> {
    to_bits(width, 16) + to_bits(height, 16) + fields8(data.map_values(|b: u8| b as nat))
}

/// What decoding a text payload from slot `p` onward yields, if anything.
pub open spec fn parse_text(data: Seq<u8>, p: nat) -> Option<Seq<char>> {
    if p + 16 <= data.len() * 8 {
        let l = stream_u(data, p, 16);
        if p + 16 + 8 * l <= data.len() * 8 {
            Some(
                Seq::new(
                    l,
                    |i: int| ((stream_u(data, (p + 16 + 8 * i) as nat, 8) as u8) as char),
                ),
            )
        } else {
            None
        }
    } else {
        None
    }
}

/// What decoding a binary payload from slot `p` onward yields, if anything.
pub open spec fn parse_binary(data: Seq<u8>, p: nat) -> Option<Seq<u8>> {
    if p + 64 <= data.len() * 8 {
        let l = stream_u(data, p, 64);
        if p + 64 + 8 * l <= data.len() * 8 {
            Some(Seq::new(l, |i: int| (stream_u(data, (p + 64 + 8 * i) as nat, 8) as u8)))
        } else {
            None
        }
    } else {
        None
    }
}

/// What decoding an embedded image from slot `p` onward yields, if anything.
pub open spec fn parse_image(data: Seq<u8>, p: nat) -> Option<PixelView> {
    if p + 32 <= data.len() * 8 {
        let w = stream_u(data, p, 16);
        let h = stream_u(data, (p + 16) as nat, 16);
        if p + 32 + w * h * 32 <= data.len() * 8 {
            Some(
                PixelView {
                    width: w,
                    height: h,
                    data: Seq::new(
                        w * h * 4,
                        |j: int| (stream_u(data, (p + 32 + 8 * j) as nat, 8) as u8),
                    ),
                },
            )
        } else {
            None
        }
    } else {
        None
    }
}

/// Splitting a slot index into its byte index and bit plane.
pub proof fn lemma_slot_split(n: nat, k: nat, idx: nat)
    requires
        idx < n,
        k < 8,
    ensures
        (k * n + idx) / n == k,
        (k * n + idx) % n == idx,
        k * n + idx < n * 8,
{
    lemma_fundamental_div_mod_converse((k * n + idx) as int, n as int, k as int, idx as int);
    assert(k * n + idx < n * 8) by (nonlinear_arith)
        requires
            idx < n,
            k < 8,
    ;
}

/// Writing one slot: forcing bit plane `k` of byte `idx` changes exactly the
/// stream bit of slot `k * n + idx` and no other.
pub proof fn lemma_stream_update(data: Seq<u8>, idx: nat, k: u8, v: bool, s: nat)
    requires
        idx < data.len(),
        k < 8,
        s < data.len() * 8,
    ensures
        ({
            let data2 = data.update(idx as int, bit_set(data[idx as int], k, v));
            &&& (s == (k as nat) * data.len() + idx ==> stream_bit(data2, s) == v)
            &&& (s != (k as nat) * data.len() + idx ==> stream_bit(data2, s) == stream_bit(
                data,
                s,
            ))
        }),
{
    let n = data.len();
    let data2 = data.update(idx as int, bit_set(data[idx as int], k, v));
    let q = s / n;
    let rm = s % n;
    lemma_fundamental_div_mod(s as int, n as int);
    lemma_mod_division_less_than_divisor(s as int, n as int);
    assert(q < 8) by (nonlinear_arith)
        requires
            s < n * 8,
            0 < n,
            s == q * n + rm,
            0 <= rm < n,
            0 <= q,
    ;
    if rm == idx {
        if q == k as nat {
            lemma_slot_split(n, k as nat, idx);
            assert(s == (k as nat) * n + idx) by (nonlinear_arith)
                requires
                    s == q * n + rm,
                    q == k as nat,
                    rm == idx,
            ;
            lemma_bit_set_get(data[idx as int], k, q as u8, v);
        } else {
            lemma_bit_set_get(data[idx as int], k, q as u8, v);
            lemma_slot_split(n, k as nat, idx);
        }
    } else {
        assert(data2[rm as int] == data[rm as int]);
        lemma_slot_split(n, k as nat, idx);
    }
}

/// If the stream bits at `p` spell out the fixed-width rendering of a value
/// that fits the width, reading them back gives the value.
pub proof fn lemma_stream_u_of_bits(data: Seq<u8>, p: nat, v: nat, w: nat)
    requires
        v < pow2(w),
        forall|j: int| 0 <= j < w ==> stream_bit(data, (p + j) as nat) == to_bits(v, w)[j],
    ensures
        stream_u(data, p, w) == v,
{
    lemma_to_bits_len(v, w);
    assert(bits_seq(data, p, w) =~= to_bits(v, w));
    lemma_bit_string_round_trip(v, w);
}

/// Decomposing the index of a bit inside a run of 8-bit fields.
pub proof fn lemma_field_index(i: nat, j: nat)
    requires
        j < 8,
    ensures
        (8 * i + j) / 8 == i,
        (8 * i + j) % 8 == j,
{
    lemma_fundamental_div_mod_converse((8 * i + j) as int, 8, i as int, j as int);
}

} // verus!
