//! Bit-level primitives: reading and forcing a single bit plane of a channel
//! byte, and the fixed-width MSB-first bit strings used for payload framing.

use vstd::prelude::*;
use vstd::arithmetic::power2::{pow2, lemma_pow2_unfold, lemma_pow2_pos, lemma2_to64, lemma_pow2_strictly_increases};
use vstd::arithmetic::div_mod::{lemma_fundamental_div_mod, lemma_div_denominator};
use vstd::bits::lemma_u64_shr_is_div;

use crate::error::StegoError;

verus! {

/// True if bit `k` (significance `2^k`) of `b` is set.
pub open spec fn bit_get(b: u8, k: u8) -> bool {
    b & (1u8 << k) != 0
}

/// The byte `b` with bit `k` forced to `v`, all other bits unchanged.
pub open spec fn bit_set(b: u8, k: u8, v: bool) -> u8 {
    if v {
        b | (1u8 << k)
    } else {
        b & !(1u8 << k)
    }
}

/// Forcing one bit plane of a byte touches that plane and no other.
pub proof fn lemma_bit_set_get(b: u8, k: u8, j: u8, v: bool)
    requires
        k < 8,
        j < 8,
    ensures
        bit_get(bit_set(b, k, v), k) == v,
        j != k ==> bit_get(bit_set(b, k, v), j) == bit_get(b, j),
{
    assert((b | (1u8 << k)) & (1u8 << k) != 0) by (bit_vector)
        requires k < 8;
    assert((b & !(1u8 << k)) & (1u8 << k) == 0) by (bit_vector)
        requires k < 8;
    assert(j != k ==> ((b | (1u8 << k)) & (1u8 << j) == b & (1u8 << j))) by (bit_vector)
        requires k < 8, j < 8;
    assert(j != k ==> ((b & !(1u8 << k)) & (1u8 << j) == b & (1u8 << j))) by (bit_vector)
        requires k < 8, j < 8;
}

/// Two bytes that agree on all eight bit planes are equal.
pub proof fn lemma_byte_ext(x: u8, y: u8)
    requires
        forall|k: u8| k < 8 ==> bit_get(x, k) == bit_get(y, k),
    ensures
        x == y,
{
    assert(bit_get(x, 0) == bit_get(y, 0));
    assert(bit_get(x, 1) == bit_get(y, 1));
    assert(bit_get(x, 2) == bit_get(y, 2));
    assert(bit_get(x, 3) == bit_get(y, 3));
    assert(bit_get(x, 4) == bit_get(y, 4));
    assert(bit_get(x, 5) == bit_get(y, 5));
    assert(bit_get(x, 6) == bit_get(y, 6));
    assert(bit_get(x, 7) == bit_get(y, 7));
    assert(((x & (1u8 << 0) != 0) == (y & (1u8 << 0) != 0)
        && (x & (1u8 << 1) != 0) == (y & (1u8 << 1) != 0)
        && (x & (1u8 << 2) != 0) == (y & (1u8 << 2) != 0)
        && (x & (1u8 << 3) != 0) == (y & (1u8 << 3) != 0)
        && (x & (1u8 << 4) != 0) == (y & (1u8 << 4) != 0)
        && (x & (1u8 << 5) != 0) == (y & (1u8 << 5) != 0)
        && (x & (1u8 << 6) != 0) == (y & (1u8 << 6) != 0)
        && (x & (1u8 << 7) != 0) == (y & (1u8 << 7) != 0)) ==> x == y) by (bit_vector);
}

/// The value `v` rendered as `w` bits, most significant first; only the low
/// `w` bits of `v` are kept.
pub open spec fn to_bits(v: nat, w: nat) -> Seq<bool>
    decreases w,
{
    if w == 0 {
        Seq::empty()
    } else {
        to_bits(v / 2, (w - 1) as nat).push(v % 2 == 1)
    }
}

/// The unsigned value of an MSB-first bit string.
pub open spec fn from_bits(bs: Seq<bool>) -> nat
    decreases bs.len(),
{
    if bs.len() == 0 {
        0
    } else {
        from_bits(bs.drop_last()) * 2 + (if bs.last() {
            1nat
        } else {
            0nat
        })
    }
}

/// The character a single bit is rendered as.
pub open spec fn bit_char(b: bool) -> char {
    if b {
        '1'
    } else {
        '0'
    }
}

/// The bits an MSB-first string of `'0'`/`'1'` characters denotes.
pub open spec fn char_bits(s: Seq<char>) -> Seq<bool> {
    s.map_values(|c: char| c == '1')
}

pub proof fn lemma_to_bits_len(v: nat, w: nat)
    ensures
        to_bits(v, w).len() == w,
    decreases w,
{
    if w > 0 {
        lemma_to_bits_len(v / 2, (w - 1) as nat);
    }
}

/// A `w`-bit string holds a value below `2^w`.
pub proof fn lemma_from_bits_bound(bs: Seq<bool>)
    ensures
        from_bits(bs) < pow2(bs.len()),
    decreases bs.len(),
{
    if bs.len() == 0 {
        assert(pow2(0) == 1) by {
            lemma2_to64();
        }
    } else {
        lemma_from_bits_bound(bs.drop_last());
        lemma_pow2_unfold(bs.len());
    }
}

/// Idempotent framing: parsing the fixed-width rendering of a value that
/// fits the width gives the value back.
pub proof fn lemma_bit_string_round_trip(v: nat, w: nat)
    requires
        v < pow2(w),
    ensures
        from_bits(to_bits(v, w)) == v,
    decreases w,
{
    if w == 0 {
        assert(pow2(0) == 1) by {
            lemma2_to64();
        }
    } else {
        lemma_pow2_unfold(w);
        lemma_to_bits_len(v / 2, (w - 1) as nat);
        let bs = to_bits(v, w);
        assert(bs.drop_last() =~= to_bits(v / 2, (w - 1) as nat));
        lemma_bit_string_round_trip(v / 2, (w - 1) as nat);
        lemma_fundamental_div_mod(v as int, 2);
    }
}

/// The bit at index `i` of the rendering is bit `w - 1 - i` of the value.
pub proof fn lemma_to_bits_index(v: nat, w: nat, i: int)
    requires
        0 <= i < w,
    ensures
        to_bits(v, w)[i] == ((v / pow2((w - 1 - i) as nat)) % 2 == 1),
    decreases w,
{
    lemma_to_bits_len(v / 2, (w - 1) as nat);
    if i == w - 1 {
        assert(pow2(0) == 1) by {
            lemma2_to64();
        }
        assert(to_bits(v, w)[i] == (v % 2 == 1));
        vstd::arithmetic::div_mod::lemma_div_basics(v as int);
        assert(v / pow2(0) == v);
    } else {
        assert(to_bits(v, w)[i] == to_bits(v / 2, (w - 1) as nat)[i]);
        lemma_to_bits_index(v / 2, (w - 1) as nat, i);
        let e = (w - 2 - i) as nat;
        lemma_pow2_pos(e);
        lemma_div_denominator(v as int, 2, pow2(e) as int);
        lemma_pow2_unfold((w - 1 - i) as nat);
        assert(v / 2 / pow2(e) == v / (2 * pow2(e)));
        assert(2 * pow2(e) == pow2((w - 1 - i) as nat));
    }
}

/// Relies on `String::push`: appends exactly the one character to the string.
#[verifier::external_body]
pub(crate) fn push_char(s: &mut String, c: char)
    ensures
        final(s)@ == old(s)@.push(c),
{
    s.push(c)
}

/// Renders `val` as a fixed-width binary string, most significant bit first,
/// zero-padded on the left; fails with `Overflow` exactly when `val` needs
/// more than `bitsize` bits.
pub fn to_bit_string(val: u64, bitsize: usize) -> (r: Result<String, StegoError>)
    ensures
        r is Ok <==> (val as nat) < pow2(bitsize as nat),
        r matches Ok(s) ==> s@.len() == bitsize && (forall|i: int|
            0 <= i < bitsize ==> s@[i] == bit_char(to_bits(val as nat, bitsize as nat)[i])),
        r is Err ==> r == Err::<String, StegoError>(StegoError::Overflow),
{
    proof {
        lemma_to_bits_len(val as nat, bitsize as nat);
    }
    if bitsize < 64 {
        let shifted = val >> (bitsize as u64);
        proof {
            lemma_u64_shr_is_div(val, bitsize as u64);
            lemma_pow2_pos(bitsize as nat);
            if shifted == 0 {
                if val as nat >= pow2(bitsize as nat) {
                    vstd::arithmetic::div_mod::lemma_div_non_zero(
                        val as int,
                        pow2(bitsize as nat) as int,
                    );
                }
                assert((val as nat) < pow2(bitsize as nat));
            } else {
                if (val as nat) < pow2(bitsize as nat) {
                    vstd::arithmetic::div_mod::lemma_basic_div(
                        val as int,
                        pow2(bitsize as nat) as int,
                    );
                }
                assert((val as nat) >= pow2(bitsize as nat));
            }
        }
        if shifted != 0 {
            return Err(StegoError::Overflow);
        }
    } else {
        proof {
            vstd::arithmetic::power2::lemma2_to64_rest();
            if bitsize > 64 {
                lemma_pow2_strictly_increases(64, bitsize as nat);
            }
            assert((val as nat) < pow2(64));
            assert((val as nat) < pow2(bitsize as nat));
        }
    }
    let mut s = String::new();
    let mut i: usize = 0;
    while i < bitsize
        invariant
            i <= bitsize,
            (val as nat) < pow2(bitsize as nat),
            s@.len() == i,
            forall|j: int| 0 <= j < i ==> s@[j] == bit_char(to_bits(val as nat, bitsize as nat)[j]),
        decreases bitsize - i,
    {
        let k = bitsize - 1 - i;
        let bit_is_one: bool = if k < 64 {
            ((val >> (k as u64)) & 1) == 1
        } else {
            false
        };
        proof {
            lemma_to_bits_index(val as nat, bitsize as nat, i as int);
            if k < 64 {
                lemma_u64_shr_is_div(val, k as u64);
                assert((val >> (k as u64)) & 1 == (val >> (k as u64)) % 2) by (bit_vector);
            } else {
                vstd::arithmetic::power2::lemma2_to64_rest();
                assert((val as nat) < pow2(64));
                if k > 64 {
                    lemma_pow2_strictly_increases(64, k as nat);
                }
                vstd::arithmetic::div_mod::lemma_basic_div(val as int, pow2(k as nat) as int);
                assert(val as nat / pow2(k as nat) == 0);
            }
            assert(bit_is_one == to_bits(val as nat, bitsize as nat)[i as int]);
        }
        if bit_is_one {
            push_char(&mut s, '1');
        } else {
            push_char(&mut s, '0');
        }
        i = i + 1;
    }
    Ok(s)
}

/// Parses an MSB-first binary string of `'0'`/`'1'` characters back to the
/// unsigned value it encodes; the exact inverse of `to_bit_string` for every
/// value that fits the width.
pub fn from_bit_string(bits: &str) -> (r: u64)
    requires
        bits@.len() <= 64,
        forall|i: int| 0 <= i < bits@.len() ==> bits@[i] == '0' || bits@[i] == '1',
    ensures
        r as nat == from_bits(char_bits(bits@)),
{
    let n = bits.unicode_len();
    let mut r: u64 = 0;
    let mut i: usize = 0;
    proof {
        lemma2_to64();
        assert(char_bits(bits@).take(0) =~= Seq::<bool>::empty());
    }
    while i < n
        invariant
            i <= n,
            n == bits@.len() <= 64,
            forall|j: int| 0 <= j < bits@.len() ==> bits@[j] == '0' || bits@[j] == '1',
            r as nat == from_bits(char_bits(bits@).take(i as int)),
            (r as nat) < pow2(i as nat),
        decreases n - i,
    {
        let c = bits.get_char(i);
        let b: u64 = if c == '1' {
            1
        } else {
            0
        };
        proof {
            let cb = char_bits(bits@);
            assert(cb.take(i as int + 1).drop_last() =~= cb.take(i as int));
            assert(cb.take(i as int + 1).last() == cb[i as int]);
            assert(cb[i as int] == (bits@[i as int] == '1'));
            lemma_pow2_unfold(i as nat + 1);
            vstd::arithmetic::power2::lemma2_to64_rest();
            if i < 63 {
                lemma_pow2_strictly_increases(i as nat, 63);
            }
            assert(pow2(63) == 0x8000000000000000);
            assert((r as nat) * 2 + 1 <= u64::MAX);
        }
        r = r * 2 + b;
        i = i + 1;
    }
    proof {
        assert(char_bits(bits@).take(n as int) =~= char_bits(bits@));
    }
    r
}

} // verus!
