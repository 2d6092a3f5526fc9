//! The library's laws: round-trip guarantees relating each encoder to its
//! decoder over the stream model, and the mask-rotation guarantee for the
//! slot allocator.
//!
//! Each encoder ensures that its frame stands in the carrier's bit stream
//! at the cursor's starting position; each decoder ensures that its result
//! is the parse of that stream. The lemmas here close the loop: a parse of
//! a freshly written frame gives back exactly what was encoded.

use vstd::prelude::*;
use vstd::arithmetic::power2::{pow2, lemma2_to64};

use crate::bits::{bit_get, bit_set, to_bits, lemma_to_bits_len, lemma_byte_ext, lemma_bit_set_get};
use crate::pixel::PixelView;
use crate::stream::{
    stream_bit, stream_u, text_frame, binary_frame, image_frame, fields8, parse_text, parse_binary,
    parse_image, lemma_stream_u_of_bits, lemma_field_index, lemma_slot_split,
};

verus! {

/// Round trip for text: when the text frame of `chars` stands in the
/// stream at `p` (as `encode_text` ensures of the buffer it returns) and
/// `chars` is within the supported range, parsing from `p` (which is what
/// `decode_text` returns) yields exactly `chars`.
pub proof fn lemma_text_round_trip(chars: Seq<char>, data: Seq<u8>, p: nat)
    requires
        forall|i: int| 0 <= i < chars.len() ==> (chars[i] as nat) < 256,
        chars.len() < 65536,
        p + 16 + 8 * chars.len() <= data.len() * 8,
        forall|j: int|
            0 <= j < 16 + 8 * chars.len() ==> stream_bit(data, (p + j) as nat) == text_frame(
                chars,
            )[j],
    ensures
        parse_text(data, p) == Some(chars),
{
    lemma_to_bits_len(chars.len(), 16);
    lemma2_to64();
    let vals = chars.map_values(|c: char| c as nat);
    assert forall|j: int| 0 <= j < 16 implies stream_bit(data, (p + j) as nat) == to_bits(
        chars.len(),
        16,
    )[j] by {
        assert(text_frame(chars)[j] == to_bits(chars.len(), 16)[j]);
    }
    lemma_stream_u_of_bits(data, p, chars.len(), 16);
    assert(stream_u(data, p, 16) == chars.len());
    assert forall|i: int| 0 <= i < chars.len() implies stream_u(data, (p + 16 + 8 * i) as nat, 8)
        == (#[trigger] chars[i]) as nat by {
        assert forall|j: int| 0 <= j < 8 implies stream_bit(data, ((p + 16 + 8 * i) + j) as nat)
            == #[trigger] to_bits(chars[i] as nat, 8)[j] by {
            lemma_field_index(i as nat, j as nat);
            assert(text_frame(chars)[16 + 8 * i + j] == fields8(vals)[8 * i + j]);
            assert(fields8(vals)[8 * i + j] == to_bits(vals[i], 8)[j]);
        }
        lemma_stream_u_of_bits(data, (p + 16 + 8 * i) as nat, chars[i] as nat, 8);
    }
    let parsed = parse_text(data, p)->Some_0;
    assert forall|i: int| 0 <= i < chars.len() implies parsed[i] == chars[i] by {
        assert(stream_u(data, (p + 16 + 8 * i) as nat, 8) == chars[i] as nat);
        let v = chars[i] as nat;
        assert(v < 256);
        assert((v as u8) as nat == v);
        vstd::utf8::char_u32_cast(chars[i], chars[i] as u32);
        assert((v as u8) as char == chars[i]);
    }
    assert(parsed =~= chars);
}

/// Round trip for binary data: when the binary frame of `bytes` stands in
/// the stream at `p` (as `encode_binary` ensures of the buffer it returns),
/// parsing from `p` (which is what `decode_binary` returns) yields exactly
/// `bytes`.
pub proof fn lemma_binary_round_trip(bytes: Seq<u8>, data: Seq<u8>, p: nat)
    requires
        bytes.len() < 0x10000000000000000,
        p + 64 + 8 * bytes.len() <= data.len() * 8,
        forall|j: int|
            0 <= j < 64 + 8 * bytes.len() ==> stream_bit(data, (p + j) as nat) == binary_frame(
                bytes,
            )[j],
    ensures
        parse_binary(data, p) == Some(bytes),
{
    lemma_to_bits_len(bytes.len(), 64);
    vstd::arithmetic::power2::lemma2_to64_rest();
    let vals = bytes.map_values(|b: u8| b as nat);
    assert forall|j: int| 0 <= j < 64 implies stream_bit(data, (p + j) as nat) == to_bits(
        bytes.len(),
        64,
    )[j] by {
        assert(binary_frame(bytes)[j] == to_bits(bytes.len(), 64)[j]);
    }
    lemma_stream_u_of_bits(data, p, bytes.len(), 64);
    assert(stream_u(data, p, 64) == bytes.len());
    lemma2_to64();
    assert forall|i: int| 0 <= i < bytes.len() implies stream_u(data, (p + 64 + 8 * i) as nat, 8)
        == (#[trigger] bytes[i]) as nat by {
        assert forall|j: int| 0 <= j < 8 implies stream_bit(data, ((p + 64 + 8 * i) + j) as nat)
            == #[trigger] to_bits(bytes[i] as nat, 8)[j] by {
            lemma_field_index(i as nat, j as nat);
            assert(binary_frame(bytes)[64 + 8 * i + j] == fields8(vals)[8 * i + j]);
            assert(fields8(vals)[8 * i + j] == to_bits(vals[i], 8)[j]);
        }
        lemma_stream_u_of_bits(data, (p + 64 + 8 * i) as nat, bytes[i] as nat, 8);
    }
    let parsed = parse_binary(data, p)->Some_0;
    assert(parsed =~= bytes);
}

/// Round trip for an embedded image: when the image frame of a
/// `width x height` pixel buffer stands in the stream at `p` (as
/// `encode_image` ensures of the buffer it returns), parsing from `p`
/// (which is what `decode_image` returns) reproduces the width, the height
/// and every channel byte exactly.
pub proof fn lemma_image_round_trip(w: nat, h: nat, img_data: Seq<u8>, data: Seq<u8>, p: nat)
    requires
        w < 65536,
        h < 65536,
        img_data.len() == w * h * 4,
        p + 32 + 8 * img_data.len() <= data.len() * 8,
        forall|j: int|
            0 <= j < 32 + 8 * img_data.len() ==> stream_bit(data, (p + j) as nat) == image_frame(
                w,
                h,
                img_data,
            )[j],
    ensures
        parse_image(data, p) == Some(PixelView { width: w, height: h, data: img_data }),
{
    lemma_to_bits_len(w, 16);
    lemma_to_bits_len(h, 16);
    lemma2_to64();
    let vals = img_data.map_values(|b: u8| b as nat);
    assert forall|j: int| 0 <= j < 16 implies stream_bit(data, (p + j) as nat) == to_bits(
        w,
        16,
    )[j] by {
        assert(image_frame(w, h, img_data)[j] == to_bits(w, 16)[j]);
    }
    lemma_stream_u_of_bits(data, p, w, 16);
    assert forall|j: int| 0 <= j < 16 implies stream_bit(data, ((p + 16) + j) as nat) == to_bits(
        h,
        16,
    )[j] by {
        assert(image_frame(w, h, img_data)[16 + j] == to_bits(h, 16)[j]);
    }
    lemma_stream_u_of_bits(data, (p + 16) as nat, h, 16);
    assert(stream_u(data, p, 16) == w);
    assert(stream_u(data, (p + 16) as nat, 16) == h);
    assert(8 * img_data.len() == w * h * 32);
    assert forall|i: int| 0 <= i < img_data.len() implies stream_u(
        data,
        (p + 32 + 8 * i) as nat,
        8,
    ) == (#[trigger] img_data[i]) as nat by {
        assert forall|j: int| 0 <= j < 8 implies stream_bit(data, ((p + 32 + 8 * i) + j) as nat)
            == #[trigger] to_bits(img_data[i] as nat, 8)[j] by {
            lemma_field_index(i as nat, j as nat);
            assert(image_frame(w, h, img_data)[32 + 8 * i + j] == fields8(vals)[8 * i + j]);
            assert(fields8(vals)[8 * i + j] == to_bits(vals[i], 8)[j]);
        }
        lemma_stream_u_of_bits(data, (p + 32 + 8 * i) as nat, img_data[i] as nat, 8);
    }
    let parsed = parse_image(data, p)->Some_0;
    assert(parsed.data =~= img_data);
    assert(parsed == (PixelView { width: w, height: h, data: img_data }));
}

/// Mask rotation: writing the first slot after bit plane 0 is saturated
/// (slot `n` over an `n`-byte carrier, which is where the cursor stands
/// after `n` writes) changes only bit 1 — the plane of value 2 — of the
/// first channel byte: every other byte is untouched, and bit 0 of that
/// byte keeps its value.
pub proof fn lemma_mask_rotation(data: Seq<u8>, data2: Seq<u8>, b: bool)
    requires
        data.len() == data2.len(),
        data.len() >= 1,
        stream_bit(data2, data.len()) == b,
        forall|s: nat|
            s < data.len() * 8 && s != data.len() ==> stream_bit(data2, s) == stream_bit(data, s),
    ensures
        forall|j: int| 1 <= j < data.len() ==> data2[j] == data[j],
        data2[0] == bit_set(data[0], 1, b),
        bit_get(data2[0], 0) == bit_get(data[0], 0),
        b ==> data2[0] == (data[0] | 2),
        !b ==> data2[0] == (data[0] & 0xFD),
{
    let n = data.len();
    assert forall|j: int| 1 <= j < n implies data2[j] == data[j] by {
        assert forall|k: u8| k < 8 implies bit_get(data2[j], k) == bit_get(data[j], k) by {
            let s = (k as nat) * n + (j as nat);
            lemma_slot_split(n, k as nat, j as nat);
            assert(s != n) by (nonlinear_arith)
                requires
                    s == (k as nat) * n + (j as nat),
                    1 <= j < n,
                    k < 8,
            ;
            assert(stream_bit(data2, s) == stream_bit(data, s));
        }
        lemma_byte_ext(data2[j], data[j]);
    }
    assert forall|k: u8| k < 8 implies bit_get(data2[0], k) == bit_get(
        bit_set(data[0], 1, b),
        k,
    ) by {
        let s = (k as nat) * n;
        lemma_slot_split(n, k as nat, 0);
        lemma_bit_set_get(data[0], 1, k, b);
        if k == 1 {
            assert(s == n);
            assert(stream_bit(data2, s) == bit_get(data2[0], 1));
        } else {
            assert(s != n) by (nonlinear_arith)
                requires
                    s == (k as nat) * n,
                    n >= 1,
                    k < 8,
                    k != 1,
            ;
            assert(stream_bit(data2, s) == stream_bit(data, s));
        }
    }
    lemma_byte_ext(data2[0], bit_set(data[0], 1, b));
    lemma_bit_set_get(data[0], 1, 0, b);
    assert((1u8 << 1) == 2) by (bit_vector);
    assert((!(1u8 << 1)) == 0xFD) by (bit_vector);
}

/// An empty byte sequence frames as exactly the 64 zero bits of its length
/// prefix and nothing further: together with `encode_binary`'s guarantee
/// that every slot outside the frame is untouched, encoding it writes 64
/// zero bits and nothing else.
pub proof fn lemma_empty_binary_frame()
    ensures
        binary_frame(Seq::<u8>::empty()).len() == 64,
        forall|j: int| 0 <= j < 64 ==> !binary_frame(Seq::<u8>::empty())[j],
{
    lemma_to_bits_len(0, 64);
    assert forall|j: int| 0 <= j < 64 implies !binary_frame(Seq::<u8>::empty())[j] by {
        crate::bits::lemma_to_bits_index(0, 64, j);
        let e = (63 - j) as nat;
        vstd::arithmetic::power2::lemma_pow2_pos(e);
        vstd::arithmetic::div_mod::lemma_div_basics(pow2(e) as int);
        assert(binary_frame(Seq::<u8>::empty())[j] == to_bits(0, 64)[j]);
        assert(0nat / pow2(e) == 0);
    }
}

} // verus!

