//! Scenario tests for the codec's documented behaviour: capacity
//! boundaries, framing, mask rotation and the error conditions.

use stego::bits::{from_bit_string, to_bit_string};
use stego::LSBStego;
use stego::PixelBuffer;
use stego::StegoError;

fn carrier(width: u32, height: u32, fill: u8) -> PixelBuffer {
    let n = (width as usize) * (height as usize) * 4;
    PixelBuffer::new(width, height, vec![fill; n])
}

#[test]
fn binary_capacity_boundary() {
    // A 1 x 3 RGBA carrier offers 12 * 8 = 96 bit slots: exactly the 64-bit
    // length prefix plus 4 payload bytes.
    let mut stego = LSBStego::new(carrier(1, 3, 0x10));
    assert!(stego.encode_binary(vec![9, 8, 7, 6]).is_ok());

    // One more byte must fail the pre-flight check, before any mutation.
    let mut stego = LSBStego::new(carrier(1, 3, 0x10));
    assert_eq!(
        stego.encode_binary(vec![9, 8, 7, 6, 5]).unwrap_err(),
        StegoError::CarrierTooSmall
    );
}

#[test]
fn bit_string_framing() {
    assert_eq!(to_bit_string(13, 16).unwrap(), "0000000000001101");
    assert_eq!(to_bit_string(255, 8).unwrap(), "11111111");
    assert_eq!(to_bit_string(0, 4).unwrap(), "0000");
    assert_eq!(to_bit_string(256, 8).unwrap_err(), StegoError::Overflow);

    assert_eq!(from_bit_string("0000000000001101"), 13);
    assert_eq!(from_bit_string(""), 0);
    for v in [0u64, 1, 13, 255, 256, 65535, 123456789] {
        let s = to_bit_string(v, 64).unwrap();
        assert_eq!(from_bit_string(s.as_str()), v);
    }
}

#[test]
fn mask_rotation_reaches_bit_plane_one() {
    // A 1 x 1 RGBA carrier has 4 channel bytes, so bit plane 0 holds
    // exactly 4 slots. Writing a fifth bit must land in bit plane 1 of the
    // first byte: only bit 1 (value 2) changes there, bit 0 stays.
    let mut stego = LSBStego::new(PixelBuffer::new(1, 1, vec![0x01, 0x01, 0x01, 0x01]));
    assert_eq!(stego.get_mask_one(), 1);
    assert_eq!(stego.get_mask_zero(), 254);

    stego.put_binary_value(String::from("0000")).unwrap();
    assert_eq!(stego.get_mask_one(), 2);
    assert_eq!(stego.get_mask_zero(), 253);

    stego.put_binary_value(String::from("1")).unwrap();
    let snapshot = stego.encode_text(String::new()).unwrap();
    // After clearing the four LSBs, byte 0 carries only the new bit 1.
    assert_eq!(snapshot.data()[0] & 0x02, 0x02);
    assert_eq!(snapshot.data()[0] & 0x01, 0x00);
    assert_eq!(snapshot.data()[1] & 0x01, 0x00);
}

#[test]
fn next_slot_exhausts_after_every_plane() {
    // 1 x 1 RGBA: 4 bytes * 8 planes = 32 slots. The cursor can advance 32
    // times (the last advance consumes the final slot); afterwards every
    // request fails.
    let mut stego = LSBStego::new(carrier(1, 1, 0));
    for _ in 0..32 {
        assert!(stego.next_slot().is_ok());
    }
    assert_eq!(stego.next_slot().unwrap_err(), StegoError::CapacityExhausted);
    assert_eq!(stego.next_slot().unwrap_err(), StegoError::CapacityExhausted);
}

#[test]
fn hello_stego_scenario() {
    // 4 x 4 RGBA: 64 channel bytes, 512 bit slots. The 13-character text
    // takes a 16-bit count plus 13 eight-bit fields: 120 slots. Slots 0..64
    // fill bit plane 0, the rest spill into bit plane 1.
    let mut stego = LSBStego::new(carrier(4, 4, 0xFF));
    let msg = String::from("Hello, Stego!");
    let im2 = stego.encode_text(msg.clone()).unwrap();

    // 120 slots consumed: the cursor stands in bit plane 1 (mask value 2).
    assert_eq!(stego.get_mask_one(), 2);

    // The 16-bit length field 0b0000000000001101 sits in the LSBs of the
    // first 16 channel bytes.
    let lsb_bits: Vec<u8> = im2.data().iter().take(16).map(|b| b & 1).collect();
    assert_eq!(lsb_bits, vec![0, 0, 0, 0, 0, 0, 0, 0, 0, 0, 0, 0, 1, 1, 0, 1]);

    let mut stego = LSBStego::new(im2);
    assert_eq!(stego.decode_text().unwrap(), msg);
    assert_eq!(stego.get_mask_one(), 2);
}

#[test]
fn empty_binary_writes_64_zero_bits() {
    // Encoding an empty byte sequence writes the 64 zero bits of the length
    // prefix and nothing else: plane 0 of all 64 bytes is cleared, every
    // other bit is untouched.
    let mut stego = LSBStego::new(carrier(4, 4, 0xFF));
    let im2 = stego.encode_binary(Vec::new()).unwrap();
    for (i, b) in im2.data().iter().enumerate() {
        assert_eq!(*b, 0xFE, "byte {} changed beyond its LSB", i);
    }

    let mut stego = LSBStego::new(im2);
    assert_eq!(stego.decode_binary().unwrap(), Vec::<u8>::new());
}

#[test]
fn text_overflow_on_wide_code_point() {
    let mut stego = LSBStego::new(carrier(16, 16, 0));
    let err = stego.encode_text(String::from("\u{20AC}")).unwrap_err();
    assert_eq!(err, StegoError::Overflow);
}

#[test]
fn text_capacity_exhausted() {
    // 1 x 1 RGBA: 32 slots; three characters need 16 + 24 = 40.
    let mut stego = LSBStego::new(carrier(1, 1, 0));
    assert_eq!(
        stego.encode_text(String::from("abc")).unwrap_err(),
        StegoError::CapacityExhausted
    );
}

#[test]
fn decode_text_malformed_stream() {
    // All-ones carrier: the 16-bit length prefix reads as 65535, far more
    // than the 32 slots the carrier has.
    let mut stego = LSBStego::new(carrier(1, 1, 0xFF));
    assert_eq!(stego.decode_text().unwrap_err(), StegoError::MalformedStream);
}

#[test]
fn decode_binary_malformed_on_oversized_prefix() {
    // All-ones 2 x 1 carrier: the 64-bit length prefix reads as u64::MAX,
    // claiming far more than the carrier holds — a truncated or foreign
    // stream, rejected before any allocation.
    let mut stego = LSBStego::new(carrier(2, 1, 0xFF));
    assert_eq!(stego.decode_binary().unwrap_err(), StegoError::MalformedStream);
}

#[test]
fn encode_image_carrier_too_small() {
    let mut stego = LSBStego::new(carrier(2, 2, 0));
    let hidden = carrier(8, 8, 0x42);
    assert_eq!(stego.encode_image(hidden).unwrap_err(), StegoError::CarrierTooSmall);
}

#[test]
fn decode_image_malformed_stream() {
    // All-ones carrier: width and height both read as 65535, announcing far
    // more pixel data than the carrier holds.
    let mut stego = LSBStego::new(carrier(4, 4, 0xFF));
    assert_eq!(stego.decode_image().unwrap_err(), StegoError::MalformedStream);
}

#[test]
fn encode_text_chains_after_binary() {
    // Two payloads back to back on one codec: the cursor carries on, and a
    // fresh decoder recovers both in order.
    let mut stego = LSBStego::new(carrier(8, 8, 0x55));
    stego.encode_binary(vec![1, 2, 3]).unwrap();
    let im2 = stego.encode_text(String::from("hi")).unwrap();

    let mut stego = LSBStego::new(im2);
    assert_eq!(stego.decode_binary().unwrap(), vec![1, 2, 3]);
    assert_eq!(stego.decode_text().unwrap(), "hi");
}
