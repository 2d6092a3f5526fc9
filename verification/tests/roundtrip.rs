//! Round-trip tests: what the codec hides in a carrier it recovers
//! losslessly from the mutated carrier.

use stego::LSBStego;
use stego::PixelBuffer;

fn carrier(width: u32, height: u32, fill: u8) -> PixelBuffer {
    let n = (width as usize) * (height as usize) * 4;
    PixelBuffer::new(width, height, vec![fill; n])
}

#[test]
fn encode_decode_text() {
    let mut stego = LSBStego::new(carrier(16, 16, 0x7F));

    let msg = String::from("Hello, Stego!");

    let im2 = stego.encode_text(msg.clone()).unwrap();

    let mut stego = LSBStego::from_rgba(im2);

    let decoded = stego.decode_text().unwrap();

    assert_eq!(msg, decoded);
}

#[test]
fn encode_decode_binary() {
    let mut stego = LSBStego::new(carrier(16, 16, 0xA5));

    let bytes: Vec<u8> = vec![0, 1, 2, 3, 255, 254, 128, 42, 0, 77];

    let im2 = stego.encode_binary(bytes.clone()).unwrap();

    let mut stego = LSBStego::from_rgba(im2);

    let decoded = stego.decode_binary().unwrap();

    assert_eq!(bytes, decoded);
}

#[test]
fn encode_decode_image() {
    let mut stego = LSBStego::new(carrier(8, 8, 0x33));

    let hidden_data: Vec<u8> = (0u8..16).map(|x| x * 13).collect();
    let hidden = PixelBuffer::new(2, 2, hidden_data.clone());

    let im2 = stego.encode_image(hidden).unwrap();

    let mut stego = LSBStego::from_rgba(im2);

    let decoded = stego.decode_image().unwrap();

    assert_eq!(decoded.width(), 2);
    assert_eq!(decoded.height(), 2);
    assert_eq!(decoded.data().as_slice(), hidden_data.as_slice());
}

#[test]
fn text_round_trip_full_latin1_range() {
    let mut stego = LSBStego::new(carrier(16, 16, 0x00));

    let msg: String = ['A', 'z', '\u{00FF}', '\u{00E9}', ' ', '0'].iter().collect();

    let im2 = stego.encode_text(msg.clone()).unwrap();

    let mut stego = LSBStego::new(im2);

    assert_eq!(stego.decode_text().unwrap(), msg);
}

#[test]
fn empty_text_round_trip() {
    let mut stego = LSBStego::new(carrier(2, 2, 0xFF));

    let im2 = stego.encode_text(String::new()).unwrap();

    let mut stego = LSBStego::new(im2);

    assert_eq!(stego.decode_text().unwrap(), String::new());
}
