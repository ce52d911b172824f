//! End-to-end checks of the image codec: concrete streams, error
//! boundaries, run folding, and round trips in both pixel formats.

use algorithms::qoi::decode::DecodeError;
use algorithms::qoi::encode::EncodeError;
use algorithms::qoi::header::{Colors, Qoi};
use algorithms::qoi::pixel::Pixel;

fn header_of(w: u32, h: u32, colors: Colors) -> Qoi {
    Qoi { width: w, height: h, colors }
}

#[test]
fn header_round_trip_all_modes() {
    for colors in [Colors::Srgb, Colors::SrgbLinA, Colors::Rgb, Colors::Rgba] {
        let q = header_of(640, 480, colors);
        let encoded = q.encode_alloc(&vec![7u8; 640 * 480 * q.colors.channels()]).unwrap();
        let parsed = Qoi::decode_header(&encoded).unwrap();
        assert_eq!(parsed, q);
    }
}

#[test]
fn decode_header_too_short() {
    let q = header_of(1, 1, Colors::Rgb);
    let encoded = q.encode_alloc(&[1, 2, 3]).unwrap();
    let r = Qoi::decode_header(&encoded[..13]);
    assert_eq!(r, Err(DecodeError::NotEnoughData));
}

#[test]
fn decode_header_bad_magic() {
    let q = header_of(1, 1, Colors::Rgb);
    let mut encoded = q.encode_alloc(&[1, 2, 3]).unwrap();
    encoded[0] = 0x00;
    assert_eq!(Qoi::decode_header(&encoded), Err(DecodeError::InvalidMagic));
}

#[test]
fn decode_header_bad_channels_and_colorspace() {
    let q = header_of(1, 1, Colors::Rgb);
    let good = q.encode_alloc(&[1, 2, 3]).unwrap();
    let mut bad_ch = good.clone();
    bad_ch[12] = 7;
    assert_eq!(Qoi::decode_header(&bad_ch), Err(DecodeError::InvalidChannelsValue));
    let mut bad_cs = good.clone();
    bad_cs[13] = 9;
    assert_eq!(Qoi::decode_header(&bad_cs), Err(DecodeError::InvalidColorSpaceValue));
}

#[test]
fn encode_into_empty_output_fails() {
    let q = header_of(1, 1, Colors::Rgb);
    let mut out: Vec<u8> = Vec::new();
    assert_eq!(q.encode(&[1, 2, 3], &mut out), Err(EncodeError::OutputIsTooSmall));
}

#[test]
fn encode_with_short_pixels_fails() {
    let q = header_of(2, 2, Colors::Rgb);
    assert_eq!(q.encode_alloc(&[1, 2, 3]), Err(EncodeError::NotEnoughPixelData));
}

#[test]
fn one_by_two_gray_image() {
    // both pixels [10,10,10]: the first goes out as a two-byte luma
    // delta from the opaque start pixel, the second folds into a run
    let q = header_of(1, 2, Colors::Rgb);
    let pixels = [10u8, 10, 10, 10, 10, 10];
    let encoded = q.encode_alloc(&pixels).unwrap();
    assert_eq!(encoded.len(), 14 + 3 + 8);
    assert_eq!(&encoded[14..17], &[0xAA, 0x88, 0xC0]);
    let (back, decoded) = Qoi::decode_alloc(&encoded).unwrap();
    assert_eq!(back, q);
    assert_eq!(decoded, pixels.to_vec());
}

#[test]
fn one_by_one_rgba_literal() {
    // alpha 4 differs from the starting alpha 255, forcing the full
    // four-channel literal
    let q = header_of(1, 1, Colors::Rgba);
    let pixels = [1u8, 2, 3, 4];
    let encoded = q.encode_alloc(&pixels).unwrap();
    assert_eq!(&encoded[14..19], &[0xFF, 1, 2, 3, 4]);
    let (back, decoded) = Qoi::decode_alloc(&encoded).unwrap();
    assert_eq!(back, q);
    assert_eq!(decoded, pixels.to_vec());
}

#[test]
fn constant_black_runs_fold() {
    // 63 pixels equal to the opaque start pixel: one full run opcode and
    // a one-pixel remainder
    let q = header_of(63, 1, Colors::Rgb);
    let pixels = vec![0u8; 63 * 3];
    let encoded = q.encode_alloc(&pixels).unwrap();
    assert_eq!(&encoded[14..16], &[0xFD, 0xC0]);
    assert_eq!(encoded.len(), 14 + 2 + 8);
    let (_, decoded) = Qoi::decode_alloc(&encoded).unwrap();
    assert_eq!(decoded, pixels);
}

#[test]
fn constant_color_runs_fold() {
    // 125 pixels of one non-black color: a first delta opcode, then one
    // full run opcode per 62 repeats
    let q = header_of(125, 1, Colors::Rgb);
    let mut pixels = Vec::new();
    for _ in 0..125 {
        pixels.extend_from_slice(&[5, 5, 5]);
    }
    let encoded = q.encode_alloc(&pixels).unwrap();
    // luma opcode, two full runs of 62
    assert_eq!(&encoded[14..18], &[0x80 + 37, 0x88, 0xFD, 0xFD]);
    let (_, decoded) = Qoi::decode_alloc(&encoded).unwrap();
    assert_eq!(decoded, pixels);
}

#[test]
fn cache_hit_emits_index() {
    // A B A: the second A is served from the cache slot in one byte
    let q = header_of(3, 1, Colors::Rgb);
    let a = [110u8, 120, 130];
    let b = [200u8, 40, 90];
    let mut pixels = Vec::new();
    pixels.extend_from_slice(&a);
    pixels.extend_from_slice(&b);
    pixels.extend_from_slice(&a);
    let encoded = q.encode_alloc(&pixels).unwrap();
    let (_, decoded) = Qoi::decode_alloc(&encoded).unwrap();
    assert_eq!(decoded, pixels);
    // hash of (110,120,130,255): (3*110 + 5*120 + 7*130 + 11*255) % 64
    let slot = (3 * 110u32 + 5 * 120 + 7 * 130 + 11 * 255) % 64;
    assert_eq!(encoded[encoded.len() - 9], slot as u8);
}

#[test]
fn round_trip_varied_rgb() {
    let q = header_of(4, 3, Colors::Srgb);
    let mut pixels = Vec::new();
    let values = [
        [0u8, 0, 0],
        [1, 1, 1],
        [1, 1, 1],
        [200, 5, 90],
        [201, 6, 91],
        [190, 250, 80],
        [0, 0, 0],
        [200, 5, 90],
        [255, 255, 255],
        [127, 128, 129],
        [127, 128, 129],
        [127, 128, 129],
    ];
    for v in values {
        pixels.extend_from_slice(&v);
    }
    let encoded = q.encode_alloc(&pixels).unwrap();
    let (back, decoded) = Qoi::decode_alloc(&encoded).unwrap();
    assert_eq!(back, q);
    assert_eq!(decoded, pixels);
}

#[test]
fn round_trip_varied_rgba() {
    let q = header_of(3, 3, Colors::SrgbLinA);
    let mut pixels = Vec::new();
    let values = [
        [0u8, 0, 0, 255],
        [0, 0, 0, 0],
        [10, 20, 30, 0],
        [10, 20, 30, 0],
        [12, 21, 31, 0],
        [12, 21, 31, 255],
        [0, 0, 0, 0],
        [255, 0, 255, 128],
        [254, 255, 253, 128],
    ];
    for v in values {
        pixels.extend_from_slice(&v);
    }
    let encoded = q.encode_alloc(&pixels).unwrap();
    let (back, decoded) = Qoi::decode_alloc(&encoded).unwrap();
    assert_eq!(back, q);
    assert_eq!(decoded, pixels);
}

#[test]
fn round_trip_empty_image() {
    let q = header_of(0, 7, Colors::Rgba);
    let encoded = q.encode_alloc(&[]).unwrap();
    assert_eq!(encoded.len(), 14 + 8);
    let (back, decoded) = Qoi::decode_alloc(&encoded).unwrap();
    assert_eq!(back, q);
    assert!(decoded.is_empty());
}

#[test]
fn encoding_twice_is_identical() {
    let q = header_of(2, 2, Colors::Rgb);
    let pixels = [9u8, 8, 7, 6, 5, 4, 3, 2, 1, 0, 1, 2];
    let once = q.encode_alloc(&pixels).unwrap();
    let twice = q.encode_alloc(&pixels).unwrap();
    assert_eq!(once, twice);
}

#[test]
fn decode_truncated_stream_fails() {
    let q = header_of(2, 1, Colors::Rgb);
    let encoded = q.encode_alloc(&[9, 8, 7, 6, 5, 4]).unwrap();
    let cut = &encoded[..15];
    assert_eq!(Qoi::decode_alloc(cut), Err(DecodeError::NotEnoughData));
}

#[test]
fn decode_into_short_output_fails() {
    let q = header_of(2, 1, Colors::Rgb);
    let encoded = q.encode_alloc(&[9, 8, 7, 6, 5, 4]).unwrap();
    let mut out = vec![0u8; 3];
    assert_eq!(Qoi::decode(&encoded, &mut out), Err(DecodeError::OutputIsTooSmall));
}

#[test]
fn chunked_decode_resumes_runs() {
    // decode a 64-pixel run into two 32-pixel windows, carrying the run
    // state across the calls
    let q = header_of(64, 1, Colors::Rgb);
    let pixels = vec![0u8; 64 * 3];
    let encoded = q.encode_alloc(&pixels).unwrap();
    let body = &encoded[14..];

    let mut index: Vec<Pixel> = Vec::new();
    for _ in 0..64 {
        index.push(Pixel::new_opaque());
    }
    let mut px = Pixel::new_opaque();
    let mut run: usize = 0;
    let mut out = vec![9u8; 96];
    let used = Qoi::decode_range(&mut index, &mut px, &mut run, body, 0, &mut out, 0, 96, false)
        .unwrap();
    assert_eq!(out, vec![0u8; 96]);
    let mut out2 = vec![9u8; 96];
    Qoi::decode_range(&mut index, &mut px, &mut run, body, used, &mut out2, 0, 96, false)
        .unwrap();
    assert_eq!(out2, vec![0u8; 96]);
}
