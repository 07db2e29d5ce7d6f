use qoi::{add, decode, encode, index_position, lte, sub, DecodeError};

const END: [u8; 8] = [0, 0, 0, 0, 0, 0, 0, 1];

/// The chunk bytes between header and end marker.
fn body(encoded: &[u8]) -> Vec<u8> {
    assert!(encoded.len() >= 22);
    assert_eq!(&encoded[encoded.len() - 8..], &END);
    encoded[14..encoded.len() - 8].to_vec()
}

fn round_trip(w: u32, h: u32, d: u8, c: u8, data: &[u8]) {
    let enc = encode(w, h, d, c, data);
    let img = decode(&enc).unwrap();
    assert_eq!(img.width, w);
    assert_eq!(img.height, h);
    assert_eq!(img.channels, d);
    assert_eq!(img.colorspace, c);
    assert_eq!(img.pixels, data.to_vec());
}

#[test]
fn save_load() {
    const W: usize = 256;
    const H: usize = 256;
    const D: usize = 4;
    const C: usize = 0;

    let mut save = vec![255u8; W * H * D];
    for i in 0..W {
        for j in 0..H {
            save[(i * H + j) * D + 0] = i as u8;
            save[(i * H + j) * D + 1] = j as u8;
            save[(i * H + j) * D + 2] = 0 as u8;
        }
    }

    const E: f32 = 1.0;
    const G: f32 = 1.0 / 2.2;
    for i in (0..save.len()).step_by(D as usize) {
        save[i + 0] = (E * (save[i + 0] as f32 / 255.0).powf(G) * 255.0) as u8;
        save[i + 1] = (E * (save[i + 1] as f32 / 255.0).powf(G) * 255.0) as u8;
        save[i + 2] = (E * (save[i + 2] as f32 / 255.0).powf(G) * 255.0) as u8;
    }

    let encoded = encode(W as u32, H as u32, D as u8, C as u8, &save);
    let load = decode(&encoded).unwrap();

    assert_eq!(load.pixels[..], save[..]);
}

#[test]
fn header_layout() {
    let enc = encode(0x0102_0304, 0xa0b0_c0d0, 3, 1, &[]);
    assert_eq!(
        enc,
        vec![
            b'q', b'o', b'i', b'f', 1, 2, 3, 4, 0xa0, 0xb0, 0xc0, 0xd0, 3, 1, 0, 0, 0, 0, 0, 0, 0, 1
        ]
    );
}

#[test]
fn header_fidelity_extremes() {
    round_trip(u32::MAX, u32::MAX, 4, 255, &[]);
    round_trip(0, 0, 3, 0, &[]);
    round_trip(0x1234_5678, 1, 3, 0xab, &[9, 8, 7]);
}

#[test]
fn round_trip_three_channels() {
    let mut data = Vec::new();
    for k in 0..300u32 {
        data.push((k * 7 % 256) as u8);
        data.push((k / 3 % 256) as u8);
        data.push(if k % 5 == 0 { 200 } else { 10 });
    }
    round_trip(300, 1, 3, 0, &data);
}

#[test]
fn round_trip_four_channels_mixed() {
    let mut data = Vec::new();
    for k in 0..500u32 {
        data.push((k * 13 % 256) as u8);
        data.push((k * k % 256) as u8);
        data.push((k / 7 % 256) as u8);
        data.push(if k % 11 < 3 { 255 } else { (k % 256) as u8 });
    }
    round_trip(25, 20, 4, 1, &data);
}

#[test]
fn run_of_62_is_one_chunk() {
    let data = [0u8, 0, 0, 255].repeat(62);
    let enc = encode(62, 1, 4, 0, &data);
    assert_eq!(body(&enc), vec![0xc0 | 61]);
    round_trip(62, 1, 4, 0, &data);
}

#[test]
fn run_of_63_is_two_chunks() {
    let data = [0u8, 0, 0].repeat(63);
    let enc = encode(63, 1, 3, 0, &data);
    assert_eq!(body(&enc), vec![0xc0 | 61, 0xc0]);
    round_trip(63, 1, 3, 0, &data);
}

#[test]
fn run_of_124_is_two_full_chunks() {
    let data = [0u8, 0, 0, 255].repeat(124);
    let enc = encode(124, 1, 4, 0, &data);
    assert_eq!(body(&enc), vec![0xc0 | 61, 0xc0 | 61]);
    round_trip(124, 1, 4, 0, &data);
}

#[test]
fn run_after_other_pixel() {
    let data = [10u8, 20, 30, 255].repeat(3);
    let enc = encode(3, 1, 4, 0, &data);
    assert_eq!(body(&enc), vec![0xfe, 10, 20, 30, 0xc0 | 1]);
}

#[test]
fn diff_at_lower_and_upper_bounds() {
    // -2, +1, -2 from the starting pixel (0, 0, 0, 255).
    let enc = encode(1, 1, 4, 0, &[254, 1, 254, 255]);
    assert_eq!(body(&enc), vec![0x40 | (0 << 4) | (3 << 2) | 0]);
    // +1 on every channel.
    let enc = encode(1, 1, 3, 0, &[1, 1, 1]);
    assert_eq!(body(&enc), vec![0x7f]);
    round_trip(2, 1, 4, 0, &[254, 1, 254, 255, 255, 2, 255, 255]);
}

#[test]
fn luma_at_green_bounds() {
    // dg = -32, red and blue move with green.
    let enc = encode(1, 1, 4, 0, &[224, 224, 224, 255]);
    assert_eq!(body(&enc), vec![0x80, 0x88]);
    // dg = 31, dr - dg = -8, db - dg = 7.
    let enc = encode(1, 1, 4, 0, &[23, 31, 38, 255]);
    assert_eq!(body(&enc), vec![0x80 | 63, 0x0f]);
    round_trip(2, 1, 4, 0, &[224, 224, 224, 255, 23, 31, 38, 255]);
}

#[test]
fn rgb_and_rgba_chunks() {
    let enc = encode(1, 1, 4, 0, &[100, 0, 0, 255]);
    assert_eq!(body(&enc), vec![0xfe, 100, 0, 0]);
    let enc = encode(1, 1, 4, 0, &[0, 0, 0, 128]);
    assert_eq!(body(&enc), vec![0xff, 0, 0, 0, 128]);
}

#[test]
fn index_on_repeat_and_no_false_index_on_collision() {
    let first = [1u8, 0, 0, 255];
    let second = [65u8, 0, 0, 255];
    let q = [1u8, 1, 0, 255];
    assert_eq!(index_position(first), index_position(second));
    assert_ne!(index_position(first), index_position(q));
    let slot = index_position(first);
    // first, q, first: the repeat of first is found in the table.
    let data: Vec<u8> = [first, q, first].concat();
    let enc = encode(3, 1, 4, 0, &data);
    assert_eq!(body(&enc), vec![0x7a, 0x6e, slot]);
    round_trip(3, 1, 4, 0, &data);
    // first, second, first: second takes the slot of first, so no index is written.
    let data: Vec<u8> = [first, second, first].concat();
    let enc = encode(3, 1, 4, 0, &data);
    assert_eq!(body(&enc), vec![0x7a, 0xfe, 65, 0, 0, 0xfe, 1, 0, 0]);
    round_trip(3, 1, 4, 0, &data);
}

#[test]
fn index_position_values() {
    assert_eq!(index_position([0, 0, 0, 255]), 53);
    assert_eq!(index_position([1, 0, 0, 255]), 56);
    assert_eq!(index_position([255, 255, 255, 255]), (255u32 * 26 % 64) as u8);
    assert_eq!(index_position([0, 0, 0, 0]), 0);
}

#[test]
fn pixel_arithmetic_wraps() {
    assert_eq!(sub([0, 5, 200, 1], [1, 5, 100, 2]), [255, 0, 100, 255]);
    assert_eq!(add([255, 5, 200, 0], [1, 5, 100, 0]), [0, 10, 44, 0]);
    assert!(lte([3, 3, 3, 0], [3, 3, 3, 0]));
    assert!(!lte([4, 0, 0, 0], [3, 3, 3, 0]));
    assert!(!lte([0, 0, 0, 1], [3, 3, 3, 0]));
}

#[test]
fn truncated_last_byte_fails() {
    let data = [10u8, 20, 30, 40, 50, 60].repeat(5);
    let enc = encode(10, 1, 3, 0, &data);
    assert!(decode(&enc).is_ok());
    let cut = &enc[..enc.len() - 1];
    assert_eq!(decode(cut).err(), Some(DecodeError::BadEndMarker));
}

#[test]
fn decode_errors() {
    assert_eq!(decode(&[0u8; 21]).err(), Some(DecodeError::TooShort));
    let mut bad = encode(1, 1, 3, 0, &[1, 2, 3]);
    bad[0] = b'Q';
    assert_eq!(decode(&bad).err(), Some(DecodeError::BadMagic));
    let mut bad = encode(1, 1, 3, 0, &[1, 2, 3]);
    let n = bad.len();
    bad[n - 1] = 2;
    assert_eq!(decode(&bad).err(), Some(DecodeError::BadEndMarker));
    // An RGBA chunk with only three of its four bytes before the end marker.
    let mut cut = encode(0, 0, 4, 0, &[])[..14].to_vec();
    cut.extend_from_slice(&[0xff, 1, 2, 3]);
    cut.extend_from_slice(&END);
    assert_eq!(decode(&cut).err(), Some(DecodeError::Truncated));
}

#[test]
fn decode_three_channels_drops_alpha() {
    let mut s = encode(0, 0, 3, 0, &[])[..14].to_vec();
    s.extend_from_slice(&[0xff, 1, 2, 3, 4, 0xc0 | 1]);
    s.extend_from_slice(&END);
    let img = decode(&s).unwrap();
    assert_eq!(img.pixels, vec![1, 2, 3, 1, 2, 3, 1, 2, 3]);
}
