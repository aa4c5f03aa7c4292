use xisfits::convert::{
    swap_chunk_endianness, u16_to_i16_to_v_u8_be, u32_to_i32_to_v_u8_be, u8_to_i8, u8_to_v_u16,
    u8_to_v_u32, unshuffle,
};

#[test]
fn test_u8_to_i8_reinterprets_bytes() {
    let values = u8_to_i8(&[0, 1, 127, 128, 255]);
    assert_eq!(values, vec![0i8, 1, 127, -128, -1]);
}

#[test]
fn test_u8_to_v_u16_little_endian() {
    // 0x0201 and 0x0403; the trailing byte does not fill a value and is dropped.
    let values = u8_to_v_u16(&[0x01, 0x02, 0x03, 0x04, 0x05]);
    assert_eq!(values, vec![0x0201u16, 0x0403]);
}

#[test]
fn test_u8_to_v_u32_little_endian() {
    let values = u8_to_v_u32(&[0x01, 0x02, 0x03, 0x04, 0xaa, 0xbb]);
    assert_eq!(values, vec![0x0403_0201u32]);
}

#[test]
fn test_u16_clamp_law() {
    // A value above the signed maximum is clamped down to 32767 before the
    // big-endian encode; 40000 yields exactly the bytes of 32767.
    assert_eq!(u16_to_i16_to_v_u8_be(&[40000]), vec![0x7f, 0xff]);
    assert_eq!(u16_to_i16_to_v_u8_be(&[40000]), u16_to_i16_to_v_u8_be(&[32767]));
    // A value in the non-clamped range is encoded unchanged.
    assert_eq!(u16_to_i16_to_v_u8_be(&[0x1234]), vec![0x12, 0x34]);
    assert_eq!(u16_to_i16_to_v_u8_be(&[0, 1]), vec![0x00, 0x00, 0x00, 0x01]);
}

#[test]
fn test_u32_clamp_law() {
    assert_eq!(u32_to_i32_to_v_u8_be(&[0x9000_0000]), vec![0x7f, 0xff, 0xff, 0xff]);
    assert_eq!(u32_to_i32_to_v_u8_be(&[0x0102_0304]), vec![0x01, 0x02, 0x03, 0x04]);
}

#[test]
fn test_swap_chunk_endianness() {
    let swapped = swap_chunk_endianness(&[1, 2, 3, 4, 5, 6, 7, 8], 4);
    assert_eq!(swapped, vec![4, 3, 2, 1, 8, 7, 6, 5]);
    // A trailing partial chunk is dropped.
    let swapped = swap_chunk_endianness(&[1, 2, 3, 4, 5], 2);
    assert_eq!(swapped, vec![2, 1, 4, 3]);
}

fn shuffle(buf: &[u8], width: usize) -> Vec<u8> {
    // The byte-shuffling layout: all samples' byte 0 first, then all byte 1,
    // and so on.
    let n = buf.len() / width;
    let mut out = vec![0u8; buf.len()];
    for i in 0..n {
        for j in 0..width {
            out[j * n + i] = buf[i * width + j];
        }
    }
    out
}

#[test]
fn test_unshuffle_inverts_shuffle() {
    let buf: Vec<u8> = (0u8..30).collect();
    for width in [1usize, 2, 3, 5, 6] {
        let shuffled = shuffle(&buf, width);
        assert_eq!(unshuffle(&shuffled, width), buf, "width {}", width);
    }
}

#[test]
fn test_unshuffle_two_byte_samples() {
    // Three 16-bit samples 0x0201, 0x0403, 0x0605 stored shuffled: low bytes
    // first, then high bytes.
    let shuffled = [0x01, 0x03, 0x05, 0x02, 0x04, 0x06];
    assert_eq!(unshuffle(&shuffled, 2), vec![0x01, 0x02, 0x03, 0x04, 0x05, 0x06]);
}
