use powchain::wire::{
    put_bytes, put_text, put_u128, put_u32, put_usize, take_bytes, take_text, take_u128, take_u32, take_usize,
};

fn standard() -> bincode::config::Configuration {
    bincode::config::standard()
}

#[test]
fn integers_are_encoded_as_bincode_does() {
    for value in [0u32, 1, 250, 251, 65535, 65536, u32::MAX] {
        let mut out = vec![7u8];
        put_u32(&mut out, value);
        let mut expected = vec![7u8];
        expected.extend_from_slice(&bincode::encode_to_vec(value, standard()).unwrap());
        assert_eq!(out, expected);
        assert_eq!(take_u32(&out, 1), Some((value, out.len())));
    }
    for value in [0u128, 250, 251, 1 << 16, 1 << 32, u64::MAX as u128, (u64::MAX as u128) + 1, u128::MAX] {
        let mut out = Vec::new();
        put_u128(&mut out, value);
        assert_eq!(out, bincode::encode_to_vec(value, standard()).unwrap());
        assert_eq!(take_u128(&out, 0), Some((value, out.len())));
    }
    for value in [0usize, 250, 251, 1 << 16, 1 << 32, usize::MAX] {
        let mut out = Vec::new();
        put_usize(&mut out, value);
        assert_eq!(out, bincode::encode_to_vec(value, standard()).unwrap());
        assert_eq!(take_usize(&out, 0), Some((value, out.len())));
    }
}

#[test]
fn exact_integer_bytes() {
    let mut out = Vec::new();
    put_u32(&mut out, 5);
    put_u32(&mut out, 300);
    put_u128(&mut out, 70000);
    assert_eq!(out, vec![5, 251, 44, 1, 252, 112, 17, 1, 0]);
}

#[test]
fn reading_ignores_what_follows_and_needs_what_it_reads() {
    let bytes = [9u8, 251, 44, 1, 42];
    assert_eq!(take_u32(&bytes, 0), Some((9, 1)));
    assert_eq!(take_u32(&bytes, 1), Some((300, 4)));
    assert_eq!(take_u32(&bytes, 4), Some((42, 5)));
    assert_eq!(take_u32(&bytes, 5), None);
    assert_eq!(take_u32(&bytes, 6), None);
    assert_eq!(take_u32(&[251, 44], 0), None);
    assert_eq!(take_u128(&[], 0), None);
    assert_eq!(take_usize(&[252, 1, 2, 3], 0), None);
}

#[test]
fn an_integer_too_wide_for_its_type_is_not_read() {
    let wide = bincode::encode_to_vec(1u64 << 40, standard()).unwrap();
    assert_eq!(take_u32(&wide, 0), None);
    assert_eq!(take_u128(&wide, 0), Some((1 << 40, wide.len())));
    let wider = bincode::encode_to_vec(u128::MAX, standard()).unwrap();
    assert_eq!(take_usize(&wider, 0), None);
}

#[test]
fn byte_strings_are_length_and_bytes() {
    for value in [vec![], vec![0u8], vec![1, 2, 3], vec![9u8; 300]] {
        let mut out = vec![1u8, 1];
        put_bytes(&mut out, &value);
        let mut expected = vec![1u8, 1];
        expected.extend_from_slice(&bincode::encode_to_vec(value.clone(), standard()).unwrap());
        assert_eq!(out, expected);
        assert_eq!(take_bytes(&out, 2), Some((value.clone(), out.len())));
        let decoded: (Vec<u8>, usize) = bincode::decode_from_slice(&out[2..], standard()).unwrap();
        assert_eq!(decoded, (value, out.len() - 2));
    }
    let mut out = Vec::new();
    put_bytes(&mut out, &[7, 8]);
    assert_eq!(out, vec![2, 7, 8]);
}

#[test]
fn a_byte_string_longer_than_what_follows_is_not_read() {
    assert_eq!(take_bytes(&[3, 1, 2], 0), None);
    assert_eq!(take_bytes(&[3, 1, 2, 3], 0), Some((vec![1, 2, 3], 4)));
    assert_eq!(take_bytes(&[253, 255, 255, 255, 255, 255, 255, 255, 255, 1, 2], 0), None);
    assert_eq!(take_bytes(&[253, 255, 255, 255, 255, 255, 255, 255, 127], 0), None);
    assert_eq!(take_bytes(&[], 0), None);
    assert_eq!(take_text(&[253, 255, 255, 255, 255, 255, 255, 255, 255], 0), None);
}

#[test]
fn texts_are_the_byte_strings_of_their_utf8() {
    for value in ["", "a", "localhost:3000", "gr\u{fc}\u{df}e \u{4e16}\u{754c} \u{1f600}"] {
        let text = value.to_string();
        let mut out = Vec::new();
        put_text(&mut out, &text);
        assert_eq!(out, bincode::encode_to_vec(text.clone(), standard()).unwrap());
        assert_eq!(take_text(&out, 0), Some((text, out.len())));
    }
}

#[test]
fn a_text_that_is_not_utf8_is_not_read() {
    assert_eq!(take_text(&[2, 0xc3, 0x28], 0), None);
    assert_eq!(take_text(&[1, 0xff], 0), None);
    assert_eq!(take_text(&[2, 0xc3, 0xbc], 0), Some(("\u{fc}".to_string(), 3)));
    assert_eq!(take_bytes(&[2, 0xc3, 0x28], 0), Some((vec![0xc3, 0x28], 3)));
}

#[test]
fn a_marker_is_read_with_its_width_whatever_the_number() {
    assert_eq!(take_u32(&[251, 5, 0], 0), Some((5, 3)));
    assert_eq!(take_u32(&[252, 1, 0, 0, 0, 9], 0), Some((1, 5)));
    assert_eq!(take_u32(&[252, 0x04, 0x03, 0x02, 0x01], 0), Some((0x01020304, 5)));
    assert_eq!(take_u32(&[253, 1, 0, 0, 0, 0, 0, 0, 0], 0), None);
    assert_eq!(take_u32(&[254, 1, 0, 0, 0, 0, 0, 0, 0, 0, 0, 0, 0, 0, 0, 0, 0], 0), None);
    assert_eq!(take_u32(&[255, 1, 0, 0, 0], 0), None);
    assert_eq!(take_u32(&[250], 0), Some((250, 1)));
    assert_eq!(take_u32(&[252, 1, 0, 0], 0), None);
    assert_eq!(take_u128(&[253, 1, 0, 0, 0, 0, 0, 0, 0], 0), Some((1, 9)));
    assert_eq!(take_u128(&[254, 1, 0, 0, 0, 0, 0, 0, 0, 0, 0, 0, 0, 0, 0, 0, 2], 0), Some((1 + (2u128 << 120), 17)));
    assert_eq!(take_u128(&[255], 0), None);
    assert_eq!(take_usize(&[253, 255, 255, 255, 255, 255, 255, 255, 255], 0), Some((usize::MAX, 9)));
    assert_eq!(take_usize(&[254, 1, 0, 0, 0, 0, 0, 0, 0, 0, 0, 0, 0, 0, 0, 0, 0], 0), None);
    assert_eq!(take_usize(&[251, 0, 1], 0), Some((256, 3)));
}
