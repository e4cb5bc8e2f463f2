use protohackers::cipher::{
    apply_cipher_spec, apply_cipher_spec_reverse, is_noop_cipher_spec, parse_cipher_spec,
    parse_cipher_spec_checked, CipherOp,
};

#[test]
fn parses_operations_up_to_the_terminating_zero() {
    assert_eq!(
        parse_cipher_spec(&[0x02, 0x01, 0x01, 0x00]),
        vec![CipherOp::Xor(1), CipherOp::ReverseBits]
    );
    assert_eq!(
        parse_cipher_spec(&[0x02, 0x7b, 0x05, 0x01, 0x00]),
        vec![CipherOp::Xor(0x7b), CipherOp::AddPos, CipherOp::ReverseBits]
    );
    assert_eq!(
        parse_cipher_spec(&[0x03, 0x04, 0x09, 0x00, 0x01]),
        vec![CipherOp::XorPos, CipherOp::Add(9)]
    );
}

#[test]
fn parsing_stops_at_an_unknown_byte_or_the_end() {
    assert_eq!(parse_cipher_spec(&[0x01, 0x07, 0x01]), vec![CipherOp::ReverseBits]);
    assert_eq!(parse_cipher_spec(&[0x05, 0x05]), vec![CipherOp::AddPos, CipherOp::AddPos]);
    assert_eq!(parse_cipher_spec(&[]), vec![]);
}

#[test]
fn an_argument_missing_at_the_end_is_no_spec() {
    assert_eq!(parse_cipher_spec_checked(&[0x02]), None);
    assert_eq!(parse_cipher_spec_checked(&[0x01, 0x04]), None);
    assert_eq!(parse_cipher_spec_checked(&[0x01, 0x00]), Some(vec![CipherOp::ReverseBits]));
}

#[test]
fn xor_then_reverse_bits_encodes_hello() {
    let spec = [CipherOp::Xor(1), CipherOp::ReverseBits];
    let mut buf = b"hello".to_vec();
    apply_cipher_spec(&mut buf, &spec, 0);
    assert_eq!(buf, vec![0x96, 0x26, 0xb6, 0xb6, 0x76]);
}

#[test]
fn add_pos_twice_encodes_hello() {
    let spec = [CipherOp::AddPos, CipherOp::AddPos];
    let mut buf = b"hello".to_vec();
    apply_cipher_spec(&mut buf, &spec, 0);
    assert_eq!(buf, vec![0x68, 0x67, 0x70, 0x72, 0x77]);
}

#[test]
fn reverse_bits_mirrors_each_byte() {
    let mut buf = vec![0x01, 0x80, 0x0f, 0xa0];
    apply_cipher_spec(&mut buf, &[CipherOp::ReverseBits], 0);
    assert_eq!(buf, vec![0x80, 0x01, 0xf0, 0x05]);
}

#[test]
fn positions_continue_from_the_stream_position() {
    let mut buf = vec![0u8, 0, 0];
    apply_cipher_spec(&mut buf, &[CipherOp::XorPos], 254);
    assert_eq!(buf, vec![254, 255, 0]);
    let mut buf = vec![10u8, 10];
    apply_cipher_spec(&mut buf, &[CipherOp::AddPos], 255);
    assert_eq!(buf, vec![9, 10]);
}

#[test]
fn add_wraps_around() {
    let mut buf = vec![250u8, 3];
    apply_cipher_spec(&mut buf, &[CipherOp::Add(10)], 0);
    assert_eq!(buf, vec![4, 13]);
    apply_cipher_spec_reverse(&mut buf, &[CipherOp::Add(10)], 0);
    assert_eq!(buf, vec![250, 3]);
}

#[test]
fn decoding_undoes_encoding() {
    let spec = [
        CipherOp::Xor(0x5a),
        CipherOp::AddPos,
        CipherOp::ReverseBits,
        CipherOp::Add(77),
        CipherOp::XorPos,
    ];
    let plain: Vec<u8> = (0..=255u8).chain(b"4x dog,5x car\n".iter().copied()).collect();
    let mut buf = plain.clone();
    apply_cipher_spec(&mut buf, &spec, 1000);
    assert_ne!(buf, plain);
    apply_cipher_spec_reverse(&mut buf, &spec, 1000);
    assert_eq!(buf, plain);
}

#[test]
fn encoding_undoes_decoding() {
    let spec = [CipherOp::AddPos, CipherOp::Xor(3), CipherOp::ReverseBits];
    let plain = b"10x toy car,15x dog on a string\n".to_vec();
    let mut buf = plain.clone();
    apply_cipher_spec_reverse(&mut buf, &spec, 7);
    apply_cipher_spec(&mut buf, &spec, 7);
    assert_eq!(buf, plain);
}

#[test]
fn noop_specs_are_recognised() {
    assert!(is_noop_cipher_spec(&[]));
    assert!(is_noop_cipher_spec(&[CipherOp::Xor(0)]));
    assert!(is_noop_cipher_spec(&[CipherOp::Xor(0xab), CipherOp::Xor(0xab)]));
    assert!(is_noop_cipher_spec(&[CipherOp::ReverseBits, CipherOp::ReverseBits]));
    assert!(is_noop_cipher_spec(&[CipherOp::XorPos, CipherOp::XorPos]));
    assert!(is_noop_cipher_spec(&[CipherOp::Add(0)]));
    assert!(is_noop_cipher_spec(&[CipherOp::Xor(0xa0), CipherOp::Xor(0x0b), CipherOp::Xor(0xab)]));
}

#[test]
fn specs_that_change_bytes_are_not_noop() {
    assert!(!is_noop_cipher_spec(&[CipherOp::AddPos]));
    assert!(!is_noop_cipher_spec(&[CipherOp::AddPos, CipherOp::Add(0)]));
    assert!(!is_noop_cipher_spec(&[CipherOp::Add(1)]));
    assert!(!is_noop_cipher_spec(&[CipherOp::XorPos]));
    assert!(!is_noop_cipher_spec(&[CipherOp::ReverseBits]));
    assert!(!is_noop_cipher_spec(&[CipherOp::Xor(1), CipherOp::Xor(2)]));
}

#[test]
fn an_encoded_spec_reads_back_whatever_follows() {
    let ops = vec![
        CipherOp::Xor(0),
        CipherOp::ReverseBits,
        CipherOp::Add(4),
        CipherOp::XorPos,
        CipherOp::AddPos,
        CipherOp::Xor(5),
    ];
    let mut bytes = vec![0x02, 0x00, 0x01, 0x04, 0x04, 0x03, 0x05, 0x02, 0x05, 0x00];
    bytes.extend_from_slice(&[0x01, 0x02, 0xff]);
    assert_eq!(parse_cipher_spec(&bytes), ops);
}

#[test]
fn positions_repeat_every_256_bytes() {
    let spec = [CipherOp::AddPos, CipherOp::XorPos, CipherOp::Xor(9)];
    let mut at_3 = b"same bytes".to_vec();
    let mut at_259 = at_3.clone();
    apply_cipher_spec(&mut at_3, &spec, 3);
    apply_cipher_spec(&mut at_259, &spec, 259);
    assert_eq!(at_3, at_259);
}

#[test]
fn a_buffer_encrypts_as_its_two_halves() {
    let spec = [CipherOp::AddPos, CipherOp::ReverseBits, CipherOp::XorPos];
    let mut whole = b"10x toy car,15x dog".to_vec();
    let mut first = whole[..7].to_vec();
    let mut second = whole[7..].to_vec();
    apply_cipher_spec(&mut whole, &spec, 40);
    apply_cipher_spec(&mut first, &spec, 40);
    apply_cipher_spec(&mut second, &spec, 47);
    first.extend_from_slice(&second);
    assert_eq!(whole, first);
}
