use eth_wire::capability::{Capabilities, Capability};
use eth_wire::rlp::{push_header, push_list, push_string, push_uint, read_header, read_string, read_uint, DecodeError};

fn cap(name: &str, version: usize) -> Capability {
    Capability::new(name.to_string(), version)
}

#[test]
fn capability_encoding_bytes() {
    let mut out = Vec::new();
    cap("eth", 67).encode(&mut out);
    assert_eq!(out, vec![0xc5, 0x83, b'e', b't', b'h', 0x43]);
}

#[test]
fn capability_list_encoding_bytes() {
    let mut out = Vec::new();
    Capabilities::from(vec![cap("eth", 67)]).encode(&mut out);
    assert_eq!(out, vec![0xc6, 0xc5, 0x83, b'e', b't', b'h', 0x43]);
    let mut out = vec![0xaa];
    Capabilities::from(Vec::new()).encode(&mut out);
    assert_eq!(out, vec![0xaa, 0xc0]);
}

#[test]
fn integer_encoding_bytes() {
    let mut out = Vec::new();
    push_uint(0, &mut out);
    push_uint(1, &mut out);
    push_uint(0x7f, &mut out);
    push_uint(0x80, &mut out);
    push_uint(1024, &mut out);
    assert_eq!(out, vec![0x80, 0x01, 0x7f, 0x81, 0x80, 0x82, 0x04, 0x00]);
    let mut out = Vec::new();
    push_uint(u64::MAX, &mut out);
    assert_eq!(out, vec![0x88, 0xff, 0xff, 0xff, 0xff, 0xff, 0xff, 0xff, 0xff]);
}

#[test]
fn string_and_list_encoding_bytes() {
    let mut out = Vec::new();
    push_string(&[], &mut out);
    push_string(&[0x05], &mut out);
    push_string(&[0x90], &mut out);
    assert_eq!(out, vec![0x80, 0x05, 0x81, 0x90]);
    let long = vec![0x61u8; 60];
    let mut out = Vec::new();
    push_string(&long, &mut out);
    assert_eq!(&out[..2], &[0xb8, 60]);
    assert_eq!(&out[2..], &long[..]);
    let mut out = Vec::new();
    push_list(&[0x01, 0x02], &mut out);
    assert_eq!(out, vec![0xc2, 0x01, 0x02]);
    let mut out = Vec::new();
    push_header(true, 1024, &mut out);
    assert_eq!(out, vec![0xf9, 0x04, 0x00]);
}

#[test]
fn primitive_decoding() {
    assert_eq!(read_uint(&[0x82, 0x04, 0x00], 0), Ok((1024, 3)));
    assert_eq!(read_uint(&[0x80], 0), Ok((0, 1)));
    assert_eq!(read_uint(&[0x00], 0), Err(DecodeError::LeadingZero));
    assert_eq!(read_uint(&[0x81, 0x05], 0), Err(DecodeError::NonCanonicalSingleByte));
    assert_eq!(read_uint(&[0x89, 1, 0, 0, 0, 0, 0, 0, 0, 0], 0), Err(DecodeError::Overflow));
    assert_eq!(read_string(&[0x00, 0x82, 0x61, 0x62], 1), Ok((2, 4)));
    assert_eq!(read_string(&[0xc0], 0), Err(DecodeError::UnexpectedList));
    assert_eq!(read_header(&[0xc2, 0x01, 0x02], 0), Ok((true, 1, 3)));
    assert_eq!(read_header(&[0xc3, 0x01], 0), Err(DecodeError::InputTooShort));
    assert_eq!(read_header(&[0xb8, 0x05, 1, 2, 3, 4, 5], 0), Err(DecodeError::NonCanonicalSize));
    assert_eq!(read_header(&[0xb9, 0x00, 0x40], 0), Err(DecodeError::LeadingZero));
}

#[test]
fn round_trip_keeps_list_and_flags() {
    let long_name = "a".repeat(70);
    let list = vec![cap("eth", 66), cap("snap", 1), cap(&long_name, 1 << 40), cap("eth", 67), cap("ü", 0)];
    let caps = Capabilities::from(list.clone());
    let mut out = Vec::new();
    caps.encode(&mut out);
    let encoded_len = out.len();
    out.extend_from_slice(&[0x01, 0x02]);
    let (decoded, n) = Capabilities::decode(&out).unwrap();
    assert_eq!(n, encoded_len);
    assert_eq!(decoded, caps);
    assert_eq!(decoded.capabilities(), &list[..]);
    assert!(decoded.supports_eth_v66());
    assert!(decoded.supports_eth_v67());
}

#[test]
fn round_trip_of_many_capabilities() {
    let list: Vec<Capability> = (0..40).map(|i| cap(&format!("proto{}", i), i * 300)).collect();
    let caps = Capabilities::from(list);
    let mut out = Vec::new();
    caps.encode(&mut out);
    assert_eq!(Capabilities::decode(&out), Ok((caps, out.len())));
}

#[test]
fn single_capability_round_trip() {
    let mut out = Vec::new();
    cap("les", 4).encode(&mut out);
    assert_eq!(Capability::decode(&out, 0), Ok((cap("les", 4), out.len())));
}

#[test]
fn decode_errors() {
    assert_eq!(Capabilities::decode(&[]), Err(DecodeError::InputTooShort));
    assert_eq!(Capabilities::decode(&[0x80]), Err(DecodeError::UnexpectedString));
    assert_eq!(Capabilities::decode(&[0xc1, 0x05]), Err(DecodeError::UnexpectedString));
    assert_eq!(Capabilities::decode(&[0xc2, 0xc0, 0x00]).is_err(), true);
    assert_eq!(
        Capabilities::decode(&[0xc4, 0xc3, 0x81, 0x41, 0x01]),
        Err(DecodeError::NonCanonicalSingleByte)
    );
    assert_eq!(
        Capabilities::decode(&[0xc7, 0xc6, 0x82, 0x61, 0x62, 0x82, 0x00, 0x01]),
        Err(DecodeError::LeadingZero)
    );
    assert_eq!(
        Capabilities::decode(&[0xc5, 0xc4, 0x82, 0xff, 0xfe, 0x01]),
        Err(DecodeError::InvalidUtf8)
    );
    assert_eq!(
        Capabilities::decode(&[0xc6, 0xc5, 0x82, 0x61, 0x62, 0x01, 0x01]),
        Err(DecodeError::ListLengthMismatch)
    );
    assert_eq!(
        Capabilities::decode(&[0xc5, 0xc5, 0x82, 0x61, 0x62, 0x01, 0x01]),
        Err(DecodeError::ListLengthMismatch)
    );
    assert_eq!(Capabilities::decode(&[0xc2, 0xc3, 0x80]), Err(DecodeError::InputTooShort));
    assert_eq!(Capabilities::decode(&[0xc3, 0xc2, 0xc0, 0x01]), Err(DecodeError::UnexpectedList));
}

#[test]
fn decoded_name_is_read_as_text() {
    let (c, n) = Capability::decode(&[0xc5, 0x83, b'e', b't', b'h', 0x43, 0xff], 0).unwrap();
    assert_eq!(n, 6);
    assert_eq!(c.name, "eth");
    assert_eq!(c.version, 67);
    assert!(c.is_eth_v67());
}
