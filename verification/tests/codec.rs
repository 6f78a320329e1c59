use rustymgclient::packstream::{decode, encode};
use rustymgclient::framing::{frame, unframe};
use rustymgclient::handshake::handshake_request;
use rustymgclient::MgError;
use rustymgclient::MgValue;

fn round_trip(v: MgValue) -> MgValue {
    let bytes = encode(&v).expect("value fits the wire format");
    let (w, consumed) = decode(bytes.as_slice()).expect("own encoding decodes");
    assert_eq!(consumed, bytes.len());
    assert_eq!(w, v);
    w
}

#[test]
fn round_trip_scalars() {
    round_trip(MgValue::Null);
    round_trip(MgValue::Bool(true));
    round_trip(MgValue::Bool(false));
    round_trip(MgValue::Float(1.5f64.to_bits()));
    round_trip(MgValue::Float((-0.0f64).to_bits()));
    round_trip(MgValue::Str(Vec::new()));
    round_trip(MgValue::Str(b"hello".to_vec()));
}

#[test]
fn round_trip_integers_all_tiers() {
    for i in [
        0i64,
        1,
        127,
        -1,
        -16,
        -17,
        -128,
        128,
        -129,
        32767,
        -32768,
        32768,
        -32769,
        2147483647,
        -2147483648,
        2147483648,
        -2147483649,
        i64::MAX,
        i64::MIN,
    ] {
        round_trip(MgValue::Int(i));
    }
}

#[test]
fn round_trip_nested_depth_five() {
    let leaf = MgValue::Dict(vec![
        (b"k".to_vec(), MgValue::Int(-42)),
        (b"s".to_vec(), MgValue::Str(b"v".to_vec())),
    ]);
    let d4 = MgValue::List(vec![leaf, MgValue::Null]);
    let d3 = MgValue::Structure(0x4E, vec![MgValue::Int(1), d4]);
    let d2 = MgValue::Dict(vec![(b"inner".to_vec(), d3)]);
    let d1 = MgValue::List(vec![d2, MgValue::Bool(true), MgValue::Float(2.5f64.to_bits())]);
    round_trip(d1);
}

#[test]
fn round_trip_long_string_and_list() {
    let s: Vec<u8> = (0..300u32).map(|i| (i % 251) as u8).collect();
    round_trip(MgValue::Str(s));
    let xs: Vec<MgValue> = (0..20i64).map(MgValue::Int).collect();
    round_trip(MgValue::List(xs));
}

#[test]
fn encode_exact_bytes() {
    assert_eq!(encode(&MgValue::Null).unwrap(), vec![0xC0]);
    assert_eq!(encode(&MgValue::Bool(false)).unwrap(), vec![0xC2]);
    assert_eq!(encode(&MgValue::Bool(true)).unwrap(), vec![0xC3]);
    // Tiny ints inline in the marker byte.
    assert_eq!(encode(&MgValue::Int(42)).unwrap(), vec![0x2A]);
    assert_eq!(encode(&MgValue::Int(-1)).unwrap(), vec![0xFF]);
    assert_eq!(encode(&MgValue::Int(-16)).unwrap(), vec![0xF0]);
    // Sized ints use the smallest marker that fits.
    assert_eq!(encode(&MgValue::Int(-17)).unwrap(), vec![0xC8, 0xEF]);
    assert_eq!(encode(&MgValue::Int(128)).unwrap(), vec![0xC9, 0x00, 0x80]);
    assert_eq!(encode(&MgValue::Int(-32768)).unwrap(), vec![0xC9, 0x80, 0x00]);
    assert_eq!(
        encode(&MgValue::Int(32768)).unwrap(),
        vec![0xCA, 0x00, 0x00, 0x80, 0x00]
    );
    assert_eq!(
        encode(&MgValue::Int(2147483648)).unwrap(),
        vec![0xCB, 0x00, 0x00, 0x00, 0x00, 0x80, 0x00, 0x00, 0x00]
    );
    // Floats carry the IEEE-754 bits big-endian after 0xC1.
    assert_eq!(
        encode(&MgValue::Float(1.0f64.to_bits())).unwrap(),
        vec![0xC1, 0x3F, 0xF0, 0x00, 0x00, 0x00, 0x00, 0x00, 0x00]
    );
    // Strings: tiny marker embeds the length.
    assert_eq!(
        encode(&MgValue::Str(b"ab".to_vec())).unwrap(),
        vec![0x82, 0x61, 0x62]
    );
    let s16: Vec<u8> = vec![0x61; 16];
    let mut want = vec![0xD0, 16];
    want.extend_from_slice(&s16);
    assert_eq!(encode(&MgValue::Str(s16)).unwrap(), want);
    // Lists and dictionaries.
    assert_eq!(
        encode(&MgValue::List(vec![MgValue::Int(1), MgValue::Int(2)])).unwrap(),
        vec![0x92, 0x01, 0x02]
    );
    assert_eq!(
        encode(&MgValue::Dict(vec![(b"a".to_vec(), MgValue::Int(7))])).unwrap(),
        vec![0xA1, 0x81, 0x61, 0x07]
    );
    // Structures: tiny size marker, then the signature, then the fields.
    assert_eq!(
        encode(&MgValue::Structure(0x4E, vec![MgValue::Int(1)])).unwrap(),
        vec![0xB1, 0x4E, 0x01]
    );
}

#[test]
fn decode_rejects_truncated_buffers() {
    // A declared length with too few payload bytes must fail, not read past
    // the end.
    let cases: Vec<Vec<u8>> = vec![
        vec![],
        vec![0x84, 0x61],             // string declares 4 bytes, has 1
        vec![0xC9, 0x01],             // int16 missing a byte
        vec![0xC1, 0x00, 0x00],       // float missing bytes
        vec![0xD0],                   // string size field missing
        vec![0xD1, 0x00],             // 2-byte size field truncated
        vec![0xD1, 0x00, 0x05, 0x61], // declared 5, has 1
        vec![0x92, 0x01],             // list declares 2 elements, has 1
        vec![0xB1],                   // structure missing signature
        vec![0xB1, 0x4E],             // structure missing its field
        vec![0xA1, 0x81, 0x61],       // dictionary missing the value
    ];
    for bytes in cases {
        match decode(bytes.as_slice()) {
            Err(MgError::Protocol(_)) => {}
            other => panic!("expected a protocol error, got {:?}", other),
        }
    }
}

#[test]
fn decode_rejects_unknown_marker() {
    match decode(&[0xC5]) {
        Err(MgError::Protocol(b)) => assert_eq!(b, 0xC5),
        other => panic!("expected a protocol error, got {:?}", other),
    }
}

#[test]
fn decode_rejects_non_string_dictionary_key() {
    // One entry whose key is an integer, not a string.
    match decode(&[0xA1, 0x01, 0x02]) {
        Err(MgError::Protocol(_)) => {}
        other => panic!("expected a protocol error, got {:?}", other),
    }
}

#[test]
fn decode_reports_consumed_prefix() {
    // Trailing bytes after one complete value are left unconsumed.
    let (v, consumed) = decode(&[0xC3, 0xC0, 0xC0]).unwrap();
    assert_eq!(v, MgValue::Bool(true));
    assert_eq!(consumed, 1);
}

fn frame_unframe(msg: Vec<u8>) -> Vec<u8> {
    let framed = frame(msg.as_slice());
    let (back, consumed) = unframe(framed.as_slice()).expect("own framing unframes");
    assert_eq!(consumed, framed.len());
    assert_eq!(back, msg);
    framed
}

#[test]
fn frame_round_trip_boundary_sizes() {
    let f0 = frame_unframe(Vec::new());
    assert_eq!(f0, vec![0x00, 0x00]);

    let f1 = frame_unframe(vec![0xAB]);
    assert_eq!(f1, vec![0x00, 0x01, 0xAB, 0x00, 0x00]);

    let m_max: Vec<u8> = vec![0x55; 65535];
    let f_max = frame_unframe(m_max);
    // One maximal chunk and the end marker.
    assert_eq!(f_max.len(), 2 + 65535 + 2);
    assert_eq!(&f_max[0..2], &[0xFF, 0xFF]);
    assert_eq!(&f_max[f_max.len() - 2..], &[0x00, 0x00]);

    let m_big: Vec<u8> = vec![0x77; 65537];
    let f_big = frame_unframe(m_big);
    // Two chunks: 65535 bytes, then 2 bytes, then the end marker.
    assert_eq!(f_big.len(), 2 + 65535 + 2 + 2 + 2);
    assert_eq!(&f_big[0..2], &[0xFF, 0xFF]);
    assert_eq!(&f_big[2 + 65535..2 + 65535 + 2], &[0x00, 0x02]);
}

#[test]
fn unframe_rejects_truncated_chunks() {
    assert!(matches!(unframe(&[0x00]), Err(MgError::Protocol(_))));
    assert!(matches!(unframe(&[0x00, 0x05, 0x01]), Err(MgError::Protocol(_))));
    assert!(matches!(
        unframe(&[0x00, 0x01, 0xAB]),
        Err(MgError::Protocol(_))
    ));
}

#[test]
fn round_trip_larger_size_tiers() {
    // A structure with 16 fields takes the 1-byte size tier.
    let fields: Vec<MgValue> = (0..16i64).map(MgValue::Int).collect();
    let v = MgValue::Structure(0x10, fields);
    let bytes = encode(&v).unwrap();
    assert_eq!(&bytes[0..3], &[0xDC, 16, 0x10]);
    round_trip(v);
    // A dictionary with 16 entries takes the 1-byte size tier.
    let entries: Vec<(Vec<u8>, MgValue)> =
        (0..16u8).map(|i| (vec![i], MgValue::Int(i as i64))).collect();
    let d = MgValue::Dict(entries);
    assert_eq!(encode(&d).unwrap()[0], 0xD8);
    round_trip(d);
    // A string of 65536 bytes takes the 4-byte size tier.
    let s: Vec<u8> = vec![0x2E; 65536];
    let v = MgValue::Str(s);
    let bytes = encode(&v).unwrap();
    assert_eq!(&bytes[0..5], &[0xD2, 0x00, 0x01, 0x00, 0x00]);
    round_trip(v);
}

#[test]
fn unframe_reassembles_multiple_chunks() {
    // One message split by hand into two chunks.
    let mut buf: Vec<u8> = vec![0x00, 0x02, 0xAA, 0xBB];
    buf.extend_from_slice(&[0x00, 0x01, 0xCC]);
    buf.extend_from_slice(&[0x00, 0x00]);
    let (msg, consumed) = unframe(buf.as_slice()).unwrap();
    assert_eq!(msg, vec![0xAA, 0xBB, 0xCC]);
    assert_eq!(consumed, buf.len());
}

#[test]
fn handshake_request_bytes() {
    let req = handshake_request(&[4]);
    assert_eq!(
        req,
        vec![
            0x60, 0x60, 0xB0, 0x17, //
            0x00, 0x00, 0x00, 0x04, //
            0x00, 0x00, 0x00, 0x00, //
            0x00, 0x00, 0x00, 0x00, //
            0x00, 0x00, 0x00, 0x00,
        ]
    );
    let req2 = handshake_request(&[1, 3, 0, 0]);
    assert_eq!(&req2[0..4], &[0x60, 0x60, 0xB0, 0x17]);
    assert_eq!(&req2[4..8], &[0x00, 0x00, 0x00, 0x01]);
    assert_eq!(&req2[8..12], &[0x00, 0x00, 0x00, 0x03]);
    assert_eq!(req2.len(), 20);
}
