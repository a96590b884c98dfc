use cbordata::{get_cborize_id, Cbor, Error, FromCbor, IntoCbor, Key, SimpleValue, Tag};

#[test]
fn encode_uint_ten() {
    assert_eq!(Cbor::Major0(10).encode().unwrap(), vec![0x0A]);
}

#[test]
fn encode_uint_thousand() {
    assert_eq!(Cbor::Major0(1000).encode().unwrap(), vec![0x19, 0x03, 0xE8]);
}

#[test]
fn encode_empty_array() {
    assert_eq!(Cbor::Major4(vec![]).encode().unwrap(), vec![0x80]);
}

#[test]
fn encode_text_a() {
    let v = String::from("a").into_cbor().unwrap();
    assert_eq!(v.encode().unwrap(), vec![0x61, 0x61]);
}

#[test]
fn decode_truncated_extension() {
    // A 4-byte extension advertised, only 2 bytes supplied.
    let r = Cbor::decode(&[0x1A, 0xAA, 0xBB]);
    assert!(matches!(r, Err(Error::FailCbor(_, _))));
}

#[test]
fn record_identifier_convention() {
    // A record with identifier 7 and fields (5, 6): the array [7, 5, 6].
    let v = Cbor::Major4(vec![Cbor::Major0(7), Cbor::Major0(5), Cbor::Major0(6)]);
    let bytes = v.encode().unwrap();
    assert_eq!(bytes, vec![0x83, 0x07, 0x05, 0x06]);
    let (d, n) = Cbor::decode(&bytes).unwrap();
    assert_eq!(n, 4);
    assert_eq!(get_cborize_id(&d), Some(Cbor::Major0(7)));
}

#[test]
fn get_cborize_id_non_array() {
    assert_eq!(get_cborize_id(&Cbor::Major0(7)), None);
    assert_eq!(get_cborize_id(&Cbor::Major4(vec![])), None);
    assert_eq!(get_cborize_id(&Cbor::Major7(SimpleValue::Null)), None);
}

#[test]
fn canonical_minimal_widths() {
    assert_eq!(Cbor::Major0(23).encode().unwrap(), vec![0x17]);
    assert_eq!(Cbor::Major0(24).encode().unwrap(), vec![0x18, 0x18]);
    assert_eq!(Cbor::Major0(0xFF).encode().unwrap(), vec![0x18, 0xFF]);
    assert_eq!(Cbor::Major0(0x100).encode().unwrap(), vec![0x19, 0x01, 0x00]);
    assert_eq!(Cbor::Major0(0xFFFF).encode().unwrap(), vec![0x19, 0xFF, 0xFF]);
    assert_eq!(
        Cbor::Major0(0x10000).encode().unwrap(),
        vec![0x1A, 0x00, 0x01, 0x00, 0x00]
    );
    assert_eq!(
        Cbor::Major0(0x1_0000_0000).encode().unwrap(),
        vec![0x1B, 0x00, 0x00, 0x00, 0x01, 0x00, 0x00, 0x00, 0x00]
    );
    // Negative integers follow the same width rule: -500 is -1 - 499.
    assert_eq!(Cbor::Major1(499).encode().unwrap(), vec![0x39, 0x01, 0xF3]);
}

#[test]
fn round_trip_nested() {
    let v = Cbor::Major5(vec![
        (
            Key::Text(b"xs".to_vec()),
            Cbor::Major4(vec![
                Cbor::Major0(1),
                Cbor::Major1(41),
                Cbor::Major2(vec![0xDE, 0xAD]),
            ]),
        ),
        (
            Key::U64(9),
            Cbor::Major6(Tag::Any(40, Box::new(Cbor::Major7(SimpleValue::F64(0x4009_21FB_5444_2D18))))),
        ),
    ]);
    let bytes = v.encode().unwrap();
    let (d, n) = Cbor::decode(&bytes).unwrap();
    assert_eq!(n, bytes.len());
    // The integer key sorts before the text key.
    let expect = Cbor::Major5(vec![
        (
            Key::U64(9),
            Cbor::Major6(Tag::Any(40, Box::new(Cbor::Major7(SimpleValue::F64(0x4009_21FB_5444_2D18))))),
        ),
        (
            Key::Text(b"xs".to_vec()),
            Cbor::Major4(vec![
                Cbor::Major0(1),
                Cbor::Major1(41),
                Cbor::Major2(vec![0xDE, 0xAD]),
            ]),
        ),
    ]);
    assert_eq!(d, expect);
    // A canonical value round-trips to itself exactly.
    let bytes2 = d.encode().unwrap();
    assert_eq!(bytes2, bytes);
    let (d2, _) = Cbor::decode(&bytes2).unwrap();
    assert_eq!(d2, expect);
}

#[test]
fn map_entries_sorted() {
    // Entries supplied in descending key order are emitted ascending.
    let v = Cbor::Major5(vec![
        (Key::U64(2), Cbor::Major0(20)),
        (Key::U64(1), Cbor::Major0(10)),
    ]);
    assert_eq!(v.encode().unwrap(), vec![0xA2, 0x01, 0x0A, 0x02, 0x14]);
}

#[test]
fn decode_noncanonical_map_then_reencode() {
    // A valid but unsorted map decodes fine; re-encoding sorts it.
    let bytes = vec![0xA2, 0x02, 0x14, 0x01, 0x0A];
    let (d, _) = Cbor::decode(&bytes).unwrap();
    assert_eq!(
        d,
        Cbor::Major5(vec![
            (Key::U64(2), Cbor::Major0(20)),
            (Key::U64(1), Cbor::Major0(10)),
        ])
    );
    assert_eq!(d.encode().unwrap(), vec![0xA2, 0x01, 0x0A, 0x02, 0x14]);
}

#[test]
fn key_order_across_types() {
    // Rank order: unsigned, negative, bytes, text, bool; strings shorter
    // first, then lexicographic.
    let v = Cbor::Major5(vec![
        (Key::Bool(false), Cbor::Major0(5)),
        (Key::Text(b"b".to_vec()), Cbor::Major0(4)),
        (Key::Bytes(vec![0xFF]), Cbor::Major0(3)),
        (Key::N64(0), Cbor::Major0(2)),
        (Key::U64(7), Cbor::Major0(1)),
        (Key::Text(b"aa".to_vec()), Cbor::Major0(6)),
    ]);
    let bytes = v.encode().unwrap();
    let (d, _) = Cbor::decode(&bytes).unwrap();
    match d {
        Cbor::Major5(ps) => {
            let keys: Vec<Key> = ps.into_iter().map(|p| p.0).collect();
            assert_eq!(
                keys,
                vec![
                    Key::U64(7),
                    Key::N64(0),
                    Key::Bytes(vec![0xFF]),
                    Key::Text(b"b".to_vec()),
                    Key::Text(b"aa".to_vec()),
                    Key::Bool(false),
                ]
            );
        }
        _ => panic!("expected a map"),
    }
}

#[test]
fn depth_exactly_limit_succeeds() {
    // 999 array descents plus the innermost empty array: depth 1000.
    let mut bytes = vec![0x81u8; 999];
    bytes.push(0x80);
    assert!(Cbor::decode(&bytes).is_ok());
}

#[test]
fn depth_limit_plus_one_fails() {
    // 1000 array descents plus the innermost empty array: depth 1001.
    let mut bytes = vec![0x81u8; 1000];
    bytes.push(0x80);
    assert!(matches!(Cbor::decode(&bytes), Err(Error::FailCbor(_, _))));
}

#[test]
fn break_outside_container_fails() {
    assert!(matches!(Cbor::decode(&[0xFF]), Err(Error::FailCbor(_, _))));
}

#[test]
fn reserved_info_fails() {
    assert!(matches!(Cbor::decode(&[0x1C]), Err(Error::FailCbor(_, _))));
    assert!(matches!(Cbor::decode(&[]), Err(Error::FailCbor(_, _))));
}

#[test]
fn duplicate_map_key_fails() {
    let bytes = vec![0xA2, 0x01, 0x00, 0x01, 0x00];
    assert!(matches!(Cbor::decode(&bytes), Err(Error::FailCbor(_, _))));
}

#[test]
fn invalid_utf8_text_fails() {
    assert!(matches!(
        Cbor::decode(&[0x61, 0xFF]),
        Err(Error::FailCbor(_, _))
    ));
}

#[test]
fn indefinite_byte_string() {
    let bytes = vec![0x5F, 0x41, 0xAA, 0x41, 0xBB, 0xFF];
    let (d, n) = Cbor::decode(&bytes).unwrap();
    assert_eq!(n, 6);
    assert_eq!(d, Cbor::Major2(vec![0xAA, 0xBB]));
}

#[test]
fn indefinite_text_string() {
    let bytes = vec![0x7F, 0x61, 0x61, 0x61, 0x62, 0xFF];
    let (d, _) = Cbor::decode(&bytes).unwrap();
    assert_eq!(d, Cbor::Major3(b"ab".to_vec()));
}

#[test]
fn indefinite_array_and_map() {
    let (d, _) = Cbor::decode(&[0x9F, 0x01, 0x02, 0xFF]).unwrap();
    assert_eq!(d, Cbor::Major4(vec![Cbor::Major0(1), Cbor::Major0(2)]));
    let (d, _) = Cbor::decode(&[0xBF, 0x01, 0x02, 0xFF]).unwrap();
    assert_eq!(d, Cbor::Major5(vec![(Key::U64(1), Cbor::Major0(2))]));
    // Unterminated indefinite array is malformed.
    assert!(matches!(
        Cbor::decode(&[0x9F, 0x01]),
        Err(Error::FailCbor(_, _))
    ));
}

#[test]
fn simple_values_round() {
    for v in [
        Cbor::Major7(SimpleValue::Null),
        Cbor::Major7(SimpleValue::Undefined),
        Cbor::Major7(SimpleValue::True),
        Cbor::Major7(SimpleValue::False),
        Cbor::Major7(SimpleValue::Code(5)),
        Cbor::Major7(SimpleValue::Code(200)),
        Cbor::Major7(SimpleValue::F16(0x3C00)),
        Cbor::Major7(SimpleValue::F32(0x4048F5C3)),
        Cbor::Major7(SimpleValue::F64(0x4009_21FB_5444_2D18)),
    ] {
        let bytes = v.encode().unwrap();
        let (d, n) = Cbor::decode(&bytes).unwrap();
        assert_eq!(n, bytes.len());
        assert_eq!(d, v);
    }
    assert_eq!(
        Cbor::Major7(SimpleValue::F16(0x3C00)).encode().unwrap(),
        vec![0xF9, 0x3C, 0x00]
    );
    assert_eq!(Cbor::Major7(SimpleValue::Null).encode().unwrap(), vec![0xF6]);
}

#[test]
fn encode_rejects_reserved_simple_code() {
    assert!(matches!(
        Cbor::Major7(SimpleValue::Code(24)).encode(),
        Err(Error::FailConvert(_, _))
    ));
    assert!(matches!(
        Cbor::Major4(vec![Cbor::Major7(SimpleValue::Code(30))]).encode(),
        Err(Error::FailConvert(_, _))
    ));
}

#[test]
fn bignum_tags_round() {
    let m: Vec<u8> = vec![0x01, 0, 0, 0, 0, 0, 0, 0, 0];
    let v = Cbor::Major6(Tag::Ubig(m.clone()));
    let bytes = v.encode().unwrap();
    assert_eq!(bytes[0], 0xC2);
    let (d, _) = Cbor::decode(&bytes).unwrap();
    assert_eq!(d, v);
    let v = Cbor::Major6(Tag::Sbig(m));
    let (d, _) = Cbor::decode(&v.encode().unwrap()).unwrap();
    assert_eq!(d, v);
    let v = Cbor::Major6(Tag::Any(1234, Box::new(Cbor::Major0(1))));
    let (d, _) = Cbor::decode(&v.encode().unwrap()).unwrap();
    assert_eq!(d, v);
}

#[test]
fn conversions_round() {
    assert_eq!(bool::from_cbor(true.into_cbor().unwrap()).unwrap(), true);
    assert_eq!(u64::from_cbor(7u64.into_cbor().unwrap()).unwrap(), 7);
    assert_eq!(u32::from_cbor(7u32.into_cbor().unwrap()).unwrap(), 7);
    assert_eq!(i64::from_cbor((-42i64).into_cbor().unwrap()).unwrap(), -42);
    assert_eq!(i64::from_cbor(42i64.into_cbor().unwrap()).unwrap(), 42);
    assert!(matches!(
        u32::from_cbor(Cbor::Major0(1 << 40)),
        Err(Error::FailConvert(_, _))
    ));
    assert!(matches!(
        u64::from_cbor(Cbor::Major7(SimpleValue::Null)),
        Err(Error::FailConvert(_, _))
    ));
    let s = String::from("h\u{00E9}llo");
    let v = s.clone().into_cbor().unwrap();
    let bytes = v.encode().unwrap();
    let (d, _) = Cbor::decode(&bytes).unwrap();
    assert_eq!(String::from_cbor(d).unwrap(), s);
}

#[test]
fn negative_integer_encoding() {
    // -1 - 9 == -10 travels as magnitude 9 under major type 1.
    let v = (-10i64).into_cbor().unwrap();
    assert_eq!(v, Cbor::Major1(9));
    assert_eq!(v.encode().unwrap(), vec![0x29]);
}
