use tobytes::{Codec, Error, InternValue, Object};

fn decode_roundtrip(object: &Object) -> Object {
    let mut codec = Codec::default();
    let encoded = codec.dumps(object).expect("encode");
    codec.loads(&encoded).expect("decode")
}

#[test]
fn encode_decode_primitives() {
    let object = Object::map(vec![
        (Object::from("name"), Object::from("tobytes")),
        (Object::from("count"), Object::from(3_u64)),
        (Object::from("active"), Object::from(true)),
    ]);

    let decoded = decode_roundtrip(&object);
    assert_eq!(decoded, object);
}

#[test]
fn encode_with_intern_table() {
    let shared = Object::array(vec![
        Object::from("alpha"),
        Object::from("beta"),
        Object::from("gamma"),
    ]);
    let intern = Object::Intern(InternValue::new(shared.clone()));

    let object = Object::array(vec![
        intern.clone(),
        Object::map(vec![
            (
                Object::from("items"),
                Object::array(vec![intern.clone(), Object::from("delta")]),
            ),
            (Object::from("repeat"), intern.clone()),
        ]),
        shared.clone(),
    ]);

    // After encoding and decoding, Intern wrappers should be resolved to their actual values
    let expected = Object::array(vec![
        shared.clone(),
        Object::map(vec![
            (
                Object::from("items"),
                Object::array(vec![shared.clone(), Object::from("delta")]),
            ),
            (Object::from("repeat"), shared.clone()),
        ]),
        shared,
    ]);

    let mut codec = Codec::default();
    let encoded = codec.dumps(&object).expect("encode");
    let decoded = codec.loads(&encoded).expect("decode");

    assert_eq!(decoded, expected);
}

#[test]
fn decode_intern_forward_reference_fails() {
    let mut codec = Codec::default();
    // Construct an invalid message: intern table referencing a future entry.
    let mut payload = Vec::new();
    // interned objects array with one element which references index 1 (forward)
    {
        let mut entries_buf = Vec::new();
        rmp::encode::write_array_len(&mut entries_buf, 1).unwrap();
        // entry 0 contains a reference to index 1 (forward)
        let mut ref_buf = Vec::new();
        rmp::encode::write_uint(&mut ref_buf, 1).unwrap();
        rmp::encode::write_ext_meta(
            &mut entries_buf,
            ref_buf.len() as u32,
            tobytes::INTERN_TABLE_EXT,
        )
        .unwrap();
        entries_buf.extend_from_slice(&ref_buf);
        payload.extend_from_slice(&entries_buf);
    }
    // data section (nil)
    rmp::encode::write_nil(&mut payload).unwrap();

    let mut message = Vec::new();
    rmp::encode::write_ext_meta(
        &mut message,
        payload.len() as u32,
        tobytes::INTERN_TABLE_EXT,
    )
    .unwrap();
    message.extend_from_slice(&payload);

    let result = codec.loads(&message);
    assert!(matches!(result, Err(Error::ForwardInternReference { .. })));
}

#[test]
fn forward_reference_reports_index_and_size() {
    // Same shape as the hand-built payload above, written out as raw bytes:
    // EXT(6, [array-of-1 [EXT(6, uint 1)]] nil).
    let message = vec![0xc7, 0x05, 0x06, 0x91, 0xd4, 0x06, 0x01, 0xc0];
    let mut codec = Codec::default();
    match codec.loads(&message) {
        Err(Error::ForwardInternReference { index, size }) => {
            assert_eq!(index, 1);
            assert_eq!(size, 0);
        }
        other => panic!("expected forward reference error, got {:?}", other),
    }
}

#[test]
fn negative_fixint_boundary_encoding() {
    let mut codec = Codec::default();
    let encoded = codec.dumps(&Object::from(-33_i64)).expect("encode");
    assert_eq!(encoded, vec![0xd0, 0xdf]);
    let decoded = codec.loads(&encoded).expect("decode");
    assert_eq!(decoded, Object::from(-33_i64));

    let encoded = codec.dumps(&Object::from(-32_i64)).expect("encode");
    assert_eq!(encoded, vec![0xe0]);
}

#[test]
fn unknown_ext_passes_through() {
    let mut codec = Codec::default();
    let object = Object::Ext(7, vec![0x01]);
    let encoded = codec.dumps(&object).expect("encode");
    assert_eq!(encoded, vec![0xd4, 0x07, 0x01]);
    let decoded = codec.loads(&encoded).expect("decode");
    assert_eq!(decoded, object);
}

#[test]
fn scalar_encodings_are_canonical() {
    let mut codec = Codec::default();
    assert_eq!(codec.dumps(&Object::Nil).unwrap(), vec![0xc0]);
    assert_eq!(codec.dumps(&Object::from(true)).unwrap(), vec![0xc3]);
    assert_eq!(codec.dumps(&Object::from(false)).unwrap(), vec![0xc2]);
    assert_eq!(codec.dumps(&Object::from(1_u64)).unwrap(), vec![0x01]);
    assert_eq!(codec.dumps(&Object::from(128_u64)).unwrap(), vec![0xcc, 128]);
    assert_eq!(codec.dumps(&Object::from(256_u64)).unwrap(), vec![0xcd, 1, 0]);
    assert_eq!(
        codec.dumps(&Object::from(65536_u64)).unwrap(),
        vec![0xce, 0, 1, 0, 0]
    );
    assert_eq!(
        codec.dumps(&Object::from("hello")).unwrap(),
        vec![0xa5, 0x68, 0x65, 0x6c, 0x6c, 0x6f]
    );
    assert_eq!(
        codec.dumps(&Object::from(b"hello".to_vec())).unwrap(),
        vec![0xc4, 0x05, 0x68, 0x65, 0x6c, 0x6c, 0x6f]
    );
    assert_eq!(
        codec.dumps(&Object::array(vec![
            Object::from(1_u64),
            Object::from(2_u64),
            Object::from(3_u64)
        ]))
        .unwrap(),
        vec![0x93, 0x01, 0x02, 0x03]
    );
}

#[test]
fn float_roundtrip_is_bit_exact() {
    let mut codec = Codec::default();
    let object = Object::F32(3.14_f32.to_bits());
    let encoded = codec.dumps(&object).expect("encode");
    assert_eq!(encoded, vec![0xca, 0x40, 0x48, 0xf5, 0xc3]);
    assert_eq!(codec.loads(&encoded).unwrap(), object);

    let object = Object::F64(3.14_f64.to_bits());
    let encoded = codec.dumps(&object).expect("encode");
    assert_eq!(
        encoded,
        vec![0xcb, 0x40, 0x09, 0x1e, 0xb8, 0x51, 0xeb, 0x85, 0x1f]
    );
    assert_eq!(codec.loads(&encoded).unwrap(), object);
}

#[test]
fn invalid_utf8_string_is_rejected() {
    let mut codec = Codec::default();
    let result = codec.loads(&[0xa2, 0xff, 0xfe]);
    assert!(matches!(result, Err(Error::InvalidUtf8)));
}

#[test]
fn truncated_input_fails_decoding() {
    let mut codec = Codec::default();
    assert!(matches!(codec.loads(&[]), Err(Error::DecodeFailure)));
    assert!(matches!(codec.loads(&[0xcd, 0x01]), Err(Error::DecodeFailure)));
    assert!(matches!(codec.loads(&[0xc1]), Err(Error::DecodeFailure)));
}

#[test]
fn intern_table_payload_must_be_an_array() {
    // EXT(6) whose payload is a nil value: parses, but is not a table.
    let mut codec = Codec::default();
    let result = codec.loads(&[0xd4, 0x06, 0xc0]);
    assert!(matches!(result, Err(Error::InvalidInternTable)));
}

#[test]
fn intern_table_without_main_value_is_rejected() {
    // EXT(6) whose payload is an empty array and nothing after it.
    let mut codec = Codec::default();
    let result = codec.loads(&[0xd4, 0x06, 0x90]);
    assert!(matches!(result, Err(Error::InvalidInternTable)));
}

#[test]
fn intern_reference_payload_must_be_a_uint() {
    // EXT(6, [empty array] EXT(6, nil)): the inner reference holds nil.
    let message = vec![0xc7, 0x04, 0x06, 0x90, 0xd4, 0x06, 0xc0];
    let mut codec = Codec::default();
    let result = codec.loads(&message);
    assert!(matches!(result, Err(Error::InvalidInternReferencePayload)));
}

#[test]
fn custom_namespace_discriminant_is_checked() {
    // EXT(8) whose payload starts with nil: neither str nor uint.
    let mut codec = Codec::default();
    let result = codec.loads(&[0xd4, 0x08, 0xc0]);
    assert!(matches!(result, Err(Error::InvalidCustomNamespace)));
}

#[test]
fn custom_type_id_is_checked() {
    // EXT(8) with a str namespace followed by nil instead of a uint id.
    let mut codec = Codec::default();
    let result = codec.loads(&[0xc7, 0x03, 0x08, 0xa1, 0x74, 0xc0]);
    assert!(matches!(result, Err(Error::InvalidCustomTypeId)));
}
