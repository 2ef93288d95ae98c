use tobytes::{
    read_ns_payload, Bytes, Codec, EncodedCustomType, Error, Ext, Int, InternContext, InternPtr,
    InternValue, Namespace, NamespaceEncodedValue, NamespaceRef, Object,
};
use std::collections::HashMap;

#[test]
fn custom_payload_envelope_roundtrip() {
    let custom = EncodedCustomType::new(
        NamespaceRef::Name("table".to_string()),
        1,
        vec![0xde, 0xad, 0xbe, 0xef],
    );
    let mut codec = Codec::default();
    let encoded = codec.dumps(&Object::Custom(custom)).expect("encode");
    // EXT(8, str "table" | uint 1 | bin(4) | payload)
    let expected = vec![
        0xc7, 0x0d, 0x08, 0xa5, 0x74, 0x61, 0x62, 0x6c, 0x65, 0x01, 0xc4, 0x04, 0xde, 0xad,
        0xbe, 0xef,
    ];
    assert_eq!(encoded, expected);

    match codec.loads(&encoded).expect("decode") {
        Object::Custom(decoded) => {
            assert_eq!(decoded.namespace, NamespaceRef::Name("table".to_string()));
            assert_eq!(decoded.type_id, 1);
            // The decoder keeps the bin header inside the data, so the
            // original payload comes back as a suffix.
            assert!(decoded.data.ends_with(&[0xde, 0xad, 0xbe, 0xef]));
            assert_eq!(decoded.data, vec![0xc4, 0x04, 0xde, 0xad, 0xbe, 0xef]);
        }
        other => panic!("expected a custom object, got {:?}", other),
    }
}

#[test]
fn identity_interning_keeps_separate_allocations_apart() {
    let value = Object::array(vec![Object::from("shared-payload")]);
    // Two handles made separately: distinct storage, two table entries.
    let two = Object::array(vec![
        Object::Intern(InternValue::new(value.clone())),
        Object::Intern(InternValue::new(value.clone())),
    ]);
    let mut codec = Codec::default();
    let encoded = codec.dumps(&two).expect("encode");
    // EXT(6) header, then the entries array: 0x92 announces two entries.
    assert_eq!(encoded[0], 0xc7);
    assert_eq!(encoded[2], 0x06);
    assert_eq!(encoded[3], 0x92);

    // One shared handle cloned twice: one table entry.
    let shared = InternValue::new(value.clone());
    let one = Object::array(vec![
        Object::Intern(shared.clone()),
        Object::Intern(shared.clone()),
    ]);
    let encoded = codec.dumps(&one).expect("encode");
    assert_eq!(encoded[3], 0x91);
}

#[test]
fn equality_interning_collapses_equal_values() {
    let value = Object::array(vec![Object::from("shared-payload")]);
    let two = Object::array(vec![
        Object::Intern(InternValue::by_equality(value.clone())),
        Object::Intern(InternValue::by_equality(value.clone())),
    ]);
    let mut codec = Codec::default();
    let encoded = codec.dumps(&two).expect("encode");
    assert_eq!(encoded[3], 0x91);
}

#[test]
fn interning_shrinks_repeated_payloads() {
    let shared = Object::array(vec![
        Object::from("alpha"),
        Object::from("beta"),
        Object::from("gamma"),
    ]);
    let handle = InternValue::new(shared.clone());
    let interned = Object::array(vec![
        Object::Intern(handle.clone()),
        Object::Intern(handle.clone()),
        Object::Intern(handle.clone()),
    ]);
    let stripped = Object::array(vec![shared.clone(), shared.clone(), shared.clone()]);

    let mut codec = Codec::default();
    let with_table = codec.dumps(&interned).expect("encode");
    let without_table = codec.dumps(&stripped).expect("encode");
    assert!(with_table.len() < without_table.len());
    assert_eq!(
        codec.loads(&with_table).unwrap(),
        codec.loads(&without_table).unwrap()
    );
}

#[test]
fn intern_table_envelope_structure() {
    let shared = Object::array(vec![
        Object::from("alpha"),
        Object::from("beta"),
        Object::from("gamma"),
    ]);
    let intern = Object::Intern(InternValue::new(shared.clone()));
    let object = Object::array(vec![intern.clone(), intern.clone()]);

    let mut codec = Codec::default();
    let encoded = codec.dumps(&object).expect("encode");
    // The stream opens with EXT(6); its inner array holds exactly one entry.
    assert_eq!(encoded[0], 0xc7);
    assert_eq!(encoded[2], 0x06);
    assert_eq!(encoded[3], 0x91);
}

#[test]
fn codec_stays_usable_after_a_failure() {
    let mut codec = Codec::default();
    assert!(codec.loads(&[0xc1]).is_err());
    let object = Object::from("still fine");
    let bytes = codec.dumps(&object).expect("encode");
    assert_eq!(codec.loads(&bytes), Ok(object));
}

#[test]
fn add_namespace_rejects_duplicates() {
    let mut codec = Codec::new(None);
    let table: HashMap<u32, Box<dyn tobytes::CustomTypeCodec>> = HashMap::new();
    assert!(codec
        .add_namespace("table".to_string(), Namespace::Static(table))
        .is_ok());
    let table2: HashMap<u32, Box<dyn tobytes::CustomTypeCodec>> = HashMap::new();
    assert!(matches!(
        codec.add_namespace("table".to_string(), Namespace::Static(table2)),
        Err(Error::InvalidState)
    ));
}

#[test]
fn namespace_encoded_value_wire_form() {
    let ns_value = NamespaceEncodedValue {
        namespace: "table",
        id: 1,
        value: vec![0x01, 0x02, 0x03, 0x04],
    };
    let bytes = ns_value.to_bytes().expect("encode");
    let expected = vec![
        0xc7, 0x0b, 0x08, 0xa5, 0x74, 0x61, 0x62, 0x6c, 0x65, 0x01, 0x01, 0x02, 0x03, 0x04,
    ];
    assert_eq!(bytes, expected);

    let payload = read_ns_payload(&bytes, "table", 1).expect("read back");
    assert_eq!(payload, vec![0x01, 0x02, 0x03, 0x04]);

    assert!(matches!(
        read_ns_payload(&bytes, "other", 1),
        Err(Error::InvalidCustomNamespace)
    ));
    assert!(matches!(
        read_ns_payload(&bytes, "table", 2),
        Err(Error::InvalidCustomTypeId)
    ));
}

#[test]
fn bytes_reads_a_bin_value() {
    let decoded = Bytes::from_bytes(&[0xc4, 0x05, 0x68, 0x65, 0x6c, 0x6c, 0x6f]).unwrap();
    assert_eq!(decoded, Bytes(b"hello".to_vec()));
    assert!(Bytes::from_bytes(&[0xc0]).is_err());
}

#[test]
fn intern_ptr_and_ext_accessors() {
    let ptr = InternPtr::new(4);
    assert_eq!(ptr.index(), 4);
    let ext = Ext::new(6, vec![0x01]);
    assert_eq!(ext.ty, 6);
    assert_eq!(ext.data, vec![0x01]);
    let mut buf = Vec::new();
    ext.write(&mut buf).unwrap();
    assert_eq!(buf, vec![0xd4, 0x06, 0x01]);
}

#[test]
fn intern_value_accessors() {
    let value = Object::from(7_u64);
    let handle = InternValue::new(value.clone());
    assert!(handle.by_identity());
    assert_eq!(*handle.value(), value);
    let copy = handle.clone();
    assert_eq!(copy.pointer(), handle.pointer());

    let separate = InternValue::new(value.clone());
    assert_ne!(separate.pointer(), handle.pointer());

    let by_eq = InternValue::by_equality(value.clone());
    assert!(!by_eq.by_identity());

    let adopted = InternValue::with_arc(handle.arc_clone(), true);
    assert_eq!(adopted.pointer(), handle.pointer());
}

#[test]
fn interop_with_generic_messagepack_tools() {
    // Bytes produced by the codec parse as ordinary MessagePack.
    let mut codec = Codec::default();
    let object = Object::map(vec![
        (Object::from("k"), Object::from(1_u64)),
        (Object::from("v"), Object::from(true)),
    ]);
    let encoded = codec.dumps(&object).expect("encode");
    let value = rmpv::decode::read_value(&mut &encoded[..]).expect("rmpv parse");
    match value {
        rmpv::Value::Map(entries) => assert_eq!(entries.len(), 2),
        other => panic!("expected a map, got {:?}", other),
    }

    // Bytes produced by a generic MessagePack writer decode to the same
    // object tree.
    let mut raw = Vec::new();
    rmp::encode::write_array_len(&mut raw, 2).unwrap();
    rmp::encode::write_str(&mut raw, "x").unwrap();
    rmp::encode::write_sint(&mut raw, -5).unwrap();
    let decoded = codec.loads(&raw).expect("decode");
    assert_eq!(
        decoded,
        Object::array(vec![Object::from("x"), Object::from(-5_i64)])
    );
}

#[test]
fn integer_representations_compare_by_value() {
    assert_eq!(Object::Integer(Int::Unsigned(5)), Object::Integer(Int::Signed(5)));
    assert_ne!(Object::Integer(Int::Unsigned(5)), Object::Integer(Int::Signed(-5)));
    assert_eq!(Int::from_i64(7).as_u64(), Some(7));
    assert_eq!(Int::from_i64(-7).as_u64(), None);
    assert_eq!(Int::from_u64(u64::MAX).as_i64(), None);
    assert_eq!(Int::from_i64(-7).as_i64(), Some(-7));
}

#[test]
fn intern_context_state_machine_guards() {
    let mut ctx = InternContext::new();
    assert!(!ctx.is_decoding());
    assert!(ctx.start_decoding().is_ok());
    assert!(ctx.is_decoding());
    // A second table while one is being decoded is refused.
    assert!(matches!(ctx.start_decoding(), Err(Error::NestedInternTable)));
    assert!(ctx.push_decoded(Object::Nil).is_ok());
    assert_eq!(ctx.resolve_reference(0), Ok(Object::Nil));
    assert!(matches!(
        ctx.resolve_reference(3),
        Err(Error::ForwardInternReference { index: 3, size: 1 })
    ));
    // Encoder operations are refused while decoding.
    assert!(matches!(
        ctx.finalize_encoding(vec![0xc0]),
        Err(Error::InvalidState)
    ));
    ctx.reset();
    assert!(matches!(
        ctx.push_decoded(Object::Nil),
        Err(Error::InvalidState)
    ));
    // Idle finalization passes the buffer through unchanged.
    assert_eq!(ctx.finalize_encoding(vec![0xc0]), Ok(vec![0xc0]));
}
