use ligature_sled::codec::{
    chomp_assert, decode_attribute, decode_float, decode_id, decode_integer,
    decode_statement_permutation, decode_string_literal, encode_attribute, encode_dataset_match,
    encode_float, encode_id, encode_integer, encode_statement_permutations,
    encode_string_literal, prepend, StatementIDSet,
};
use ligature_sled::model::Attribute;
use ligature_sled::LigatureSledError;

fn sample_ids() -> StatementIDSet {
    StatementIDSet {
        entity_id: 1,
        attribute_id: 2,
        value_prefix: 1,
        value_body: vec![0, 0, 0, 0, 0, 0, 0, 3],
        context_id: 4,
    }
}

#[test]
fn prepend_puts_the_tag_first() {
    assert_eq!(prepend(7, vec![1, 2]), vec![7, 1, 2]);
    assert_eq!(prepend(7, vec![]), vec![7]);
}

#[test]
fn ids_are_big_endian() {
    assert_eq!(encode_id(0x0102030405060708), vec![1, 2, 3, 4, 5, 6, 7, 8]);
    assert_eq!(decode_id(vec![1, 2, 3, 4, 5, 6, 7, 8]), Ok(0x0102030405060708));
    assert_eq!(decode_id(vec![1, 2, 3]), Err(LigatureSledError::DecodingError));
    assert_eq!(decode_id(encode_id(u64::MAX)), Ok(u64::MAX));
}

#[test]
fn integer_bodies_keep_numeric_order() {
    assert_eq!(encode_integer(0), vec![0x80, 0, 0, 0, 0, 0, 0, 0]);
    assert_eq!(encode_integer(-1), vec![0x7f, 0xff, 0xff, 0xff, 0xff, 0xff, 0xff, 0xff]);
    assert!(encode_integer(-5) < encode_integer(3));
    assert!(encode_integer(i64::MIN) < encode_integer(i64::MAX));
    for v in [i64::MIN, -42, 0, 4200, i64::MAX] {
        assert_eq!(decode_integer(encode_integer(v)), Ok(v));
    }
    assert_eq!(decode_integer(vec![0; 7]), Err(LigatureSledError::DecodingError));
}

#[test]
fn float_bodies_keep_numeric_order() {
    let values = [-1.0e10f64, -42.2, -0.5, 0.0, 0.5, 42.2, 1.0e10];
    for w in values.windows(2) {
        assert!(encode_float(w[0].to_bits()) < encode_float(w[1].to_bits()));
    }
    for v in values {
        assert_eq!(decode_float(encode_float(v.to_bits())), Ok(v.to_bits()));
    }
    assert_eq!(encode_float(0.0f64.to_bits()), vec![0x80, 0, 0, 0, 0, 0, 0, 0]);
    assert_eq!(decode_float(vec![]), Err(LigatureSledError::DecodingError));
}

#[test]
fn names_and_texts_are_utf8() {
    let attribute = Attribute::new("name").unwrap();
    assert_eq!(encode_attribute(&attribute), b"name".to_vec());
    assert_eq!(decode_attribute(b"name".to_vec()).unwrap().name(), "name");
    assert_eq!(encode_string_literal("héllo"), "héllo".as_bytes().to_vec());
    assert_eq!(decode_string_literal("héllo".as_bytes().to_vec()), Ok("héllo".to_string()));
    assert_eq!(decode_string_literal(vec![0xff, 0xfe]), Err(LigatureSledError::DecodingError));
    assert_eq!(encode_dataset_match("test/"), b"test/".to_vec());
}

#[test]
fn attribute_names_are_checked() {
    assert!(Attribute::new("_name2").is_ok());
    assert_eq!(Attribute::new("2name"), Err(LigatureSledError::InvalidAttribute));
    assert_eq!(Attribute::new(""), Err(LigatureSledError::InvalidAttribute));
    assert_eq!(Attribute::new("a b"), Err(LigatureSledError::InvalidAttribute));
    assert_eq!(decode_attribute(b"no way".to_vec()), Err(LigatureSledError::DecodingError));
    assert_eq!(decode_attribute(vec![0xc3]), Err(LigatureSledError::DecodingError));
}

#[test]
fn chomp_assert_checks_the_first_byte() {
    assert_eq!(chomp_assert(5, vec![5, 1, 2]), Ok(vec![1, 2]));
    assert_eq!(chomp_assert(5, vec![6, 1, 2]), Err(LigatureSledError::DecodingError));
    assert_eq!(chomp_assert(5, vec![]), Err(LigatureSledError::DecodingError));
}

#[test]
fn permutations_have_the_documented_layout() {
    let keys = encode_statement_permutations(&sample_ids());
    assert_eq!(keys.len(), 7);
    let e = 1u64.to_be_bytes().to_vec();
    let a = 2u64.to_be_bytes().to_vec();
    let v = vec![1, 0, 0, 0, 0, 0, 0, 0, 3];
    let c = 4u64.to_be_bytes().to_vec();
    let orders: [(u8, [&Vec<u8>; 4]); 7] = [
        (5, [&e, &a, &v, &c]),
        (6, [&e, &v, &a, &c]),
        (7, [&a, &e, &v, &c]),
        (8, [&a, &v, &e, &c]),
        (9, [&v, &e, &a, &c]),
        (10, [&v, &a, &e, &c]),
        (11, [&c, &e, &a, &v]),
    ];
    for (i, (tag, parts)) in orders.iter().enumerate() {
        let mut expected = vec![*tag];
        for p in parts.iter() {
            expected.extend_from_slice(p);
        }
        assert_eq!(keys[i], expected);
        assert_eq!(keys[i].len(), 34);
    }
}

#[test]
fn every_permutation_decodes_to_its_ids() {
    let ids = sample_ids();
    for key in encode_statement_permutations(&ids) {
        let back = decode_statement_permutation(key).unwrap();
        assert_eq!(back.entity_id, ids.entity_id);
        assert_eq!(back.attribute_id, ids.attribute_id);
        assert_eq!(back.value_prefix, ids.value_prefix);
        assert_eq!(back.value_body, ids.value_body);
        assert_eq!(back.context_id, ids.context_id);
    }
}

#[test]
fn malformed_keys_do_not_decode() {
    let key = encode_statement_permutations(&sample_ids())[0].clone();
    let mut truncated = key.clone();
    truncated.pop();
    assert!(matches!(decode_statement_permutation(truncated), Err(LigatureSledError::DecodingError)));
    let mut longer = key.clone();
    longer.push(0);
    assert!(matches!(decode_statement_permutation(longer), Err(LigatureSledError::DecodingError)));
    let mut bad_tag = key;
    bad_tag[0] = 12;
    assert!(matches!(decode_statement_permutation(bad_tag), Err(LigatureSledError::DecodingError)));
    assert!(matches!(decode_statement_permutation(vec![]), Err(LigatureSledError::DecodingError)));
}
