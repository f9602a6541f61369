use row_list::{
    encode, encode_len, encode_raw, Array, EncodeError, PrimitiveArray, Rows, SortOptions,
    UnsupportedKind,
};

fn int32_list(values: &[i32]) -> Option<Array> {
    Some(Array::Primitive(PrimitiveArray::Int32(
        values.iter().map(|v| Some(*v)).collect(),
    )))
}

fn utf8_list(values: &[&str]) -> Option<Array> {
    Some(Array::Utf8(values.iter().map(|v| Some(v.to_string())).collect()))
}

/// Encodes a single value on its own, sized by `encode_len`.
fn encode_one(value: Option<Array>) -> Vec<u8> {
    let len = encode_len(&value).unwrap();
    let mut buffer = vec![0u8; len];
    encode_raw(&mut buffer, &vec![value]);
    buffer
}

/// Encodes values as rows of one column, each row sized by `encode_len`.
fn encode_rows(values: Vec<Option<Array>>, descending: bool) -> Vec<Vec<u8>> {
    let mut offsets = vec![0usize];
    let mut total = 0usize;
    let mut lens = Vec::new();
    for v in &values {
        let l = encode_len(v).unwrap();
        offsets.push(total);
        lens.push(l);
        total += l;
    }
    let mut rows = Rows { buffer: vec![0u8; total], offsets };
    encode(&mut rows, &values, SortOptions { descending });
    let mut out = Vec::new();
    let mut start = 0usize;
    for (r, l) in lens.iter().enumerate() {
        assert_eq!(rows.offsets[r + 1], start + l);
        out.push(rows.buffer[start..start + l].to_vec());
        start += l;
    }
    out
}

#[test]
fn null_and_empty_sentinels() {
    assert_eq!(encode_one(None), vec![0]);
    assert_eq!(encode_one(Some(Array::List(vec![]))), vec![1]);
    assert!(encode_one(None) < encode_one(Some(Array::List(vec![]))));
}

#[test]
fn null_empty_non_empty_precedence() {
    let null = encode_one(None);
    let empty = encode_one(int32_list(&[]));
    let non_empty = encode_one(int32_list(&[i32::MIN]));
    assert!(null < empty);
    assert!(empty < non_empty);
}

#[test]
fn int32_lists_diverge_at_second_element() {
    let a = encode_one(int32_list(&[1, 2]));
    let b = encode_one(int32_list(&[1, 3]));
    assert_eq!(a, vec![2, 1, 0x80, 0, 0, 1, 1, 0x80, 0, 0, 2]);
    assert_eq!(b, vec![2, 1, 0x80, 0, 0, 1, 1, 0x80, 0, 0, 3]);
    assert!(a < b);
}

#[test]
fn int32_negative_sorts_before_positive() {
    let a = encode_one(int32_list(&[-1]));
    let b = encode_one(int32_list(&[0]));
    assert_eq!(a, vec![2, 1, 0x7F, 0xFF, 0xFF, 0xFF]);
    assert!(a < b);
}

#[test]
fn utf8_shorter_string_sorts_first() {
    let a = encode_one(utf8_list(&["a"]));
    let b = encode_one(utf8_list(&["ab"]));
    assert_eq!(a.len(), 1 + 1 + 33);
    assert_eq!(a[0], 2);
    assert_eq!(a[1], 2);
    assert_eq!(a[2], b'a');
    assert_eq!(a[34], 1);
    assert_eq!(b[34], 2);
    assert!(a < b);
}

#[test]
fn descending_reverses_int32_lists() {
    let rows = encode_rows(vec![int32_list(&[1, 2]), int32_list(&[1, 3])], true);
    assert!(rows[1] < rows[0]);
    let asc = encode_rows(vec![int32_list(&[1, 2]), int32_list(&[1, 3])], false);
    assert!(asc[0] < asc[1]);
    for (d, a) in rows[0].iter().zip(asc[0].iter()) {
        assert_eq!(*d, !*a);
    }
}

#[test]
fn descending_null_and_empty_sentinels() {
    let rows = encode_rows(vec![None, Some(Array::List(vec![]))], true);
    assert_eq!(rows[0], vec![255]);
    assert_eq!(rows[1], vec![254]);
    assert!(rows[1] < rows[0]);
}

#[test]
fn nested_list_length() {
    let value = Some(Array::List(vec![int32_list(&[1]), int32_list(&[])]));
    assert_eq!(encode_len(&value), Ok(1 + (1 + 5) + 1));
    let bytes = encode_one(value);
    assert_eq!(bytes, vec![2, 2, 1, 0x80, 0, 0, 1, 1]);
}

#[test]
fn nested_nulls_take_one_byte_each() {
    let value = Some(Array::LargeList(vec![
        None,
        Some(Array::FixedSizeList(vec![None, None])),
        Some(Array::List(vec![])),
    ]));
    assert_eq!(encode_len(&value), Ok(1 + 1 + 3 + 1));
    assert_eq!(encode_one(value), vec![2, 0, 2, 0, 0, 1]);
}

#[test]
fn unsupported_type_is_reported() {
    let value = Some(Array::Unsupported(UnsupportedKind::Struct, 3));
    assert_eq!(
        encode_len(&value),
        Err(EncodeError::UnsupportedType(UnsupportedKind::Struct))
    );
}

#[test]
fn first_nested_unsupported_type_is_reported() {
    let value = Some(Array::List(vec![
        int32_list(&[1]),
        Some(Array::Unsupported(UnsupportedKind::Dictionary, 0)),
        Some(Array::Unsupported(UnsupportedKind::Union, 1)),
    ]));
    assert_eq!(
        encode_len(&value),
        Err(EncodeError::UnsupportedType(UnsupportedKind::Dictionary))
    );
}

#[test]
fn length_matches_bytes_written() {
    let values = vec![
        None,
        Some(Array::Null(4)),
        Some(Array::Boolean(vec![Some(true), None, Some(false)])),
        Some(Array::Primitive(PrimitiveArray::UInt64(vec![Some(7), None]))),
        Some(Array::Primitive(PrimitiveArray::Int8(vec![Some(-128), Some(127)]))),
        Some(Array::Binary(vec![Some(vec![1u8; 40]), None, Some(vec![])])),
        Some(Array::LargeUtf8(vec![Some("héllo".to_string())])),
        Some(Array::List(vec![
            Some(Array::List(vec![int32_list(&[5, 6]), None])),
            utf8_list(&["x"]),
        ])),
    ];
    let mut total = 0usize;
    for v in &values {
        total += encode_len(v).unwrap();
    }
    let mut buffer = vec![0xAAu8; total + 3];
    encode_raw(&mut buffer, &values);
    assert_eq!(&buffer[total..], &[0xAA, 0xAA, 0xAA]);
    assert_ne!(buffer[total - 1], 0xAA);
}

#[test]
fn boolean_and_null_type_encodings() {
    assert_eq!(
        encode_one(Some(Array::Boolean(vec![Some(false), None, Some(true)]))),
        vec![2, 1, 0, 0, 0, 1, 1]
    );
    assert_eq!(encode_one(Some(Array::Null(3))), vec![2]);
    assert_eq!(encode_one(Some(Array::Null(0))), vec![1]);
}

#[test]
fn binary_blocks_of_thirty_two() {
    let exact = encode_one(Some(Array::LargeBinary(vec![Some(vec![9u8; 32])])));
    assert_eq!(exact.len(), 1 + 1 + 33);
    assert_eq!(exact[34], 32);
    let longer = encode_one(Some(Array::LargeBinary(vec![Some(vec![9u8; 33])])));
    assert_eq!(longer.len(), 1 + 1 + 66);
    assert_eq!(longer[34], 0xFF);
    assert_eq!(longer[35], 9);
    assert_eq!(longer[67], 1);
    assert!(exact < longer);
}

#[test]
fn utf8_uses_byte_representation() {
    let bytes = encode_one(utf8_list(&["é"]));
    assert_eq!(&bytes[2..4], &[0xC3, 0xA9]);
    assert_eq!(bytes[34], 2);
}

#[test]
fn rows_advance_each_cursor() {
    let values = vec![int32_list(&[1]), None, int32_list(&[])];
    let mut rows = Rows { buffer: vec![7u8; 12], offsets: vec![0, 2, 8, 10] };
    encode(&mut rows, &values, SortOptions { descending: false });
    assert_eq!(rows.offsets, vec![0, 8, 9, 11]);
    assert_eq!(rows.buffer, vec![7, 7, 2, 1, 0x80, 0, 0, 1, 0, 7, 1, 7]);
}

#[test]
fn rows_stop_at_fewer_values() {
    let values = vec![None];
    let mut rows = Rows { buffer: vec![7u8; 3], offsets: vec![0, 0, 1, 2] };
    encode(&mut rows, &values, SortOptions { descending: true });
    assert_eq!(rows.offsets, vec![0, 1, 1, 2]);
    assert_eq!(rows.buffer, vec![255, 7, 7]);
}

#[test]
fn order_follows_element_order() {
    let ordered = vec![
        None,
        int32_list(&[]),
        Some(Array::Primitive(PrimitiveArray::Int32(vec![None]))),
        int32_list(&[-5]),
        int32_list(&[-5, 0]),
        int32_list(&[1]),
        int32_list(&[1, 2]),
        int32_list(&[1, 3]),
        int32_list(&[i32::MAX]),
    ];
    let encoded: Vec<Vec<u8>> = ordered.into_iter().map(encode_one).collect();
    for w in encoded.windows(2) {
        assert!(w[0] < w[1]);
    }
}

#[test]
fn order_follows_string_order() {
    let ordered = vec![
        utf8_list(&[]),
        Some(Array::Utf8(vec![None])),
        utf8_list(&[""]),
        utf8_list(&["a"]),
        utf8_list(&["a", "b"]),
        utf8_list(&["a\u{0}"]),
        utf8_list(&["ab"]),
        utf8_list(&[&"b".repeat(32)]),
        utf8_list(&[&"b".repeat(33)]),
        utf8_list(&["c"]),
    ];
    let encoded: Vec<Vec<u8>> = ordered.into_iter().map(encode_one).collect();
    for w in encoded.windows(2) {
        assert!(w[0] < w[1]);
    }
}

#[test]
fn order_follows_unsigned_and_boolean_order() {
    let a = encode_one(Some(Array::Primitive(PrimitiveArray::UInt16(vec![Some(255)]))));
    let b = encode_one(Some(Array::Primitive(PrimitiveArray::UInt16(vec![Some(256)]))));
    assert!(a < b);
    let f = encode_one(Some(Array::Boolean(vec![Some(false), Some(true)])));
    let t = encode_one(Some(Array::Boolean(vec![Some(true)])));
    assert!(f < t);
    let n = encode_one(Some(Array::Primitive(PrimitiveArray::Int64(vec![Some(i64::MIN)]))));
    let p = encode_one(Some(Array::Primitive(PrimitiveArray::Int64(vec![Some(i64::MAX)]))));
    assert!(n < p);
}

#[test]
fn descending_reverses_pairs_that_differ_at_a_byte() {
    let values = vec![int32_list(&[4]), int32_list(&[-4]), None, int32_list(&[])];
    let asc = encode_rows(values, false);
    let values = vec![int32_list(&[4]), int32_list(&[-4]), None, int32_list(&[])];
    let desc = encode_rows(values, true);
    for i in 0..asc.len() {
        for j in 0..asc.len() {
            assert_eq!(asc[i] < asc[j], desc[j] < desc[i]);
        }
    }
}

#[test]
fn descending_keeps_a_strict_prefix_first() {
    let desc = encode_rows(vec![int32_list(&[1]), int32_list(&[1, 2])], true);
    assert!(desc[0] < desc[1]);
    assert_eq!(desc[1][..desc[0].len()], desc[0][..]);
}

#[test]
fn null_type_lists_encode_alike() {
    assert_eq!(encode_one(Some(Array::Null(1))), encode_one(Some(Array::Null(2))));
}

#[test]
fn nested_lists_order_by_first_differing_element() {
    let a = encode_one(Some(Array::List(vec![int32_list(&[1]), int32_list(&[5])])));
    let b = encode_one(Some(Array::List(vec![int32_list(&[2])])));
    let c = encode_one(Some(Array::List(vec![int32_list(&[2]), int32_list(&[0])])));
    let d = encode_one(Some(Array::List(vec![int32_list(&[2]), int32_list(&[0, 1])])));
    assert!(a < b);
    assert!(b < c);
    assert!(c < d);
}

#[test]
fn nested_prefix_followed_by_more_elements_compares_the_next_sentinel() {
    // [[1], [5]] sorts before [[1, 2]] element by element, but the inner
    // [1] is a strict prefix of [1, 2] and its sentinel for [5] meets the
    // validity byte of 2.
    let a = encode_one(Some(Array::List(vec![int32_list(&[1]), int32_list(&[5])])));
    let b = encode_one(Some(Array::List(vec![int32_list(&[1, 2])])));
    assert!(a > b);
}
