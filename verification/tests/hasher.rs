use dfhash::hasher::{compute_frame_hash, digest_text, hash_bytes};
use dfhash::serializer::SerializationError;
use dfhash::table::{Column, ColumnType, TypedTable, Value};

#[test]
fn hash_of_nothing() {
    assert_eq!(hash_bytes(b""), "e3b0c44298fc1c149afbf4c8996fb92427ae41e4649b934ca495991b7852b855");
}

#[test]
fn hash_of_abc() {
    assert_eq!(hash_bytes(b"abc"), "ba7816bf8f01cfea414140de5dae2223b00361a396177a9cb410ff61f20015ad");
}

#[test]
fn hash_is_64_lowercase_hex_digits() {
    let text = hash_bytes(b"a,b\n1,2\n3,4\n");
    assert_eq!(text.len(), 64);
    assert!(text.chars().all(|c| c.is_ascii_digit() || ('a'..='f').contains(&c)));
    assert_eq!(text, "b9485148546419a0f6a85e8d708c923557c15d7f3c7d078ef1fa7f7c0f57d5a5");
}

#[test]
fn hash_depends_on_the_bytes_alone() {
    assert_eq!(hash_bytes(b"same"), hash_bytes(&b"same".to_vec()));
    assert_ne!(hash_bytes(b"same"), hash_bytes(b"same "));
}

#[test]
fn digest_text_writes_two_digits_per_byte() {
    assert_eq!(digest_text(&[1, 2, 3, 15, 16]), "0102030f10");
    assert_eq!(digest_text(&[0x00, 0x9a, 0xff, 0xa0]), "009affa0");
    assert_eq!(digest_text(&[]), "");
}

#[test]
fn frame_hash_is_the_hash_of_the_serialization() {
    let table = TypedTable {
        schema: vec![Column { name: "x".to_string(), ty: ColumnType::Text }],
        rows: vec![vec![Value::Null], vec![Value::Text(String::new())]],
    };
    assert_eq!(
        compute_frame_hash(&table),
        Ok("840716969a8882be70bcb8d6a31c083b8851b31aa309661543747d89f8cc24be".to_string())
    );
    assert_eq!(compute_frame_hash(&table), Ok(hash_bytes(b"x\n\n\"\"\n")));
}

#[test]
fn frame_hash_of_a_table_without_columns() {
    let table = TypedTable { schema: vec![], rows: vec![] };
    assert_eq!(
        compute_frame_hash(&table),
        Ok("01ba4719c80b6fe911b091a7c05124b64eeece964e09c058ef8f9805daca546b".to_string())
    );
}

#[test]
fn frame_hash_does_not_sort() {
    let schema = || vec![Column { name: "a".to_string(), ty: ColumnType::Integer }];
    let up = TypedTable { schema: schema(), rows: vec![vec![Value::Integer(1)], vec![Value::Integer(2)]] };
    let down = TypedTable { schema: schema(), rows: vec![vec![Value::Integer(2)], vec![Value::Integer(1)]] };
    assert_eq!(compute_frame_hash(&up), Ok(hash_bytes(b"a\n1\n2\n")));
    assert_eq!(compute_frame_hash(&down), Ok(hash_bytes(b"a\n2\n1\n")));
}

#[test]
fn frame_hash_fails_on_the_first_row_that_does_not_fit() {
    let table = TypedTable {
        schema: vec![Column { name: "a".to_string(), ty: ColumnType::Integer }],
        rows: vec![
            vec![Value::Integer(1)],
            vec![Value::Text("one".to_string())],
            vec![Value::Boolean(true)],
        ],
    };
    assert_eq!(compute_frame_hash(&table), Err(SerializationError { row: 1 }));
}
