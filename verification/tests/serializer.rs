use dfhash::serializer::{
    serialize_frame, write_cell, write_header, write_integer, write_row, write_text, SerializationError,
};
use dfhash::table::{row_fits_schema, Column, ColumnType, FloatValue, TypedTable, Value};

fn column(name: &str, ty: ColumnType) -> Column {
    Column { name: name.to_string(), ty }
}

fn rendered(cell: Value) -> String {
    let mut out = Vec::new();
    write_cell(&mut out, &cell);
    String::from_utf8(out).unwrap()
}

fn finite(negative: bool, digits: u64, exponent: i32) -> Value {
    Value::Float(FloatValue::Finite { negative, digits, exponent })
}

fn serialized(table: &TypedTable) -> String {
    String::from_utf8(serialize_frame(table).unwrap()).unwrap()
}

#[test]
fn serializes_header_and_rows() {
    let table = TypedTable {
        schema: vec![column("a", ColumnType::Integer), column("b", ColumnType::Integer)],
        rows: vec![
            vec![Value::Integer(1), Value::Integer(2)],
            vec![Value::Integer(3), Value::Integer(4)],
        ],
    };
    assert_eq!(serialized(&table), "a,b\n1,2\n3,4\n");
}

#[test]
fn serializes_rows_in_the_order_given() {
    let table = TypedTable {
        schema: vec![column("a", ColumnType::Integer)],
        rows: vec![vec![Value::Integer(3)], vec![Value::Integer(1)], vec![Value::Integer(3)]],
    };
    assert_eq!(serialized(&table), "a\n3\n1\n3\n");
}

#[test]
fn serializes_a_table_without_rows() {
    let table = TypedTable { schema: vec![column("only", ColumnType::Text)], rows: vec![] };
    assert_eq!(serialized(&table), "only\n");
}

#[test]
fn serializes_a_table_without_columns() {
    let table = TypedTable { schema: vec![], rows: vec![vec![], vec![]] };
    assert_eq!(serialized(&table), "\n\n\n");
}

#[test]
fn serializes_every_type() {
    let table = TypedTable {
        schema: vec![
            column("i", ColumnType::Integer),
            column("f", ColumnType::Float),
            column("b", ColumnType::Boolean),
            column("s", ColumnType::Text),
            column("n", ColumnType::Null),
        ],
        rows: vec![
            vec![Value::Integer(-7), finite(false, 25, -1), Value::Boolean(true), Value::Text("x,y".to_string()), Value::Null],
            vec![Value::Null, Value::Null, Value::Null, Value::Null, Value::Null],
        ],
    };
    assert_eq!(serialized(&table), "i,f,b,s,n\n-7,2.5,true,\"x,y\",\n,,,,\n");
}

#[test]
fn quotes_column_names_like_text() {
    let table = TypedTable {
        schema: vec![column("a,b", ColumnType::Integer), column("", ColumnType::Integer), column("q\"", ColumnType::Integer)],
        rows: vec![],
    };
    assert_eq!(serialized(&table), "\"a,b\",\"\",\"q\"\"\"\n");
}

#[test]
fn integers_are_plain_decimal() {
    assert_eq!(rendered(Value::Integer(0)), "0");
    assert_eq!(rendered(Value::Integer(7)), "7");
    assert_eq!(rendered(Value::Integer(10)), "10");
    assert_eq!(rendered(Value::Integer(-1)), "-1");
    assert_eq!(rendered(Value::Integer(1234567890)), "1234567890");
    assert_eq!(rendered(Value::Integer(i64::MAX)), "9223372036854775807");
    assert_eq!(rendered(Value::Integer(i64::MIN)), "-9223372036854775808");
    let mut out = b"x=".to_vec();
    write_integer(&mut out, -305);
    assert_eq!(out, b"x=-305");
}

#[test]
fn booleans_are_true_and_false() {
    assert_eq!(rendered(Value::Boolean(true)), "true");
    assert_eq!(rendered(Value::Boolean(false)), "false");
}

#[test]
fn null_is_nothing_and_empty_text_is_quoted() {
    assert_eq!(rendered(Value::Null), "");
    assert_eq!(rendered(Value::Text(String::new())), "\"\"");
}

#[test]
fn text_is_quoted_where_needed() {
    assert_eq!(rendered(Value::Text("plain".to_string())), "plain");
    assert_eq!(rendered(Value::Text("with space".to_string())), "with space");
    assert_eq!(rendered(Value::Text("a,b".to_string())), "\"a,b\"");
    assert_eq!(rendered(Value::Text("line\nbreak".to_string())), "\"line\nbreak\"");
    assert_eq!(rendered(Value::Text("carriage\rreturn".to_string())), "\"carriage\rreturn\"");
    assert_eq!(rendered(Value::Text("say \"hi\"".to_string())), "\"say \"\"hi\"\"\"");
    assert_eq!(rendered(Value::Text("\"".to_string())), "\"\"\"\"");
    assert_eq!(rendered(Value::Text("true".to_string())), "true");
    assert_eq!(rendered(Value::Text("häagen".to_string())), "häagen");
    let mut out = Vec::new();
    write_text(&mut out, b"a;b");
    assert_eq!(out, b"a;b");
}

#[test]
fn floats_that_are_not_numbers() {
    assert_eq!(rendered(Value::Float(FloatValue::NaN)), "NaN");
    assert_eq!(rendered(Value::Float(FloatValue::Infinity)), "inf");
    assert_eq!(rendered(Value::Float(FloatValue::NegInfinity)), "-inf");
}

#[test]
fn floats_written_in_full() {
    assert_eq!(rendered(finite(false, 0, 0)), "0.0");
    assert_eq!(rendered(finite(false, 1, 0)), "1.0");
    assert_eq!(rendered(finite(true, 1, 0)), "-1.0");
    assert_eq!(rendered(finite(false, 1, 1)), "10.0");
    assert_eq!(rendered(finite(false, 1234, 7)), "12340000000.0");
    assert_eq!(rendered(finite(false, 1, 15)), "1000000000000000.0");
    assert_eq!(rendered(finite(false, 25, -1)), "2.5");
    assert_eq!(rendered(finite(false, 1234, -2)), "12.34");
    assert_eq!(rendered(finite(true, 1234, -2)), "-12.34");
    assert_eq!(rendered(finite(false, 1, -1)), "0.1");
    assert_eq!(rendered(finite(false, 1234, -4)), "0.1234");
    assert_eq!(rendered(finite(false, 1234, -6)), "0.001234");
    assert_eq!(rendered(finite(false, 1, -5)), "0.00001");
    assert_eq!(rendered(finite(false, 1234567890123456, 0)), "1234567890123456.0");
    assert_eq!(rendered(finite(false, 12345678901234567, -16)), "1.2345678901234567");
    assert_eq!(rendered(finite(false, 3, -1)), "0.3");
    assert_eq!(rendered(finite(false, 30000000000000004, -17)), "0.30000000000000004");
}

#[test]
fn floats_written_with_an_exponent() {
    assert_eq!(rendered(finite(false, 1, 16)), "1e16");
    assert_eq!(rendered(finite(false, 1, 20)), "1e20");
    assert_eq!(rendered(finite(false, 1, 30)), "1e30");
    assert_eq!(rendered(finite(false, 1234, 30)), "1.234e33");
    assert_eq!(rendered(finite(false, 12345678901234567, 0)), "1.2345678901234567e16");
    assert_eq!(rendered(finite(false, 1, -6)), "1e-6");
    assert_eq!(rendered(finite(false, 15, -8)), "1.5e-7");
    assert_eq!(rendered(finite(true, 15, -8)), "-1.5e-7");
    assert_eq!(rendered(finite(false, 5, -324)), "5e-324");
    assert_eq!(rendered(finite(false, 17976931348623157, 292)), "1.7976931348623157e308");
    assert_eq!(rendered(finite(false, 22250738585072014, -324)), "2.2250738585072014e-308");
}

#[test]
fn header_and_row_lines() {
    let mut out = Vec::new();
    write_header(&mut out, &vec![column("x", ColumnType::Integer), column("y", ColumnType::Text)]);
    write_row(&mut out, &vec![Value::Integer(1), Value::Text("one".to_string())]);
    write_row(&mut out, &vec![Value::Null, Value::Null]);
    assert_eq!(out, b"x,y\n1,one\n,\n");
}

#[test]
fn rows_must_fit_the_schema() {
    let schema = vec![column("i", ColumnType::Integer), column("f", ColumnType::Float)];
    assert!(row_fits_schema(&vec![Value::Integer(1), finite(false, 5, -1)], &schema));
    assert!(row_fits_schema(&vec![Value::Null, Value::Null], &schema));
    assert!(!row_fits_schema(&vec![Value::Integer(1)], &schema));
    assert!(!row_fits_schema(&vec![Value::Integer(1), finite(false, 5, -1), Value::Null], &schema));
    assert!(!row_fits_schema(&vec![Value::Boolean(true), finite(false, 5, -1)], &schema));
    assert!(!row_fits_schema(&vec![Value::Integer(1), Value::Integer(2)], &schema));
    // A float must be normalised: no trailing zero, one spelling of zero, at most 17 digits.
    assert!(!row_fits_schema(&vec![Value::Integer(1), finite(false, 50, -2)], &schema));
    assert!(!row_fits_schema(&vec![Value::Integer(1), finite(true, 0, 0)], &schema));
    assert!(!row_fits_schema(&vec![Value::Integer(1), finite(false, 0, 3)], &schema));
    assert!(!row_fits_schema(&vec![Value::Integer(1), finite(false, 100000000000000001, 0)], &schema));
    assert!(row_fits_schema(&vec![Value::Integer(1), finite(false, 99999999999999999, 0)], &schema));
    assert!(row_fits_schema(&vec![Value::Integer(1), Value::Float(FloatValue::NaN)], &schema));
}

#[test]
fn tables_are_well_formed_or_not() {
    let schema = || vec![column("i", ColumnType::Integer), column("s", ColumnType::Text)];
    let good = TypedTable {
        schema: schema(),
        rows: vec![vec![Value::Integer(1), Value::Null], vec![Value::Null, Value::Text("x".to_string())]],
    };
    assert!(good.is_well_formed());
    let short = TypedTable { schema: schema(), rows: vec![vec![Value::Integer(1)]] };
    assert!(!short.is_well_formed());
    let mixed = TypedTable { schema: schema(), rows: vec![vec![Value::Text("x".to_string()), Value::Null]] };
    assert!(!mixed.is_well_formed());
    assert!(TypedTable { schema: schema(), rows: vec![] }.is_well_formed());
    assert!(TypedTable { schema: vec![], rows: vec![vec![]] }.is_well_formed());
}

#[test]
fn a_null_column_holds_only_nulls() {
    let schema = vec![column("n", ColumnType::Null)];
    assert!(row_fits_schema(&vec![Value::Null], &schema));
    assert!(!row_fits_schema(&vec![Value::Integer(0)], &schema));
    assert!(!row_fits_schema(&vec![Value::Text(String::new())], &schema));
}

#[test]
fn serialization_fails_on_the_first_row_that_does_not_fit() {
    let table = TypedTable {
        schema: vec![column("a", ColumnType::Integer)],
        rows: vec![
            vec![Value::Integer(1)],
            vec![Value::Null],
            vec![Value::Integer(1), Value::Integer(2)],
            vec![Value::Text("x".to_string())],
        ],
    };
    assert_eq!(serialize_frame(&table), Err(SerializationError { row: 2 }));
}

#[test]
fn serialization_fails_on_a_cell_of_the_wrong_type() {
    let table = TypedTable {
        schema: vec![column("a", ColumnType::Integer), column("b", ColumnType::Boolean)],
        rows: vec![vec![Value::Integer(1), Value::Integer(1)]],
    };
    assert_eq!(serialize_frame(&table), Err(SerializationError { row: 0 }));
}
