use dfhash::float_text::{parse_float, parse_scientific};
use dfhash::serializer::serialize_frame;
use dfhash::sorter::sort_frame;
use dfhash::table::{Column, ColumnType, TypedTable, Value};
use polars::prelude::{CsvWriter, DataFrame, DataType, SerWriter, SortMultipleOptions};

/// The bytes that polars writes for a data frame.
fn written_by_polars(mut df: DataFrame) -> String {
    let mut out = Vec::new();
    CsvWriter::new(&mut out).finish(&mut df).unwrap();
    String::from_utf8(out).unwrap()
}

fn written(table: &TypedTable) -> String {
    String::from_utf8(serialize_frame(table).unwrap()).unwrap()
}

/// The floats as cells, taken over in the text that polars writes for them.
fn float_cells(values: &[Option<f64>]) -> Vec<Value> {
    let written = polars::prelude::Column::new("f".into(), values).cast(&DataType::String).unwrap();
    let texts = written.str().unwrap();
    (0..values.len())
        .map(|i| match texts.get(i) {
            Some(text) => Value::Float(parse_float(text.as_bytes()).expect(text)),
            None => Value::Null,
        })
        .collect()
}

fn column(name: &str, ty: ColumnType) -> Column {
    Column { name: name.to_string(), ty }
}

/// A sequence of numbers that looks random and is the same in every run.
fn scrambled(seed: u64, count: usize) -> Vec<u64> {
    let mut state = seed;
    (0..count)
        .map(|_| {
            state = state.wrapping_mul(6364136223846793005).wrapping_add(1442695040888963407);
            state ^ (state >> 29)
        })
        .collect()
}

fn float_column_agrees(values: Vec<f64>) {
    let cells = float_cells(&values.iter().map(|x| Some(*x)).collect::<Vec<_>>());
    let table = TypedTable {
        schema: vec![column("f", ColumnType::Float)],
        rows: cells.into_iter().map(|cell| vec![cell]).collect(),
    };
    let df = DataFrame::new(vec![polars::prelude::Column::new("f".into(), values)]).unwrap();
    let ours = written(&table);
    let theirs = written_by_polars(df);
    let differing: Vec<(&str, &str)> = ours.lines().zip(theirs.lines()).filter(|(a, b)| a != b).take(20).collect();
    assert_eq!(differing, Vec::<(&str, &str)>::new());
    assert_eq!(ours.len(), theirs.len());
}

#[test]
fn floats_are_written_as_polars_writes_them() {
    float_column_agrees(vec![
        0.0, 1.0, -1.0, 1.5, -2.5, 0.1, 0.2, 0.1 + 0.2, 10.0, 100.0, 123456.789, 1e-4, 1e-5, 1e-6, 1.5e-5,
        1.5e-6, 9.999e-5, 1e14, 1e15, 1e16, 1e17, 1.2e15, 1.2e16, 1.2e17, 1234567890123456.0,
        12345678901234567.0, 9007199254740993.0, 1e21, 1e22, 1e23, 1e100, 1e-100, 1e300, 1e-300,
        3.141592653589793, 2.718281828459045, f64::MAX, f64::MIN, f64::MIN_POSITIVE, 5e-324, f64::EPSILON,
        f64::NAN, f64::INFINITY, f64::NEG_INFINITY,
    ]);
}

#[test]
fn floats_of_every_size_are_written_as_polars_writes_them() {
    let values: Vec<f64> = scrambled(1, 4000)
        .into_iter()
        .map(f64::from_bits)
        .filter(|x| *x != 0.0)
        .collect();
    assert!(values.len() > 3900);
    float_column_agrees(values);
}

#[test]
fn floats_near_one_are_written_as_polars_writes_them() {
    // Exponents from -30 to 30, where the number is written in full or nearly so.
    let values: Vec<f64> = scrambled(2, 4000)
        .into_iter()
        .map(|bits| {
            let mantissa = (bits >> 12) as f64 / (1u64 << 52) as f64 + 1.0;
            let exponent = (bits % 61) as i32 - 30;
            let sign = if bits & 0x800 == 0 { 1.0 } else { -1.0 };
            sign * mantissa * 10f64.powi(exponent)
        })
        .collect();
    float_column_agrees(values);
}

#[test]
fn short_floats_are_written_as_polars_writes_them() {
    // Few digits and every exponent near the bounds between the forms.
    let mut values = Vec::new();
    for exponent in -12..=24 {
        for digits in [1.0, 2.0, 5.0, 9.0, 12.0, 25.0, 99.0, 125.0, 1234.0, 99999.0] {
            let x: f64 = format!("{}e{}", digits, exponent).parse().unwrap();
            values.push(x);
            values.push(-x);
        }
    }
    float_column_agrees(values);
}

#[test]
fn text_is_written_as_polars_writes_it() {
    let values: Vec<Option<&str>> = vec![
        Some("plain"), Some(""), None, Some("a,b"), Some("say \"hi\""), Some("\""), Some("\"\""),
        Some("line\nbreak"), Some("carriage\rreturn"), Some("\r\n"), Some(" leading"), Some("trailing "),
        Some("tab\there"), Some("semi;colon"), Some("'single'"), Some("häagen-dazs"), Some("日本語"),
        Some("null"), Some("NaN"), Some("1"), Some("true"), Some(",\",\n"), Some("a\"b,c\"d"),
    ];
    let table = TypedTable {
        schema: vec![column("s", ColumnType::Text)],
        rows: values
            .iter()
            .map(|v| vec![v.map(|s| Value::Text(s.to_string())).unwrap_or(Value::Null)])
            .collect(),
    };
    let df = DataFrame::new(vec![polars::prelude::Column::new("s".into(), values)]).unwrap();
    assert_eq!(written(&table), written_by_polars(df));
}

#[test]
fn column_names_are_written_as_polars_writes_them() {
    let names = ["plain", "a,b", "q\"uote", "line\nbreak", " ", "ü"];
    let table = TypedTable {
        schema: names.iter().map(|n| column(n, ColumnType::Integer)).collect(),
        rows: vec![names.iter().map(|_| Value::Integer(1)).collect()],
    };
    let columns = names
        .iter()
        .map(|n| polars::prelude::Column::new((*n).into(), vec![1i64]))
        .collect();
    assert_eq!(written(&table), written_by_polars(DataFrame::new(columns).unwrap()));
}

#[test]
fn integers_and_booleans_are_written_as_polars_writes_them() {
    let integers: Vec<Option<i64>> =
        vec![Some(0), Some(1), Some(-1), None, Some(10), Some(-10), Some(i64::MAX), Some(i64::MIN), Some(1234567890)];
    let booleans: Vec<Option<bool>> =
        vec![Some(true), Some(false), None, None, Some(true), Some(true), Some(false), Some(false), None];
    let table = TypedTable {
        schema: vec![column("i", ColumnType::Integer), column("b", ColumnType::Boolean)],
        rows: integers
            .iter()
            .zip(&booleans)
            .map(|(i, b)| {
                vec![i.map(Value::Integer).unwrap_or(Value::Null), b.map(Value::Boolean).unwrap_or(Value::Null)]
            })
            .collect(),
    };
    let df = DataFrame::new(vec![
        polars::prelude::Column::new("i".into(), integers),
        polars::prelude::Column::new("b".into(), booleans),
    ])
    .unwrap();
    assert_eq!(written(&table), written_by_polars(df));
}

#[test]
fn rows_are_sorted_as_polars_sorts_them() {
    let words = ["", "a", "ab", "b", "B", "é", "z,", "\"q\""];
    let numbers = [-1.5, -1.0, 0.0, 0.5, 1.0, 1e10, 1e-10, f64::NAN, f64::INFINITY, f64::NEG_INFINITY];
    let draws = scrambled(3, 500);
    let pick = |draw: u64, shift: u32, choices: u64| -> Option<u64> {
        let d = (draw >> shift) % (choices + 1);
        if d == choices {
            None
        } else {
            Some(d)
        }
    };
    let integers: Vec<Option<i64>> = draws.iter().map(|d| pick(*d, 0, 4).map(|v| v as i64 - 2)).collect();
    let floats: Vec<Option<f64>> = draws.iter().map(|d| pick(*d, 8, 10).map(|v| numbers[v as usize])).collect();
    let booleans: Vec<Option<bool>> = draws.iter().map(|d| pick(*d, 16, 2).map(|v| v == 1)).collect();
    let texts: Vec<Option<&str>> = draws.iter().map(|d| pick(*d, 24, 8).map(|v| words[v as usize])).collect();
    let float_cells = float_cells(&floats);
    let table = TypedTable {
        schema: vec![
            column("i", ColumnType::Integer),
            column("f", ColumnType::Float),
            column("b", ColumnType::Boolean),
            column("s", ColumnType::Text),
        ],
        rows: (0..draws.len())
            .map(|r| {
                vec![
                    integers[r].map(Value::Integer).unwrap_or(Value::Null),
                    float_cells[r].clone(),
                    booleans[r].map(Value::Boolean).unwrap_or(Value::Null),
                    texts[r].map(|s| Value::Text(s.to_string())).unwrap_or(Value::Null),
                ]
            })
            .collect(),
    };
    let df = DataFrame::new(vec![
        polars::prelude::Column::new("i".into(), integers),
        polars::prelude::Column::new("f".into(), floats),
        polars::prelude::Column::new("b".into(), booleans),
        polars::prelude::Column::new("s".into(), texts),
    ])
    .unwrap();
    let sorted = df.sort(["i", "f", "b", "s"], SortMultipleOptions::default()).unwrap();
    assert_eq!(written(&sort_frame(&table)), written_by_polars(sorted));
}

#[test]
fn shortest_digits_are_not_always_the_same() {
    // Where two decimals of 17 digits are equally near a float, polars writes the
    // one that ends in an even digit and `{:e}` the greater; both read back as
    // the float. Everywhere else the two agree.
    let values: Vec<f64> = scrambled(2, 4000)
        .into_iter()
        .map(|bits| {
            let mantissa = (bits >> 12) as f64 / (1u64 << 52) as f64 + 1.0;
            let exponent = (bits % 61) as i32 - 30;
            mantissa * 10f64.powi(exponent)
        })
        .collect();
    let as_written = float_cells(&values.iter().map(|x| Some(*x)).collect::<Vec<_>>());
    let mut differing = 0;
    for (x, cell) in values.iter().zip(as_written) {
        let scientific = Value::Float(parse_scientific(format!("{:e}", x).as_bytes()).unwrap());
        if scientific != cell {
            differing += 1;
            let mut one = Vec::new();
            let mut other = Vec::new();
            dfhash::serializer::write_cell(&mut one, &cell);
            dfhash::serializer::write_cell(&mut other, &scientific);
            let one: f64 = String::from_utf8(one).unwrap().parse().unwrap();
            let other: f64 = String::from_utf8(other).unwrap().parse().unwrap();
            assert_eq!(one, *x);
            assert_eq!(other, *x);
        }
    }
    assert!(differing < values.len() / 50);
}
