use dfhash::comparator::frames_equal;
use dfhash::hasher::compute_frame_hash;
use dfhash::report::{check_request, run, Input, Report};
use dfhash::serializer::serialize_frame;
use dfhash::sorter::sort_frame;
use dfhash::table::{Column, ColumnType, TypedTable, Value};

const BASE_HASH: &str = "b9485148546419a0f6a85e8d708c923557c15d7f3c7d078ef1fa7f7c0f57d5a5";
const DIFFERENT_HASH: &str = "3ac6ebfaa02ff29dc2669bb8d8f3c84271b977ae5872356802c721bacaddc392";

fn two_columns(rows: &[(i64, i64)]) -> TypedTable {
    TypedTable {
        schema: vec![
            Column { name: "a".to_string(), ty: ColumnType::Integer },
            Column { name: "b".to_string(), ty: ColumnType::Integer },
        ],
        rows: rows.iter().map(|(a, b)| vec![Value::Integer(*a), Value::Integer(*b)]).collect(),
    }
}

fn base() -> TypedTable {
    two_columns(&[(1, 2), (3, 4)])
}

fn reordered() -> TypedTable {
    two_columns(&[(3, 4), (1, 2)])
}

fn different() -> TypedTable {
    two_columns(&[(1, 2), (9, 9)])
}

fn loaded(path: &str, table: TypedTable) -> Input {
    Input { path: path.to_string(), frame: Ok(table) }
}

fn missing(path: &str) -> Input {
    Input { path: path.to_string(), frame: Err("No such file or directory (os error 2)".to_string()) }
}

fn text(bytes: &[u8]) -> String {
    String::from_utf8(bytes.to_vec()).unwrap()
}

fn fingerprint_of(table: &TypedTable) -> String {
    compute_frame_hash(&sort_frame(table)).unwrap()
}

#[test]
fn reordered_rows_have_the_same_hash() {
    assert_eq!(fingerprint_of(&base()), BASE_HASH);
    assert_eq!(fingerprint_of(&reordered()), BASE_HASH);
}

#[test]
fn different_rows_have_a_different_hash() {
    assert_eq!(fingerprint_of(&different()), DIFFERENT_HASH);
    assert_ne!(fingerprint_of(&base()), fingerprint_of(&different()));
    assert!(!frames_equal(&base(), &different()));
}

#[test]
fn the_same_table_built_twice_has_the_same_hash() {
    let first = base();
    let second = base();
    assert_eq!(fingerprint_of(&first), fingerprint_of(&second));
    assert!(frames_equal(&first, &second));
}

#[test]
fn a_duplicated_row_changes_the_hash() {
    let with_duplicate = two_columns(&[(1, 2), (3, 4), (1, 2)]);
    assert_eq!(
        fingerprint_of(&with_duplicate),
        "14617e2bf8970d2a7f1ecebe5e1bb15942d835858a95d49cf0aeaf37fba178d0"
    );
    assert_ne!(fingerprint_of(&with_duplicate), fingerprint_of(&base()));
    assert!(!frames_equal(&with_duplicate, &base()));
}

#[test]
fn a_duplicated_row_adds_one_line() {
    let with_duplicate = two_columns(&[(3, 4), (1, 2), (3, 4)]);
    let without = two_columns(&[(3, 4), (1, 2)]);
    let longer = serialize_frame(&sort_frame(&with_duplicate)).unwrap();
    let shorter = serialize_frame(&sort_frame(&without)).unwrap();
    assert_eq!(text(&shorter), "a,b\n1,2\n3,4\n");
    assert_eq!(text(&longer), "a,b\n1,2\n3,4\n3,4\n");
    assert_eq!(longer.len(), shorter.len() + "3,4\n".len());
    assert_ne!(fingerprint_of(&with_duplicate), fingerprint_of(&without));
}

#[test]
fn changing_one_cell_changes_the_hash() {
    let changed = two_columns(&[(1, 2), (3, 5)]);
    assert_ne!(fingerprint_of(&changed), fingerprint_of(&base()));
}

#[test]
fn equality_agrees_with_hash_equality() {
    let tables = [base(), reordered(), different(), two_columns(&[(1, 2), (3, 4), (1, 2)])];
    for a in &tables {
        for b in &tables {
            assert_eq!(frames_equal(a, b), fingerprint_of(a) == fingerprint_of(b));
        }
    }
}

#[test]
fn run_without_files_is_refused() {
    let report = run(&vec![], false);
    assert_eq!(report.code, 2);
    assert_eq!(text(&report.output), "");
    assert_eq!(text(&report.errors), "Error: No files provided\n");
    assert_eq!(check_request(0, false), Some(report));
    assert_eq!(check_request(0, true).unwrap().code, 2);
}

#[test]
fn run_hashes_one_file() {
    let report = run(&vec![loaded("/tmp/x/a.csv", base())], false);
    assert_eq!(report.code, 0);
    assert_eq!(text(&report.output), format!("{}  /tmp/x/a.csv\n", BASE_HASH));
    assert_eq!(text(&report.errors), "");
}

#[test]
fn run_reports_a_file_that_could_not_be_read() {
    let report = run(&vec![missing("nonexistent")], false);
    assert_eq!(report.code, 2);
    assert_eq!(text(&report.output), "");
    assert_eq!(text(&report.errors), "Error loading nonexistent: No such file or directory (os error 2)\n");
}

#[test]
fn equality_needs_two_files() {
    let report = run(&vec![loaded("a.csv", base())], true);
    assert_eq!(report.code, 1);
    assert_eq!(text(&report.output), "");
    assert_eq!(text(&report.errors), "Error: --equal requires at least two files.\n");
    assert_eq!(check_request(1, true), Some(report));
    assert_eq!(check_request(1, false), None);
    assert_eq!(check_request(2, true), None);
}

#[test]
fn run_hashes_two_equal_files() {
    let report = run(&vec![loaded("a.csv", base()), loaded("b.csv", base())], false);
    assert_eq!(report.code, 0);
    assert_eq!(text(&report.output), format!("{}  a.csv\n{}  b.csv\n", BASE_HASH, BASE_HASH));
    assert_eq!(text(&report.errors), "");
}

#[test]
fn run_finds_two_equal_files_equal() {
    let report = run(&vec![loaded("a.csv", base()), loaded("b.csv", base())], true);
    assert_eq!(report, Report { code: 0, output: vec![], errors: vec![] });
}

#[test]
fn run_goes_on_after_a_file_that_could_not_be_read() {
    let inputs = vec![loaded("a.csv", base()), loaded("b.csv", base()), missing("nonexistent")];
    let report = run(&inputs, false);
    assert_eq!(report.code, 2);
    assert_eq!(text(&report.output), format!("{}  a.csv\n{}  b.csv\n", BASE_HASH, BASE_HASH));
    assert_eq!(text(&report.errors), "Error loading nonexistent: No such file or directory (os error 2)\n");
}

#[test]
fn run_does_not_compare_after_a_file_that_could_not_be_read() {
    let inputs = vec![loaded("a.csv", base()), loaded("b.csv", base()), missing("nonexistent")];
    let report = run(&inputs, true);
    assert_eq!(report.code, 2);
    assert_eq!(text(&report.output), "");
    assert_eq!(
        text(&report.errors),
        "Error loading nonexistent: No such file or directory (os error 2)\n\
         Warning: Cannot check for equality due to previous errors.\n"
    );
}

#[test]
fn run_hashes_reordered_files_alike() {
    let report = run(&vec![loaded("a.csv", base()), loaded("b.csv", reordered())], false);
    assert_eq!(report.code, 0);
    assert_eq!(text(&report.output), format!("{}  a.csv\n{}  b.csv\n", BASE_HASH, BASE_HASH));
    assert_eq!(text(&report.errors), "");
}

#[test]
fn run_finds_reordered_files_equal() {
    let report = run(&vec![loaded("a.csv", base()), loaded("b.csv", reordered())], true);
    assert_eq!(report, Report { code: 0, output: vec![], errors: vec![] });
}

#[test]
fn run_hashes_different_files_differently() {
    let report = run(&vec![loaded("a.csv", base()), loaded("b.csv", different())], false);
    assert_eq!(report.code, 0);
    assert_eq!(text(&report.output), format!("{}  a.csv\n{}  b.csv\n", BASE_HASH, DIFFERENT_HASH));
    assert_eq!(text(&report.errors), "");
}

#[test]
fn run_finds_different_files_different() {
    let report = run(&vec![loaded("a.csv", base()), loaded("b.csv", different())], true);
    assert_eq!(report.code, 1);
    assert_eq!(text(&report.output), "");
    assert_eq!(text(&report.errors), "Error: Files do not match.\n");
}

#[test]
fn run_compares_every_file_with_the_first() {
    let inputs = vec![loaded("a.csv", base()), loaded("b.csv", reordered()), loaded("c.csv", different())];
    assert_eq!(run(&inputs, true).code, 1);
    let inputs = vec![loaded("a.csv", base()), loaded("b.csv", reordered()), loaded("c.csv", base())];
    assert_eq!(run(&inputs, true).code, 0);
}

#[test]
fn run_reports_a_table_that_cannot_be_hashed() {
    let mut broken = base();
    broken.rows.push(vec![Value::Integer(2)]);
    let report = run(&vec![loaded("a.csv", base()), loaded("b.csv", broken)], false);
    assert_eq!(report.code, 2);
    assert_eq!(text(&report.output), format!("{}  a.csv\n", BASE_HASH));
    // The short row (2) sorts after (1, 2) and before (3, 4).
    assert_eq!(text(&report.errors), "Error hashing b.csv: row 1 does not fit the schema\n");
}

#[test]
fn comparing_writes_no_hash_line() {
    let equal = vec![loaded("a.csv", base()), loaded("b.csv", reordered())];
    let unequal = vec![loaded("a.csv", base()), loaded("b.csv", different())];
    let unread = vec![loaded("a.csv", base()), missing("b.csv")];
    for inputs in [&equal, &unequal, &unread] {
        assert_eq!(run(inputs, true).output, Vec::<u8>::new());
        assert_ne!(run(inputs, false).output, Vec::<u8>::new());
    }
}

#[test]
fn comparing_does_not_hash() {
    let mut broken = base();
    broken.rows.push(vec![Value::Integer(2)]);
    let mut also_broken = reordered();
    also_broken.rows.push(vec![Value::Integer(2)]);
    let report = run(&vec![loaded("a.csv", base()), loaded("b.csv", broken)], true);
    assert_eq!(report.code, 1);
    assert_eq!(text(&report.output), "");
    assert_eq!(text(&report.errors), "Error: Files do not match.\n");
    let mut broken = base();
    broken.rows.push(vec![Value::Integer(2)]);
    let report = run(&vec![loaded("a.csv", broken), loaded("b.csv", also_broken)], true);
    assert_eq!(report, Report { code: 0, output: vec![], errors: vec![] });
}

#[test]
fn run_does_not_change_its_inputs() {
    let inputs = vec![loaded("b.csv", reordered())];
    run(&inputs, false);
    assert_eq!(inputs[0].frame, Ok(reordered()));
}
