//! The canonical serializer: one exact byte sequence for a table.
//!
//! The text is comma-separated values in UTF-8: a header line with the column
//! names, then one line per row, each line ended by a line feed. Text is quoted
//! where it is empty or holds a comma, a quote, a line feed or a carriage return,
//! and a quote inside quotes is doubled; a null cell is written as nothing at all.

use vstd::prelude::*;
use crate::decimal::{decimal, lemma_decimal_len, lemma_digit_count_u64, push_decimal};
use crate::table::{
    row_fits,
    row_fits_schema,
    row_view,
    rows_view,
    schema_view,
    CellView,
    Column,
    ColumnView,
    FloatValue,
    TableView,
    TypedTable,
    Value,
};

verus! {

/// The comma between the fields of a line.
pub const SEPARATOR: u8 = 44;

/// The double quote round a quoted field.
pub const QUOTE: u8 = 34;

/// The line feed that ends a line.
pub const LINE_FEED: u8 = 10;

/// The carriage return, which like a line feed forces quotes.
pub const CARRIAGE_RETURN: u8 = 13;

/// The minus sign.
pub const MINUS: u8 = 45;

/// The digit zero.
pub const ZERO: u8 = 48;

/// The decimal point.
pub const POINT: u8 = 46;

/// The letter that introduces a decimal exponent.
pub const EXPONENT_MARK: u8 = 101;

/// A byte that cannot stand in a field without quotes.
pub open spec fn is_special(b: u8) -> bool {
    b == SEPARATOR || b == QUOTE || b == LINE_FEED || b == CARRIAGE_RETURN
}

/// Text is quoted if it is empty, which would read as null, or holds a special byte.
pub open spec fn needs_quotes(text: Seq<u8>) -> bool {
    text.len() == 0 || exists|i: int| 0 <= i < text.len() && is_special(#[trigger] text[i])
}

/// The text with each quote doubled.
pub open spec fn escaped(text: Seq<u8>) -> Seq<u8>
    decreases text.len(),
{
    if text.len() == 0 {
        Seq::empty()
    } else if text.last() == QUOTE {
        escaped(text.drop_last()).push(QUOTE).push(QUOTE)
    } else {
        escaped(text.drop_last()).push(text.last())
    }
}

/// A text field: the bytes as they are, or quoted and escaped.
pub open spec fn render_text(text: Seq<u8>) -> Seq<u8> {
    if needs_quotes(text) {
        seq![QUOTE] + escaped(text) + seq![QUOTE]
    } else {
        text
    }
}

/// An integer in decimal, with a minus sign if negative.
pub open spec fn render_integer(i: int) -> Seq<u8> {
    if i < 0 {
        seq![MINUS] + decimal((-i) as nat)
    } else {
        decimal(i as nat)
    }
}

/// `n` zeros.
pub open spec fn zeros(n: nat) -> Seq<u8> {
    Seq::new(n, |i: int| ZERO)
}

/// The number `digits * 10^exponent`, for nonzero digits. With `n` digits and
/// `kk = n + exponent`, the number is written in full if `kk` lies between -4 and
/// 16, always with a decimal point and at least one digit after it, and else with
/// one digit before the point and the exponent `kk - 1` after the letter `e`.
pub open spec fn render_magnitude(digits: nat, exponent: int) -> Seq<u8> {
    let d = decimal(digits);
    let kk = d.len() + exponent;
    if 0 <= exponent && kk <= 16 {
        d + zeros(exponent as nat) + seq![POINT, ZERO]
    } else if 0 < kk <= 16 {
        d.take(kk) + seq![POINT] + d.skip(kk)
    } else if -5 < kk <= 0 {
        seq![ZERO, POINT] + zeros((-kk) as nat) + d
    } else if d.len() == 1 {
        d + seq![EXPONENT_MARK] + render_integer(kk - 1)
    } else {
        d.take(1) + seq![POINT] + d.skip(1) + seq![EXPONENT_MARK] + render_integer(kk - 1)
    }
}

/// A float: `NaN`, `inf`, `-inf`, `0.0`, or the number with its sign.
pub open spec fn render_float(f: FloatValue) -> Seq<u8> {
    match f {
        FloatValue::NaN => seq![78u8, 97u8, 78u8],
        FloatValue::Infinity => seq![105u8, 110u8, 102u8],
        FloatValue::NegInfinity => seq![MINUS, 105u8, 110u8, 102u8],
        FloatValue::Finite { negative, digits, exponent } => {
            let sign = if negative {
                seq![MINUS]
            } else {
                Seq::empty()
            };
            if digits == 0 {
                sign + seq![ZERO, POINT, ZERO]
            } else {
                sign + render_magnitude(digits as nat, exponent as int)
            }
        },
    }
}

/// A boolean: `true` or `false`.
pub open spec fn render_boolean(b: bool) -> Seq<u8> {
    if b {
        seq![116u8, 114u8, 117u8, 101u8]
    } else {
        seq![102u8, 97u8, 108u8, 115u8, 101u8]
    }
}

/// The field that stands for a cell.
pub open spec fn render_cell(c: CellView) -> Seq<u8> {
    match c {
        CellView::Null => Seq::empty(),
        CellView::Integer(i) => render_integer(i),
        CellView::Float(f) => render_float(f),
        CellView::Boolean(b) => render_boolean(b),
        CellView::Text(t) => render_text(t),
    }
}

/// The fields with a separator between each two.
pub open spec fn joined(fields: Seq<Seq<u8>>) -> Seq<u8>
    decreases fields.len(),
{
    if fields.len() == 0 {
        Seq::empty()
    } else if fields.len() == 1 {
        fields[0]
    } else {
        joined(fields.drop_last()) + seq![SEPARATOR] + fields.last()
    }
}

/// A line: the joined fields and a line feed.
pub open spec fn line(fields: Seq<Seq<u8>>) -> Seq<u8> {
    joined(fields) + seq![LINE_FEED]
}

/// The fields of the header: the column names as text.
pub open spec fn header_fields(schema: Seq<ColumnView>) -> Seq<Seq<u8>> {
    Seq::new(schema.len(), |i: int| render_text(schema[i].name))
}

/// The fields of a row.
pub open spec fn row_fields(row: Seq<CellView>) -> Seq<Seq<u8>> {
    Seq::new(row.len(), |i: int| render_cell(row[i]))
}

/// The lines of the rows, one after the other.
pub open spec fn lines(rows: Seq<Seq<CellView>>) -> Seq<u8>
    decreases rows.len(),
{
    if rows.len() == 0 {
        Seq::empty()
    } else {
        lines(rows.drop_last()) + line(row_fields(rows.last()))
    }
}

/// The canonical bytes of a table: the header line and the lines of the rows in
/// the order in which the table holds them.
pub open spec fn serialized(t: TableView) -> Seq<u8> {
    line(header_fields(t.schema)) + lines(t.rows)
}

/// Why a table could not be serialized: the row at `row` does not fit the schema,
/// and every row before it does.
#[derive(Clone, Copy, Debug, PartialEq, Eq, Structural)]
pub struct SerializationError {
    pub row: usize,
}

/// Joining one field more.
proof fn lemma_joined_next(fields: Seq<Seq<u8>>, c: int)
    requires
        0 <= c < fields.len(),
    ensures
        joined(fields.take(c + 1)) == if c == 0 {
            fields[c]
        } else {
            joined(fields.take(c)) + seq![SEPARATOR] + fields[c]
        },
{
    assert(fields.take(c + 1).drop_last() =~= fields.take(c));
}

/// Appends the bytes of `src` from `from` up to `to`.
pub(crate) fn push_range(out: &mut Vec<u8>, src: &[u8], from: usize, to: usize)
    requires
        from <= to <= src@.len(),
    ensures
        final(out)@ == old(out)@ + src@.subrange(from as int, to as int),
{
    let mut i: usize = from;
    assert(src@.subrange(from as int, from as int) =~= Seq::empty());
    assert(out@ + Seq::<u8>::empty() =~= out@);
    while i < to
        invariant
            from <= i <= to <= src@.len(),
            out@ == old(out)@ + src@.subrange(from as int, i as int),
        decreases to - i,
    {
        out.push(src[i]);
        assert(src@.subrange(from as int, i + 1) =~= src@.subrange(from as int, i as int).push(src@[i as int]));
        assert(out@ =~= old(out)@ + src@.subrange(from as int, i + 1));
        i = i + 1;
    }
}

/// Appends `n` zeros.
fn push_zeros(out: &mut Vec<u8>, n: usize)
    ensures
        final(out)@ == old(out)@ + zeros(n as nat),
{
    let mut i: usize = 0;
    assert(out@ + zeros(0) =~= out@);
    while i < n
        invariant
            i <= n,
            out@ == old(out)@ + zeros(i as nat),
        decreases n - i,
    {
        out.push(ZERO);
        assert(out@ =~= old(out)@ + zeros((i + 1) as nat));
        i = i + 1;
    }
}

/// Tests `needs_quotes`.
fn text_needs_quotes(text: &[u8]) -> (b: bool)
    ensures
        b == needs_quotes(text@),
{
    if text.len() == 0 {
        return true;
    }
    let mut i: usize = 0;
    while i < text.len()
        invariant
            i <= text@.len(),
            forall|k: int| 0 <= k < i ==> !is_special(#[trigger] text@[k]),
        decreases text.len() - i,
    {
        let b = text[i];
        if b == SEPARATOR || b == QUOTE || b == LINE_FEED || b == CARRIAGE_RETURN {
            return true;
        }
        i = i + 1;
    }
    false
}

/// Appends a text field.
pub fn write_text(out: &mut Vec<u8>, text: &[u8])
    ensures
        final(out)@ == old(out)@ + render_text(text@),
{
    if text_needs_quotes(text) {
        out.push(QUOTE);
        let mut i: usize = 0;
        assert(text@.take(0) =~= Seq::empty());
        assert(out@ =~= old(out)@ + seq![QUOTE] + escaped(text@.take(0)));
        while i < text.len()
            invariant
                i <= text@.len(),
                out@ == old(out)@ + seq![QUOTE] + escaped(text@.take(i as int)),
            decreases text.len() - i,
        {
            let b = text[i];
            proof {
                assert(text@.take(i + 1).drop_last() =~= text@.take(i as int));
            }
            if b == QUOTE {
                out.push(QUOTE);
                out.push(QUOTE);
            } else {
                out.push(b);
            }
            assert(out@ =~= old(out)@ + seq![QUOTE] + escaped(text@.take(i + 1)));
            i = i + 1;
        }
        out.push(QUOTE);
        assert(text@.take(i as int) =~= text@);
        assert(out@ =~= old(out)@ + (seq![QUOTE] + escaped(text@) + seq![QUOTE]));
    } else {
        push_range(out, text, 0, text.len());
        assert(text@.subrange(0, text@.len() as int) =~= text@);
    }
}

/// Appends an integer.
pub fn write_integer(out: &mut Vec<u8>, i: i64)
    ensures
        final(out)@ == old(out)@ + render_integer(i as int),
{
    if i < 0 {
        out.push(MINUS);
        let m: u64 = ((-(i + 1)) as u64) + 1;
        push_decimal(out, m);
        assert(out@ =~= old(out)@ + (seq![MINUS] + decimal((-i) as nat)));
    } else {
        push_decimal(out, i as u64);
    }
}

/// Appends a nonzero number without its sign.
fn write_magnitude(out: &mut Vec<u8>, digits: u64, exponent: i32)
    requires
        digits != 0,
    ensures
        final(out)@ == old(out)@ + render_magnitude(digits as nat, exponent as int),
{
    let mut d: Vec<u8> = Vec::new();
    push_decimal(&mut d, digits);
    proof {
        assert(d@ =~= decimal(digits as nat));
        lemma_decimal_len(digits as nat);
        lemma_digit_count_u64(digits);
    }
    let n: usize = d.len();
    let k: i64 = exponent as i64;
    let kk: i64 = n as i64 + k;
    if 0 <= k && kk <= 16 {
        push_range(out, d.as_slice(), 0, n);
        push_zeros(out, k as usize);
        out.push(POINT);
        out.push(ZERO);
        assert(d@.subrange(0, n as int) =~= d@);
        assert(out@ =~= old(out)@ + (d@ + zeros(exponent as nat) + seq![POINT, ZERO]));
    } else if 0 < kk && kk <= 16 {
        push_range(out, d.as_slice(), 0, kk as usize);
        out.push(POINT);
        push_range(out, d.as_slice(), kk as usize, n);
        assert(out@ =~= old(out)@ + (d@.take(kk as int) + seq![POINT] + d@.skip(kk as int)));
    } else if -5 < kk && kk <= 0 {
        out.push(ZERO);
        out.push(POINT);
        push_zeros(out, (-kk) as usize);
        push_range(out, d.as_slice(), 0, n);
        assert(d@.subrange(0, n as int) =~= d@);
        assert(out@ =~= old(out)@ + (seq![ZERO, POINT] + zeros((-kk) as nat) + d@));
    } else if n == 1 {
        push_range(out, d.as_slice(), 0, n);
        out.push(EXPONENT_MARK);
        write_integer(out, kk - 1);
        assert(d@.subrange(0, n as int) =~= d@);
        assert(out@ =~= old(out)@ + (d@ + seq![EXPONENT_MARK] + render_integer(kk - 1)));
    } else {
        push_range(out, d.as_slice(), 0, 1);
        out.push(POINT);
        push_range(out, d.as_slice(), 1, n);
        out.push(EXPONENT_MARK);
        write_integer(out, kk - 1);
        assert(out@ =~= old(out)@ + (d@.take(1) + seq![POINT] + d@.skip(1) + seq![EXPONENT_MARK] + render_integer(
            kk - 1,
        )));
    }
}

/// Appends a float.
pub fn write_float(out: &mut Vec<u8>, f: &FloatValue)
    ensures
        final(out)@ == old(out)@ + render_float(*f),
{
    match f {
        FloatValue::NaN => {
            out.push(78);
            out.push(97);
            out.push(78);
            assert(out@ =~= old(out)@ + seq![78u8, 97u8, 78u8]);
        },
        FloatValue::Infinity => {
            out.push(105);
            out.push(110);
            out.push(102);
            assert(out@ =~= old(out)@ + seq![105u8, 110u8, 102u8]);
        },
        FloatValue::NegInfinity => {
            out.push(MINUS);
            out.push(105);
            out.push(110);
            out.push(102);
            assert(out@ =~= old(out)@ + seq![MINUS, 105u8, 110u8, 102u8]);
        },
        FloatValue::Finite { negative, digits, exponent } => {
            if *negative {
                out.push(MINUS);
            }
            let ghost sign = if *negative {
                seq![MINUS]
            } else {
                Seq::empty()
            };
            assert(out@ =~= old(out)@ + sign);
            if *digits == 0 {
                out.push(ZERO);
                out.push(POINT);
                out.push(ZERO);
                assert(out@ =~= old(out)@ + (sign + seq![ZERO, POINT, ZERO]));
            } else {
                write_magnitude(out, *digits, *exponent);
                assert(out@ =~= old(out)@ + (sign + render_magnitude(*digits as nat, *exponent as int)));
            }
        },
    }
}

/// Appends a boolean.
pub fn write_boolean(out: &mut Vec<u8>, b: bool)
    ensures
        final(out)@ == old(out)@ + render_boolean(b),
{
    if b {
        out.push(116);
        out.push(114);
        out.push(117);
        out.push(101);
        assert(out@ =~= old(out)@ + seq![116u8, 114u8, 117u8, 101u8]);
    } else {
        out.push(102);
        out.push(97);
        out.push(108);
        out.push(115);
        out.push(101);
        assert(out@ =~= old(out)@ + seq![102u8, 97u8, 108u8, 115u8, 101u8]);
    }
}

/// Appends the field that stands for a cell.
pub fn write_cell(out: &mut Vec<u8>, cell: &Value)
    ensures
        final(out)@ == old(out)@ + render_cell(cell@),
{
    match cell {
        Value::Null => {
            assert(out@ + Seq::<u8>::empty() =~= out@);
        },
        Value::Integer(i) => write_integer(out, *i),
        Value::Float(f) => write_float(out, f),
        Value::Boolean(b) => write_boolean(out, *b),
        Value::Text(t) => write_text(out, t.as_str().as_bytes()),
    }
}

/// Appends the header line.
pub fn write_header(out: &mut Vec<u8>, schema: &Vec<Column>)
    ensures
        final(out)@ == old(out)@ + line(header_fields(schema_view(schema@))),
{
    let ghost fields = header_fields(schema_view(schema@));
    let mut c: usize = 0;
    assert(fields.take(0) =~= Seq::empty());
    assert(out@ + Seq::<u8>::empty() =~= out@);
    while c < schema.len()
        invariant
            c <= schema@.len(),
            fields == header_fields(schema_view(schema@)),
            out@ == old(out)@ + joined(fields.take(c as int)),
        decreases schema.len() - c,
    {
        proof {
            lemma_joined_next(fields, c as int);
        }
        if c > 0 {
            out.push(SEPARATOR);
        }
        write_text(out, schema[c].name.as_str().as_bytes());
        assert(out@ =~= old(out)@ + joined(fields.take(c + 1)));
        c = c + 1;
    }
    out.push(LINE_FEED);
    assert(fields.take(c as int) =~= fields);
    assert(out@ =~= old(out)@ + line(fields));
}

/// Appends the line of a row.
pub fn write_row(out: &mut Vec<u8>, row: &Vec<Value>)
    ensures
        final(out)@ == old(out)@ + line(row_fields(row_view(row@))),
{
    let ghost fields = row_fields(row_view(row@));
    let mut c: usize = 0;
    assert(fields.take(0) =~= Seq::empty());
    assert(out@ + Seq::<u8>::empty() =~= out@);
    while c < row.len()
        invariant
            c <= row@.len(),
            fields == row_fields(row_view(row@)),
            out@ == old(out)@ + joined(fields.take(c as int)),
        decreases row.len() - c,
    {
        proof {
            lemma_joined_next(fields, c as int);
        }
        if c > 0 {
            out.push(SEPARATOR);
        }
        write_cell(out, &row[c]);
        assert(out@ =~= old(out)@ + joined(fields.take(c + 1)));
        c = c + 1;
    }
    out.push(LINE_FEED);
    assert(fields.take(c as int) =~= fields);
    assert(out@ =~= old(out)@ + line(fields));
}

/// Writes the table out as its canonical bytes, rows in the order given.
///
/// Fails on a table that is not well formed, naming its first row that does not
/// fit the schema; a well-formed table is always serialized.
pub fn serialize_frame(table: &TypedTable) -> (result: Result<Vec<u8>, SerializationError>)
    ensures
        match result {
            Ok(bytes) => table@.well_formed() && bytes@ == serialized(table@),
            Err(e) => {
                &&& e.row < table@.rows.len()
                &&& !row_fits(table@.rows[e.row as int], table@.schema)
                &&& forall|i: int| 0 <= i < e.row ==> row_fits(#[trigger] table@.rows[i], table@.schema)
            },
        },
{
    let ghost rv = rows_view(table.rows@);
    let mut out: Vec<u8> = Vec::new();
    write_header(&mut out, &table.schema);
    let mut r: usize = 0;
    assert(rv.take(0) =~= Seq::empty());
    assert(out@ =~= line(header_fields(table@.schema)) + lines(rv.take(0)));
    while r < table.rows.len()
        invariant
            r <= table.rows@.len(),
            rv == rows_view(table.rows@),
            forall|i: int| 0 <= i < r ==> row_fits(#[trigger] rv[i], table@.schema),
            out@ == line(header_fields(table@.schema)) + lines(rv.take(r as int)),
        decreases table.rows.len() - r,
    {
        if !row_fits_schema(&table.rows[r], &table.schema) {
            return Err(SerializationError { row: r });
        }
        write_row(&mut out, &table.rows[r]);
        proof {
            assert(rv.take(r + 1).drop_last() =~= rv.take(r as int));
            assert(out@ =~= line(header_fields(table@.schema)) + lines(rv.take(r + 1)));
        }
        r = r + 1;
    }
    assert(rv.take(r as int) =~= rv);
    Ok(out)
}

} // verus!
