//! The typed table: a schema and rows of cells, with their mathematical views.

use vstd::prelude::*;
use vstd::utf8::encode_utf8;

verus! {

/// The type that a column declares for its cells.
#[derive(Clone, Copy, Debug, PartialEq, Eq, Structural)]
pub enum ColumnType {
    Integer,
    Float,
    Boolean,
    Text,
    Null,
}

/// A binary float, held as the shortest decimal that reads back as the same float.
///
/// A finite value stands for `digits * 10^exponent`, negated if `negative`. The two
/// zeros of binary floats are one value here, and so are all NaNs.
#[derive(Clone, Copy, Debug, PartialEq, Eq, Structural)]
pub enum FloatValue {
    NegInfinity,
    Finite { negative: bool, digits: u64, exponent: i32 },
    Infinity,
    NaN,
}

/// One cell of a table.
#[derive(Debug, PartialEq, Eq)]
pub enum Value {
    Null,
    Integer(i64),
    Float(FloatValue),
    Boolean(bool),
    Text(String),
}

/// What a cell is: text is taken as its UTF-8 bytes.
pub enum CellView {
    Null,
    Integer(int),
    Float(FloatValue),
    Boolean(bool),
    Text(Seq<u8>),
}

/// A column of the schema.
#[derive(Debug, PartialEq, Eq)]
pub struct Column {
    pub name: String,
    pub ty: ColumnType,
}

/// What a column is: its name as UTF-8 bytes, and its type.
pub struct ColumnView {
    pub name: Seq<u8>,
    pub ty: ColumnType,
}

/// A schema and rows of cells, one cell per column in each row.
#[derive(Debug, PartialEq, Eq)]
pub struct TypedTable {
    pub schema: Vec<Column>,
    pub rows: Vec<Vec<Value>>,
}

/// What a table is: its columns, and its rows in the order in which it holds them.
pub struct TableView {
    pub schema: Seq<ColumnView>,
    pub rows: Seq<Seq<CellView>>,
}

impl View for Value {
    type V = CellView;

    open spec fn view(&self) -> CellView {
        match self {
            Value::Null => CellView::Null,
            Value::Integer(i) => CellView::Integer(*i as int),
            Value::Float(f) => CellView::Float(*f),
            Value::Boolean(b) => CellView::Boolean(*b),
            Value::Text(s) => CellView::Text(encode_utf8(s@)),
        }
    }
}

impl View for Column {
    type V = ColumnView;

    open spec fn view(&self) -> ColumnView {
        ColumnView { name: encode_utf8(self.name@), ty: self.ty }
    }
}

/// The cells of a row.
pub open spec fn row_view(row: Seq<Value>) -> Seq<CellView> {
    Seq::new(row.len(), |i: int| row[i]@)
}

/// The rows of a table.
pub open spec fn rows_view(rows: Seq<Vec<Value>>) -> Seq<Seq<CellView>> {
    Seq::new(rows.len(), |i: int| row_view(rows[i]@))
}

/// The columns of a schema.
pub open spec fn schema_view(schema: Seq<Column>) -> Seq<ColumnView> {
    Seq::new(schema.len(), |i: int| schema[i]@)
}

impl View for TypedTable {
    type V = TableView;

    open spec fn view(&self) -> TableView {
        TableView { schema: schema_view(self.schema@), rows: rows_view(self.rows@) }
    }
}

/// Ten to the 17th. The digits of a finite float stay below it: 17 digits tell
/// every binary float of 64 bits from every other.
pub const FLOAT_DIGITS_LIMIT: u64 = 100_000_000_000_000_000;

impl FloatValue {
    /// A finite value is normalised: zero is written in one way only, and any other
    /// value has no trailing zero among its digits and at most 17 of them.
    pub open spec fn normalised(self) -> bool {
        match self {
            FloatValue::Finite { negative, digits, exponent } => if digits == 0 {
                !negative && exponent == 0
            } else {
                digits % 10 != 0 && digits < FLOAT_DIGITS_LIMIT
            },
            _ => true,
        }
    }

    /// Tests `normalised`.
    pub fn is_normalised(&self) -> (b: bool)
        ensures
            b == self.normalised(),
    {
        match self {
            FloatValue::Finite { negative, digits, exponent } => if *digits == 0 {
                !*negative && *exponent == 0
            } else {
                *digits % 10 != 0 && *digits < FLOAT_DIGITS_LIMIT
            },
            _ => true,
        }
    }
}

impl CellView {
    /// A cell fits a column if it is null or of the column's type; a float is normalised.
    pub open spec fn fits(self, ty: ColumnType) -> bool {
        match self {
            CellView::Null => true,
            CellView::Integer(_) => ty == ColumnType::Integer,
            CellView::Float(f) => ty == ColumnType::Float && f.normalised(),
            CellView::Boolean(_) => ty == ColumnType::Boolean,
            CellView::Text(_) => ty == ColumnType::Text,
        }
    }
}

/// A row fits a schema if it has one cell per column and each cell fits its column.
pub open spec fn row_fits(row: Seq<CellView>, schema: Seq<ColumnView>) -> bool {
    &&& row.len() == schema.len()
    &&& forall|j: int| 0 <= j < row.len() ==> (#[trigger] row[j]).fits(schema[j].ty)
}

impl TableView {
    /// Every row fits the schema.
    pub open spec fn well_formed(self) -> bool {
        forall|i: int| 0 <= i < self.rows.len() ==> row_fits(#[trigger] self.rows[i], self.schema)
    }
}

impl Value {
    /// Tests whether the cell fits a column of type `ty`.
    pub fn fits(&self, ty: ColumnType) -> (b: bool)
        ensures
            b == self@.fits(ty),
    {
        match self {
            Value::Null => true,
            Value::Integer(_) => ty == ColumnType::Integer,
            Value::Float(f) => ty == ColumnType::Float && f.is_normalised(),
            Value::Boolean(_) => ty == ColumnType::Boolean,
            Value::Text(_) => ty == ColumnType::Text,
        }
    }
}

impl Clone for Value {
    fn clone(&self) -> (res: Self)
        ensures
            res == *self,
    {
        match self {
            Value::Null => Value::Null,
            Value::Integer(i) => Value::Integer(*i),
            Value::Float(f) => Value::Float(*f),
            Value::Boolean(b) => Value::Boolean(*b),
            Value::Text(s) => Value::Text(s.clone()),
        }
    }
}

impl Clone for Column {
    fn clone(&self) -> (res: Self)
        ensures
            res == *self,
    {
        Column { name: self.name.clone(), ty: self.ty }
    }
}

/// Tests whether a row fits a schema.
pub fn row_fits_schema(row: &Vec<Value>, schema: &Vec<Column>) -> (b: bool)
    ensures
        b == row_fits(row_view(row@), schema_view(schema@)),
{
    if row.len() != schema.len() {
        return false;
    }
    let mut j: usize = 0;
    while j < row.len()
        invariant
            j <= row@.len(),
            row@.len() == schema@.len(),
            forall|k: int| 0 <= k < j ==> (#[trigger] row_view(row@)[k]).fits(schema_view(schema@)[k].ty),
        decreases row.len() - j,
    {
        if !row[j].fits(schema[j].ty) {
            assert(!row_view(row@)[j as int].fits(schema_view(schema@)[j as int].ty));
            return false;
        }
        j = j + 1;
    }
    true
}

impl TypedTable {
    /// Tests whether the table is well formed.
    pub fn is_well_formed(&self) -> (b: bool)
        ensures
            b == self@.well_formed(),
    {
        let mut r: usize = 0;
        while r < self.rows.len()
            invariant
                r <= self.rows@.len(),
                forall|i: int| 0 <= i < r ==> row_fits(#[trigger] self@.rows[i], self@.schema),
            decreases self.rows.len() - r,
        {
            if !row_fits_schema(&self.rows[r], &self.schema) {
                assert(!row_fits(self@.rows[r as int], self@.schema));
                return false;
            }
            r = r + 1;
        }
        true
    }
}

} // verus!
