//! The rows the encoders consume: an ordered list of columns, each with a
//! name, the tag of its SQL type and the value stored for this row.

use vstd::prelude::*;
use vstd::utf8::*;
use crate::number::is_plain_number;

verus! {

/// The value stored at one column position of a row.
///
/// Floating-point numbers arrive as the decimal text their producer rendered;
/// a timestamp arrives as seconds and nanoseconds since the Unix epoch.
#[derive(Debug)]
pub enum Value {
    /// SQL NULL.
    Null,
    Bool(bool),
    Int(i64),
    /// The decimal text of a 32-bit floating-point number.
    Float(String),
    /// The decimal text of a 64-bit floating-point number.
    Double(String),
    Text(String),
    /// A timestamp without a time zone.
    DateTime { secs: i64, nanos: u32 },
}

/// The mathematical value of a [`Value`].
pub enum ValueView {
    Null,
    Bool(bool),
    Int(int),
    Float(Seq<char>),
    Double(Seq<char>),
    Text(Seq<char>),
    DateTime { secs: int, nanos: int },
}

impl View for Value {
    type V = ValueView;

    open spec fn view(&self) -> ValueView {
        match self {
            Value::Null => ValueView::Null,
            Value::Bool(b) => ValueView::Bool(*b),
            Value::Int(n) => ValueView::Int(*n as int),
            Value::Float(t) => ValueView::Float(t@),
            Value::Double(t) => ValueView::Double(t@),
            Value::Text(t) => ValueView::Text(t@),
            Value::DateTime { secs, nanos } => ValueView::DateTime {
                secs: *secs as int,
                nanos: *nanos as int,
            },
        }
    }
}

impl Clone for Value {
    fn clone(&self) -> (copy: Self)
        ensures
            copy@ == self@,
    {
        match self {
            Value::Null => Value::Null,
            Value::Bool(b) => Value::Bool(*b),
            Value::Int(n) => Value::Int(*n),
            Value::Float(t) => Value::Float(t.clone()),
            Value::Double(t) => Value::Double(t.clone()),
            Value::Text(t) => Value::Text(t.clone()),
            Value::DateTime { secs, nanos } => Value::DateTime { secs: *secs, nanos: *nanos },
        }
    }
}

/// One field position of a row.
#[derive(Debug)]
pub struct Column {
    /// The column's name. Names may repeat within a row.
    pub name: String,
    /// The name of the column's SQL type, such as `BIGINT` or `VARCHAR`.
    pub type_tag: String,
    /// The value this row holds at the column.
    pub value: Value,
}

/// The mathematical value of a [`Column`].
pub struct ColumnView {
    pub name: Seq<char>,
    pub type_tag: Seq<char>,
    pub value: ValueView,
}

impl View for Column {
    type V = ColumnView;

    open spec fn view(&self) -> ColumnView {
        ColumnView { name: self.name@, type_tag: self.type_tag@, value: self.value@ }
    }
}

impl Clone for Column {
    fn clone(&self) -> (copy: Self)
        ensures
            copy@ == self@,
    {
        Column {
            name: self.name.clone(),
            type_tag: self.type_tag.clone(),
            value: self.value.clone(),
        }
    }
}

impl Column {
    /// Whether the row holds SQL NULL at this column, whatever the type tag.
    pub fn is_null(&self) -> (null: bool)
        ensures
            null == (self@.value is Null),
    {
        match &self.value {
            Value::Null => true,
            _ => false,
        }
    }
}

/// One record of a query result: its columns, in the order of the result set.
#[derive(Debug)]
pub struct Row {
    pub columns: Vec<Column>,
}

impl View for Row {
    type V = Seq<ColumnView>;

    open spec fn view(&self) -> Seq<ColumnView> {
        Seq::new(self.columns@.len(), |i: int| self.columns@[i]@)
    }
}

impl Clone for Row {
    fn clone(&self) -> (copy: Self)
        ensures
            copy@ == self@,
    {
        let mut columns: Vec<Column> = Vec::new();
        let mut i: usize = 0;
        while i < self.columns.len()
            invariant
                i <= self.columns@.len(),
                columns@.len() == i,
                forall|j: int| 0 <= j < i ==> columns@[j]@ == self.columns@[j]@,
            decreases self.columns@.len() - i,
        {
            columns.push(self.columns[i].clone());
            i = i + 1;
        }
        let copy = Row { columns };
        assert(copy@ =~= self@);
        copy
    }
}

/// Whether `text` is the decimal text of a finite floating-point number: an
/// optional minus sign, digits, and an optional fraction.
pub open spec fn is_finite_text(text: Seq<char>) -> bool {
    is_plain_number(encode_utf8(text))
}

/// A typed accessor met a value whose stored form it cannot read.
#[derive(Debug, Clone, Copy, PartialEq, Eq, Structural)]
pub struct RowAccessError {
    /// The position of the column that could not be read.
    pub column: usize,
}

} // verus!
