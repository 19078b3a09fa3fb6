//! The type dispatch both encoders share: from a column's type tag to the
//! typed accessor that reads its value, and from accessor and stored value to
//! the text that is written.

use vstd::prelude::*;
use vstd::utf8::*;
use crate::row::ValueView;
use crate::text::{bool_text, decimal};
use crate::timestamp::timestamp_text;

verus! {

/// The typed accessor an encoder applies to a value that is not NULL.
#[derive(Debug, Clone, Copy, PartialEq, Eq, Structural)]
pub enum Accessor {
    /// Reads a boolean.
    Bool,
    /// Reads a signed 64-bit integer.
    Int,
    /// Reads a 32-bit floating-point number.
    Float,
    /// Reads a 64-bit floating-point number.
    Double,
    /// Reads text.
    Text,
    /// Reads a timestamp without a time zone.
    DateTime,
    /// The tag names no type the encoder maps: the value is not read.
    Unmapped,
}

/// Whether the characters `INT` stand in `tag` at position `i`.
pub open spec fn int_at(tag: Seq<char>, i: int) -> bool {
    &&& 0 <= i
    &&& i + 3 <= tag.len()
    &&& tag[i] == 'I'
    &&& tag[i + 1] == 'N'
    &&& tag[i + 2] == 'T'
}

/// Whether `tag` contains `INT`, as `INTEGER`, `BIGINT` and `SMALLINT` do.
pub open spec fn names_integer(tag: Seq<char>) -> bool {
    exists|i: int| int_at(tag, i)
}

/// Whether `tag` is one of the character types read as text.
pub open spec fn names_text(tag: Seq<char>) -> bool {
    tag == "CHAR"@ || tag == "VARCHAR"@ || tag == "TEXT"@ || tag == "LONGTEXT"@
}

/// The accessor the JSON encoder applies to a column with type tag `tag`.
///
/// The first matching line decides: `BOOLEAN`; any tag that contains `INT`;
/// `FLOAT`; `DOUBLE`; `CHAR`, `VARCHAR`, `TEXT` or `LONGTEXT`; `DATETIME`.
/// Every other tag is unmapped. Tags are compared case-sensitively.
pub open spec fn json_accessor_of(tag: Seq<char>) -> Accessor {
    if tag == "BOOLEAN"@ {
        Accessor::Bool
    } else if names_integer(tag) {
        Accessor::Int
    } else if tag == "FLOAT"@ {
        Accessor::Float
    } else if tag == "DOUBLE"@ {
        Accessor::Double
    } else if names_text(tag) {
        Accessor::Text
    } else if tag == "DATETIME"@ {
        Accessor::DateTime
    } else {
        Accessor::Unmapped
    }
}

/// The accessor the CSV encoder applies to a column with type tag `tag`:
/// the one of the JSON encoder for booleans, integers and floating-point
/// numbers, and the text accessor for every other tag.
pub open spec fn csv_accessor_of(tag: Seq<char>) -> Accessor {
    match json_accessor_of(tag) {
        Accessor::Bool => Accessor::Bool,
        Accessor::Int => Accessor::Int,
        Accessor::Float => Accessor::Float,
        Accessor::Double => Accessor::Double,
        _ => Accessor::Text,
    }
}

/// What an accessor hands to an encoder.
pub enum Rendered {
    /// Text that is written as it stands: a boolean or a number.
    Bare(Seq<u8>),
    /// Characters that the encoder quotes or escapes as its format asks.
    Text(Seq<char>),
}

/// The result of applying `accessor` to a stored value that is not NULL, or
/// `None` where the value's stored form is not what the accessor reads. A
/// timestamp outside the calendar's range has no text and cannot be read
/// either.
pub open spec fn fetch(accessor: Accessor, value: ValueView) -> Option<Rendered> {
    match (accessor, value) {
        (Accessor::Bool, ValueView::Bool(b)) => Some(Rendered::Bare(bool_text(b))),
        (Accessor::Int, ValueView::Int(n)) => Some(Rendered::Bare(decimal(n))),
        (Accessor::Float, ValueView::Float(t)) => Some(Rendered::Bare(encode_utf8(t))),
        (Accessor::Double, ValueView::Double(t)) => Some(Rendered::Bare(encode_utf8(t))),
        (Accessor::Text, ValueView::Text(t)) => Some(Rendered::Text(t)),
        (Accessor::DateTime, ValueView::DateTime { secs, nanos }) => match timestamp_text(
            secs,
            nanos,
        ) {
            Some(t) => Some(Rendered::Text(t)),
            None => None,
        },
        _ => None,
    }
}

/// Whether two strings hold the same characters.
pub fn same_text(a: &str, b: &str) -> (same: bool)
    ensures
        same == (a@ == b@),
{
    let x = a.as_bytes();
    let y = b.as_bytes();
    proof {
        // Two strings with the same UTF-8 bytes decode to the same characters.
        encode_utf8_decode_utf8(a@);
        encode_utf8_decode_utf8(b@);
    }
    if x.len() != y.len() {
        return false;
    }
    let mut i: usize = 0;
    while i < x.len()
        invariant
            i <= x@.len(),
            x@.len() == y@.len(),
            x@ == encode_utf8(a@),
            y@ == encode_utf8(b@),
            decode_utf8(encode_utf8(a@)) == a@,
            decode_utf8(encode_utf8(b@)) == b@,
            forall|j: int| 0 <= j < i ==> x@[j] == y@[j],
        decreases x@.len() - i,
    {
        if x[i] != y[i] {
            return false;
        }
        i = i + 1;
    }
    assert(x@ =~= y@);
    true
}

/// Whether `INT` stands in `tag` at some position that ends at or before
/// `end`.
pub open spec fn int_before(tag: Seq<char>, end: int) -> bool {
    exists|i: int| int_at(tag, i) && i + 3 <= end
}

/// Whether the type tag contains `INT`.
pub fn contains_int(type_tag: &str) -> (found: bool)
    ensures
        found == names_integer(type_tag@),
{
    let mut found = false;
    // How many characters of `INT` the text read so far ends with.
    let mut matched: u8 = 0;
    for c in it: type_tag.chars()
        invariant
            it.seq() == type_tag@,
            found == int_before(type_tag@, it.index() as int),
            matched <= 2,
            matched == 2 <==> (it.index() >= 2 && type_tag@[it.index() - 2] == 'I'
                && type_tag@[it.index() - 1] == 'N'),
            matched == 1 <==> (it.index() >= 1 && type_tag@[it.index() - 1] == 'I'),
    {
        let ghost at = it.index() as int;
        let ghost before = found;
        if matched == 2 && c == 'T' {
            found = true;
            matched = 0;
            assert(int_at(type_tag@, at - 2));
        } else if matched == 1 && c == 'N' {
            matched = 2;
        } else if c == 'I' {
            matched = 1;
        } else {
            matched = 0;
        }
        proof {
            if before {
                let i = choose|i: int| int_at(type_tag@, i) && i + 3 <= at;
                assert(int_at(type_tag@, i) && i + 3 <= at + 1);
            }
            assert forall|i: int| int_at(type_tag@, i) && i + 3 <= at + 1 implies found by {
                if i + 3 <= at {
                    assert(int_before(type_tag@, at));
                }
            }
        }
    }
    proof {
        if found {
            let i = choose|i: int| int_at(type_tag@, i) && i + 3 <= type_tag@.len();
            assert(int_at(type_tag@, i));
        }
    }
    found
}

/// The accessor the JSON encoder applies to a column with this type tag.
pub fn json_accessor(type_tag: &str) -> (accessor: Accessor)
    ensures
        accessor == json_accessor_of(type_tag@),
{
    if same_text(type_tag, "BOOLEAN") {
        Accessor::Bool
    } else if contains_int(type_tag) {
        Accessor::Int
    } else if same_text(type_tag, "FLOAT") {
        Accessor::Float
    } else if same_text(type_tag, "DOUBLE") {
        Accessor::Double
    } else if same_text(type_tag, "CHAR") || same_text(type_tag, "VARCHAR") || same_text(
        type_tag,
        "TEXT",
    ) || same_text(type_tag, "LONGTEXT") {
        Accessor::Text
    } else if same_text(type_tag, "DATETIME") {
        Accessor::DateTime
    } else {
        Accessor::Unmapped
    }
}

/// The accessor the CSV encoder applies to a column with this type tag.
pub fn csv_accessor(type_tag: &str) -> (accessor: Accessor)
    ensures
        accessor == csv_accessor_of(type_tag@),
{
    match json_accessor(type_tag) {
        Accessor::Bool => Accessor::Bool,
        Accessor::Int => Accessor::Int,
        Accessor::Float => Accessor::Float,
        Accessor::Double => Accessor::Double,
        _ => Accessor::Text,
    }
}

} // verus!
