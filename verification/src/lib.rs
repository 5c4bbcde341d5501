//! A small JSON reader built from two verified stages: a tokenizer that turns
//! the input text into a flat sequence of tokens, and a recursive-descent
//! parser that turns that token sequence into a tree of [`Value`]s.
//!
//! Numbers are kept as the sign and the digit text that the tokenizer
//! collected, so that the numeric payload stays a plain value; a host that
//! wants a binary floating-point number converts the digit text itself.

use vstd::prelude::*;

pub mod parser;
pub mod tokenize;

verus! {

use crate::tokenize::Number;

broadcast use vstd::std_specs::vec::group_vec_axioms;

/// One node of a parsed JSON tree.
///
/// An object is stored as its entries in insertion order; the parser keeps
/// the keys unique by overwriting the entry of a repeated key.
#[derive(Debug, PartialEq)]
pub enum Value {
    /// The literal characters `null`.
    Null,
    /// The literal characters `true` or `false`.
    Boolean(bool),
    /// A number literal, kept as its sign and digit text.
    Number(Number),
    /// The fully unescaped content of a quoted string.
    String(String),
    /// Zero or more values; order is significant and preserved.
    Array(Vec<Value>),
    /// String keys, each unique, with their values.
    Object(Vec<(String, Value)>),
}

/// The mathematical shape of a [`Value`]: the same tree over `Seq<char>`
/// instead of `String`. An object is a sequence of key/value pairs whose
/// keys are unique.
pub enum JsonVal {
    Null,
    Boolean(bool),
    Number(bool, Seq<char>),
    String(Seq<char>),
    Array(Seq<JsonVal>),
    Object(Seq<(Seq<char>, JsonVal)>),
}

impl View for Value {
    type V = JsonVal;

    open spec fn view(&self) -> JsonVal
        decreases *self,
    {
        match self {
            Value::Null => JsonVal::Null,
            Value::Boolean(b) => JsonVal::Boolean(*b),
            Value::Number(n) => JsonVal::Number(n.negative, n.digits@),
            Value::String(s) => JsonVal::String(s@),
            Value::Array(items) => JsonVal::Array(view_values(items@)),
            Value::Object(entries) => JsonVal::Object(view_entries(entries@)),
        }
    }
}

/// The views of a sequence of values, element by element.
pub open spec fn view_values(items: Seq<Value>) -> Seq<JsonVal>
    decreases items,
{
    if items.len() == 0 {
        Seq::empty()
    } else {
        seq![items[0]@] + view_values(items.drop_first())
    }
}

/// The views of a sequence of object entries, entry by entry.
pub open spec fn view_entries(entries: Seq<(String, Value)>) -> Seq<(Seq<char>, JsonVal)>
    decreases entries,
{
    if entries.len() == 0 {
        Seq::empty()
    } else {
        seq![(entries[0].0@, entries[0].1@)] + view_entries(entries.drop_first())
    }
}

/// The view of a sequence of values is its element-wise view.
pub proof fn lemma_view_values_index(items: Seq<Value>)
    ensures
        view_values(items).len() == items.len(),
        forall|m: int| 0 <= m < items.len() ==> view_values(items)[m] == items[m]@,
    decreases items.len(),
{
    if items.len() > 0 {
        lemma_view_values_index(items.drop_first());
        assert(view_values(items) == seq![items[0]@] + view_values(items.drop_first()));
        assert(view_values(items).len() == 1 + view_values(items.drop_first()).len());
        assert forall|m: int| 0 <= m < items.len() implies view_values(items)[m] == items[m]@ by {
            if m > 0 {
                assert(view_values(items)[m] == view_values(items.drop_first())[m - 1]);
                assert(items.drop_first()[m - 1] == items[m]);
            }
        }
    }
}

/// The view of a sequence of object entries is its entry-wise view.
pub proof fn lemma_view_entries_index(entries: Seq<(String, Value)>)
    ensures
        view_entries(entries).len() == entries.len(),
        forall|m: int| 0 <= m < entries.len() ==> view_entries(entries)[m] == (
            entries[m].0@,
            entries[m].1@,
        ),
    decreases entries.len(),
{
    if entries.len() > 0 {
        lemma_view_entries_index(entries.drop_first());
        assert(view_entries(entries) == seq![(entries[0].0@, entries[0].1@)] + view_entries(
            entries.drop_first(),
        ));
        assert forall|m: int| 0 <= m < entries.len() implies view_entries(entries)[m] == (
            entries[m].0@,
            entries[m].1@,
        ) by {
            if m > 0 {
                assert(view_entries(entries)[m] == view_entries(entries.drop_first())[m - 1]);
                assert(entries.drop_first()[m - 1] == entries[m]);
            }
        }
    }
}

} // verus!
