//! The closed set of values the codec can carry.

use vstd::prelude::*;

verus! {

/// Which of the three timestamp shapes an ISO-8601 text stands for.
#[derive(Debug, Clone, Copy, PartialEq, Eq, Structural)]
pub enum TimeKind {
    DateTime,
    Date,
    Time,
}

/// A dynamically typed value.
///
/// Floating-point numbers are carried as their IEEE-754 bit patterns: the
/// codec moves the eight bytes and never computes with them. Callers turn
/// sets and tuples into `Sequence` and unwrap enum-like wrappers before
/// encoding.
#[derive(Debug, PartialEq, Eq)]
pub enum Value {
    Null,
    Bool(bool),
    Int(i64),
    /// The bits of an `f64`.
    Float(u64),
    Text(String),
    Bytes(Vec<u8>),
    Sequence(Vec<Value>),
    /// Key and value pairs in order; keys are expected to be unique.
    Record(Vec<(String, Value)>),
    /// The bits of each `f64` of a numeric array.
    NumericArray(Vec<u64>),
    Timestamp { kind: TimeKind, text: String },
    /// Hexadecimal text of a UUID.
    Uuid(String),
    /// Canonical decimal text; never passed through floating point.
    Decimal(String),
}

/// The mathematical content of a [`Value`].
pub enum ValueView {
    Null,
    Bool(bool),
    Int(i64),
    Float(u64),
    Text(Seq<char>),
    Bytes(Seq<u8>),
    Sequence(Seq<ValueView>),
    Record(Seq<(Seq<char>, ValueView)>),
    NumericArray(Seq<u64>),
    Timestamp { kind: TimeKind, text: Seq<char> },
    Uuid(Seq<char>),
    Decimal(Seq<char>),
}

impl View for Value {
    type V = ValueView;

    open spec fn view(&self) -> ValueView {
        value_view(*self)
    }
}

/// The content of a value.
pub open spec fn value_view(v: Value) -> ValueView
    decreases v,
{
    match v {
        Value::Null => ValueView::Null,
        Value::Bool(b) => ValueView::Bool(b),
        Value::Int(n) => ValueView::Int(n),
        Value::Float(bits) => ValueView::Float(bits),
        Value::Text(s) => ValueView::Text(s@),
        Value::Bytes(b) => ValueView::Bytes(b@),
        Value::Sequence(items) => ValueView::Sequence(items_view(items@)),
        Value::Record(pairs) => ValueView::Record(pairs_view(pairs@)),
        Value::NumericArray(xs) => ValueView::NumericArray(xs@),
        Value::Timestamp { kind, text } => ValueView::Timestamp { kind, text: text@ },
        Value::Uuid(s) => ValueView::Uuid(s@),
        Value::Decimal(s) => ValueView::Decimal(s@),
    }
}

/// The contents of the elements of a sequence.
pub open spec fn items_view(items: Seq<Value>) -> Seq<ValueView>
    decreases items,
{
    if items.len() == 0 {
        Seq::empty()
    } else {
        items_view(items.subrange(0, items.len() - 1)).push(value_view(items[items.len() - 1]))
    }
}

/// The contents of the pairs of a record.
pub open spec fn pairs_view(pairs: Seq<(String, Value)>) -> Seq<(Seq<char>, ValueView)>
    decreases pairs,
{
    if pairs.len() == 0 {
        Seq::empty()
    } else {
        pairs_view(pairs.subrange(0, pairs.len() - 1)).push(
            (pairs[pairs.len() - 1].0@, value_view(pairs[pairs.len() - 1].1)),
        )
    }
}

/// The contents of a list of strings.
pub open spec fn strings_view(names: Seq<String>) -> Seq<Seq<char>> {
    Seq::new(names.len(), |i: int| names[i]@)
}

/// `items_view` maps element by element.
pub proof fn lemma_items_view(items: Seq<Value>)
    ensures
        items_view(items).len() == items.len(),
        forall|i: int| 0 <= i < items.len() ==> (#[trigger] items_view(items)[i]) == items[i]@,
    decreases items.len(),
{
    if items.len() > 0 {
        let front = items.subrange(0, items.len() - 1);
        lemma_items_view(front);
        assert forall|i: int| 0 <= i < items.len() implies (#[trigger] items_view(items)[i])
            == items[i]@ by {
            if i < front.len() {
                assert(front[i] == items[i]);
            }
        }
    }
}

/// `pairs_view` maps pair by pair.
pub proof fn lemma_pairs_view(pairs: Seq<(String, Value)>)
    ensures
        pairs_view(pairs).len() == pairs.len(),
        forall|i: int|
            0 <= i < pairs.len() ==> (#[trigger] pairs_view(pairs)[i]) == (pairs[i].0@, pairs[i].1@),
    decreases pairs.len(),
{
    if pairs.len() > 0 {
        let front = pairs.subrange(0, pairs.len() - 1);
        lemma_pairs_view(front);
        assert forall|i: int| 0 <= i < pairs.len() implies (#[trigger] pairs_view(pairs)[i]) == (
            pairs[i].0@,
            pairs[i].1@,
        ) by {
            if i < front.len() {
                assert(front[i] == pairs[i]);
            }
        }
    }
}

} // verus!
