//! Laws of the batch path: when projecting onto the layout changes
//! nothing, and when interning the layout up front changes nothing.

use vstd::prelude::*;
use crate::errors::ErrorView;
use crate::grammar::{
    all_records, emit, emit_batch, emit_items, emit_pairs, extends, field_names, field_value,
    intern_all, is_batch, lemma_emit_items_keys, lemma_emit_keys, lemma_emit_pairs_keys, payload,
    project, project_all, Emitted,
};
use crate::intern::{intern_spec, keys_wf, lemma_intern_spec};
use crate::value::ValueView;

verus! {

/// A batch is homogeneous if every record has the fields of the first
/// record, in the same order, and no field twice.
pub open spec fn is_homogeneous(items: Seq<ValueView>) -> bool {
    &&& items.len() > 0
    &&& all_records(items)
    &&& field_names(items[0]->Record_0).no_duplicates()
    &&& forall|i: int|
        0 <= i < items.len() ==> field_names((#[trigger] items[i])->Record_0) == field_names(
            items[0]->Record_0,
        )
}

/// In a record without repeated keys, each key finds its own value.
pub proof fn lemma_field_value_at(pairs: Seq<(Seq<char>, ValueView)>, j: int)
    requires
        field_names(pairs).no_duplicates(),
        0 <= j < pairs.len(),
    ensures
        field_value(pairs, pairs[j].0) == pairs[j].1,
    decreases pairs.len(),
{
    if j > 0 {
        let rest = pairs.subrange(1, pairs.len() as int);
        assert(field_names(pairs)[0] == pairs[0].0 && field_names(pairs)[j] == pairs[j].0);
        assert(pairs[0].0 != pairs[j].0);
        assert forall|a: int, b: int| 0 <= a < rest.len() && 0 <= b < rest.len() && a != b implies field_names(
            rest,
        )[a] != field_names(rest)[b] by {
            assert(field_names(pairs)[a + 1] == pairs[a + 1].0);
            assert(field_names(pairs)[b + 1] == pairs[b + 1].0);
        }
        assert(rest[j - 1] == pairs[j]);
        lemma_field_value_at(rest, j - 1);
    }
}

/// Projecting a record onto its own layout gives the record.
pub proof fn lemma_project_own_layout(pairs: Seq<(Seq<char>, ValueView)>)
    requires
        field_names(pairs).no_duplicates(),
    ensures
        project(pairs, field_names(pairs)) == pairs,
{
    let projected = project(pairs, field_names(pairs));
    assert forall|j: int| 0 <= j < pairs.len() implies projected[j] == pairs[j] by {
        lemma_field_value_at(pairs, j);
    }
    assert(projected =~= pairs);
}

/// Projecting a homogeneous batch onto its layout gives the batch.
pub proof fn lemma_project_homogeneous(items: Seq<ValueView>)
    requires
        is_homogeneous(items),
    ensures
        project_all(items, field_names(items[0]->Record_0)) == items,
{
    let layout = field_names(items[0]->Record_0);
    let projected = project_all(items, layout);
    assert forall|i: int| 0 <= i < items.len() implies projected[i] == items[i] by {
        assert(items[i] is Record);
        assert(field_names(items[i]->Record_0) == layout);
        lemma_project_own_layout(items[i]->Record_0);
    }
    assert(projected =~= items);
}

/// A table that starts a well-formed table is well formed.
pub proof fn lemma_prefix_wf(shorter: Seq<Seq<char>>, longer: Seq<Seq<char>>)
    requires
        keys_wf(longer),
        extends(shorter, longer),
    ensures
        keys_wf(shorter),
{
}

/// Of two tables that start the same table, the shorter starts the longer.
pub proof fn lemma_prefixes(a: Seq<Seq<char>>, b: Seq<Seq<char>>, whole: Seq<Seq<char>>)
    requires
        extends(a, whole),
        extends(b, whole),
        a.len() <= b.len(),
    ensures
        extends(a, b),
        a.len() == b.len() ==> a == b,
{
    if a.len() == b.len() {
        assert(a =~= b);
    }
}

/// The longer of two tables.
pub open spec fn longer_of(a: Seq<Seq<char>>, b: Seq<Seq<char>>) -> Seq<Seq<char>> {
    if a.len() >= b.len() {
        a
    } else {
        b
    }
}

/// Interning into a table that runs ahead: where `ahead` already holds
/// some of the keys that `keys` is going to get, in the order in which it
/// is going to get them, a key gets the id it would get anyway.
pub proof fn lemma_intern_ahead(
    keys: Seq<Seq<char>>,
    ahead: Seq<Seq<char>>,
    whole: Seq<Seq<char>>,
    key: Seq<char>,
)
    requires
        keys_wf(whole),
        extends(keys, ahead),
        extends(ahead, whole),
        intern_spec(keys, key) is Ok,
        extends(intern_spec(keys, key)->Ok_0.1, whole),
    ensures
        intern_spec(ahead, key) == Ok::<(nat, Seq<Seq<char>>), ErrorView>(
            (
                intern_spec(keys, key)->Ok_0.0,
                longer_of(intern_spec(keys, key)->Ok_0.1, ahead),
            ),
        ),
{
    let (id, after) = intern_spec(keys, key)->Ok_0;
    lemma_prefix_wf(ahead, whole);
    lemma_prefix_wf(keys, whole);
    lemma_intern_spec(keys, key);
    assert(after[id as int] == key);
    assert(whole[id as int] == key);
    if keys.contains(key) {
        assert(ahead[id as int] == key);
        assert(ahead.contains(key));
        assert(ahead.index_of(key) == id);
        lemma_prefixes(keys, ahead, whole);
    } else if ahead.len() > keys.len() {
        assert(ahead[id as int] == key);
        assert(ahead.contains(key));
        assert(ahead.index_of(key) == id);
        lemma_prefixes(after, ahead, whole);
    } else {
        lemma_prefixes(keys, ahead, whole);
        assert(keys =~= ahead);
    }
}

/// Writing with a table that runs ahead: the bytes are the same, and the
/// table afterwards is the longer of the two.
pub proof fn lemma_emit_ahead(
    v: ValueView,
    depth: nat,
    keys: Seq<Seq<char>>,
    ahead: Seq<Seq<char>>,
    whole: Seq<Seq<char>>,
)
    requires
        keys_wf(whole),
        extends(keys, ahead),
        extends(ahead, whole),
        emit(v, depth, keys) is Ok,
        extends(emit(v, depth, keys)->Ok_0.keys, whole),
    ensures
        emit(v, depth, ahead) == Ok::<Emitted, ErrorView>(
            Emitted {
                bytes: emit(v, depth, keys)->Ok_0.bytes,
                keys: longer_of(emit(v, depth, keys)->Ok_0.keys, ahead),
            },
        ),
    decreases v,
{
    reveal(emit);
    reveal(emit_items);
    reveal(emit_pairs);
    match v {
        ValueView::Sequence(items) => {
            lemma_emit_items_ahead(items, depth + 1, keys, ahead, whole);
        },
        ValueView::Record(pairs) => {
            lemma_emit_pairs_ahead(pairs, depth + 1, keys, ahead, whole);
        },
        _ => {
            lemma_prefixes(keys, ahead, whole);
        },
    }
}

/// Writing the elements of a sequence with a table that runs ahead.
pub proof fn lemma_emit_items_ahead(
    items: Seq<ValueView>,
    depth: nat,
    keys: Seq<Seq<char>>,
    ahead: Seq<Seq<char>>,
    whole: Seq<Seq<char>>,
)
    requires
        keys_wf(whole),
        extends(keys, ahead),
        extends(ahead, whole),
        emit_items(items, depth, keys) is Ok,
        extends(emit_items(items, depth, keys)->Ok_0.keys, whole),
    ensures
        emit_items(items, depth, ahead) == Ok::<Emitted, ErrorView>(
            Emitted {
                bytes: emit_items(items, depth, keys)->Ok_0.bytes,
                keys: longer_of(emit_items(items, depth, keys)->Ok_0.keys, ahead),
            },
        ),
    decreases items,
{
    reveal(emit);
    reveal(emit_items);
    reveal(emit_pairs);
    lemma_prefix_wf(keys, whole);
    if items.len() == 0 {
        lemma_prefixes(keys, ahead, whole);
    } else {
        let head = emit(items[0], depth, keys)->Ok_0;
        let rest = items.subrange(1, items.len() as int);
        let tail = emit_items(rest, depth, head.keys)->Ok_0;
        lemma_emit_keys(items[0], depth, keys);
        lemma_emit_items_keys(rest, depth, head.keys);
        assert(extends(head.keys, whole));
        lemma_emit_ahead(items[0], depth, keys, ahead, whole);
        let head_ahead = longer_of(head.keys, ahead);
        if head.keys.len() < ahead.len() {
            lemma_prefixes(head.keys, ahead, whole);
        }
        lemma_emit_items_ahead(rest, depth, head.keys, head_ahead, whole);
    }
}

/// Writing the pairs of a record with a table that runs ahead.
pub proof fn lemma_emit_pairs_ahead(
    pairs: Seq<(Seq<char>, ValueView)>,
    depth: nat,
    keys: Seq<Seq<char>>,
    ahead: Seq<Seq<char>>,
    whole: Seq<Seq<char>>,
)
    requires
        keys_wf(whole),
        extends(keys, ahead),
        extends(ahead, whole),
        emit_pairs(pairs, depth, keys) is Ok,
        extends(emit_pairs(pairs, depth, keys)->Ok_0.keys, whole),
    ensures
        emit_pairs(pairs, depth, ahead) == Ok::<Emitted, ErrorView>(
            Emitted {
                bytes: emit_pairs(pairs, depth, keys)->Ok_0.bytes,
                keys: longer_of(emit_pairs(pairs, depth, keys)->Ok_0.keys, ahead),
            },
        ),
    decreases pairs,
{
    reveal(emit);
    reveal(emit_items);
    reveal(emit_pairs);
    lemma_prefix_wf(keys, whole);
    if pairs.len() == 0 {
        lemma_prefixes(keys, ahead, whole);
    } else {
        let (id, interned) = intern_spec(keys, pairs[0].0)->Ok_0;
        let head = emit(pairs[0].1, depth, interned)->Ok_0;
        let rest = pairs.subrange(1, pairs.len() as int);
        let tail = emit_pairs(rest, depth, head.keys)->Ok_0;
        lemma_intern_spec(keys, pairs[0].0);
        lemma_emit_keys(pairs[0].1, depth, interned);
        lemma_emit_pairs_keys(rest, depth, head.keys);
        assert(extends(head.keys, whole));
        assert(extends(interned, whole));
        lemma_intern_ahead(keys, ahead, whole, pairs[0].0);
        let interned_ahead = longer_of(interned, ahead);
        if interned.len() < ahead.len() {
            lemma_prefixes(interned, ahead, whole);
        }
        lemma_emit_ahead(pairs[0].1, depth, interned, interned_ahead, whole);
        let head_ahead = longer_of(head.keys, interned_ahead);
        if head.keys.len() < interned_ahead.len() {
            lemma_prefixes(head.keys, interned_ahead, whole);
        }
        lemma_emit_pairs_ahead(rest, depth, head.keys, head_ahead, whole);
    }
}

/// Interning a list of names only appends to the table.
pub proof fn lemma_intern_all_extends(names: Seq<Seq<char>>, keys: Seq<Seq<char>>)
    requires
        keys_wf(keys),
    ensures
        intern_all(names, keys) matches Ok(interned) ==> extends(keys, interned) && keys_wf(
            interned,
        ),
    decreases names.len(),
{
    if names.len() > 0 {
        lemma_intern_spec(keys, names[0]);
        if let Ok((_, interned)) = intern_spec(keys, names[0]) {
            assert(extends(keys, interned)) by {
                assert(forall|i: int|
                    0 <= i < keys.len() ==> interned.subrange(0, keys.len() as int)[i]
                        == interned[i]);
            }
            lemma_intern_all_extends(names.subrange(1, names.len() as int), interned);
        }
    }
}

/// The generic path interns the field names of the first record before
/// any other key: with the layout interned up front, the table is one that
/// the generic path reaches anyway.
pub open spec fn layout_comes_first(items: Seq<ValueView>, depth: nat, keys: Seq<Seq<char>>) -> bool {
    &&& emit(ValueView::Sequence(items), depth, keys) is Ok
    &&& intern_all(field_names(items[0]->Record_0), keys) is Ok
    &&& extends(
        intern_all(field_names(items[0]->Record_0), keys)->Ok_0,
        emit(ValueView::Sequence(items), depth, keys)->Ok_0.keys,
    )
}

/// A value that holds no record, however deep: writing it interns nothing.
pub open spec fn holds_no_record(v: ValueView) -> bool
    decreases v,
{
    match v {
        ValueView::Record(_) => false,
        ValueView::Sequence(items) => forall|i: int|
            0 <= i < items.len() ==> holds_no_record(#[trigger] items[i]),
        _ => true,
    }
}

/// A record is flat if none of its values holds a record.
pub open spec fn is_flat_record(v: ValueView) -> bool {
    v is Record && forall|j: int|
        0 <= j < v->Record_0.len() ==> holds_no_record((#[trigger] v->Record_0[j]).1)
}

/// Writing a value that holds no record leaves the string table as it is.
pub proof fn lemma_emit_no_record(v: ValueView, depth: nat, keys: Seq<Seq<char>>)
    requires
        holds_no_record(v),
    ensures
        emit(v, depth, keys) matches Ok(e) ==> e.keys == keys,
    decreases v,
{
    reveal(emit);
    reveal(emit_items);
    reveal(emit_pairs);
    if let ValueView::Sequence(items) = v {
        lemma_emit_items_no_record(items, depth + 1, keys);
    }
}

/// Writing elements that hold no record leaves the string table as it is.
pub proof fn lemma_emit_items_no_record(items: Seq<ValueView>, depth: nat, keys: Seq<Seq<char>>)
    requires
        forall|i: int| 0 <= i < items.len() ==> holds_no_record(#[trigger] items[i]),
    ensures
        emit_items(items, depth, keys) matches Ok(e) ==> e.keys == keys,
    decreases items,
{
    reveal(emit);
    reveal(emit_items);
    reveal(emit_pairs);
    if items.len() > 0 {
        let rest = items.subrange(1, items.len() as int);
        lemma_emit_no_record(items[0], depth, keys);
        assert forall|i: int| 0 <= i < rest.len() implies holds_no_record(#[trigger] rest[i]) by {
            assert(rest[i] == items[i + 1]);
        }
        lemma_emit_items_no_record(rest, depth, keys);
    }
}

/// Writing the pairs of a flat record interns its field names, one after
/// the other, and nothing else.
pub proof fn lemma_emit_pairs_flat(
    pairs: Seq<(Seq<char>, ValueView)>,
    depth: nat,
    keys: Seq<Seq<char>>,
)
    requires
        forall|j: int| 0 <= j < pairs.len() ==> holds_no_record((#[trigger] pairs[j]).1),
    ensures
        emit_pairs(pairs, depth, keys) matches Ok(e) ==> intern_all(field_names(pairs), keys)
            == Ok::<Seq<Seq<char>>, ErrorView>(e.keys),
    decreases pairs,
{
    reveal(emit);
    reveal(emit_items);
    reveal(emit_pairs);
    if pairs.len() > 0 {
        let rest = pairs.subrange(1, pairs.len() as int);
        assert(field_names(pairs)[0] == pairs[0].0);
        assert(field_names(pairs).subrange(1, pairs.len() as int) =~= field_names(rest));
        if let Ok((id, interned)) = intern_spec(keys, pairs[0].0) {
            lemma_emit_no_record(pairs[0].1, depth, interned);
            assert forall|j: int| 0 <= j < rest.len() implies holds_no_record(
                (#[trigger] rest[j]).1,
            ) by {
                assert(rest[j] == pairs[j + 1]);
            }
            lemma_emit_pairs_flat(rest, depth, interned);
        }
    }
}

/// Where the first record of a batch is flat, the generic path interns the
/// layout before any other key.
pub proof fn lemma_flat_layout_comes_first(items: Seq<ValueView>, depth: nat, keys: Seq<Seq<char>>)
    requires
        keys_wf(keys),
        items.len() > 0,
        is_flat_record(items[0]),
        emit(ValueView::Sequence(items), depth, keys) is Ok,
    ensures
        layout_comes_first(items, depth, keys),
{
    reveal(emit);
    reveal(emit_items);
    reveal(emit_pairs);
    let pairs = items[0]->Record_0;
    let rest = items.subrange(1, items.len() as int);
    let head = emit(items[0], depth + 1, keys)->Ok_0;
    lemma_emit_pairs_flat(pairs, depth + 2, keys);
    lemma_emit_keys(items[0], depth + 1, keys);
    lemma_emit_items_keys(rest, depth + 1, head.keys);
}

/// Batch-path equivalence: for a homogeneous batch whose layout the
/// generic path interns first, the batch path writes the bytes and the
/// string table that the generic path writes.
pub proof fn lemma_batch_equivalence(items: Seq<ValueView>, depth: nat, keys: Seq<Seq<char>>)
    requires
        keys_wf(keys),
        is_homogeneous(items),
        layout_comes_first(items, depth, keys),
    ensures
        emit_batch(items, depth, keys) == emit(ValueView::Sequence(items), depth, keys),
{
    let layout = field_names(items[0]->Record_0);
    let whole = emit(ValueView::Sequence(items), depth, keys)->Ok_0;
    let interned = intern_all(layout, keys)->Ok_0;
    lemma_project_homogeneous(items);
    lemma_intern_all_extends(layout, keys);
    lemma_emit_keys(ValueView::Sequence(items), depth, keys);
    lemma_emit_ahead(ValueView::Sequence(items), depth, keys, interned, whole.keys);
}

/// Batch-path equivalence for flat records: a homogeneous batch whose
/// first record is flat is written by the batch path as the generic path
/// writes it, wherever the generic path succeeds.
pub proof fn lemma_batch_equivalence_flat(items: Seq<ValueView>, depth: nat, keys: Seq<Seq<char>>)
    requires
        keys_wf(keys),
        is_homogeneous(items),
        is_flat_record(items[0]),
        emit(ValueView::Sequence(items), depth, keys) is Ok,
    ensures
        emit_batch(items, depth, keys) == emit(ValueView::Sequence(items), depth, keys),
{
    lemma_flat_layout_comes_first(items, depth, keys);
    lemma_batch_equivalence(items, depth, keys);
}

/// Batch-path equivalence for whole values: a homogeneous batch whose
/// layout the generic path interns first has the payload and the string
/// table that the generic path alone would give it.
pub proof fn lemma_batch_payload(v: ValueView)
    requires
        is_batch(v),
        is_homogeneous(v->Sequence_0),
        layout_comes_first(v->Sequence_0, 0, Seq::empty()),
    ensures
        payload(v) == emit(v, 0, Seq::empty()),
{
    lemma_batch_equivalence(v->Sequence_0, 0, Seq::empty());
}

} // verus!
