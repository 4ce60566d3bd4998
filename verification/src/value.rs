//! What a match hands out: the values of the captures, and the records
//! that they are bound into.

use crate::matcher::{field_matchers_view, FieldMatcher, FieldMatcherSpec};
use crate::structure::FieldCardinality;
use vstd::prelude::*;

verus! {

/// A value read from the text.
#[derive(Debug, PartialEq, Eq)]
pub enum Value {
    Bool(bool),
    /// A number of any of the unsigned integer types.
    Unsigned(u128),
    /// A number of any of the signed integer types.
    Signed(i128),
    Char(char),
    Text(String),
    Record(Record),
}

/// The value of a struct or an enum: which of its alternatives matched,
/// and for each field, in the order of the declaration, the values
/// captured for it. A field that takes one value at most holds the last
/// that was captured.
#[derive(Debug, PartialEq, Eq)]
pub struct Record {
    pub variant: usize,
    pub fields: Vec<Vec<Value>>,
}

/// The model of a [`Value`].
pub enum ValueSpec {
    Bool(bool),
    Unsigned(u128),
    Signed(i128),
    Char(char),
    Text(Seq<char>),
    Record { variant: usize, fields: Seq<Seq<ValueSpec>> },
}

pub open spec fn value_view(value: Value) -> ValueSpec
    decreases value,
{
    match value {
        Value::Bool(b) => ValueSpec::Bool(b),
        Value::Unsigned(n) => ValueSpec::Unsigned(n),
        Value::Signed(n) => ValueSpec::Signed(n),
        Value::Char(c) => ValueSpec::Char(c),
        Value::Text(s) => ValueSpec::Text(s@),
        Value::Record(record) => ValueSpec::Record {
            variant: record.variant,
            fields: slots_view(record.fields),
        },
    }
}

pub open spec fn values_view(values: Vec<Value>) -> Seq<ValueSpec>
    decreases values,
{
    Seq::new(
        values@.len(),
        |i: int|
            if 0 <= i < values@.len() {
                value_view(values@[i])
            } else {
                arbitrary()
            },
    )
}

pub open spec fn slots_view(slots: Vec<Vec<Value>>) -> Seq<Seq<ValueSpec>>
    decreases slots,
{
    Seq::new(
        slots@.len(),
        |i: int|
            if 0 <= i < slots@.len() {
                values_view(slots@[i])
            } else {
                arbitrary()
            },
    )
}

impl View for Value {
    type V = ValueSpec;

    open spec fn view(&self) -> ValueSpec {
        value_view(*self)
    }
}

/// A value captured for the field at position `field` of a record.
#[derive(Debug, PartialEq, Eq)]
pub struct Capture {
    pub field: usize,
    pub value: Value,
}

/// The model of a [`Capture`].
pub struct CaptureSpec {
    pub field: usize,
    pub value: ValueSpec,
}

impl View for Capture {
    type V = CaptureSpec;

    open spec fn view(&self) -> CaptureSpec {
        CaptureSpec { field: self.field, value: self.value@ }
    }
}

/// The models of a list of captures, in order.
pub open spec fn captures_view(captures: Seq<Capture>) -> Seq<CaptureSpec> {
    Seq::new(captures.len(), |i: int| captures[i]@)
}

/// The values of a record's fields once one more capture is bound: a
/// field that takes any number of values gains the value, any other
/// field holds it in place of what it held.
pub open spec fn bind_one(
    fields: Seq<FieldMatcherSpec>,
    slots: Seq<Seq<ValueSpec>>,
    capture: CaptureSpec,
) -> Seq<Seq<ValueSpec>> {
    if capture.field >= slots.len() || capture.field >= fields.len() {
        slots
    } else if fields[capture.field as int].cardinality == FieldCardinality::Many {
        slots.update(capture.field as int, slots[capture.field as int].push(capture.value))
    } else {
        slots.update(capture.field as int, seq![capture.value])
    }
}

/// The values of a record's fields once the captures from position
/// `from` on are bound, in order.
pub open spec fn bind_from(
    fields: Seq<FieldMatcherSpec>,
    slots: Seq<Seq<ValueSpec>>,
    captures: Seq<CaptureSpec>,
    from: int,
) -> Seq<Seq<ValueSpec>>
    decreases captures.len() - from,
{
    if from < 0 || from >= captures.len() {
        slots
    } else {
        bind_from(fields, bind_one(fields, slots, captures[from]), captures, from + 1)
    }
}

/// A field that is required has no value.
pub open spec fn lacks_required(fields: Seq<FieldMatcherSpec>, slots: Seq<Seq<ValueSpec>>) -> bool {
    exists|i: int|
        0 <= i < fields.len() && i < slots.len() && (#[trigger] fields[i]).cardinality
            == FieldCardinality::Single && slots[i].len() == 0
}

/// The values of a record's fields, given what was captured: `None`
/// where a required field was not captured.
pub open spec fn bound(fields: Seq<FieldMatcherSpec>, captures: Seq<CaptureSpec>) -> Option<
    Seq<Seq<ValueSpec>>,
> {
    let slots = bind_from(fields, Seq::new(fields.len(), |i: int| Seq::empty()), captures, 0);
    if lacks_required(fields, slots) {
        None
    } else {
        Some(slots)
    }
}

/// Binds one capture into the values of a record's fields.
fn bind_capture(fields: &Vec<FieldMatcher>, slots: &mut Vec<Vec<Value>>, capture: Capture)
    ensures
        slots_view(*final(slots)) == bind_one(
            field_matchers_view(fields@),
            slots_view(*old(slots)),
            capture@,
        ),
        final(slots)@.len() == old(slots)@.len(),
{
    let field = capture.field;
    let ghost before = slots_view(*slots);
    let ghost model = capture@;
    if field < slots.len() && field < fields.len() {
        assert(field_matchers_view(fields@)[field as int] == fields@[field as int]@);
        if fields[field].cardinality == FieldCardinality::Many {
            slots[field].push(capture.value);
            assert(slots_view(*slots) =~= before.update(
                field as int,
                before[field as int].push(model.value),
            )) by {
                assert(values_view(slots@[field as int]) =~= before[field as int].push(
                    model.value,
                ));
            }
        } else {
            let mut one: Vec<Value> = Vec::new();
            one.push(capture.value);
            assert(values_view(one) =~= seq![model.value]);
            slots[field] = one;
            assert(slots_view(*slots) =~= before.update(field as int, seq![model.value]));
        }
    }
}

/// Binds what was captured into the values of a record's fields, in the
/// order of capture. Returns `None` where a required field has no value.
pub fn bind(fields: &Vec<FieldMatcher>, captures: Vec<Capture>) -> (r: Option<Vec<Vec<Value>>>)
    ensures
        match bound(field_matchers_view(fields@), captures_view(captures@)) {
            Some(slots) => r matches Some(x) && slots_view(x) == slots,
            None => r is None,
        },
{
    let ghost specs = field_matchers_view(fields@);
    let ghost models = captures_view(captures@);
    let mut slots: Vec<Vec<Value>> = Vec::new();
    let mut i: usize = 0;
    while i < fields.len()
        invariant
            0 <= i <= fields.len(),
            slots@.len() == i,
            forall|j: int| 0 <= j < i ==> (#[trigger] slots@[j])@.len() == 0,
        decreases fields.len() - i,
    {
        slots.push(Vec::new());
        i += 1;
    }
    assert(slots_view(slots) =~= Seq::new(specs.len(), |i: int| Seq::<ValueSpec>::empty())) by {
        assert forall|j: int| 0 <= j < slots@.len() implies values_view(slots@[j]) =~= Seq::<
            ValueSpec,
        >::empty() by {}
    }
    let ghost initial = slots_view(slots);
    for capture in it: captures
        invariant
            it.seq() == captures@,
            specs == field_matchers_view(fields@),
            models == captures_view(captures@),
            slots@.len() == fields@.len(),
            bind_from(specs, slots_view(slots), models, it.index() as int) == bind_from(
                specs,
                initial,
                models,
                0,
            ),
    {
        assert(models[it.index() as int] == capture@);
        bind_capture(fields, &mut slots, capture);
    }
    assert(slots_view(slots) == bind_from(specs, initial, models, 0));
    let mut i: usize = 0;
    while i < fields.len()
        invariant
            0 <= i <= fields.len(),
            specs == field_matchers_view(fields@),
            models == captures_view(captures@),
            slots@.len() == fields@.len(),
            bound(specs, models) == (if lacks_required(specs, slots_view(slots)) {
                None
            } else {
                Some(slots_view(slots))
            }),
            forall|j: int|
                0 <= j < i ==> !((#[trigger] specs[j]).cardinality == FieldCardinality::Single
                    && slots_view(slots)[j].len() == 0),
        decreases fields.len() - i,
    {
        assert(specs[i as int] == fields@[i as int]@);
        assert(slots_view(slots)[i as int].len() == slots@[i as int]@.len());
        if fields[i].cardinality == FieldCardinality::Single && slots[i].len() == 0 {
            assert(lacks_required(specs, slots_view(slots)));
            return None;
        }
        i += 1;
    }
    Some(slots)
}

} // verus!

