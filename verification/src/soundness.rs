//! Why a compiled pattern cannot leave a required field without a value.

use crate::engine::{
    capture_field, match_alternatives, match_collection, match_once, match_repeat, match_sequence,
    match_type, match_variants, read_value, Abort, Outcome, Reading,
};
use crate::compile::{
    coalesced, compile_from, compiled, field_name, finished, lemma_repetition_bounds,
    lemma_step_behind,
    plain_atom, repetition_bounds, step_behind, with_atom, OpenSpec,
};
use crate::index::Cursor;
use crate::requirements::{
    lemma_field_index_from, required_differ, saturating_product, Counts, Frame, Requirements,
};
use crate::matcher::{
    collection_matcher, collection_matchers_from, field_matcher, field_matchers_from,
    type_matcher, type_matchers_from, CollectionMatcherSpec, FieldMatcherSpec, TypeMatcherSpec,
};
use crate::pattern::{AtomKindSpec, AtomSpec};
use crate::structure::{CollectionSpec, FieldCardinality, FieldSpec, LeafType, TypeSpec};
use crate::value::{bind_from, bind_one, bound, lacks_required, CaptureSpec, ValueSpec};
use vstd::prelude::*;

verus! {

/// Whether every match of the atom captures a value for the field at
/// position `field`: the atom matches once at least, and is the field
/// itself or a group of which every alternative captures it.
pub open spec fn atom_captures(atom: AtomSpec, field: usize) -> bool
    decreases atom,
{
    atom.min >= 1 && atom.max >= 1 && match atom.kind {
        AtomKindSpec::FieldCapture(found) => found == field,
        AtomKindSpec::Group(expression) => alternatives_capture(expression.alternatives, field),
        _ => false,
    }
}

/// Whether every match of the sequence captures a value for the field:
/// one of its atoms does.
pub open spec fn sequence_captures(atoms: Seq<AtomSpec>, field: usize) -> bool
    decreases atoms,
{
    exists|j: int| 0 <= j < atoms.len() && atom_captures(#[trigger] atoms[j], field)
}

/// Whether every match of the expression captures a value for the
/// field: each of its alternatives does.
pub open spec fn alternatives_capture(alternatives: Seq<Seq<AtomSpec>>, field: usize) -> bool
    decreases alternatives,
{
    forall|i: int|
        0 <= i < alternatives.len() ==> sequence_captures(#[trigger] alternatives[i], field)
}

/// Whether every match of the struct or discriminant captures a value
/// for each of its fields that is required.
pub open spec fn collection_is_sound(matcher: CollectionMatcherSpec) -> bool {
    &&& matcher.fields.len() <= usize::MAX
    &&& forall|f: usize|
        f < matcher.fields.len() && (#[trigger] matcher.fields[f as int]).cardinality
            == FieldCardinality::Single ==> alternatives_capture(
            matcher.expression.alternatives,
            f,
        )
}

/// Whether the same holds of every alternative of every type of the grammar.
pub open spec fn grammar_is_sound(grammar: Seq<TypeMatcherSpec>) -> bool {
    forall|t: int, v: int|
        0 <= t < grammar.len() && 0 <= v < grammar[t].variants.len() ==> collection_is_sound(
            #[trigger] grammar[t].variants[v],
        )
}

/// Whether `found` holds the captures `before` and, behind them, what
/// was captured since.
pub open spec fn extends(before: Seq<CaptureSpec>, found: Seq<CaptureSpec>) -> bool {
    before.len() <= found.len() && found.take(before.len() as int) == before
}

/// Whether a value was captured for the field at position `from` or later.
pub open spec fn captured_since(captures: Seq<CaptureSpec>, from: int, field: usize) -> bool {
    exists|k: int| from <= k < captures.len() && (#[trigger] captures[k]).field == field
}

/// What holds of an outcome of matching in a sound grammar: it was not
/// given up for a missing field, and a match has kept what was captured
/// before it.
pub open spec fn outcome_is_sound(before: Seq<CaptureSpec>, outcome: Outcome) -> bool {
    match outcome {
        Outcome::Matched { end, captures } => extends(before, captures),
        Outcome::Failed { at } => true,
        Outcome::Aborted { reason } => reason != Abort::MissingField,
    }
}

/// What holds of a reading in a sound grammar: it was not given up for
/// a missing field.
pub open spec fn reading_is_sound(reading: Reading) -> bool {
    !(reading matches Reading::Aborted { reason } && reason == Abort::MissingField)
}

/// Whether the outcome is a match in which a value was captured for
/// the field since the captures `before`; true of every outcome that is
/// no match.
pub open spec fn captured_by(before: Seq<CaptureSpec>, outcome: Outcome, field: usize) -> bool {
    outcome matches Outcome::Matched { end, captures } ==> captured_since(
        captures,
        before.len() as int,
        field,
    )
}

proof fn lemma_extends_trans(a: Seq<CaptureSpec>, b: Seq<CaptureSpec>, c: Seq<CaptureSpec>)
    requires
        extends(a, b),
        extends(b, c),
    ensures
        extends(a, c),
        forall|field: usize|
            captured_since(b, a.len() as int, field) ==> captured_since(c, a.len() as int, field),
        forall|field: usize|
            captured_since(c, b.len() as int, field) ==> captured_since(c, a.len() as int, field),
{
    assert(c.take(a.len() as int) =~= b.take(a.len() as int)) by {
        assert forall|i: int| 0 <= i < a.len() implies c[i] == b[i] by {
            assert(c.take(b.len() as int)[i] == b[i]);
        }
    }
    assert forall|field: usize| captured_since(b, a.len() as int, field) implies captured_since(
        c,
        a.len() as int,
        field,
    ) by {
        let k = choose|k: int| a.len() <= k < b.len() && (#[trigger] b[k]).field == field;
        assert(c.take(b.len() as int)[k] == b[k]);
        assert(c[k].field == field);
    }
    assert forall|field: usize| captured_since(c, b.len() as int, field) implies captured_since(
        c,
        a.len() as int,
        field,
    ) by {
        let k = choose|k: int| b.len() <= k < c.len() && (#[trigger] c[k]).field == field;
        assert(c[k].field == field);
    }
}

proof fn lemma_extends_refl(a: Seq<CaptureSpec>)
    ensures
        extends(a, a),
{
    assert(a.take(a.len() as int) =~= a);
}

proof fn lemma_extends_push(a: Seq<CaptureSpec>, capture: CaptureSpec)
    ensures
        extends(a, a.push(capture)),
        captured_since(a.push(capture), a.len() as int, capture.field),
{
    assert(a.push(capture).take(a.len() as int) =~= a);
    assert(a.push(capture)[a.len() as int].field == capture.field);
}

/// Matching an atom once in a sound grammar is sound, and captures the
/// field where the atom is the field or a group that captures it.
pub proof fn lemma_match_once(
    grammar: Seq<TypeMatcherSpec>,
    fields: Seq<FieldMatcherSpec>,
    kind: AtomKindSpec,
    cur: Cursor,
    captures: Seq<CaptureSpec>,
    depth: nat,
    field: usize,
)
    requires
        grammar_is_sound(grammar),
    ensures
        outcome_is_sound(captures, match_once(grammar, fields, kind, cur, captures, depth)),
        atom_captures(AtomSpec { kind, min: 1, max: 1 }, field) ==> captured_by(
            captures,
            match_once(grammar, fields, kind, cur, captures, depth),
            field,
        ),
    decreases 2 * depth + 1, 2 * fields.len(), kind, 0nat,
{
    lemma_extends_refl(captures);
    match kind {
        AtomKindSpec::Group(expression) => {
            lemma_match_alternatives(
                grammar,
                fields,
                expression.alternatives,
                0,
                cur,
                captures,
                depth,
                field,
            );
        },
        AtomKindSpec::FieldCapture(found) => {
            if found < fields.len() {
                lemma_capture_field(grammar, fields[found as int], found, cur, captures, depth);
            }
        },
        _ => {},
    }
}

/// Matching an atom as often as it can in a sound grammar is sound,
/// and captures the field where the atom does and nothing has matched yet.
pub proof fn lemma_match_repeat(
    grammar: Seq<TypeMatcherSpec>,
    fields: Seq<FieldMatcherSpec>,
    atom: AtomSpec,
    count: nat,
    cur: Cursor,
    captures: Seq<CaptureSpec>,
    depth: nat,
    field: usize,
)
    requires
        grammar_is_sound(grammar),
    ensures
        outcome_is_sound(
            captures,
            match_repeat(grammar, fields, atom, count, cur, captures, depth),
        ),
        atom_captures(atom, field) && count == 0 ==> captured_by(
            captures,
            match_repeat(grammar, fields, atom, count, cur, captures, depth),
            field,
        ),
    decreases 2 * depth + 1, 2 * fields.len(), atom, atom.max - count,
{
    lemma_extends_refl(captures);
    if count < atom.max {
        lemma_match_once(grammar, fields, atom.kind, cur, captures, depth, field);
        match match_once(grammar, fields, atom.kind, cur, captures, depth) {
            Outcome::Matched { end, captures: found } => {
                if end.remaining.len() != cur.remaining.len() {
                    lemma_match_repeat(grammar, fields, atom, count + 1, end, found, depth, field);
                    match match_repeat(grammar, fields, atom, count + 1, end, found, depth) {
                        Outcome::Matched { end: last, captures: all } => {
                            lemma_extends_trans(captures, found, all);
                        },
                        _ => {},
                    }
                }
            },
            _ => {},
        }
    }
}

/// Matching a sequence in a sound grammar is sound, and captures the
/// field where one of the atoms that are still to match does.
pub proof fn lemma_match_sequence(
    grammar: Seq<TypeMatcherSpec>,
    fields: Seq<FieldMatcherSpec>,
    atoms: Seq<AtomSpec>,
    from: nat,
    cur: Cursor,
    captures: Seq<CaptureSpec>,
    depth: nat,
    field: usize,
    which: int,
)
    requires
        grammar_is_sound(grammar),
    ensures
        outcome_is_sound(
            captures,
            match_sequence(grammar, fields, atoms, from, cur, captures, depth),
        ),
        from <= which < atoms.len() && atom_captures(atoms[which], field) ==> captured_by(
            captures,
            match_sequence(grammar, fields, atoms, from, cur, captures, depth),
            field,
        ),
    decreases 2 * depth + 1, 2 * fields.len(), atoms, atoms.len() - from,
{
    lemma_extends_refl(captures);
    if from < atoms.len() {
        lemma_match_repeat(grammar, fields, atoms[from as int], 0, cur, captures, depth, field);
        match match_repeat(grammar, fields, atoms[from as int], 0, cur, captures, depth) {
            Outcome::Matched { end, captures: found } => {
                lemma_match_sequence(
                    grammar,
                    fields,
                    atoms,
                    from + 1,
                    end,
                    found,
                    depth,
                    field,
                    which,
                );
                match match_sequence(grammar, fields, atoms, from + 1, end, found, depth) {
                    Outcome::Matched { end: last, captures: all } => {
                        lemma_extends_trans(captures, found, all);
                    },
                    _ => {},
                }
            },
            _ => {},
        }
    }
}

/// Matching an expression in a sound grammar is sound, and captures
/// the field where each of the alternatives that are still to be tried does.
pub proof fn lemma_match_alternatives(
    grammar: Seq<TypeMatcherSpec>,
    fields: Seq<FieldMatcherSpec>,
    alternatives: Seq<Seq<AtomSpec>>,
    from: nat,
    cur: Cursor,
    captures: Seq<CaptureSpec>,
    depth: nat,
    field: usize,
)
    requires
        grammar_is_sound(grammar),
    ensures
        outcome_is_sound(
            captures,
            match_alternatives(grammar, fields, alternatives, from, cur, captures, depth),
        ),
        (forall|i: int|
            from <= i < alternatives.len() ==> sequence_captures(
                #[trigger] alternatives[i],
                field,
            )) ==> captured_by(
            captures,
            match_alternatives(grammar, fields, alternatives, from, cur, captures, depth),
            field,
        ),
    decreases 2 * depth + 1, 2 * fields.len(), alternatives, alternatives.len() - from,
{
    if from < alternatives.len() {
        let atoms = alternatives[from as int];
        let which = if sequence_captures(atoms, field) {
            choose|j: int| 0 <= j < atoms.len() && atom_captures(#[trigger] atoms[j], field)
        } else {
            0
        };
        lemma_match_sequence(grammar, fields, atoms, 0, cur, captures, depth, field, which);
        if from + 1 < alternatives.len() {
            lemma_match_alternatives(
                grammar,
                fields,
                alternatives,
                from + 1,
                cur,
                captures,
                depth,
                field,
            );
        }
    }
}

/// Capturing a field in a sound grammar is sound, and where it matches
/// it adds one capture, which is for the field.
pub proof fn lemma_capture_field(
    grammar: Seq<TypeMatcherSpec>,
    matcher: FieldMatcherSpec,
    field: usize,
    cur: Cursor,
    captures: Seq<CaptureSpec>,
    depth: nat,
)
    requires
        grammar_is_sound(grammar),
    ensures
        outcome_is_sound(captures, capture_field(grammar, matcher, field, cur, captures, depth)),
        captured_by(captures, capture_field(grammar, matcher, field, cur, captures, depth), field),
    decreases 2 * depth + 1, 1nat, matcher, 0nat,
{
    match matcher.restriction {
        None => {
            lemma_read_value(grammar, matcher.leaf, cur, depth);
            match read_value(grammar, matcher.leaf, cur, depth) {
                Reading::Read { value, end } => {
                    lemma_extends_push(captures, CaptureSpec { field, value });
                },
                _ => {},
            }
        },
        Some(restriction) => {
            lemma_match_alternatives(
                grammar,
                Seq::empty(),
                restriction.alternatives,
                0,
                cur,
                Seq::empty(),
                depth,
                field,
            );
            match match_alternatives(
                grammar,
                Seq::empty(),
                restriction.alternatives,
                0,
                cur,
                Seq::empty(),
                depth,
            ) {
                Outcome::Matched { end, captures: _ } => {
                    lemma_read_value(grammar, matcher.leaf, cur.restricted(end), depth);
                    match read_value(grammar, matcher.leaf, cur.restricted(end), depth) {
                        Reading::Read { value, end: read_to } => {
                            lemma_extends_push(captures, CaptureSpec { field, value });
                        },
                        _ => {},
                    }
                },
                _ => {},
            }
        },
    }
}

/// Reading a value in a sound grammar is sound.
pub proof fn lemma_read_value(
    grammar: Seq<TypeMatcherSpec>,
    leaf: LeafType,
    cur: Cursor,
    depth: nat,
)
    requires
        grammar_is_sound(grammar),
    ensures
        reading_is_sound(read_value(grammar, leaf, cur, depth)),
    decreases 2 * depth + 1, 0nat, grammar, 0nat,
{
    match leaf {
        LeafType::Record(ty) => {
            if depth > 0 {
                lemma_match_type(grammar, ty, cur, (depth - 1) as nat);
            }
        },
        _ => {},
    }
}

/// Matching a type of a sound grammar is sound.
pub proof fn lemma_match_type(grammar: Seq<TypeMatcherSpec>, ty: usize, cur: Cursor, depth: nat)
    requires
        grammar_is_sound(grammar),
    ensures
        reading_is_sound(match_type(grammar, ty, cur, depth)),
    decreases 2 * depth + 2, 2nat, grammar, 0nat,
{
    if ty < grammar.len() {
        lemma_match_variants(grammar, ty, 0, cur, depth);
    }
}

/// Matching the alternatives of a type of a sound grammar is sound.
pub proof fn lemma_match_variants(
    grammar: Seq<TypeMatcherSpec>,
    ty: usize,
    from: nat,
    cur: Cursor,
    depth: nat,
)
    requires
        grammar_is_sound(grammar),
        ty < grammar.len(),
    ensures
        reading_is_sound(match_variants(grammar, grammar[ty as int], from, cur, depth)),
    decreases 2 * depth + 2, 1nat, grammar[ty as int], grammar[ty as int].variants.len() - from,
{
    let matcher = grammar[ty as int];
    if from < matcher.variants.len() {
        assert(collection_is_sound(grammar[ty as int].variants[from as int]));
        lemma_match_collection(grammar, matcher.variants[from as int], from, cur, depth);
        if matcher.is_enum {
            lemma_match_variants(grammar, ty, from + 1, cur, depth);
        }
    }
}

/// Once a field has a value, or a value is still to be bound for it,
/// it has a value in the end.
pub proof fn lemma_bind_from(
    fields: Seq<FieldMatcherSpec>,
    slots: Seq<Seq<ValueSpec>>,
    captures: Seq<CaptureSpec>,
    from: int,
    field: usize,
)
    requires
        slots.len() == fields.len(),
        field < fields.len(),
        0 <= from,
    ensures
        bind_from(fields, slots, captures, from).len() == fields.len(),
        slots[field as int].len() > 0 || captured_since(captures, from, field) ==> bind_from(
            fields,
            slots,
            captures,
            from,
        )[field as int].len() > 0,
    decreases captures.len() - from,
{
    if from < captures.len() {
        let next = bind_one(fields, slots, captures[from]);
        lemma_bind_from(fields, next, captures, from + 1, field);
        if slots[field as int].len() == 0 && captured_since(captures, from, field) {
            let k = choose|k: int|
                from <= k < captures.len() && (#[trigger] captures[k]).field == field;
            if k == from {
                assert(next[field as int].len() > 0);
            } else {
                assert(captures[k].field == field);
                assert(captured_since(captures, from + 1, field));
            }
        }
    }
}

/// Matching a struct or discriminant that is sound, in a sound grammar,
/// is sound: where its pattern matches, each of its required fields has
/// been captured, so that the record can be bound.
pub proof fn lemma_match_collection(
    grammar: Seq<TypeMatcherSpec>,
    matcher: CollectionMatcherSpec,
    variant: nat,
    cur: Cursor,
    depth: nat,
)
    requires
        grammar_is_sound(grammar),
        collection_is_sound(matcher),
    ensures
        reading_is_sound(match_collection(grammar, matcher, variant, cur, depth)),
    decreases 2 * depth + 2, 0nat, matcher, 0nat,
{
    let empty = Seq::<CaptureSpec>::empty();
    lemma_match_alternatives(
        grammar,
        matcher.fields,
        matcher.expression.alternatives,
        0,
        cur,
        empty,
        depth,
        0,
    );
    match match_alternatives(
        grammar,
        matcher.fields,
        matcher.expression.alternatives,
        0,
        cur,
        empty,
        depth,
    ) {
        Outcome::Matched { end, captures } => {
            let initial = Seq::new(matcher.fields.len(), |i: int| Seq::<ValueSpec>::empty());
            let slots = bind_from(matcher.fields, initial, captures, 0);
            if lacks_required(matcher.fields, slots) {
                let i = choose|i: int|
                    0 <= i < matcher.fields.len() && i < slots.len() && (
                    #[trigger] matcher.fields[i]).cardinality == FieldCardinality::Single
                        && slots[i].len() == 0;
                lemma_bind_from(matcher.fields, initial, captures, 0, 0);
                assert(slots.len() == matcher.fields.len());
                let f = i as usize;
                assert(matcher.fields[f as int].cardinality == FieldCardinality::Single);
                assert(alternatives_capture(matcher.expression.alternatives, f));
                lemma_match_alternatives(
                    grammar,
                    matcher.fields,
                    matcher.expression.alternatives,
                    0,
                    cur,
                    empty,
                    depth,
                    f,
                );
                lemma_bind_from(matcher.fields, initial, captures, 0, f);
            }
        },
        _ => {},
    }
}

/// Whether the field at position `field` is required exactly once.
pub open spec fn is_required(fields: Seq<FieldSpec>, field: usize) -> bool {
    field < fields.len() && fields[field as int].cardinality == FieldCardinality::Single
}

/// What the counts of a scope say of the expression that is being read
/// in it: a required field that is counted in the current choice is
/// captured by the atoms read so far, a required field that is counted
/// in the first choice is captured by every choice that is complete,
/// and no choice is complete before the first is kept.
pub open spec fn scope_agrees(fields: Seq<FieldSpec>, frame: Frame, open: OpenSpec) -> bool {
    &&& forall|f: usize| #[trigger]
        is_required(fields, f) && frame.current.contains_key(f as int) ==> sequence_captures(
            open.current,
            f,
        )
    &&& forall|f: usize| #[trigger]
        is_required(fields, f) && frame.baseline is Some && frame.baseline->0.contains_key(
            f as int,
        ) ==> alternatives_capture(open.done, f)
    &&& frame.baseline is None ==> open.done.len() == 0
}

/// Whether the counts of every open scope agree with the expression
/// that is being read in it.
pub open spec fn state_agrees(open: Seq<OpenSpec>, reqs: Requirements) -> bool {
    &&& open.len() == reqs.stack.len()
    &&& open.len() >= 1
    &&& reqs.fields.len() <= usize::MAX
    &&& forall|k: int|
        0 <= k < open.len() ==> scope_agrees(reqs.fields, #[trigger] reqs.stack[k], open[k])
}

proof fn lemma_push_captures(atoms: Seq<AtomSpec>, atom: AtomSpec, field: usize)
    ensures
        sequence_captures(atoms, field) ==> sequence_captures(atoms.push(atom), field),
        atom_captures(atom, field) ==> sequence_captures(atoms.push(atom), field),
{
    let pushed = atoms.push(atom);
    if sequence_captures(atoms, field) {
        let j = choose|j: int| 0 <= j < atoms.len() && atom_captures(#[trigger] atoms[j], field);
        assert(pushed[j] == atoms[j]);
    }
    if atom_captures(atom, field) {
        assert(pushed[atoms.len() as int] == atom);
    }
}

/// Where the last choice of a scope counts the required fields that the
/// first counts, the expression of the scope captures each of them.
proof fn lemma_closed_captures(fields: Seq<FieldSpec>, frame: Frame, open: OpenSpec, field: usize)
    requires
        scope_agrees(fields, frame, open),
        is_required(fields, field),
        frame.current.contains_key(field as int),
        frame.baseline is Some ==> !required_differ(fields, frame.baseline->0, frame.current),
    ensures
        alternatives_capture(open.closed().alternatives, field),
{
    let all = open.closed().alternatives;
    assert(sequence_captures(open.current, field));
    if frame.baseline is Some {
        assert(frame.baseline->0.contains_key(field as int));
        assert(alternatives_capture(open.done, field));
    }
    assert forall|i: int| 0 <= i < all.len() implies sequence_captures(
        #[trigger] all[i],
        field,
    ) by {
        if i < open.done.len() {
            assert(all[i] == open.done[i]);
        } else {
            assert(all[i] == open.current);
        }
    }
}

/// An atom that is added leaves the counts in agreement, where each
/// required field that is newly counted in the innermost scope is
/// captured by the atom.
proof fn lemma_with_atom_agrees(
    open: Seq<OpenSpec>,
    reqs: Requirements,
    atom: AtomSpec,
    counted: Requirements,
)
    requires
        state_agrees(open, reqs),
        counted.fields == reqs.fields,
        counted.stack.len() == reqs.stack.len(),
        counted.stack.drop_last() == reqs.stack.drop_last(),
        counted.top().baseline == reqs.top().baseline,
        forall|f: usize| #[trigger]
            is_required(reqs.fields, f) && counted.top().current.contains_key(f as int)
                ==> reqs.top().current.contains_key(f as int) || atom_captures(atom, f),
    ensures
        state_agrees(with_atom(open, atom), counted),
{
    let after = with_atom(open, atom);
    let last = open.len() - 1;
    assert forall|k: int| 0 <= k < after.len() implies scope_agrees(
        counted.fields,
        #[trigger] counted.stack[k],
        after[k],
    ) by {
        if k < last {
            assert(counted.stack[k] == counted.stack.drop_last()[k]);
            assert(reqs.stack[k] == reqs.stack.drop_last()[k]);
            assert(after[k] == open[k]);
            assert(scope_agrees(reqs.fields, reqs.stack[k], open[k]));
        } else {
            assert(scope_agrees(reqs.fields, reqs.stack[last], open[last]));
            assert(after[k].done == open[last].done);
            assert(after[k].current == open[last].current.push(atom));
            assert forall|f: usize| #[trigger]
                is_required(counted.fields, f) && counted.stack[k].current.contains_key(
                    f as int,
                ) implies sequence_captures(after[k].current, f) by {
                lemma_push_captures(open[last].current, atom, f);
            }
        }
    }
}

/// What counting the fields of a closed scope does to the scope around
/// it: nothing but the counts of its current choice changes, a field is
/// counted there only where it was counted before or in the closed
/// scope, and a required field of the closed scope is accepted only
/// where the scope is matched once at least.
proof fn lemma_merge_from(reqs: Requirements, popped: Counts, from: int, min: usize, max: usize)
    requires
        reqs.stack.len() >= 1,
        0 <= from,
    ensures
        ({
            let merged = reqs.merge_from(popped, from, min, max).0;
            &&& merged.fields == reqs.fields
            &&& merged.stack.len() == reqs.stack.len()
            &&& merged.stack.drop_last() == reqs.stack.drop_last()
            &&& merged.top().baseline == reqs.top().baseline
            &&& forall|g: int| #[trigger]
                merged.top().current.contains_key(g) ==> reqs.top().current.contains_key(g) || (
                from <= g < reqs.fields.len() && popped.contains_key(g))
        }),
        reqs.merge_from(popped, from, min, max).1 is Ok ==> forall|g: int|
            from <= g < reqs.fields.len() && #[trigger] popped.contains_key(g)
                && reqs.fields[g].cardinality == FieldCardinality::Single ==> min >= 1,
    decreases reqs.fields.len() - from,
{
    if from < reqs.fields.len() {
        if popped.contains_key(from) {
            let (next, result) = reqs.add_field_at(
                from,
                saturating_product(popped[from].0, min),
                saturating_product(popped[from].1, max),
            );
            assert(next.stack.drop_last() =~= reqs.stack.drop_last());
            if result is Ok {
                lemma_merge_from(next, popped, from + 1, min, max);
                let merged = next.merge_from(popped, from + 1, min, max).0;
                assert(merged.stack.drop_last() == reqs.stack.drop_last());
                if reqs.fields[from].cardinality == FieldCardinality::Single {
                    assert(saturating_product(popped[from].0, min) >= 1);
                    assert(min >= 1) by (nonlinear_arith)
                        requires
                            popped[from].0 * min != 0,
                            min >= 0,
                    ;
                }
            }
        } else {
            lemma_merge_from(reqs, popped, from + 1, min, max);
        }
    }
}

/// A step of reading a pattern leaves the counts in agreement with the
/// expressions that are being read.
pub proof fn lemma_step_agrees(
    c: char,
    next: Cursor,
    open: Seq<OpenSpec>,
    reqs: Requirements,
    with_fields: bool,
)
    requires
        state_agrees(open, reqs),
    ensures
        step_behind(c, next, open, reqs, with_fields) matches Ok((_, open_behind, reqs_behind))
            ==> state_agrees(open_behind, reqs_behind),
{
    let last = open.len() - 1;
    match step_behind(c, next, open, reqs, with_fields) {
        Err(_) => {},
        Ok((end, open_behind, reqs_behind)) => {
            if c == '(' {
                assert forall|k: int| 0 <= k < open_behind.len() implies scope_agrees(
                    reqs_behind.fields,
                    #[trigger] reqs_behind.stack[k],
                    open_behind[k],
                ) by {
                    if k <= last {
                        assert(scope_agrees(reqs.fields, reqs.stack[k], open[k]));
                    }
                }
            } else if c == ')' {
                lemma_group_agrees(next, open, reqs);
            } else if c == '|' {
                let frame = reqs.top();
                assert(scope_agrees(reqs.fields, reqs.stack[last], open[last]));
                assert forall|k: int| 0 <= k < open_behind.len() implies scope_agrees(
                    reqs_behind.fields,
                    #[trigger] reqs_behind.stack[k],
                    open_behind[k],
                ) by {
                    if k < last {
                        assert(scope_agrees(reqs.fields, reqs.stack[k], open[k]));
                    } else {
                        let kept = reqs_behind.stack[k].baseline->0;
                        assert forall|f: usize| #[trigger]
                            is_required(reqs.fields, f) && kept.contains_key(
                                f as int,
                            ) implies alternatives_capture(open_behind[k].done, f) by {
                            if frame.baseline is Some {
                                assert(frame.baseline->0.contains_key(f as int));
                            }
                            assert(frame.current.contains_key(f as int));
                            lemma_closed_captures(reqs.fields, frame, open[last], f);
                        }
                    }
                }
            } else if c == '<' && with_fields {
                let name = field_name(next)->Ok_0.0;
                let behind = field_name(next)->Ok_0.1;
                let bounds = repetition_bounds(behind)->Ok_0;
                lemma_repetition_bounds(behind);
                lemma_field_index_from(reqs.fields, name, 0);
                let found = reqs.field_index(name)->0;
                let atom = AtomSpec {
                    kind: AtomKindSpec::FieldCapture(found as usize),
                    min: bounds.0,
                    max: bounds.1,
                };
                assert(reqs_behind.stack.drop_last() =~= reqs.stack.drop_last());
                lemma_with_atom_agrees(open, reqs, atom, reqs_behind);
            } else {
                let atom = plain_atom(c, next)->Ok_0.0;
                lemma_with_atom_agrees(open, reqs, atom, reqs);
            }
        },
    }
}

/// Closing a group leaves the counts in agreement with the expressions
/// that are being read.
proof fn lemma_group_agrees(cur: Cursor, open: Seq<OpenSpec>, reqs: Requirements)
    requires
        state_agrees(open, reqs),
    ensures
        coalesced(cur, open, reqs) matches Ok((_, open_behind, reqs_behind)) ==> state_agrees(
            open_behind,
            reqs_behind,
        ),
{
    match coalesced(cur, open, reqs) {
        Err(_) => {},
        Ok((end, open_behind, reqs_behind)) => {
            let last = open.len() - 1;
            let bounds = repetition_bounds(cur)->Ok_0;
            let (min, max) = (bounds.0, bounds.1);
            lemma_repetition_bounds(cur);
            let frame = reqs.top();
            let around = Requirements { fields: reqs.fields, stack: reqs.stack.drop_last() };
            let below = open.drop_last();
            let atom = AtomSpec { kind: AtomKindSpec::Group(open.last().closed()), min, max };
            lemma_merge_from(around, frame.current, 0, min, max);
            assert(state_agrees(below, around)) by {
                assert forall|k: int| 0 <= k < below.len() implies scope_agrees(
                    around.fields,
                    #[trigger] around.stack[k],
                    below[k],
                ) by {
                    assert(scope_agrees(reqs.fields, reqs.stack[k], open[k]));
                }
            }
            assert(scope_agrees(reqs.fields, reqs.stack[last], open[last]));
            assert forall|f: usize| #[trigger]
                is_required(around.fields, f) && reqs_behind.top().current.contains_key(
                    f as int,
                ) implies around.top().current.contains_key(f as int) || atom_captures(
                atom,
                f,
            ) by {
                if !around.top().current.contains_key(f as int) {
                    assert(frame.current.contains_key(f as int));
                    lemma_closed_captures(reqs.fields, frame, open[last], f);
                }
            }
            lemma_with_atom_agrees(below, around, atom, reqs_behind);
        },
    }
}

/// Where the counts agree with the expressions that are being read, the
/// expression that the rest of the pattern makes captures every field
/// that is required.
pub proof fn lemma_compile_from(
    cur: Cursor,
    open: Seq<OpenSpec>,
    reqs: Requirements,
    with_fields: bool,
    field: usize,
)
    requires
        state_agrees(open, reqs),
        is_required(reqs.fields, field),
    ensures
        compile_from(cur, open, reqs, with_fields) matches Ok(expression) ==> alternatives_capture(
            expression.alternatives,
            field,
        ),
    decreases cur.remaining.len(),
{
    if cur.at_end() {
        if finished(cur, open, reqs) is Ok {
            assert(scope_agrees(reqs.fields, reqs.stack[0], open[0]));
            assert(reqs.top().current.contains_key(field as int));
            lemma_closed_captures(reqs.fields, reqs.top(), open[0], field);
        }
    } else {
        match step_behind(cur.head(), cur.advance(), open, reqs, with_fields) {
            Err(_) => {},
            Ok((end, open_behind, reqs_behind)) => {
                lemma_step_behind(cur.head(), cur.advance(), open, reqs, with_fields);
                lemma_step_agrees(cur.head(), cur.advance(), open, reqs, with_fields);
                lemma_step_keeps_fields(cur.head(), cur.advance(), open, reqs, with_fields);
                lemma_compile_from(end, open_behind, reqs_behind, with_fields, field);
            },
        }
    }
}

/// A step of reading a pattern leaves the fields of the record as they are.
proof fn lemma_step_keeps_fields(
    c: char,
    next: Cursor,
    open: Seq<OpenSpec>,
    reqs: Requirements,
    with_fields: bool,
)
    requires
        reqs.stack.len() >= 1,
        open.len() == reqs.stack.len(),
    ensures
        step_behind(c, next, open, reqs, with_fields) matches Ok((_, _, reqs_behind))
            ==> reqs_behind.fields == reqs.fields,
{
    if c == ')' && open.len() > 1 && repetition_bounds(next) is Ok {
        let bounds = repetition_bounds(next)->Ok_0;
        let around = Requirements { fields: reqs.fields, stack: reqs.stack.drop_last() };
        lemma_merge_from(around, reqs.top().current, 0, bounds.0, bounds.1);
    }
}

/// The expression of a pattern that is accepted captures every field
/// that is required.
pub proof fn lemma_compiled(pattern: Seq<char>, fields: Seq<FieldSpec>, field: usize)
    requires
        fields.len() <= usize::MAX,
        is_required(fields, field),
    ensures
        compiled(pattern, fields, true) matches Ok(expression) ==> alternatives_capture(
            expression.alternatives,
            field,
        ),
{
    let open = seq![OpenSpec::empty()];
    let reqs = Requirements::initial(fields);
    assert(scope_agrees(fields, reqs.stack[0], open[0]));
    lemma_compile_from(Cursor::start(pattern), open, reqs, true, field);
}

/// The matchers of the fields of a record are as many as the fields,
/// and each takes as many values as its field.
proof fn lemma_field_matchers_from(fields: Seq<FieldSpec>, from: int, done: Seq<FieldMatcherSpec>)
    requires
        0 <= from <= fields.len(),
        done.len() == from,
        forall|i: int| 0 <= i < from ==> (#[trigger] done[i]).cardinality == fields[i].cardinality,
    ensures
        field_matchers_from(fields, from, done) matches Ok(matchers) ==> matchers.len()
            == fields.len() && forall|i: int|
            0 <= i < fields.len() ==> (#[trigger] matchers[i]).cardinality
                == fields[i].cardinality,
    decreases fields.len() - from,
{
    if from < fields.len() {
        match field_matcher(fields[from]) {
            Err(_) => {},
            Ok(matcher) => {
                lemma_field_matchers_from(fields, from + 1, done.push(matcher));
            },
        }
    }
}

/// The matcher of a struct or discriminant that is accepted is sound.
pub proof fn lemma_collection_matcher(collection: CollectionSpec)
    requires
        collection.fields.len() <= usize::MAX,
    ensures
        collection_matcher(collection) matches Ok(matcher) ==> collection_is_sound(matcher),
{
    match collection_matcher(collection) {
        Err(_) => {},
        Ok(matcher) => {
            lemma_field_matchers_from(collection.fields, 0, Seq::empty());
            assert forall|f: usize|
                f < matcher.fields.len() && (#[trigger] matcher.fields[f as int]).cardinality
                    == FieldCardinality::Single implies alternatives_capture(
                matcher.expression.alternatives,
                f,
            ) by {
                lemma_compiled(collection.pegex, collection.fields, f);
            }
        },
    }
}

/// Whether no struct or discriminant among the collections has more
/// fields than can be counted.
pub open spec fn collections_are_countable(collections: Seq<CollectionSpec>) -> bool {
    forall|v: int|
        0 <= v < collections.len() ==> (#[trigger] collections[v]).fields.len() <= usize::MAX
}

/// Whether no struct or discriminant of the types has more fields than
/// can be counted.
pub open spec fn types_are_countable(types: Seq<TypeSpec>) -> bool {
    forall|t: int|
        0 <= t < types.len() ==> collections_are_countable((#[trigger] types[t]).variants)
}

proof fn lemma_collection_matchers_from(
    collections: Seq<CollectionSpec>,
    from: int,
    done: Seq<CollectionMatcherSpec>,
)
    requires
        0 <= from,
        collections_are_countable(collections),
        forall|v: int| 0 <= v < done.len() ==> collection_is_sound(#[trigger] done[v]),
    ensures
        collection_matchers_from(collections, from, done) matches Ok(matchers) ==> forall|v: int|
            0 <= v < matchers.len() ==> collection_is_sound(#[trigger] matchers[v]),
    decreases collections.len() - from,
{
    if from < collections.len() {
        lemma_collection_matcher(collections[from]);
        match collection_matcher(collections[from]) {
            Err(_) => {},
            Ok(matcher) => {
                let pushed = done.push(matcher);
                assert forall|v: int| 0 <= v < pushed.len() implies collection_is_sound(
                    #[trigger] pushed[v],
                ) by {
                    if v < done.len() {
                        assert(pushed[v] == done[v]);
                    }
                }
                lemma_collection_matchers_from(collections, from + 1, pushed);
            },
        }
    }
}

proof fn lemma_type_matchers_from(types: Seq<TypeSpec>, from: int, done: Seq<TypeMatcherSpec>)
    requires
        0 <= from,
        types_are_countable(types),
        grammar_is_sound(done),
    ensures
        type_matchers_from(types, from, done) matches Ok(grammar) ==> grammar_is_sound(grammar),
    decreases types.len() - from,
{
    if from < types.len() {
        lemma_collection_matchers_from(types[from].variants, 0, Seq::empty());
        match type_matcher(types[from]) {
            Err(_) => {},
            Ok(matcher) => {
                let pushed = done.push(matcher);
                assert forall|t: int, v: int|
                    0 <= t < pushed.len() && 0 <= v < pushed[t].variants.len()
                    implies collection_is_sound(#[trigger] pushed[t].variants[v]) by {
                    if t < done.len() {
                        assert(pushed[t] == done[t]);
                        assert(collection_is_sound(done[t].variants[v]));
                    }
                }
                lemma_type_matchers_from(types, from + 1, pushed);
            },
        }
    }
}

/// Every grammar that is accepted is sound: each of its patterns
/// captures each required field of its record in every match.
pub proof fn law_accepted_grammar_is_sound(types: Seq<TypeSpec>)
    requires
        types_are_countable(types),
    ensures
        type_matchers_from(types, 0, Seq::empty()) matches Ok(grammar) ==> grammar_is_sound(
            grammar,
        ),
{
    lemma_type_matchers_from(types, 0, Seq::empty());
}

/// Matching with a grammar that was accepted is never given up because
/// a required field was left without a value, whatever the type, the
/// text and the depth.
pub proof fn law_required_fields_are_captured(
    types: Seq<TypeSpec>,
    ty: usize,
    cur: Cursor,
    depth: nat,
)
    requires
        types_are_countable(types),
    ensures
        type_matchers_from(types, 0, Seq::empty()) matches Ok(grammar) ==> match_type(
            grammar,
            ty,
            cur,
            depth,
        ) != (Reading::Aborted { reason: Abort::MissingField }),
{
    law_accepted_grammar_is_sound(types);
    match type_matchers_from(types, 0, Seq::empty()) {
        Ok(grammar) => {
            lemma_match_type(grammar, ty, cur, depth);
        },
        Err(_) => {},
    }
}

/// Binding leaves as many fields as there were, and at most one value
/// in a field that takes one value at most.
proof fn lemma_bind_shape(
    fields: Seq<FieldMatcherSpec>,
    slots: Seq<Seq<ValueSpec>>,
    captures: Seq<CaptureSpec>,
    from: int,
)
    requires
        0 <= from,
        slots.len() == fields.len(),
        forall|i: int|
            0 <= i < fields.len() && (#[trigger] fields[i]).cardinality != FieldCardinality::Many
                ==> slots[i].len() <= 1,
    ensures
        bind_from(fields, slots, captures, from).len() == fields.len(),
        forall|i: int|
            0 <= i < fields.len() && (#[trigger] fields[i]).cardinality != FieldCardinality::Many
                ==> bind_from(fields, slots, captures, from)[i].len() <= 1,
    decreases captures.len() - from,
{
    if from < captures.len() {
        lemma_bind_shape(fields, bind_one(fields, slots, captures[from]), captures, from + 1);
    }
}

/// A record that is bound has a value list for each of its fields:
/// exactly one value for a field that is required, one at most for a
/// field that is optional.
pub proof fn law_bound_record_fits_its_fields(
    fields: Seq<FieldMatcherSpec>,
    captures: Seq<CaptureSpec>,
)
    ensures
        bound(fields, captures) matches Some(slots) ==> slots.len() == fields.len() && forall|
            i: int,
        |
            0 <= i < fields.len() ==> match (#[trigger] fields[i]).cardinality {
                FieldCardinality::Single => slots[i].len() == 1,
                FieldCardinality::Optional => slots[i].len() <= 1,
                FieldCardinality::Many => true,
            },
{
    let initial = Seq::new(fields.len(), |i: int| Seq::<ValueSpec>::empty());
    lemma_bind_shape(fields, initial, captures, 0);
}

} // verus!



