//! Why the tree of a pattern that is accepted is well formed.

use crate::compile::{
    class_items, class_range, class_rest, compile_from, compiled, field_atom, field_name,
    finished, lemma_posix_class, lemma_repetition_bounds, lemma_step_behind, one_of_atom,
    plain_atom, posix_class, repetition_bounds, step_behind, with_atom, OpenSpec,
};
use crate::index::Cursor;
use crate::pattern::{
    atom_is_well_formed, items_are_well_formed, sequence_is_well_formed,
    sequences_are_well_formed, AtomKindSpec, AtomSpec, ClassItem,
};
use crate::requirements::Requirements;
use crate::structure::FieldSpec;
use vstd::prelude::*;

verus! {

/// Whether the atoms and the complete alternatives of each expression
/// that is being read are well formed.
pub open spec fn open_is_well_formed(open: Seq<OpenSpec>) -> bool {
    forall|k: int|
        0 <= k < open.len() ==> sequence_is_well_formed((#[trigger] open[k]).current)
            && sequences_are_well_formed(open[k].done)
}

proof fn lemma_items_concat(a: Seq<ClassItem>, b: Seq<ClassItem>)
    requires
        items_are_well_formed(a),
        items_are_well_formed(b),
    ensures
        items_are_well_formed(a + b),
{
    let all = a + b;
    assert forall|i: int| 0 <= i < all.len() implies (#[trigger] all[i] matches ClassItem::Range(
        lo,
        hi,
    ) ==> lo <= hi) by {
        if i < a.len() {
            assert(all[i] == a[i]);
        } else {
            assert(all[i] == b[i - a.len()]);
        }
    }
}

proof fn lemma_class_range(lo: char, cur: Cursor)
    ensures
        class_range(lo, cur) matches Ok((found, _, _)) ==> items_are_well_formed(found),
{
}

proof fn lemma_class_rest_items(cur: Cursor, items: Seq<ClassItem>)
    requires
        items_are_well_formed(items),
    ensures
        class_rest(cur, items) matches Ok((found, _)) ==> items_are_well_formed(found),
    decreases cur.remaining.len(),
{
    let c = cur.head();
    let next = cur.advance();
    if cur.at_end() {
    } else if c == ']' {
    } else if c == '-' {
    } else if next.peek() == Some('-') {
        lemma_class_range(c, next.advance());
        match class_range(c, next.advance()) {
            Err(e) => {},
            Ok((found, closed, end)) => {
                lemma_items_concat(items, found);
                if !closed {
                    lemma_class_rest_items(end, items + found);
                }
            },
        }
    } else if c == '[' && next.peek() == Some(':') {
        match posix_class(next) {
            Err(e) => {},
            Ok((class, end)) => {
                lemma_posix_class(next);
                lemma_items_concat(items, seq![ClassItem::Posix(class)]);
                assert(items + seq![ClassItem::Posix(class)] =~= items.push(
                    ClassItem::Posix(class),
                ));
                lemma_class_rest_items(end, items.push(ClassItem::Posix(class)));
            },
        }
    } else {
        lemma_items_concat(items, seq![ClassItem::Char(c)]);
        assert(items + seq![ClassItem::Char(c)] =~= items.push(ClassItem::Char(c)));
        lemma_class_rest_items(next, items.push(ClassItem::Char(c)));
    }
}

proof fn lemma_one_of_atom_shape(cur: Cursor)
    ensures
        one_of_atom(cur) matches Ok((atom, _)) ==> atom_is_well_formed(atom),
{
    let inner = if cur.peek() == Some('^') {
        cur.advance()
    } else {
        cur
    };
    let next = inner.advance();
    lemma_class_rest_items(inner, Seq::empty());
    if !inner.at_end() {
        lemma_class_rest_items(next, seq![ClassItem::Char(inner.head())]);
        lemma_class_range(inner.head(), next.advance());
        match class_range(inner.head(), next.advance()) {
            Ok((found, closed, end)) => {
                lemma_class_rest_items(end, found);
            },
            Err(_) => {},
        }
    }
    match class_items(inner) {
        Ok((_, end)) => {
            lemma_repetition_bounds(end);
        },
        Err(_) => {},
    }
}

proof fn lemma_plain_atom_shape(c: char, next: Cursor)
    ensures
        plain_atom(c, next) matches Ok((atom, _)) ==> atom_is_well_formed(atom),
{
    lemma_one_of_atom_shape(next);
    lemma_repetition_bounds(next);
    lemma_repetition_bounds(next.advance());
}

proof fn lemma_field_atom_shape(cur: Cursor, reqs: Requirements)
    ensures
        field_atom(cur, reqs) matches Ok((atom, _, _)) ==> atom_is_well_formed(atom),
{
    match field_name(cur) {
        Ok((_, behind)) => {
            lemma_repetition_bounds(behind);
        },
        Err(_) => {},
    }
}

proof fn lemma_with_atom_shape(open: Seq<OpenSpec>, atom: AtomSpec)
    requires
        open.len() >= 1,
        open_is_well_formed(open),
        atom_is_well_formed(atom),
    ensures
        open_is_well_formed(with_atom(open, atom)),
{
    let after = with_atom(open, atom);
    let last = open.len() - 1;
    assert forall|k: int| 0 <= k < after.len() implies sequence_is_well_formed(
        (#[trigger] after[k]).current,
    ) && sequences_are_well_formed(after[k].done) by {
        if k < last {
            assert(after[k] == open[k]);
        } else {
            let atoms = open[last].current;
            assert(sequence_is_well_formed(atoms));
            assert forall|j: int| 0 <= j < after[k].current.len() implies atom_is_well_formed(
                #[trigger] after[k].current[j],
            ) by {
                if j < atoms.len() {
                    assert(after[k].current[j] == atoms[j]);
                }
            }
        }
    }
}

proof fn lemma_closed_shape(frame: OpenSpec)
    requires
        sequence_is_well_formed(frame.current),
        sequences_are_well_formed(frame.done),
    ensures
        frame.closed().is_well_formed(),
        sequences_are_well_formed(frame.done.push(frame.current)),
{
    let all = frame.done.push(frame.current);
    assert forall|i: int| 0 <= i < all.len() implies sequence_is_well_formed(#[trigger] all[i]) by {
        if i < frame.done.len() {
            assert(all[i] == frame.done[i]);
        }
    }
}

/// A step of reading a pattern leaves the expressions that are being
/// read well formed.
proof fn lemma_step_shape(
    c: char,
    next: Cursor,
    open: Seq<OpenSpec>,
    reqs: Requirements,
    with_fields: bool,
)
    requires
        open.len() >= 1,
        open_is_well_formed(open),
    ensures
        step_behind(c, next, open, reqs, with_fields) matches Ok((_, open_behind, _))
            ==> open_behind.len() >= 1 && open_is_well_formed(open_behind),
{
    let last = open.len() - 1;
    match step_behind(c, next, open, reqs, with_fields) {
        Err(_) => {},
        Ok((end, open_behind, reqs_behind)) => {
            if c == '(' {
                assert forall|k: int| 0 <= k < open_behind.len() implies sequence_is_well_formed(
                    (#[trigger] open_behind[k]).current,
                ) && sequences_are_well_formed(open_behind[k].done) by {
                    if k <= last {
                        assert(open_behind[k] == open[k]);
                    }
                }
            } else if c == ')' {
                lemma_repetition_bounds(next);
                lemma_closed_shape(open[last]);
                let bounds = repetition_bounds(next)->Ok_0;
                let atom = AtomSpec {
                    kind: AtomKindSpec::Group(open.last().closed()),
                    min: bounds.0,
                    max: bounds.1,
                };
                let below = open.drop_last();
                assert forall|k: int| 0 <= k < below.len() implies sequence_is_well_formed(
                    (#[trigger] below[k]).current,
                ) && sequences_are_well_formed(below[k].done) by {
                    assert(below[k] == open[k]);
                }
                lemma_with_atom_shape(below, atom);
            } else if c == '|' {
                lemma_closed_shape(open[last]);
                assert forall|k: int| 0 <= k < open_behind.len() implies sequence_is_well_formed(
                    (#[trigger] open_behind[k]).current,
                ) && sequences_are_well_formed(open_behind[k].done) by {
                    if k < last {
                        assert(open_behind[k] == open[k]);
                    }
                }
            } else if c == '<' && with_fields {
                lemma_field_atom_shape(next, reqs);
                lemma_with_atom_shape(open, field_atom(next, reqs)->Ok_0.0);
            } else {
                lemma_plain_atom_shape(c, next);
                lemma_with_atom_shape(open, plain_atom(c, next)->Ok_0.0);
            }
        },
    }
}

/// Where the expressions that are being read are well formed, so is
/// the expression that the rest of the pattern makes.
pub proof fn lemma_compile_from_shape(
    cur: Cursor,
    open: Seq<OpenSpec>,
    reqs: Requirements,
    with_fields: bool,
)
    requires
        open.len() >= 1,
        open_is_well_formed(open),
    ensures
        compile_from(cur, open, reqs, with_fields) matches Ok(expression)
            ==> expression.is_well_formed(),
    decreases cur.remaining.len(),
{
    if cur.at_end() {
        if finished(cur, open, reqs) is Ok {
            lemma_closed_shape(open[0]);
        }
    } else {
        match step_behind(cur.head(), cur.advance(), open, reqs, with_fields) {
            Err(_) => {},
            Ok((end, open_behind, reqs_behind)) => {
                lemma_step_behind(cur.head(), cur.advance(), open, reqs, with_fields);
                lemma_step_shape(cur.head(), cur.advance(), open, reqs, with_fields);
                lemma_compile_from_shape(end, open_behind, reqs_behind, with_fields);
            },
        }
    }
}

/// The expression of a pattern that is accepted is well formed: it has
/// an alternative, no atom in it is to match more often at least than
/// at most, and no range in it ends below its start.
pub proof fn law_accepted_expression_is_well_formed(
    pattern: Seq<char>,
    fields: Seq<FieldSpec>,
    with_fields: bool,
)
    ensures
        compiled(pattern, fields, with_fields) matches Ok(expression)
            ==> expression.is_well_formed(),
{
    lemma_compile_from_shape(
        Cursor::start(pattern),
        seq![OpenSpec::empty()],
        Requirements::initial(fields),
        with_fields,
    );
}

} // verus!
