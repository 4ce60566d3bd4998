//! Matching a text against the compiled pattern of a type.

use crate::index::{
    lemma_consumed, lemma_is_after_trans, lemma_nonempty_has_bytes, utf8_len, Cursor, Index,
    ParseError, Position,
};
use crate::leaf::Parse;
use crate::compile::CompileError;
use crate::matcher::{
    field_matchers_view, type_matchers_from, types_view, CollectionMatcher,
    CollectionMatcherSpec, FieldMatcher, FieldMatcherSpec, Grammar, TypeMatcher,
    TypeMatcherSpec,
};
use crate::pattern::{
    atoms_view, escape_contains, item_contains, items_contain, posix_contains, sequences_view,
    Atom, AtomKind, AtomKindSpec, AtomSpec, ClassItem, EscapeClass, PosixClass, Sequence,
};
use crate::structure::{DeriveInfo, LeafType};
use crate::value::{
    bind, bound, captures_view, Capture, CaptureSpec, Record, Value, ValueSpec,
};
use vstd::prelude::*;

verus! {

/// Why matching was given up rather than failed.
#[derive(Copy, Clone, PartialEq, Eq, Debug, Structural)]
pub enum Abort {
    /// Records are nested more deeply in one another than was allowed.
    TooDeep,
    /// A field that is required was not captured, which its pattern should have ruled out.
    MissingField,
    /// A field holds a record of a type that the grammar does not have.
    UnknownType,
}

/// How matching a text ended other than in a match.
#[derive(Debug, PartialEq, Eq)]
pub enum MatchError {
    /// The text does not match: the place that the last attempt had reached.
    NoMatch(ParseError),
    Aborted(Abort),
}

/// What matching a part of a pattern comes to.
pub enum Outcome {
    /// It matched up to `end`; `captures` are all captures so far.
    Matched { end: Cursor, captures: Seq<CaptureSpec> },
    /// It did not match; `at` is the place that the last attempt had reached.
    Failed { at: Position },
    Aborted { reason: Abort },
}

/// What reading a value comes to.
pub enum Reading {
    Read { value: ValueSpec, end: Cursor },
    Failed { at: Position },
    Aborted { reason: Abort },
}

/// The value of one of the plain types at the start of the text.
pub open spec fn read_plain(leaf: LeafType, cur: Cursor) -> Result<(ValueSpec, Cursor), Position> {
    match leaf {
        LeafType::Bool => match bool::parse_model(cur) {
            Ok((v, end)) => Ok((ValueSpec::Bool(v), end)),
            Err(p) => Err(p),
        },
        LeafType::U8 => match u8::parse_model(cur) {
            Ok((v, end)) => Ok((ValueSpec::Unsigned(v as u128), end)),
            Err(p) => Err(p),
        },
        LeafType::U16 => match u16::parse_model(cur) {
            Ok((v, end)) => Ok((ValueSpec::Unsigned(v as u128), end)),
            Err(p) => Err(p),
        },
        LeafType::U32 => match u32::parse_model(cur) {
            Ok((v, end)) => Ok((ValueSpec::Unsigned(v as u128), end)),
            Err(p) => Err(p),
        },
        LeafType::U64 => match u64::parse_model(cur) {
            Ok((v, end)) => Ok((ValueSpec::Unsigned(v as u128), end)),
            Err(p) => Err(p),
        },
        LeafType::U128 => match u128::parse_model(cur) {
            Ok((v, end)) => Ok((ValueSpec::Unsigned(v), end)),
            Err(p) => Err(p),
        },
        LeafType::Usize => match usize::parse_model(cur) {
            Ok((v, end)) => Ok((ValueSpec::Unsigned(v as u128), end)),
            Err(p) => Err(p),
        },
        LeafType::I8 => match i8::parse_model(cur) {
            Ok((v, end)) => Ok((ValueSpec::Signed(v as i128), end)),
            Err(p) => Err(p),
        },
        LeafType::I16 => match i16::parse_model(cur) {
            Ok((v, end)) => Ok((ValueSpec::Signed(v as i128), end)),
            Err(p) => Err(p),
        },
        LeafType::I32 => match i32::parse_model(cur) {
            Ok((v, end)) => Ok((ValueSpec::Signed(v as i128), end)),
            Err(p) => Err(p),
        },
        LeafType::I64 => match i64::parse_model(cur) {
            Ok((v, end)) => Ok((ValueSpec::Signed(v as i128), end)),
            Err(p) => Err(p),
        },
        LeafType::I128 => match i128::parse_model(cur) {
            Ok((v, end)) => Ok((ValueSpec::Signed(v), end)),
            Err(p) => Err(p),
        },
        LeafType::Isize => match isize::parse_model(cur) {
            Ok((v, end)) => Ok((ValueSpec::Signed(v as i128), end)),
            Err(p) => Err(p),
        },
        LeafType::Text => match String::parse_model(cur) {
            Ok((v, end)) => Ok((ValueSpec::Text(v), end)),
            Err(p) => Err(p),
        },
        LeafType::Char => match char::parse_model(cur) {
            Ok((v, end)) => Ok((ValueSpec::Char(v), end)),
            Err(p) => Err(p),
        },
        LeafType::Record(_) => Err(cur.position()),
    }
}

/// Whether an atom of the given kind that matches one character matches `c`.
pub open spec fn matches_char(kind: AtomKindSpec, c: char) -> bool {
    match kind {
        AtomKindSpec::Literal(x) => c == x,
        AtomKindSpec::AnyChar => true,
        AtomKindSpec::CharClass { items, negated } => items_contain(items, c) != negated,
        AtomKindSpec::EscapeClass(class) => escape_contains(class, c),
        _ => false,
    }
}

/// Matches an atom once at `cur`. An atom that stands for one character
/// matches it and moves past it, and fails where it stands without
/// moving; a group matches as its expression does; a field matches as
/// [`capture_field`] says.
pub open spec fn match_once(
    grammar: Seq<TypeMatcherSpec>,
    fields: Seq<FieldMatcherSpec>,
    kind: AtomKindSpec,
    cur: Cursor,
    captures: Seq<CaptureSpec>,
    depth: nat,
) -> Outcome
    decreases 2 * depth + 1, 2 * fields.len(), kind, 0nat,
{
    match kind {
        AtomKindSpec::Group(expression) => match_alternatives(
            grammar,
            fields,
            expression.alternatives,
            0,
            cur,
            captures,
            depth,
        ),
        AtomKindSpec::FieldCapture(field) => if field < fields.len() {
            capture_field(grammar, fields[field as int], field, cur, captures, depth)
        } else {
            Outcome::Failed { at: cur.position() }
        },
        _ => if !cur.at_end() && matches_char(kind, cur.head()) {
            Outcome::Matched { end: cur.advance(), captures }
        } else {
            Outcome::Failed { at: cur.position() }
        },
    }
}

/// Matches an atom as often as it can at `cur`, behind `count` matches
/// that have been made: it goes on until the atom has matched `max`
/// times or fails, and never gives a match back. Where the atom fails
/// after `min` matches or more, the repetition matches up to there;
/// where it fails earlier, the repetition fails where the atom did. An
/// atom that matches without reading anything is matched no further.
pub open spec fn match_repeat(
    grammar: Seq<TypeMatcherSpec>,
    fields: Seq<FieldMatcherSpec>,
    atom: AtomSpec,
    count: nat,
    cur: Cursor,
    captures: Seq<CaptureSpec>,
    depth: nat,
) -> Outcome
    decreases 2 * depth + 1, 2 * fields.len(), atom, atom.max - count,
{
    if count >= atom.max {
        Outcome::Matched { end: cur, captures }
    } else {
        match match_once(grammar, fields, atom.kind, cur, captures, depth) {
            Outcome::Failed { at } => if count >= atom.min {
                Outcome::Matched { end: cur, captures }
            } else {
                Outcome::Failed { at }
            },
            Outcome::Aborted { reason } => Outcome::Aborted { reason },
            Outcome::Matched { end, captures: found } => if end.remaining.len()
                == cur.remaining.len() {
                Outcome::Matched { end, captures: found }
            } else {
                match_repeat(grammar, fields, atom, count + 1, end, found, depth)
            },
        }
    }
}

/// Matches the atoms of a sequence from position `from` on, one after
/// the other; the first that fails makes the sequence fail.
pub open spec fn match_sequence(
    grammar: Seq<TypeMatcherSpec>,
    fields: Seq<FieldMatcherSpec>,
    atoms: Seq<AtomSpec>,
    from: nat,
    cur: Cursor,
    captures: Seq<CaptureSpec>,
    depth: nat,
) -> Outcome
    decreases 2 * depth + 1, 2 * fields.len(), atoms, atoms.len() - from,
{
    if from >= atoms.len() {
        Outcome::Matched { end: cur, captures }
    } else {
        match match_repeat(grammar, fields, atoms[from as int], 0, cur, captures, depth) {
            Outcome::Matched { end, captures: found } => match_sequence(
                grammar,
                fields,
                atoms,
                from + 1,
                end,
                found,
                depth,
            ),
            other => other,
        }
    }
}

/// Matches the alternatives of an expression from position `from` on:
/// each is tried at `cur` with the captures as they were, and the first
/// that matches is taken. Where none matches, the expression fails
/// where its last alternative did.
pub open spec fn match_alternatives(
    grammar: Seq<TypeMatcherSpec>,
    fields: Seq<FieldMatcherSpec>,
    alternatives: Seq<Seq<AtomSpec>>,
    from: nat,
    cur: Cursor,
    captures: Seq<CaptureSpec>,
    depth: nat,
) -> Outcome
    decreases 2 * depth + 1, 2 * fields.len(), alternatives, alternatives.len() - from,
{
    if from >= alternatives.len() {
        Outcome::Failed { at: cur.position() }
    } else {
        match match_sequence(grammar, fields, alternatives[from as int], 0, cur, captures, depth) {
            Outcome::Failed { at } => if from + 1 < alternatives.len() {
                match_alternatives(grammar, fields, alternatives, from + 1, cur, captures, depth)
            } else {
                Outcome::Failed { at }
            },
            other => other,
        }
    }
}

/// Captures a value for the field at position `field`. A field without
/// a pattern of its own reads its value at `cur`. A field with one first
/// matches that pattern at `cur`, then reads its value from the text
/// that the pattern matched, and fails unless the value takes all of it.
/// Wherever the field fails, it fails at `cur`.
pub open spec fn capture_field(
    grammar: Seq<TypeMatcherSpec>,
    matcher: FieldMatcherSpec,
    field: usize,
    cur: Cursor,
    captures: Seq<CaptureSpec>,
    depth: nat,
) -> Outcome
    decreases 2 * depth + 1, 1nat, matcher, 0nat,
{
    match matcher.restriction {
        None => match read_value(grammar, matcher.leaf, cur, depth) {
            Reading::Read { value, end } => Outcome::Matched {
                end,
                captures: captures.push(CaptureSpec { field, value }),
            },
            Reading::Failed { at } => Outcome::Failed { at: cur.position() },
            Reading::Aborted { reason } => Outcome::Aborted { reason },
        },
        Some(restriction) => match match_alternatives(
            grammar,
            Seq::empty(),
            restriction.alternatives,
            0,
            cur,
            Seq::empty(),
            depth,
        ) {
            Outcome::Matched { end, captures: _ } => match read_value(
                grammar,
                matcher.leaf,
                cur.restricted(end),
                depth,
            ) {
                Reading::Read { value, end: read_to } => if read_to.at_end() {
                    Outcome::Matched {
                        end,
                        captures: captures.push(CaptureSpec { field, value }),
                    }
                } else {
                    Outcome::Failed { at: cur.position() }
                },
                Reading::Failed { at } => Outcome::Failed { at: cur.position() },
                Reading::Aborted { reason } => Outcome::Aborted { reason },
            },
            Outcome::Failed { at } => Outcome::Failed { at: cur.position() },
            Outcome::Aborted { reason } => Outcome::Aborted { reason },
        },
    }
}

/// Reads a value of the given kind at `cur`. A record can be read only
/// while `depth` is above zero, and its own fields are read one level
/// further down.
pub open spec fn read_value(
    grammar: Seq<TypeMatcherSpec>,
    leaf: LeafType,
    cur: Cursor,
    depth: nat,
) -> Reading
    decreases 2 * depth + 1, 0nat, grammar, 0nat,
{
    match leaf {
        LeafType::Record(ty) => if depth == 0 {
            Reading::Aborted { reason: Abort::TooDeep }
        } else {
            match_type(grammar, ty, cur, (depth - 1) as nat)
        },
        _ => match read_plain(leaf, cur) {
            Ok((value, end)) => Reading::Read { value, end },
            Err(at) => Reading::Failed { at },
        },
    }
}

/// Matches the type at position `ty` of the grammar at `cur`.
pub open spec fn match_type(
    grammar: Seq<TypeMatcherSpec>,
    ty: usize,
    cur: Cursor,
    depth: nat,
) -> Reading
    decreases 2 * depth + 2, 2nat, grammar, 0nat,
{
    if ty >= grammar.len() {
        Reading::Aborted { reason: Abort::UnknownType }
    } else {
        match_variants(grammar, grammar[ty as int], 0, cur, depth)
    }
}

/// Matches the alternatives of a type from position `from` on, each at
/// `cur`: the first that matches is taken. A struct fails where its
/// pattern did; an enum of which no alternative matches fails at `cur`.
pub open spec fn match_variants(
    grammar: Seq<TypeMatcherSpec>,
    matcher: TypeMatcherSpec,
    from: nat,
    cur: Cursor,
    depth: nat,
) -> Reading
    decreases 2 * depth + 2, 1nat, matcher, matcher.variants.len() - from,
{
    if from >= matcher.variants.len() {
        Reading::Failed { at: cur.position() }
    } else {
        match match_collection(grammar, matcher.variants[from as int], from, cur, depth) {
            Reading::Failed { at } => if matcher.is_enum {
                match_variants(grammar, matcher, from + 1, cur, depth)
            } else {
                Reading::Failed { at }
            },
            other => other,
        }
    }
}

/// Matches a struct, or the alternative of an enum at position
/// `variant`, at `cur`, and binds what was captured into a record.
pub open spec fn match_collection(
    grammar: Seq<TypeMatcherSpec>,
    matcher: CollectionMatcherSpec,
    variant: nat,
    cur: Cursor,
    depth: nat,
) -> Reading
    decreases 2 * depth + 2, 0nat, matcher, 0nat,
{
    match match_alternatives(
        grammar,
        matcher.fields,
        matcher.expression.alternatives,
        0,
        cur,
        Seq::empty(),
        depth,
    ) {
        Outcome::Matched { end, captures } => match bound(matcher.fields, captures) {
            Some(fields) => Reading::Read {
                value: ValueSpec::Record { variant: variant as usize, fields },
                end,
            },
            None => Reading::Aborted { reason: Abort::MissingField },
        },
        Outcome::Failed { at } => Reading::Failed { at },
        Outcome::Aborted { reason } => Reading::Aborted { reason },
    }
}

/// Whether a named class holds the character.
fn in_posix_class(class: PosixClass, c: char) -> (r: bool)
    ensures
        r == posix_contains(class, c),
{
    let upper = c >= 'A' && c <= 'Z';
    let lower = c >= 'a' && c <= 'z';
    let digit = c >= '0' && c <= '9';
    match class {
        PosixClass::Upper => upper,
        PosixClass::Lower => lower,
        PosixClass::Alpha => upper || lower,
        PosixClass::Digit => digit,
        PosixClass::Xdigit => digit || (c >= 'A' && c <= 'F') || (c >= 'a' && c <= 'f'),
        PosixClass::Alnum => upper || lower || digit,
        PosixClass::Punct => (c >= '!' && c <= '/') || (c >= ':' && c <= '@') || (c >= '[' && c
            <= '`') || (c >= '{' && c <= '~'),
        PosixClass::Blank => c == ' ' || c == '\t',
        PosixClass::Space => c == ' ' || c == '\t' || c == '\n' || c == '\r' || c == '\x0b' || c
            == '\x0c',
        PosixClass::Cntrl => c <= '\x1f' || c == '\x7f',
        PosixClass::Graph => c >= '!' && c <= '~',
        PosixClass::Print => c >= ' ' && c <= '~',
    }
}

/// Whether a backslash class holds the character.
fn in_escape_class(class: EscapeClass, c: char) -> (r: bool)
    ensures
        r == escape_contains(class, c),
{
    let word = (c >= 'A' && c <= 'Z') || (c >= 'a' && c <= 'z') || c == '_';
    let digit = c >= '0' && c <= '9';
    let space = c == ' ' || c == '\t' || c == '\n' || c == '\r' || c == '\x0b' || c == '\x0c';
    match class {
        EscapeClass::Word => word,
        EscapeClass::NonWord => !word,
        EscapeClass::Digit => digit,
        EscapeClass::NonDigit => !digit,
        EscapeClass::Space => space,
        EscapeClass::NonSpace => !space,
    }
}

/// Whether one of the members of a bracketed class holds the character.
fn in_items(items: &Vec<ClassItem>, c: char) -> (r: bool)
    ensures
        r == items_contain(items@, c),
{
    let mut i: usize = 0;
    while i < items.len()
        invariant
            0 <= i <= items.len(),
            forall|j: int| 0 <= j < i ==> !item_contains(#[trigger] items@[j], c),
        decreases items.len() - i,
    {
        let found = match items[i] {
            ClassItem::Char(x) => c == x,
            ClassItem::Range(lo, hi) => lo <= c && c <= hi,
            ClassItem::Posix(class) => in_posix_class(class, c),
        };
        if found {
            return true;
        }
        i += 1;
    }
    false
}

/// Whether an atom that stands for one character matches `c`.
fn atom_matches_char(kind: &AtomKind, c: char) -> (r: bool)
    ensures
        r == matches_char(kind@, c),
{
    match kind {
        AtomKind::Literal(x) => c == *x,
        AtomKind::AnyChar => true,
        AtomKind::CharClass { items, negated } => in_items(items, c) != *negated,
        AtomKind::EscapeClass(class) => in_escape_class(*class, c),
        _ => false,
    }
}

/// Reads a number of one of the unsigned integer types.
fn read_unsigned_value<'a>(leaf: LeafType, index: Index<'a>) -> (r: Result<
    (Value, Index<'a>),
    ParseError,
>)
    requires
        index@.wf(),
        leaf is U8 || leaf is U16 || leaf is U32 || leaf is U64 || leaf is U128 || leaf is Usize,
    ensures
        match read_plain(leaf, index@) {
            Ok((value, end)) => r matches Ok((v, i)) && v@ == value && i@ == end,
            Err(p) => r matches Err(e) && e@ == p,
        },
        r matches Ok((_, i)) ==> i@.wf() && i@.is_after(index@),
{
    match leaf {
        LeafType::U8 => match u8::parse_at(index) {
            Ok((v, end)) => Ok((Value::Unsigned(v as u128), end)),
            Err(e) => Err(e),
        },
        LeafType::U16 => match u16::parse_at(index) {
            Ok((v, end)) => Ok((Value::Unsigned(v as u128), end)),
            Err(e) => Err(e),
        },
        LeafType::U32 => match u32::parse_at(index) {
            Ok((v, end)) => Ok((Value::Unsigned(v as u128), end)),
            Err(e) => Err(e),
        },
        LeafType::U64 => match u64::parse_at(index) {
            Ok((v, end)) => Ok((Value::Unsigned(v as u128), end)),
            Err(e) => Err(e),
        },
        LeafType::U128 => match u128::parse_at(index) {
            Ok((v, end)) => Ok((Value::Unsigned(v), end)),
            Err(e) => Err(e),
        },
        _ => match usize::parse_at(index) {
            Ok((v, end)) => Ok((Value::Unsigned(v as u128), end)),
            Err(e) => Err(e),
        },
    }
}

/// Reads a number of one of the signed integer types.
fn read_signed_value<'a>(leaf: LeafType, index: Index<'a>) -> (r: Result<
    (Value, Index<'a>),
    ParseError,
>)
    requires
        index@.wf(),
        leaf is I8 || leaf is I16 || leaf is I32 || leaf is I64 || leaf is I128 || leaf is Isize,
    ensures
        match read_plain(leaf, index@) {
            Ok((value, end)) => r matches Ok((v, i)) && v@ == value && i@ == end,
            Err(p) => r matches Err(e) && e@ == p,
        },
        r matches Ok((_, i)) ==> i@.wf() && i@.is_after(index@),
{
    match leaf {
        LeafType::I8 => match i8::parse_at(index) {
            Ok((v, end)) => Ok((Value::Signed(v as i128), end)),
            Err(e) => Err(e),
        },
        LeafType::I16 => match i16::parse_at(index) {
            Ok((v, end)) => Ok((Value::Signed(v as i128), end)),
            Err(e) => Err(e),
        },
        LeafType::I32 => match i32::parse_at(index) {
            Ok((v, end)) => Ok((Value::Signed(v as i128), end)),
            Err(e) => Err(e),
        },
        LeafType::I64 => match i64::parse_at(index) {
            Ok((v, end)) => Ok((Value::Signed(v as i128), end)),
            Err(e) => Err(e),
        },
        LeafType::I128 => match i128::parse_at(index) {
            Ok((v, end)) => Ok((Value::Signed(v), end)),
            Err(e) => Err(e),
        },
        _ => match isize::parse_at(index) {
            Ok((v, end)) => Ok((Value::Signed(v as i128), end)),
            Err(e) => Err(e),
        },
    }
}

/// Reads a value of one of the plain types.
fn read_plain_value<'a>(leaf: LeafType, index: Index<'a>) -> (r: Result<
    (Value, Index<'a>),
    ParseError,
>)
    requires
        index@.wf(),
    ensures
        match read_plain(leaf, index@) {
            Ok((value, end)) => r matches Ok((v, i)) && v@ == value && i@ == end,
            Err(p) => r matches Err(e) && e@ == p,
        },
        r matches Ok((_, i)) ==> i@.wf() && i@.is_after(index@),
{
    match leaf {
        LeafType::Bool => match bool::parse_at(index) {
            Ok((v, end)) => Ok((Value::Bool(v), end)),
            Err(e) => Err(e),
        },
        LeafType::U8 | LeafType::U16 | LeafType::U32 | LeafType::U64 | LeafType::U128
        | LeafType::Usize => read_unsigned_value(leaf, index),
        LeafType::I8 | LeafType::I16 | LeafType::I32 | LeafType::I64 | LeafType::I128
        | LeafType::Isize => read_signed_value(leaf, index),
        LeafType::Text => match String::parse_at(index) {
            Ok((v, end)) => Ok((Value::Text(v), end)),
            Err(e) => Err(e),
        },
        LeafType::Char => match char::parse_at(index) {
            Ok((v, end)) => Ok((Value::Char(v), end)),
            Err(e) => Err(e),
        },
        LeafType::Record(_) => Err(ParseError::from_index(index)),
    }
}

/// The result of a run agrees with an outcome: the same end and
/// captures on a match, the same place on a failure, the same reason
/// where it was given up.
pub open spec fn agrees<'a>(
    r: Result<Index<'a>, MatchError>,
    captures: Seq<Capture>,
    outcome: Outcome,
) -> bool {
    match outcome {
        Outcome::Matched { end, captures: found } => r matches Ok(i) && i@ == end
            && captures_view(captures) == found,
        Outcome::Failed { at } => r matches Err(MatchError::NoMatch(e)) && e@ == at,
        Outcome::Aborted { reason } => r matches Err(MatchError::Aborted(x)) && x == reason,
    }
}

/// A run adds captures behind those that there were on a match, and
/// leaves them as they were otherwise.
pub open spec fn kept<'a>(
    r: Result<Index<'a>, MatchError>,
    before: Seq<Capture>,
    after: Seq<Capture>,
) -> bool {
    match r {
        Ok(_) => before.len() <= after.len() && after.take(before.len() as int) == before,
        Err(_) => after == before,
    }
}

/// The result of reading a value agrees with a reading.
pub open spec fn reads<'a>(r: Result<(Value, Index<'a>), MatchError>, reading: Reading) -> bool {
    match reading {
        Reading::Read { value, end } => r matches Ok((v, i)) && v@ == value && i@ == end,
        Reading::Failed { at } => r matches Err(MatchError::NoMatch(e)) && e@ == at,
        Reading::Aborted { reason } => r matches Err(MatchError::Aborted(x)) && x == reason,
    }
}

/// Adds a capture behind the others.
fn push_capture(captures: &mut Vec<Capture>, field: usize, value: Value)
    ensures
        captures_view(final(captures)@) == captures_view(old(captures)@).push(
            CaptureSpec { field, value: value@ },
        ),
        final(captures)@.len() == old(captures)@.len() + 1,
        final(captures)@.take(old(captures)@.len() as int) == old(captures)@,
{
    let ghost model = value@;
    captures.push(Capture { field, value });
    assert(captures_view(captures@) =~= captures_view(old(captures)@).push(
        CaptureSpec { field, value: model },
    ));
    assert(captures@.take(old(captures)@.len() as int) =~= old(captures)@);
}

/// Drops the captures behind the first `len`.
fn drop_captures(captures: &mut Vec<Capture>, len: usize, Ghost(before): Ghost<Seq<Capture>>)
    requires
        len == before.len(),
        before.len() <= old(captures)@.len(),
        old(captures)@.take(before.len() as int) == before,
    ensures
        final(captures)@ == before,
{
    captures.truncate(len);
}

/// Matches an atom once.
fn run_once<'a>(
    grammar: &Grammar,
    fields: &Vec<FieldMatcher>,
    kind: &AtomKind,
    index: Index<'a>,
    captures: &mut Vec<Capture>,
    depth: usize,
) -> (r: Result<Index<'a>, MatchError>)
    requires
        index@.wf(),
    ensures
        agrees(
            r,
            final(captures)@,
            match_once(
                grammar@,
                field_matchers_view(fields@),
                kind@,
                index@,
                captures_view(old(captures)@),
                depth as nat,
            ),
        ),
        kept(r, old(captures)@, final(captures)@),
        r matches Ok(end) ==> end@.wf() && end@.is_after(index@),
    decreases 2 * depth + 1, 2 * fields@.len(), kind@, 0nat,
{
    proof {
        assert(index@.remaining =~= index@.remaining.skip(0));
        assert(captures@.take(captures@.len() as int) =~= captures@);
    }
    match kind {
        AtomKind::Group(expression) => run_alternatives(
            grammar,
            fields,
            &expression.alternatives,
            index,
            captures,
            depth,
        ),
        AtomKind::FieldCapture(field) => {
            if *field < fields.len() {
                assert(field_matchers_view(fields@)[*field as int] == fields@[*field as int]@);
                run_field(grammar, &fields[*field], *field, index, captures, depth)
            } else {
                Err(MatchError::NoMatch(ParseError::from_index(index)))
            }
        },
        _ => {
            let mut at = index;
            match at.peek() {
                Some(c) => {
                    if atom_matches_char(kind, c) {
                        let _ = at.next();
                        Ok(at)
                    } else {
                        Err(MatchError::NoMatch(ParseError::from_index(index)))
                    }
                },
                None => Err(MatchError::NoMatch(ParseError::from_index(index))),
            }
        },
    }
}

/// Matches an atom as often as it can.
fn run_repeat<'a>(
    grammar: &Grammar,
    fields: &Vec<FieldMatcher>,
    atom: &Atom,
    index: Index<'a>,
    captures: &mut Vec<Capture>,
    depth: usize,
) -> (r: Result<Index<'a>, MatchError>)
    requires
        index@.wf(),
    ensures
        agrees(
            r,
            final(captures)@,
            match_repeat(
                grammar@,
                field_matchers_view(fields@),
                atom@,
                0,
                index@,
                captures_view(old(captures)@),
                depth as nat,
            ),
        ),
        kept(r, old(captures)@, final(captures)@),
        r matches Ok(end) ==> end@.wf() && end@.is_after(index@),
    decreases 2 * depth + 1, 2 * fields@.len(), atom@, atom@.max + 1,
{
    let mut at = index;
    let mut count: usize = 0;
    let saved = captures.len();
    proof {
        assert(index@.remaining =~= index@.remaining.skip(0));
        assert(captures@.take(captures@.len() as int) =~= captures@);
    }
    while count < atom.max
        invariant
            0 <= count <= atom.max,
            at@.wf(),
            at@.is_after(index@),
            saved == old(captures)@.len(),
            saved <= captures@.len(),
            captures@.take(saved as int) == old(captures)@,
            match_repeat(
                grammar@,
                field_matchers_view(fields@),
                atom@,
                count as nat,
                at@,
                captures_view(captures@),
                depth as nat,
            ) == match_repeat(
                grammar@,
                field_matchers_view(fields@),
                atom@,
                0,
                index@,
                captures_view(old(captures)@),
                depth as nat,
            ),
        decreases atom.max - count,
    {
        let ghost before = captures@;
        match run_once(grammar, fields, &atom.kind, at, captures, depth) {
            Ok(end) => {
                proof {
                    lemma_is_after_trans(index@, at@, end@);
                    assert(captures@.take(saved as int) =~= before.take(saved as int));
                }
                let stalled = end.remaining.len() == at.remaining.len();
                proof {
                    lemma_same_length(at@, end@);
                }
                at = end;
                if stalled {
                    return Ok(at);
                }
            },
            Err(MatchError::NoMatch(e)) => {
                if count >= atom.min {
                    return Ok(at);
                } else {
                    drop_captures(captures, saved, Ghost(old(captures)@));
                    return Err(MatchError::NoMatch(e));
                }
            },
            Err(MatchError::Aborted(reason)) => {
                drop_captures(captures, saved, Ghost(old(captures)@));
                return Err(MatchError::Aborted(reason));
            },
        }
        count += 1;
    }
    Ok(at)
}

/// Matches the atoms of a sequence one after the other.
fn run_sequence<'a>(
    grammar: &Grammar,
    fields: &Vec<FieldMatcher>,
    atoms: &Vec<Atom>,
    index: Index<'a>,
    captures: &mut Vec<Capture>,
    depth: usize,
) -> (r: Result<Index<'a>, MatchError>)
    requires
        index@.wf(),
    ensures
        agrees(
            r,
            final(captures)@,
            match_sequence(
                grammar@,
                field_matchers_view(fields@),
                atoms_view(*atoms),
                0,
                index@,
                captures_view(old(captures)@),
                depth as nat,
            ),
        ),
        kept(r, old(captures)@, final(captures)@),
        r matches Ok(end) ==> end@.wf() && end@.is_after(index@),
    decreases 2 * depth + 1, 2 * fields@.len(), atoms_view(*atoms), atoms@.len() + 1,
{
    let mut at = index;
    let mut i: usize = 0;
    let saved = captures.len();
    proof {
        assert(index@.remaining =~= index@.remaining.skip(0));
        assert(captures@.take(captures@.len() as int) =~= captures@);
    }
    while i < atoms.len()
        invariant
            0 <= i <= atoms.len(),
            at@.wf(),
            at@.is_after(index@),
            saved == old(captures)@.len(),
            saved <= captures@.len(),
            captures@.take(saved as int) == old(captures)@,
            match_sequence(
                grammar@,
                field_matchers_view(fields@),
                atoms_view(*atoms),
                i as nat,
                at@,
                captures_view(captures@),
                depth as nat,
            ) == match_sequence(
                grammar@,
                field_matchers_view(fields@),
                atoms_view(*atoms),
                0,
                index@,
                captures_view(old(captures)@),
                depth as nat,
            ),
        decreases atoms.len() - i,
    {
        let ghost before = captures@;
        assert(atoms_view(*atoms)[i as int] == atoms@[i as int]@);
        match run_repeat(grammar, fields, &atoms[i], at, captures, depth) {
            Ok(end) => {
                proof {
                    lemma_is_after_trans(index@, at@, end@);
                    assert(captures@.take(saved as int) =~= before.take(saved as int));
                }
                at = end;
            },
            Err(e) => {
                drop_captures(captures, saved, Ghost(old(captures)@));
                return Err(e);
            },
        }
        i += 1;
    }
    Ok(at)
}

/// Matches the alternatives of an expression: the first that matches is taken.
fn run_alternatives<'a>(
    grammar: &Grammar,
    fields: &Vec<FieldMatcher>,
    alternatives: &Vec<Sequence>,
    index: Index<'a>,
    captures: &mut Vec<Capture>,
    depth: usize,
) -> (r: Result<Index<'a>, MatchError>)
    requires
        index@.wf(),
    ensures
        agrees(
            r,
            final(captures)@,
            match_alternatives(
                grammar@,
                field_matchers_view(fields@),
                sequences_view(*alternatives),
                0,
                index@,
                captures_view(old(captures)@),
                depth as nat,
            ),
        ),
        kept(r, old(captures)@, final(captures)@),
        r matches Ok(end) ==> end@.wf() && end@.is_after(index@),
    decreases 2 * depth + 1, 2 * fields@.len(), sequences_view(*alternatives), alternatives@.len()
            + 1,
{
    let mut i: usize = 0;
    if alternatives.len() == 0 {
        return Err(MatchError::NoMatch(ParseError::from_index(index)));
    }
    loop
        invariant
            0 <= i < alternatives.len(),
            index@.wf(),
            captures@ == old(captures)@,
            match_alternatives(
                grammar@,
                field_matchers_view(fields@),
                sequences_view(*alternatives),
                i as nat,
                index@,
                captures_view(captures@),
                depth as nat,
            ) == match_alternatives(
                grammar@,
                field_matchers_view(fields@),
                sequences_view(*alternatives),
                0,
                index@,
                captures_view(old(captures)@),
                depth as nat,
            ),
        decreases alternatives.len() - i,
    {
        assert(sequences_view(*alternatives)[i as int] == atoms_view(
            alternatives@[i as int].atoms,
        ));
        match run_sequence(grammar, fields, &alternatives[i].atoms, index, captures, depth) {
            Ok(end) => {
                return Ok(end);
            },
            Err(MatchError::NoMatch(e)) => {
                if i + 1 < alternatives.len() {
                    i += 1;
                } else {
                    return Err(MatchError::NoMatch(e));
                }
            },
            Err(MatchError::Aborted(reason)) => {
                return Err(MatchError::Aborted(reason));
            },
        }
    }
}

/// Captures a value for a field.
fn run_field<'a>(
    grammar: &Grammar,
    matcher: &FieldMatcher,
    field: usize,
    index: Index<'a>,
    captures: &mut Vec<Capture>,
    depth: usize,
) -> (r: Result<Index<'a>, MatchError>)
    requires
        index@.wf(),
    ensures
        agrees(
            r,
            final(captures)@,
            capture_field(
                grammar@,
                matcher@,
                field,
                index@,
                captures_view(old(captures)@),
                depth as nat,
            ),
        ),
        kept(r, old(captures)@, final(captures)@),
        r matches Ok(end) ==> end@.wf() && end@.is_after(index@),
    decreases 2 * depth + 1, 1nat, matcher@, 0nat,
{
    match &matcher.restriction {
        None => match run_value(grammar, matcher.leaf, index, depth) {
            Ok((value, end)) => {
                push_capture(captures, field, value);
                Ok(end)
            },
            Err(MatchError::NoMatch(_)) => Err(MatchError::NoMatch(ParseError::from_index(index))),
            Err(MatchError::Aborted(reason)) => Err(MatchError::Aborted(reason)),
        },
        Some(restriction) => {
            let none: Vec<FieldMatcher> = Vec::new();
            let mut scratch: Vec<Capture> = Vec::new();
            assert(field_matchers_view(none@) =~= Seq::<FieldMatcherSpec>::empty());
            assert(captures_view(scratch@) =~= Seq::<CaptureSpec>::empty());
            match run_alternatives(
                grammar,
                &none,
                &restriction.alternatives,
                index,
                &mut scratch,
                depth,
            ) {
                Ok(end) => {
                    let restricted = index.restricted(&end);
                    match run_value(grammar, matcher.leaf, restricted, depth) {
                        Ok((value, read_to)) => {
                            if read_to.remaining.is_empty() {
                                push_capture(captures, field, value);
                                Ok(end)
                            } else {
                                Err(MatchError::NoMatch(ParseError::from_index(index)))
                            }
                        },
                        Err(MatchError::NoMatch(_)) => Err(
                            MatchError::NoMatch(ParseError::from_index(index)),
                        ),
                        Err(MatchError::Aborted(reason)) => Err(MatchError::Aborted(reason)),
                    }
                },
                Err(MatchError::NoMatch(_)) => Err(
                    MatchError::NoMatch(ParseError::from_index(index)),
                ),
                Err(MatchError::Aborted(reason)) => Err(MatchError::Aborted(reason)),
            }
        },
    }
}

/// Reads a value of the given kind.
fn run_value<'a>(grammar: &Grammar, leaf: LeafType, index: Index<'a>, depth: usize) -> (r: Result<
    (Value, Index<'a>),
    MatchError,
>)
    requires
        index@.wf(),
    ensures
        reads(r, read_value(grammar@, leaf, index@, depth as nat)),
        r matches Ok((_, end)) ==> end@.wf() && end@.is_after(index@),
    decreases 2 * depth + 1, 0nat, grammar@, 0nat,
{
    match leaf {
        LeafType::Record(ty) => {
            if depth == 0 {
                Err(MatchError::Aborted(Abort::TooDeep))
            } else {
                run_type(grammar, ty, index, depth - 1)
            }
        },
        _ => match read_plain_value(leaf, index) {
            Ok((value, end)) => Ok((value, end)),
            Err(e) => Err(MatchError::NoMatch(e)),
        },
    }
}

/// Matches the type at position `ty` of the grammar.
fn run_type<'a>(grammar: &Grammar, ty: usize, index: Index<'a>, depth: usize) -> (r: Result<
    (Value, Index<'a>),
    MatchError,
>)
    requires
        index@.wf(),
    ensures
        reads(r, match_type(grammar@, ty, index@, depth as nat)),
        r matches Ok((_, end)) ==> end@.wf() && end@.is_after(index@),
    decreases 2 * depth + 2, 2nat, grammar@, 0nat,
{
    if ty >= grammar.types.len() {
        Err(MatchError::Aborted(Abort::UnknownType))
    } else {
        assert(grammar@[ty as int] == grammar.types@[ty as int]@);
        run_variants(grammar, &grammar.types[ty], index, depth)
    }
}

/// Matches the alternatives of a type: the first that matches is taken.
fn run_variants<'a>(
    grammar: &Grammar,
    matcher: &TypeMatcher,
    index: Index<'a>,
    depth: usize,
) -> (r: Result<(Value, Index<'a>), MatchError>)
    requires
        index@.wf(),
    ensures
        reads(r, match_variants(grammar@, matcher@, 0, index@, depth as nat)),
        r matches Ok((_, end)) ==> end@.wf() && end@.is_after(index@),
    decreases 2 * depth + 2, 1nat, matcher@, matcher@.variants.len() + 1,
{
    let mut i: usize = 0;
    while i < matcher.variants.len()
        invariant
            0 <= i <= matcher.variants.len(),
            index@.wf(),
            match_variants(grammar@, matcher@, i as nat, index@, depth as nat) == match_variants(
                grammar@,
                matcher@,
                0,
                index@,
                depth as nat,
            ),
        decreases matcher.variants.len() - i,
    {
        assert(matcher@.variants[i as int] == matcher.variants@[i as int]@);
        match run_collection(grammar, &matcher.variants[i], i, index, depth) {
            Ok(found) => {
                return Ok(found);
            },
            Err(MatchError::NoMatch(e)) => {
                if !matcher.is_enum {
                    return Err(MatchError::NoMatch(e));
                }
            },
            Err(MatchError::Aborted(reason)) => {
                return Err(MatchError::Aborted(reason));
            },
        }
        i += 1;
    }
    Err(MatchError::NoMatch(ParseError::from_index(index)))
}

/// Matches a struct or one alternative of an enum, and binds what was
/// captured into a record.
fn run_collection<'a>(
    grammar: &Grammar,
    matcher: &CollectionMatcher,
    variant: usize,
    index: Index<'a>,
    depth: usize,
) -> (r: Result<(Value, Index<'a>), MatchError>)
    requires
        index@.wf(),
    ensures
        reads(r, match_collection(grammar@, matcher@, variant as nat, index@, depth as nat)),
        r matches Ok((_, end)) ==> end@.wf() && end@.is_after(index@),
    decreases 2 * depth + 2, 0nat, matcher@, 0nat,
{
    let mut captures: Vec<Capture> = Vec::new();
    assert(captures_view(captures@) =~= Seq::<CaptureSpec>::empty());
    match run_alternatives(
        grammar,
        &matcher.fields,
        &matcher.expression.alternatives,
        index,
        &mut captures,
        depth,
    ) {
        Ok(end) => match bind(&matcher.fields, captures) {
            Some(fields) => Ok((Value::Record(Record { variant, fields }), end)),
            None => Err(MatchError::Aborted(Abort::MissingField)),
        },
        Err(e) => Err(e),
    }
}

/// Two cursors of which one is after the other have read the same
/// where the same number of bytes is left to them.
proof fn lemma_same_length(start: Cursor, end: Cursor)
    requires
        end.is_after(start),
    ensures
        (utf8_len(end.remaining) == utf8_len(start.remaining)) == (
        end.remaining.len() == start.remaining.len()),
{
    lemma_consumed(start, end);
    let consumed = start.consumed(end);
    if consumed.len() > 0 {
        lemma_nonempty_has_bytes(consumed);
    } else {
        assert(consumed =~= Seq::<char>::empty());
    }
}

/// What matching the whole of a text against a type comes to: the
/// type's value where it matches and takes all of the text, a failure at
/// the start of the text where it matches and leaves text behind.
pub open spec fn match_whole(
    grammar: Seq<TypeMatcherSpec>,
    ty: usize,
    input: Seq<char>,
    depth: nat,
) -> Result<ValueSpec, Result<Position, Abort>> {
    match match_type(grammar, ty, Cursor::start(input), depth) {
        Reading::Read { value, end } => if end.at_end() {
            Ok(value)
        } else {
            Err(Ok(Cursor::start(input).position()))
        },
        Reading::Failed { at } => Err(Ok(at)),
        Reading::Aborted { reason } => Err(Err(reason)),
    }
}

impl Grammar {
    /// Matches the type at position `ty` at `index`, with records nested
    /// no more than `depth` deep inside its own: returns the type's value
    /// and the index behind it.
    pub fn parse_at<'a>(&self, ty: usize, index: Index<'a>, depth: usize) -> (r: Result<
        (Value, Index<'a>),
        MatchError,
    >)
        requires
            index@.wf(),
        ensures
            reads(r, match_type(self@, ty, index@, depth as nat)),
            r matches Ok((_, end)) ==> end@.wf() && end@.is_after(index@),
    {
        run_type(self, ty, index, depth)
    }

    /// Matches the type at position `ty` against the whole of `input`,
    /// with records nested no more than `depth` deep inside its own.
    pub fn parse(&self, ty: usize, input: &str, depth: usize) -> (r: Result<Value, MatchError>)
        ensures
            match match_whole(self@, ty, input@, depth as nat) {
                Ok(value) => r matches Ok(v) && v@ == value,
                Err(Ok(at)) => r matches Err(MatchError::NoMatch(e)) && e@ == at,
                Err(Err(reason)) => r matches Err(MatchError::Aborted(x)) && x == reason,
            },
    {
        let idx = Index::new(input);
        match self.parse_at(ty, idx, depth) {
            Ok((value, remaining)) => {
                if remaining.remaining.is_empty() {
                    Ok(value)
                } else {
                    Err(MatchError::NoMatch(ParseError::from_index(idx)))
                }
            },
            Err(e) => Err(e),
        }
    }
}

/// Compiling and matching are deterministic. Two compilations of
/// descriptions that say the same end alike: both are refused with the
/// same error at the same place, or both give grammars that come to the
/// same on every type, every text and every depth.
pub proof fn law_same_description_same_behaviour(
    first: Seq<DeriveInfo>,
    second: Seq<DeriveInfo>,
    first_result: Result<Grammar, CompileError>,
    second_result: Result<Grammar, CompileError>,
)
    requires
        types_view(first) == types_view(second),
        match type_matchers_from(types_view(first), 0, Seq::empty()) {
            Ok(m) => first_result matches Ok(x) && x@ == m,
            Err(e) => first_result matches Err(x) && x@ == e,
        },
        match type_matchers_from(types_view(second), 0, Seq::empty()) {
            Ok(m) => second_result matches Ok(x) && x@ == m,
            Err(e) => second_result matches Err(x) && x@ == e,
        },
    ensures
        first_result matches Err(e) ==> second_result matches Err(f) && f.kind == e.kind
            && f.lineno == e.lineno && f.colno == e.colno,
        first_result matches Ok(g) ==> second_result matches Ok(h) && g@ == h@ && forall|
            ty: usize,
            input: Seq<char>,
            depth: nat,
        | #[trigger] match_whole(g@, ty, input, depth) == match_whole(h@, ty, input, depth),
{
}

} // verus!




