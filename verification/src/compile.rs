//! From the text of a pattern to its tree.

use crate::index::{
    lemma_advance_by_is_after, lemma_advance_by_step, lemma_is_after_trans, Cursor, Index,
    ParseError, Position,
};
use crate::leaf::{lemma_unsigned_model_shrink, Parse};
use crate::pattern::{
    atoms_view, sequences_view, Atom, AtomKind, AtomKindSpec, AtomSpec, ClassItem, EscapeClass,
    Expression, ExpressionSpec, PosixClass, Sequence,
};
use crate::requirements::{
    law_choices_capture_the_same_required_fields, law_single_field_is_captured_once, FieldError,
    FieldRequirements, Requirements,
};
use crate::shape::lemma_compile_from_shape;
use crate::structure::{FieldCardinality, FieldSpec};
use vstd::prelude::*;

verus! {

/// What is wrong with a pattern.
#[derive(Copy, Clone, PartialEq, Eq, Debug, Structural)]
pub enum CompileErrorKind {
    /// A `(` has no `)`.
    MissingCloseParen,
    /// A `)` has no `(`.
    ExtraCloseParen,
    /// A repetition or a closing bracket stands where nothing precedes it.
    UnexpectedToken,
    /// `^` and `$` are reserved: write them with a backslash.
    NotImplemented,
    /// `<` and `>` are reserved for fields, which a field's own pattern cannot hold.
    ReservedBracket,
    /// A `<` has no `>`.
    UnterminatedField,
    /// The pattern ends in a backslash.
    MissingEscape,
    /// A backslash stands before a character that it cannot escape.
    UnknownEscape,
    /// A `[` has no `]`.
    UnterminatedClass,
    /// A `-` in a character class has nothing to start its range.
    DanglingDash,
    /// A range in a character class ends below its start.
    RangeOrder,
    /// A `[:` is followed by no known class name.
    UnknownPosixClass,
    /// A class name is not followed by `:]`.
    UnterminatedPosixClass,
    /// `{,}` gives no bound at all.
    MissingMax,
    /// The lower bound in braces is no number.
    InvalidMin,
    /// The upper bound in braces is no number.
    InvalidMax,
    /// A `{` has no `}`.
    MissingCloseBrace,
    /// The lower bound in braces is above the upper one.
    MinAboveMax,
    /// Two fields of a record have the same name.
    DuplicateField,
    /// The pattern does not fit the fields it captures.
    Field(FieldError),
}

/// Why a pattern was refused, and the place in its text that had been
/// reached when that was found.
#[derive(Copy, Clone, Debug, PartialEq, Eq)]
pub struct CompileError {
    pub kind: CompileErrorKind,
    pub lineno: usize,
    pub colno: usize,
}

/// The model of a [`CompileError`].
pub struct CompileFailure {
    pub kind: CompileErrorKind,
    pub at: Position,
}

impl View for CompileError {
    type V = CompileFailure;

    open spec fn view(&self) -> CompileFailure {
        CompileFailure {
            kind: self.kind,
            at: Position { lineno: self.lineno as nat, colno: self.colno as nat },
        }
    }
}

/// The failure of the given kind at the place of `cur`.
pub open spec fn failure(kind: CompileErrorKind, cur: Cursor) -> CompileFailure {
    CompileFailure { kind, at: cur.position() }
}

impl CompileError {
    /// The error of the given kind at the place of `index`.
    pub fn at_index(kind: CompileErrorKind, index: Index<'_>) -> (r: Self)
        ensures
            r@ == failure(kind, index@),
    {
        CompileError { kind, lineno: index.lineno, colno: index.colno }
    }

    /// The error of the given kind at the place where reading a value failed.
    pub fn at_error(kind: CompileErrorKind, error: ParseError) -> (r: Self)
        ensures
            r@ == (CompileFailure { kind, at: error@ }),
    {
        CompileError { kind, lineno: error.lineno, colno: error.colno }
    }
}

/// The upper bound of a repetition in braces, behind the comma: nothing
/// before the `}` for no bound, or a number that is not below `min`.
pub open spec fn bounds_max(min: usize, cur: Cursor) -> Result<
    (usize, usize, Cursor),
    CompileFailure,
> {
    if cur.peek() == Some('}') {
        Ok((min, usize::MAX, cur.advance()))
    } else {
        match usize::parse_model(cur) {
            Err(p) => Err(CompileFailure { kind: CompileErrorKind::InvalidMax, at: p }),
            Ok((max, end)) => if end.peek() != Some('}') {
                Err(failure(CompileErrorKind::MissingCloseBrace, end.advance()))
            } else if min > max {
                Err(failure(CompileErrorKind::MinAboveMax, end.advance()))
            } else {
                Ok((min, max, end.advance()))
            },
        }
    }
}

/// The repetition written at `cur`, and the cursor behind it: `?` is
/// 0 to 1, `*` is 0 and up, `+` is 1 and up, `{m}` is exactly `m`, `{m,}`
/// is `m` and up, `{,n}` is up to `n`, `{m,n}` is `m` to `n`; anything
/// else is exactly once, with nothing read.
pub open spec fn repetition_bounds(cur: Cursor) -> Result<(usize, usize, Cursor), CompileFailure> {
    if cur.peek() == Some('?') {
        Ok((0, 1, cur.advance()))
    } else if cur.peek() == Some('*') {
        Ok((0, usize::MAX, cur.advance()))
    } else if cur.peek() == Some('+') {
        Ok((1, usize::MAX, cur.advance()))
    } else if cur.peek() == Some('{') {
        let inner = cur.advance();
        if inner.peek() == Some(',') {
            if inner.advance().peek() == Some('}') {
                Err(failure(CompileErrorKind::MissingMax, inner.advance()))
            } else {
                bounds_max(0, inner.advance())
            }
        } else {
            match usize::parse_model(inner) {
                Err(p) => Err(CompileFailure { kind: CompileErrorKind::InvalidMin, at: p }),
                Ok((min, end)) => if end.peek() == Some(',') {
                    bounds_max(min, end.advance())
                } else if end.peek() == Some('}') {
                    Ok((min, min, end.advance()))
                } else {
                    Err(failure(CompileErrorKind::MissingCloseBrace, end.advance()))
                },
            }
        }
    } else {
        Ok((1, 1, cur))
    }
}

/// A repetition is read forwards, and its lower bound is not above its upper one.
pub proof fn lemma_repetition_bounds(cur: Cursor)
    ensures
        repetition_bounds(cur) matches Ok((min, max, end)) ==> min <= max && end.remaining.len()
            <= cur.remaining.len(),
{
    let inner = cur.advance();
    lemma_unsigned_model_shrink(inner, usize::MAX as nat);
    lemma_unsigned_model_shrink(inner.advance(), usize::MAX as nat);
    match usize::parse_model(inner) {
        Ok((min, end)) => {
            lemma_unsigned_model_shrink(end.advance(), usize::MAX as nat);
        },
        Err(_) => {},
    }
}

fn get_bounds_max<'a>(min: usize, index: Index<'a>) -> (r: Result<
    (usize, usize, Index<'a>),
    CompileError,
>)
    requires
        index@.wf(),
    ensures
        match bounds_max(min, index@) {
            Ok((lo, hi, end)) => r matches Ok((x, y, i)) && x == lo && y == hi && i@ == end,
            Err(e) => r matches Err(x) && x@ == e,
        },
        r matches Ok((_, _, i)) ==> i@.wf() && i@.is_after(index@),
{
    let mut at = index;
    if let Some('}') = at.peek() {
        let _ = at.next();
        return Ok((min, usize::MAX, at));
    }
    match usize::parse_at(at) {
        Err(e) => Err(CompileError::at_error(CompileErrorKind::InvalidMax, e)),
        Ok((max, end)) => {
            let mut at = end;
            let last = at.next();
            proof {
                lemma_is_after_trans(index@, end@, at@);
            }
            match last {
                Some('}') => {
                    if min > max {
                        Err(CompileError::at_index(CompileErrorKind::MinAboveMax, at))
                    } else {
                        Ok((min, max, at))
                    }
                },
                _ => Err(CompileError::at_index(CompileErrorKind::MissingCloseBrace, at)),
            }
        },
    }
}

/// Reads the repetition that may follow an atom.
pub fn get_repetition_bounds<'a>(index: Index<'a>) -> (r: Result<
    (usize, usize, Index<'a>),
    CompileError,
>)
    requires
        index@.wf(),
    ensures
        match repetition_bounds(index@) {
            Ok((min, max, end)) => r matches Ok((x, y, i)) && x == min && y == max && i@ == end,
            Err(e) => r matches Err(x) && x@ == e,
        },
        r matches Ok((min, max, i)) ==> min <= max && i@.wf() && i@.is_after(index@),
{
    let mut at = index;
    proof {
        lemma_repetition_bounds(index@);
        assert(index@.remaining =~= index@.remaining.skip(0));
    }
    match at.peek() {
        Some('?') => {
            let _ = at.next();
            Ok((0usize, 1usize, at))
        },
        Some('*') => {
            let _ = at.next();
            Ok((0, usize::MAX, at))
        },
        Some('+') => {
            let _ = at.next();
            Ok((1, usize::MAX, at))
        },
        Some('{') => {
            let _ = at.next();
            let ghost inner = at@;
            if let Some(',') = at.peek() {
                let _ = at.next();
                proof {
                    lemma_is_after_trans(index@, inner, at@);
                }
                if let Some('}') = at.peek() {
                    return Err(CompileError::at_index(CompileErrorKind::MissingMax, at));
                }
                match get_bounds_max(0, at) {
                    Ok((min, max, end)) => {
                        proof {
                            lemma_is_after_trans(index@, at@, end@);
                        }
                        Ok((min, max, end))
                    },
                    Err(e) => Err(e),
                }
            } else {
                match usize::parse_at(at) {
                    Err(e) => Err(CompileError::at_error(CompileErrorKind::InvalidMin, e)),
                    Ok((min, end)) => {
                        proof {
                            lemma_is_after_trans(index@, inner, end@);
                        }
                        let mut at = end;
                        match at.peek() {
                            Some(',') => {
                                let _ = at.next();
                                proof {
                                    lemma_is_after_trans(index@, end@, at@);
                                }
                                match get_bounds_max(min, at) {
                                    Ok((min, max, last)) => {
                                        proof {
                                            lemma_is_after_trans(index@, at@, last@);
                                        }
                                        Ok((min, max, last))
                                    },
                                    Err(e) => Err(e),
                                }
                            },
                            Some('}') => {
                                let _ = at.next();
                                proof {
                                    lemma_is_after_trans(index@, end@, at@);
                                }
                                Ok((min, min, at))
                            },
                            _ => {
                                let _ = at.next();
                                Err(CompileError::at_index(CompileErrorKind::MissingCloseBrace, at))
                            },
                        }
                    },
                }
            }
        },
        _ => Ok((1usize, 1usize, at)),
    }
}

/// The atom that matches `kind`, as often as the repetition at `cur` says.
pub open spec fn repeated(kind: AtomKindSpec, cur: Cursor) -> Result<
    (AtomSpec, Cursor),
    CompileFailure,
> {
    match repetition_bounds(cur) {
        Ok((min, max, end)) => Ok((AtomSpec { kind, min, max }, end)),
        Err(e) => Err(e),
    }
}

/// The atom for the character `character`, which has been read, with the
/// repetition that follows it.
pub open spec fn character_atom(character: char, cur: Cursor) -> Result<
    (AtomSpec, Cursor),
    CompileFailure,
> {
    repeated(AtomKindSpec::Literal(character), cur)
}

/// The atom for a `.`, which has been read, with the repetition that follows it.
pub open spec fn any_character_atom(cur: Cursor) -> Result<(AtomSpec, Cursor), CompileFailure> {
    repeated(AtomKindSpec::AnyChar, cur)
}

/// Whether a backslash before `c` stands for `c` itself.
pub open spec fn escapes_itself(c: char) -> bool {
    c == '\\' || c == '{' || c == '}' || c == '[' || c == ']' || c == '(' || c == ')' || c == '^'
        || c == '$' || c == '.' || c == '|' || c == '*' || c == '+' || c == '?' || c == '<' || c
        == '>' || c == '&'
}

/// What a backslash before `c` matches, if it may stand there.
pub open spec fn escape_kind(c: char) -> Option<AtomKindSpec> {
    if c == 'w' {
        Some(AtomKindSpec::EscapeClass(EscapeClass::Word))
    } else if c == 'W' {
        Some(AtomKindSpec::EscapeClass(EscapeClass::NonWord))
    } else if c == 'd' {
        Some(AtomKindSpec::EscapeClass(EscapeClass::Digit))
    } else if c == 'D' {
        Some(AtomKindSpec::EscapeClass(EscapeClass::NonDigit))
    } else if c == 's' {
        Some(AtomKindSpec::EscapeClass(EscapeClass::Space))
    } else if c == 'S' {
        Some(AtomKindSpec::EscapeClass(EscapeClass::NonSpace))
    } else if escapes_itself(c) {
        Some(AtomKindSpec::Literal(c))
    } else {
        None
    }
}

/// The atom for a backslash, which has been read, the character behind
/// it and the repetition that follows. The repetition is read before the
/// character is judged.
pub open spec fn backslash_atom(cur: Cursor) -> Result<(AtomSpec, Cursor), CompileFailure> {
    if cur.at_end() {
        Err(failure(CompileErrorKind::MissingEscape, cur))
    } else {
        match repetition_bounds(cur.advance()) {
            Err(e) => Err(e),
            Ok((min, max, end)) => match escape_kind(cur.head()) {
                Some(kind) => Ok((AtomSpec { kind, min, max }, end)),
                None => Err(failure(CompileErrorKind::UnknownEscape, end)),
            },
        }
    }
}

/// The atom for the character `character`, which has been read.
pub fn match_character<'a>(character: char, index: Index<'a>) -> (r: Result<
    (Atom, Index<'a>),
    CompileError,
>)
    requires
        index@.wf(),
    ensures
        match character_atom(character, index@) {
            Ok((atom, end)) => r matches Ok((a, i)) && a@ == atom && i@ == end,
            Err(e) => r matches Err(x) && x@ == e,
        },
        r matches Ok((_, i)) ==> i@.wf() && i@.is_after(index@),
{
    match get_repetition_bounds(index) {
        Ok((min, max, end)) => Ok((Atom { kind: AtomKind::Literal(character), min, max }, end)),
        Err(e) => Err(e),
    }
}

/// The atom for a `.`, which has been read.
pub fn match_any_character<'a>(index: Index<'a>) -> (r: Result<(Atom, Index<'a>), CompileError>)
    requires
        index@.wf(),
    ensures
        match any_character_atom(index@) {
            Ok((atom, end)) => r matches Ok((a, i)) && a@ == atom && i@ == end,
            Err(e) => r matches Err(x) && x@ == e,
        },
        r matches Ok((_, i)) ==> i@.wf() && i@.is_after(index@),
{
    match get_repetition_bounds(index) {
        Ok((min, max, end)) => Ok((Atom { kind: AtomKind::AnyChar, min, max }, end)),
        Err(e) => Err(e),
    }
}

/// What a backslash before `character` matches, if it may stand there.
fn escaped(character: char) -> (r: Option<AtomKind>)
    ensures
        match escape_kind(character) {
            Some(kind) => r matches Some(k) && k@ == kind,
            None => r is None,
        },
{
    match character {
        'w' => Some(AtomKind::EscapeClass(EscapeClass::Word)),
        'W' => Some(AtomKind::EscapeClass(EscapeClass::NonWord)),
        'd' => Some(AtomKind::EscapeClass(EscapeClass::Digit)),
        'D' => Some(AtomKind::EscapeClass(EscapeClass::NonDigit)),
        's' => Some(AtomKind::EscapeClass(EscapeClass::Space)),
        'S' => Some(AtomKind::EscapeClass(EscapeClass::NonSpace)),
        '\\' | '{' | '}' | '[' | ']' | '(' | ')' | '^' | '$' | '.' | '|' | '*' | '+' | '?' | '<'
        | '>' | '&' => Some(AtomKind::Literal(character)),
        _ => None,
    }
}

/// The atom for a backslash, which has been read, and the character behind it.
pub fn match_backslash_class<'a>(index: Index<'a>) -> (r: Result<(Atom, Index<'a>), CompileError>)
    requires
        index@.wf(),
    ensures
        match backslash_atom(index@) {
            Ok((atom, end)) => r matches Ok((a, i)) && a@ == atom && i@ == end,
            Err(e) => r matches Err(x) && x@ == e,
        },
        r matches Ok((_, i)) ==> i@.wf() && i@.is_after(index@),
{
    let mut at = index;
    let character = match at.next() {
        Some(c) => c,
        None => {
            return Err(CompileError::at_index(CompileErrorKind::MissingEscape, at));
        },
    };
    let (min, max, end) = match get_repetition_bounds(at) {
        Ok(bounds) => bounds,
        Err(e) => {
            return Err(e);
        },
    };
    proof {
        lemma_is_after_trans(index@, at@, end@);
    }
    match escaped(character) {
        Some(kind) => Ok((Atom { kind, min, max }, end)),
        None => Err(CompileError::at_index(CompileErrorKind::UnknownEscape, end)),
    }
}

/// Whether `label` is the five given characters.
pub open spec fn spells(label: Seq<char>, a: char, b: char, c: char, d: char, e: char) -> bool {
    label.len() == 5 && label[0] == a && label[1] == b && label[2] == c && label[3] == d
        && label[4] == e
}

/// The class that the first five characters of its name stand for. For
/// `xdigit` these are not the whole name.
pub open spec fn posix_named(label: Seq<char>) -> Option<PosixClass> {
    if spells(label, 'u', 'p', 'p', 'e', 'r') {
        Some(PosixClass::Upper)
    } else if spells(label, 'l', 'o', 'w', 'e', 'r') {
        Some(PosixClass::Lower)
    } else if spells(label, 'a', 'l', 'p', 'h', 'a') {
        Some(PosixClass::Alpha)
    } else if spells(label, 'd', 'i', 'g', 'i', 't') {
        Some(PosixClass::Digit)
    } else if spells(label, 'x', 'd', 'i', 'g', 'i') {
        Some(PosixClass::Xdigit)
    } else if spells(label, 'a', 'l', 'n', 'u', 'm') {
        Some(PosixClass::Alnum)
    } else if spells(label, 'p', 'u', 'n', 'c', 't') {
        Some(PosixClass::Punct)
    } else if spells(label, 'b', 'l', 'a', 'n', 'k') {
        Some(PosixClass::Blank)
    } else if spells(label, 's', 'p', 'a', 'c', 'e') {
        Some(PosixClass::Space)
    } else if spells(label, 'c', 'n', 't', 'r', 'l') {
        Some(PosixClass::Cntrl)
    } else if spells(label, 'g', 'r', 'a', 'p', 'h') {
        Some(PosixClass::Graph)
    } else if spells(label, 'p', 'r', 'i', 'n', 't') {
        Some(PosixClass::Print)
    } else {
        None
    }
}

/// The end of a class name: `:]` at `cur`.
pub open spec fn posix_close(class: PosixClass, cur: Cursor) -> Result<
    (PosixClass, Cursor),
    CompileFailure,
> {
    if cur.peek() != Some(':') {
        Err(failure(CompileErrorKind::UnterminatedPosixClass, cur.advance()))
    } else if cur.advance().peek() != Some(']') {
        Err(failure(CompileErrorKind::UnterminatedPosixClass, cur.advance().advance()))
    } else {
        Ok((class, cur.advance().advance()))
    }
}

/// The named class whose `[` has been read, with `cur` at its `:`.
pub open spec fn posix_class(cur: Cursor) -> Result<(PosixClass, Cursor), CompileFailure> {
    let name = cur.advance();
    let behind = name.advance_by(5);
    if name.remaining.len() < 5 {
        Err(failure(CompileErrorKind::UnknownPosixClass, behind))
    } else {
        match posix_named(name.remaining.take(5)) {
            None => Err(failure(CompileErrorKind::UnknownPosixClass, behind)),
            Some(PosixClass::Xdigit) => if behind.peek() == Some('t') {
                posix_close(PosixClass::Xdigit, behind.advance())
            } else {
                Err(failure(CompileErrorKind::UnknownPosixClass, behind.advance()))
            },
            Some(class) => posix_close(class, behind),
        }
    }
}

/// A named class is read forwards.
pub proof fn lemma_posix_class(cur: Cursor)
    ensures
        posix_class(cur) matches Ok((_, end)) ==> end.remaining.len() <= cur.remaining.len(),
{
    lemma_advance_by_is_after(cur.advance(), 5);
}

/// The end of a range in a character class whose start `lo` and `-`
/// have been read: a `]` there makes `lo` and `-` two members and ends
/// the class (the flag says so), anything else ends the range.
pub open spec fn class_range(lo: char, cur: Cursor) -> Result<
    (Seq<ClassItem>, bool, Cursor),
    CompileFailure,
> {
    if cur.at_end() {
        Err(failure(CompileErrorKind::UnterminatedClass, cur))
    } else if cur.head() == ']' {
        Ok((seq![ClassItem::Char(lo), ClassItem::Char('-')], true, cur.advance()))
    } else if cur.head() < lo {
        Err(failure(CompileErrorKind::RangeOrder, cur.advance()))
    } else {
        Ok((seq![ClassItem::Range(lo, cur.head())], false, cur.advance()))
    }
}

/// The members of a character class from `cur` up to its `]`, behind
/// the members `items` that have been read.
pub open spec fn class_rest(cur: Cursor, items: Seq<ClassItem>) -> Result<
    (Seq<ClassItem>, Cursor),
    CompileFailure,
>
    decreases cur.remaining.len(),
{
    let c = cur.head();
    let next = cur.advance();
    if cur.at_end() {
        Err(failure(CompileErrorKind::UnterminatedClass, cur))
    } else if c == ']' {
        Ok((items, next))
    } else if c == '-' {
        Err(failure(CompileErrorKind::DanglingDash, next))
    } else if next.peek() == Some('-') {
        match class_range(c, next.advance()) {
            Err(e) => Err(e),
            Ok((found, closed, end)) => if closed {
                Ok((items + found, end))
            } else {
                class_rest(end, items + found)
            },
        }
    } else if c == '[' && next.peek() == Some(':') {
        match posix_class(next) {
            Err(e) => Err(e),
            Ok((class, end)) => {
                proof {
                    lemma_posix_class(next);
                }
                class_rest(end, items.push(ClassItem::Posix(class)))
            },
        }
    } else {
        class_rest(next, items.push(ClassItem::Char(c)))
    }
}

/// The members of a character class from behind its `[` and `^`. A `]`
/// or a `-` that stands first is a member, or the start of a range.
pub open spec fn class_items(cur: Cursor) -> Result<(Seq<ClassItem>, Cursor), CompileFailure> {
    if cur.peek() == Some(']') || cur.peek() == Some('-') {
        let lit = cur.head();
        let next = cur.advance();
        if next.peek() == Some('-') {
            match class_range(lit, next.advance()) {
                Err(e) => Err(e),
                Ok((found, closed, end)) => if closed {
                    Ok((found, end))
                } else {
                    class_rest(end, found)
                },
            }
        } else {
            class_rest(next, seq![ClassItem::Char(lit)])
        }
    } else {
        class_rest(cur, Seq::empty())
    }
}

/// The atom for a character class whose `[` has been read, with the
/// repetition that follows it. A `^` that stands first negates the class.
pub open spec fn one_of_atom(cur: Cursor) -> Result<(AtomSpec, Cursor), CompileFailure> {
    let negated = cur.peek() == Some('^');
    let inner = if negated {
        cur.advance()
    } else {
        cur
    };
    match class_items(inner) {
        Err(e) => Err(e),
        Ok((items, end)) => repeated(AtomKindSpec::CharClass { items, negated }, end),
    }
}

/// The members of a character class are read forwards.
pub proof fn lemma_class_rest(cur: Cursor, items: Seq<ClassItem>)
    ensures
        class_rest(cur, items) matches Ok((_, end)) ==> end.remaining.len() <= cur.remaining.len(),
    decreases cur.remaining.len(),
{
    let c = cur.head();
    let next = cur.advance();
    if cur.at_end() {
    } else if c == ']' {
    } else if c == '-' {
    } else if next.peek() == Some('-') {
        match class_range(c, next.advance()) {
            Err(e) => {},
            Ok((found, closed, end)) => {
                if !closed {
                    lemma_class_rest(end, items + found);
                }
            },
        }
    } else if c == '[' && next.peek() == Some(':') {
        match posix_class(next) {
            Err(e) => {},
            Ok((class, end)) => {
                lemma_posix_class(next);
                lemma_class_rest(end, items.push(ClassItem::Posix(class)));
            },
        }
    } else {
        lemma_class_rest(next, items.push(ClassItem::Char(c)));
    }
}

/// A character class is read forwards.
pub proof fn lemma_one_of_atom(cur: Cursor)
    ensures
        one_of_atom(cur) matches Ok((_, end)) ==> end.remaining.len() <= cur.remaining.len(),
{
    let negated = cur.peek() == Some('^');
    let inner = if negated {
        cur.advance()
    } else {
        cur
    };
    let next = inner.advance();
    lemma_class_rest(inner, Seq::empty());
    if inner.remaining.len() > 0 {
        lemma_class_rest(next, seq![ClassItem::Char(inner.head())]);
        match class_range(inner.head(), next.advance()) {
            Ok((found, closed, end)) => {
                lemma_class_rest(end, found);
            },
            Err(_) => {},
        }
    }
    match class_items(inner) {
        Ok((_, end)) => {
            lemma_repetition_bounds(end);
        },
        Err(_) => {},
    }
}

/// Whether `word` is the five given characters.
fn spelled(word: &[char; 5], a: char, b: char, c: char, d: char, e: char) -> (r: bool)
    ensures
        r == spells(word@, a, b, c, d, e),
{
    word[0] == a && word[1] == b && word[2] == c && word[3] == d && word[4] == e
}

/// The class that the first five characters of its name stand for.
fn named_class(word: &[char; 5]) -> (r: Option<PosixClass>)
    ensures
        r == posix_named(word@),
{
    if spelled(word, 'u', 'p', 'p', 'e', 'r') {
        Some(PosixClass::Upper)
    } else if spelled(word, 'l', 'o', 'w', 'e', 'r') {
        Some(PosixClass::Lower)
    } else if spelled(word, 'a', 'l', 'p', 'h', 'a') {
        Some(PosixClass::Alpha)
    } else if spelled(word, 'd', 'i', 'g', 'i', 't') {
        Some(PosixClass::Digit)
    } else if spelled(word, 'x', 'd', 'i', 'g', 'i') {
        Some(PosixClass::Xdigit)
    } else if spelled(word, 'a', 'l', 'n', 'u', 'm') {
        Some(PosixClass::Alnum)
    } else if spelled(word, 'p', 'u', 'n', 'c', 't') {
        Some(PosixClass::Punct)
    } else if spelled(word, 'b', 'l', 'a', 'n', 'k') {
        Some(PosixClass::Blank)
    } else if spelled(word, 's', 'p', 'a', 'c', 'e') {
        Some(PosixClass::Space)
    } else if spelled(word, 'c', 'n', 't', 'r', 'l') {
        Some(PosixClass::Cntrl)
    } else if spelled(word, 'g', 'r', 'a', 'p', 'h') {
        Some(PosixClass::Graph)
    } else if spelled(word, 'p', 'r', 'i', 'n', 't') {
        Some(PosixClass::Print)
    } else {
        None
    }
}

/// Reads the `:]` that ends a class name.
fn match_posix_close<'a>(class: PosixClass, index: Index<'a>) -> (r: Result<
    (PosixClass, Index<'a>),
    CompileError,
>)
    requires
        index@.wf(),
    ensures
        match posix_close(class, index@) {
            Ok((c, end)) => r matches Ok((x, i)) && x == c && i@ == end,
            Err(e) => r matches Err(x) && x@ == e,
        },
        r matches Ok((_, i)) ==> i@.wf() && i@.is_after(index@),
{
    let mut at = index;
    let colon = at.next();
    let ghost mid = at@;
    match colon {
        Some(':') => {},
        _ => {
            return Err(CompileError::at_index(CompileErrorKind::UnterminatedPosixClass, at));
        },
    }
    let bracket = at.next();
    proof {
        lemma_is_after_trans(index@, mid, at@);
    }
    match bracket {
        Some(']') => Ok((class, at)),
        _ => Err(CompileError::at_index(CompileErrorKind::UnterminatedPosixClass, at)),
    }
}

/// Reads a named class whose `[` has been read, with `index` at its `:`.
pub fn match_posix_class<'a>(index: Index<'a>) -> (r: Result<
    (PosixClass, Index<'a>),
    CompileError,
>)
    requires
        index@.wf(),
    ensures
        match posix_class(index@) {
            Ok((c, end)) => r matches Ok((x, i)) && x == c && i@ == end,
            Err(e) => r matches Err(x) && x@ == e,
        },
        r matches Ok((_, i)) ==> i@.wf() && i@.is_after(index@),
{
    let mut at = index;
    let _ = at.next();  // Consume ':'
    let ghost name = at@;
    let label = at.next_multiple::<5>();
    let ghost behind = at@;
    proof {
        lemma_is_after_trans(index@, name, behind);
    }
    let word = match label {
        Some(word) => word,
        None => {
            return Err(CompileError::at_index(CompileErrorKind::UnknownPosixClass, at));
        },
    };
    let closed = match named_class(&word) {
        None => {
            return Err(CompileError::at_index(CompileErrorKind::UnknownPosixClass, at));
        },
        Some(PosixClass::Xdigit) => {
            let last = at.next();
            proof {
                lemma_is_after_trans(index@, behind, at@);
            }
            match last {
                Some('t') => match_posix_close(PosixClass::Xdigit, at),
                _ => {
                    return Err(CompileError::at_index(CompileErrorKind::UnknownPosixClass, at));
                },
            }
        },
        Some(class) => match_posix_close(class, at),
    };
    match closed {
        Ok((class, end)) => {
            proof {
                lemma_is_after_trans(index@, at@, end@);
            }
            Ok((class, end))
        },
        Err(e) => Err(e),
    }
}

/// Reads the end of a range whose start `lo` and `-` have been read, and
/// adds what it finds to `items`. Returns whether the class ends there.
fn match_class_range<'a>(lo: char, index: Index<'a>, items: &mut Vec<ClassItem>) -> (r: Result<
    (bool, Index<'a>),
    CompileError,
>)
    requires
        index@.wf(),
    ensures
        match class_range(lo, index@) {
            Ok((found, closed, end)) => r matches Ok((c, i)) && c == closed && i@ == end
                && final(items)@ == old(items)@ + found,
            Err(e) => r matches Err(x) && x@ == e,
        },
        r matches Ok((_, i)) ==> i@.wf() && i@.is_after(index@),
{
    let mut at = index;
    match at.next() {
        None => Err(CompileError::at_index(CompileErrorKind::UnterminatedClass, at)),
        Some(hi) => {
            if hi == ']' {
                items.push(ClassItem::Char(lo));
                items.push(ClassItem::Char('-'));
                assert(items@ =~= old(items)@ + seq![ClassItem::Char(lo), ClassItem::Char('-')]);
                Ok((true, at))
            } else if hi < lo {
                Err(CompileError::at_index(CompileErrorKind::RangeOrder, at))
            } else {
                items.push(ClassItem::Range(lo, hi));
                assert(items@ =~= old(items)@ + seq![ClassItem::Range(lo, hi)]);
                Ok((false, at))
            }
        },
    }
}

/// Reads the members of a character class up to its `]`, behind the
/// members `items` that have been read.
fn match_class_rest<'a>(index: Index<'a>, items: Vec<ClassItem>) -> (r: Result<
    (Vec<ClassItem>, Index<'a>),
    CompileError,
>)
    requires
        index@.wf(),
    ensures
        match class_rest(index@, items@) {
            Ok((found, end)) => r matches Ok((x, i)) && x@ == found && i@ == end,
            Err(e) => r matches Err(x) && x@ == e,
        },
        r matches Ok((_, i)) ==> i@.wf() && i@.is_after(index@),
{
    let mut at = index;
    let mut found = items;
    proof {
        assert(index@.remaining =~= index@.remaining.skip(0));
    }
    loop
        invariant
            at@.wf(),
            at@.is_after(index@),
            class_rest(at@, found@) == class_rest(index@, items@),
        decreases at@.remaining.len(),
    {
        let ghost before = at@;
        let c = match at.next() {
            Some(c) => c,
            None => {
                return Err(CompileError::at_index(CompileErrorKind::UnterminatedClass, at));
            },
        };
        proof {
            lemma_is_after_trans(index@, before, at@);
        }
        if c == ']' {
            return Ok((found, at));
        }
        if c == '-' {
            return Err(CompileError::at_index(CompileErrorKind::DanglingDash, at));
        }
        let ahead = at.peek();
        if let Some('-') = ahead {
            // Handle "a-z" case (using a dash to indicate a range of values)
            let ghost next = at@;
            let _ = at.next();
            let ghost dash = at@;
            proof {
                lemma_is_after_trans(index@, next, dash);
            }
            match match_class_range(c, at, &mut found) {
                Err(e) => {
                    return Err(e);
                },
                Ok((closed, end)) => {
                    proof {
                        lemma_is_after_trans(index@, dash, end@);
                    }
                    at = end;
                    if closed {
                        return Ok((found, at));
                    }
                },
            }
        } else if c == '[' && ahead == Some(':') {
            match match_posix_class(at) {
                Err(e) => {
                    return Err(e);
                },
                Ok((class, end)) => {
                    proof {
                        lemma_is_after_trans(index@, at@, end@);
                        lemma_posix_class(at@);
                    }
                    at = end;
                    found.push(ClassItem::Posix(class));
                },
            }
        } else {
            found.push(ClassItem::Char(c));
        }
    }
}

/// Reads the members of a character class from behind its `[` and `^`.
fn match_class_items<'a>(index: Index<'a>) -> (r: Result<
    (Vec<ClassItem>, Index<'a>),
    CompileError,
>)
    requires
        index@.wf(),
    ensures
        match class_items(index@) {
            Ok((found, end)) => r matches Ok((x, i)) && x@ == found && i@ == end,
            Err(e) => r matches Err(x) && x@ == e,
        },
        r matches Ok((_, i)) ==> i@.wf() && i@.is_after(index@),
{
    let mut at = index;
    let mut items: Vec<ClassItem> = Vec::new();
    let first = at.peek();
    if first == Some(']') || first == Some('-') {
        let lit = if first == Some(']') {
            ']'
        } else {
            '-'
        };
        let _ = at.next();
        let ghost next = at@;
        if let Some('-') = at.peek() {
            let _ = at.next();
            let ghost dash = at@;
            proof {
                lemma_is_after_trans(index@, next, dash);
            }
            match match_class_range(lit, at, &mut items) {
                Err(e) => Err(e),
                Ok((closed, end)) => {
                    proof {
                        lemma_is_after_trans(index@, dash, end@);
                        assert(items@ =~= class_range(lit, dash)->Ok_0.0);
                    }
                    if closed {
                        Ok((items, end))
                    } else {
                        match match_class_rest(end, items) {
                            Err(e) => Err(e),
                            Ok((found, last)) => {
                                proof {
                                    lemma_is_after_trans(index@, end@, last@);
                                }
                                Ok((found, last))
                            },
                        }
                    }
                },
            }
        } else {
            items.push(ClassItem::Char(lit));
            assert(items@ =~= seq![ClassItem::Char(lit)]);
            match match_class_rest(at, items) {
                Err(e) => Err(e),
                Ok((found, last)) => {
                    proof {
                        lemma_is_after_trans(index@, next, last@);
                    }
                    Ok((found, last))
                },
            }
        }
    } else {
        assert(items@ =~= Seq::<ClassItem>::empty());
        match_class_rest(at, items)
    }
}

/// Reads a character class whose `[` has been read, and the repetition
/// that follows it.
pub fn match_one_of<'a>(index: Index<'a>) -> (r: Result<(Atom, Index<'a>), CompileError>)
    requires
        index@.wf(),
    ensures
        match one_of_atom(index@) {
            Ok((atom, end)) => r matches Ok((a, i)) && a@ == atom && i@ == end,
            Err(e) => r matches Err(x) && x@ == e,
        },
        r matches Ok((_, i)) ==> i@.wf() && i@.is_after(index@),
{
    let mut at = index;
    proof {
        assert(index@.remaining =~= index@.remaining.skip(0));
    }
    let inverted = Some('^') == at.peek();
    if inverted {
        let _ = at.next();
    }
    let (items, behind) = match match_class_items(at) {
        Ok(found) => found,
        Err(e) => {
            return Err(e);
        },
    };
    proof {
        lemma_is_after_trans(index@, at@, behind@);
    }
    // Handle any possible repetition/variable number suffixes
    match get_repetition_bounds(behind) {
        Err(e) => Err(e),
        Ok((min, max, end)) => {
            proof {
                lemma_is_after_trans(index@, behind@, end@);
            }
            Ok((Atom { kind: AtomKind::CharClass { items, negated: inverted }, min, max }, end))
        },
    }
}

/// The number of characters from position `from` up to the first `>`.
pub open spec fn name_end(text: Seq<char>, from: int) -> Option<int>
    decreases text.len() - from,
{
    if from < 0 || from >= text.len() {
        None
    } else if text[from] == '>' {
        Some(from)
    } else {
        name_end(text, from + 1)
    }
}

/// The name of a field whose `<` has been read: the text up to the next
/// `>`, and the cursor behind that.
pub open spec fn field_name(cur: Cursor) -> Result<(Seq<char>, Cursor), CompileFailure> {
    match name_end(cur.remaining, 0) {
        None => Err(failure(CompileErrorKind::UnterminatedField, cur.advance_to_end())),
        Some(n) => Ok((cur.remaining.take(n), cur.advance_by((n + 1) as nat))),
    }
}

/// The atom for a field whose `<` has been read, with the repetition
/// that follows it, and the requirements once the field is counted.
pub open spec fn field_atom(cur: Cursor, reqs: Requirements) -> Result<
    (AtomSpec, Cursor, Requirements),
    CompileFailure,
> {
    match field_name(cur) {
        Err(e) => Err(e),
        Ok((name, behind)) => match repetition_bounds(behind) {
            Err(e) => Err(e),
            Ok((min, max, end)) => match reqs.add_field(name, min, max).1 {
                Err(e) => Err(failure(CompileErrorKind::Field(e), end)),
                Ok(()) => Ok(
                    (
                        AtomSpec {
                            kind: AtomKindSpec::FieldCapture(reqs.field_index(name)->0 as usize),
                            min,
                            max,
                        },
                        end,
                        reqs.add_field(name, min, max).0,
                    ),
                ),
            },
        },
    }
}

/// The requirements once a field whose `<` has been read is counted,
/// whether it is then accepted or refused. A field whose name or
/// repetition cannot be read is not counted.
pub open spec fn field_counted(cur: Cursor, reqs: Requirements) -> Requirements {
    match field_name(cur) {
        Err(_) => reqs,
        Ok((name, behind)) => match repetition_bounds(behind) {
            Err(_) => reqs,
            Ok((min, max, _)) => reqs.add_field(name, min, max).0,
        },
    }
}

/// A field is read forwards, and leaves the record's fields and the
/// number of open scopes as they are.
pub proof fn lemma_field_atom(cur: Cursor, reqs: Requirements)
    ensures
        field_atom(cur, reqs) matches Ok((_, end, next)) ==> end.remaining.len()
            <= cur.remaining.len() && next.fields == reqs.fields && (reqs.stack.len() > 0
            ==> next.stack.len() == reqs.stack.len()),
{
    match field_name(cur) {
        Err(e) => {},
        Ok((name, behind)) => {
            lemma_advance_by_is_after(cur, (name_end(cur.remaining, 0)->0 + 1) as nat);
            lemma_repetition_bounds(behind);
        },
    }
}

/// Reads the name of a field whose `<` has been read, up to its `>`.
fn match_field_name<'a>(index: Index<'a>) -> (r: Result<(&'a str, Index<'a>), CompileError>)
    requires
        index@.wf(),
    ensures
        match field_name(index@) {
            Ok((name, end)) => r matches Ok((x, i)) && x@ == name && i@ == end,
            Err(e) => r matches Err(x) && x@ == e,
        },
        r matches Ok((_, i)) ==> i@.wf() && i@.is_after(index@),
{
    let mut at = index;
    let ghost mut n: nat = 0;
    proof {
        lemma_advance_by_is_after(index@, 0);
    }
    loop
        invariant
            index@.wf(),
            n <= index@.remaining.len(),
            at@ == index@.advance_by(n),
            at@.wf(),
            at@.is_after(index@),
            at@.remaining.len() == index@.remaining.len() - n,
            name_end(index@.remaining, n as int) == name_end(index@.remaining, 0),
        decreases index@.remaining.len() - n,
    {
        let before = at;
        proof {
            lemma_advance_by_step(index@, n);
            lemma_advance_by_is_after(index@, n + 1);
            assert(before@.remaining =~= index@.remaining.skip(n as int));
        }
        match at.next() {
            Some('>') => {
                let name = index.consumed(&before);
                return Ok((name, at));
            },
            Some(_) => {
                proof {
                    n = n + 1;
                }
            },
            None => {
                return Err(CompileError::at_index(CompileErrorKind::UnterminatedField, at));
            },
        }
    }
}

/// Reads a field whose `<` has been read and the repetition that
/// follows it, and counts the field in `requirements`.
pub fn match_field<'a>(index: Index<'a>, requirements: &mut FieldRequirements) -> (r: Result<
    (Atom, Index<'a>),
    CompileError,
>)
    requires
        index@.wf(),
        old(requirements)@.stack.len() > 0,
    ensures
        match field_atom(index@, old(requirements)@) {
            Ok((atom, end, next)) => r matches Ok((a, i)) && a@ == atom && i@ == end
                && final(requirements)@ == next,
            Err(e) => r matches Err(x) && x@ == e,
        },
        r matches Ok((_, i)) ==> i@.wf() && i@.is_after(index@),
        final(requirements)@ == field_counted(index@, old(requirements)@),
        final(requirements)@.fields == old(requirements)@.fields,
        final(requirements)@.stack.len() == old(requirements)@.stack.len(),
{
    let (field_name, behind) = match match_field_name(index) {
        Ok(found) => found,
        Err(e) => {
            return Err(e);
        },
    };
    // Handle any possible repetition/variable number suffixes
    let (min, max, end) = match get_repetition_bounds(behind) {
        Ok(bounds) => bounds,
        Err(e) => {
            return Err(e);
        },
    };
    proof {
        lemma_is_after_trans(index@, behind@, end@);
    }
    let field = match requirements.field_index(field_name) {
        Some(field) => field,
        None => {
            return Err(
                CompileError::at_index(CompileErrorKind::Field(FieldError::NotFound), end),
            );
        },
    };
    match requirements.add_field_at(field, min, max) {
        Ok(()) => Ok((Atom { kind: AtomKind::FieldCapture(field), min, max }, end)),
        Err(e) => Err(CompileError::at_index(CompileErrorKind::Field(e), end)),
    }
}

/// An expression that is being read: the alternatives that are
/// complete, and the atoms of the one that is not.
#[derive(Debug)]
pub struct OpenExpression {
    pub done: Vec<Sequence>,
    pub current: Vec<Atom>,
}

/// The model of an [`OpenExpression`].
pub struct OpenSpec {
    pub done: Seq<Seq<AtomSpec>>,
    pub current: Seq<AtomSpec>,
}

impl View for OpenExpression {
    type V = OpenSpec;

    open spec fn view(&self) -> OpenSpec {
        OpenSpec { done: sequences_view(self.done), current: atoms_view(self.current) }
    }
}

/// The models of the expressions that are being read, the innermost last.
pub open spec fn open_view(stack: Seq<OpenExpression>) -> Seq<OpenSpec> {
    Seq::new(stack.len(), |i: int| stack[i]@)
}

impl OpenSpec {
    /// An expression of which nothing has been read.
    pub open spec fn empty() -> OpenSpec {
        OpenSpec { done: Seq::empty(), current: Seq::empty() }
    }

    /// The expression once it ends: its alternatives, the current one last.
    pub open spec fn closed(self) -> ExpressionSpec {
        ExpressionSpec { alternatives: self.done.push(self.current) }
    }
}

/// The expressions that are being read, with `atom` added to the innermost.
pub open spec fn with_atom(stack: Seq<OpenSpec>, atom: AtomSpec) -> Seq<OpenSpec> {
    stack.drop_last().push(
        OpenSpec { done: stack.last().done, current: stack.last().current.push(atom) },
    )
}

/// The expressions that are being read, with a new alternative begun in
/// the innermost.
pub open spec fn with_split(stack: Seq<OpenSpec>) -> Seq<OpenSpec> {
    stack.drop_last().push(
        OpenSpec {
            done: stack.last().done.push(stack.last().current),
            current: Seq::empty(),
        },
    )
}

/// Begins an expression inside the innermost one.
fn open_expression(stack: &mut Vec<OpenExpression>)
    ensures
        open_view(final(stack)@) == open_view(old(stack)@).push(OpenSpec::empty()),
        final(stack)@.len() == old(stack)@.len() + 1,
{
    let fresh = OpenExpression { done: Vec::new(), current: Vec::new() };
    assert(fresh@.done =~= Seq::<Seq<AtomSpec>>::empty());
    assert(fresh@.current =~= Seq::<AtomSpec>::empty());
    stack.push(fresh);
    assert(open_view(stack@) =~= open_view(old(stack)@).push(OpenSpec::empty()));
}

/// Adds an atom to the innermost expression.
fn push_atom(stack: &mut Vec<OpenExpression>, atom: Atom)
    requires
        old(stack)@.len() > 0,
    ensures
        open_view(final(stack)@) == with_atom(open_view(old(stack)@), atom@),
        final(stack)@.len() == old(stack)@.len(),
{
    let mut top = stack.pop().unwrap();
    let ghost before = top@;
    let ghost model = atom@;
    top.current.push(atom);
    assert(top@.current =~= before.current.push(model));
    stack.push(top);
    assert(open_view(stack@) =~= with_atom(open_view(old(stack)@), model));
}

/// Begins a new alternative in the innermost expression.
fn split_expression(stack: &mut Vec<OpenExpression>)
    requires
        old(stack)@.len() > 0,
    ensures
        open_view(final(stack)@) == with_split(open_view(old(stack)@)),
        final(stack)@.len() == old(stack)@.len(),
{
    let top = stack.pop().unwrap();
    let ghost before = top@;
    let mut done = top.done;
    done.push(Sequence { atoms: top.current });
    let next = OpenExpression { done, current: Vec::new() };
    assert(next@.done =~= before.done.push(before.current));
    assert(next@.current =~= Seq::<AtomSpec>::empty());
    stack.push(next);
    assert(open_view(stack@) =~= with_split(open_view(old(stack)@)));
}

/// Ends the innermost expression and hands it out.
fn close_expression(stack: &mut Vec<OpenExpression>) -> (r: Expression)
    requires
        old(stack)@.len() > 0,
    ensures
        r@ == open_view(old(stack)@).last().closed(),
        open_view(final(stack)@) == open_view(old(stack)@).drop_last(),
        final(stack)@.len() == old(stack)@.len() - 1,
{
    let top = stack.pop().unwrap();
    let ghost before = top@;
    let mut alternatives = top.done;
    alternatives.push(Sequence { atoms: top.current });
    let r = Expression { alternatives };
    assert(r@.alternatives =~= before.done.push(before.current));
    assert(open_view(stack@) =~= open_view(old(stack)@).drop_last());
    r
}

/// The end of a group whose `)` has been read: the repetition that
/// follows, the group's fields counted in the scope around it, and the
/// group added as an atom to the expression around it.
pub open spec fn coalesced(cur: Cursor, open: Seq<OpenSpec>, reqs: Requirements) -> Result<
    (Cursor, Seq<OpenSpec>, Requirements),
    CompileFailure,
> {
    if open.len() <= 1 {
        Err(failure(CompileErrorKind::ExtraCloseParen, cur))
    } else {
        match repetition_bounds(cur) {
            Err(e) => Err(e),
            Ok((min, max, end)) => match reqs.pop_nested_expr(min, max).1 {
                Err(e) => Err(failure(CompileErrorKind::Field(e), end)),
                Ok(()) => Ok(
                    (
                        end,
                        with_atom(
                            open.drop_last(),
                            AtomSpec {
                                kind: AtomKindSpec::Group(open.last().closed()),
                                min,
                                max,
                            },
                        ),
                        reqs.pop_nested_expr(min, max).0,
                    ),
                ),
            },
        }
    }
}

/// The requirements once a group whose `)` has been read is closed,
/// whether its fields are then accepted or refused. A `)` without a
/// `(`, or with a repetition that cannot be read, closes nothing.
pub open spec fn coalesce_counted(
    cur: Cursor,
    open: Seq<OpenSpec>,
    reqs: Requirements,
) -> Requirements {
    if open.len() <= 1 {
        reqs
    } else {
        match repetition_bounds(cur) {
            Err(_) => reqs,
            Ok((min, max, _)) => reqs.pop_nested_expr(min, max).0,
        }
    }
}

/// The atom that begins with the character `c`, which has been read and
/// is none of `(`, `)`, `|`, `<` and `>`.
pub open spec fn plain_atom(c: char, next: Cursor) -> Result<(AtomSpec, Cursor), CompileFailure> {
    if c == '[' {
        one_of_atom(next)
    } else if c == ']' || c == '*' || c == '+' || c == '?' || c == '{' || c == '}' {
        Err(failure(CompileErrorKind::UnexpectedToken, next))
    } else if c == '^' || c == '$' {
        Err(failure(CompileErrorKind::NotImplemented, next))
    } else if c == '.' {
        any_character_atom(next)
    } else if c == '\\' {
        backslash_atom(next)
    } else {
        character_atom(c, next)
    }
}

/// An atom is read forwards.
pub proof fn lemma_plain_atom(c: char, next: Cursor)
    ensures
        plain_atom(c, next) matches Ok((_, end)) ==> end.remaining.len() <= next.remaining.len(),
{
    lemma_one_of_atom(next);
    lemma_repetition_bounds(next);
    lemma_repetition_bounds(next.advance());
}

/// What reading on from the character `c` does to the expressions that
/// are open and to the requirements, with `next` the cursor behind `c`:
/// `(` opens a group, `)` closes one, `|` begins an alternative, `<`
/// begins a field where `with_fields`, and anything else is an atom of
/// its own. The cursor that is handed back lies behind what was read.
pub open spec fn step_behind(
    c: char,
    next: Cursor,
    open: Seq<OpenSpec>,
    reqs: Requirements,
    with_fields: bool,
) -> Result<(Cursor, Seq<OpenSpec>, Requirements), CompileFailure> {
    if c == '(' {
        Ok((next, open.push(OpenSpec::empty()), reqs.push_nested_expr()))
    } else if c == ')' {
        coalesced(next, open, reqs)
    } else if c == '|' {
        match reqs.add_choice_split().1 {
            Err(e) => Err(failure(CompileErrorKind::Field(e), next)),
            Ok(()) => Ok((next, with_split(open), reqs.add_choice_split().0)),
        }
    } else if c == '<' && with_fields {
        match field_atom(next, reqs) {
            Err(e) => Err(e),
            Ok((atom, end, reqs_behind)) => Ok((end, with_atom(open, atom), reqs_behind)),
        }
    } else if c == '<' || c == '>' {
        if with_fields {
            Err(failure(CompileErrorKind::UnexpectedToken, next))
        } else {
            Err(failure(CompileErrorKind::ReservedBracket, next))
        }
    } else {
        match plain_atom(c, next) {
            Err(e) => Err(e),
            Ok((atom, end)) => Ok((end, with_atom(open, atom), reqs)),
        }
    }
}

/// A step is read forwards.
pub proof fn lemma_step_behind(
    c: char,
    next: Cursor,
    open: Seq<OpenSpec>,
    reqs: Requirements,
    with_fields: bool,
)
    ensures
        step_behind(c, next, open, reqs, with_fields) matches Ok((end, _, _))
            ==> end.remaining.len() <= next.remaining.len(),
{
    lemma_repetition_bounds(next);
    lemma_field_atom(next, reqs);
    lemma_plain_atom(c, next);
}

/// What the end of the pattern makes of the expressions that are open:
/// the one expression that is left, if it is the only one and every
/// required field is captured.
pub open spec fn finished(cur: Cursor, open: Seq<OpenSpec>, reqs: Requirements) -> Result<
    ExpressionSpec,
    CompileFailure,
> {
    if open.len() != 1 {
        Err(failure(CompileErrorKind::MissingCloseParen, cur))
    } else {
        match reqs.check_final_fields() {
            Err(e) => Err(failure(CompileErrorKind::Field(e), cur)),
            Ok(()) => Ok(open[0].closed()),
        }
    }
}

/// The expression that the rest of a pattern makes, given the
/// expressions that are open at `cur` and the requirements so far.
/// Fields can be captured only where `with_fields`.
pub open spec fn compile_from(
    cur: Cursor,
    open: Seq<OpenSpec>,
    reqs: Requirements,
    with_fields: bool,
) -> Result<ExpressionSpec, CompileFailure>
    decreases cur.remaining.len(),
{
    if cur.at_end() {
        finished(cur, open, reqs)
    } else {
        match step_behind(cur.head(), cur.advance(), open, reqs, with_fields) {
            Err(e) => Err(e),
            Ok((end, open_behind, reqs_behind)) => {
                proof {
                    lemma_step_behind(cur.head(), cur.advance(), open, reqs, with_fields);
                }
                compile_from(end, open_behind, reqs_behind, with_fields)
            },
        }
    }
}

/// The expression that a pattern makes for a record with the given
/// fields, or what is wrong with it.
pub open spec fn compiled(pattern: Seq<char>, fields: Seq<FieldSpec>, with_fields: bool) -> Result<
    ExpressionSpec,
    CompileFailure,
> {
    compile_from(
        Cursor::start(pattern),
        seq![OpenSpec::empty()],
        Requirements::initial(fields),
        with_fields,
    )
}

/// Ends the innermost group, whose `)` has been read: reads the
/// repetition that follows, counts the group's fields in the scope
/// around it, and adds the group to the expression around it.
pub fn coalesce_topmost_expression<'a>(
    index: Index<'a>,
    nested_expressions: &mut Vec<OpenExpression>,
    requirements: &mut FieldRequirements,
) -> (r: Result<Index<'a>, CompileError>)
    requires
        index@.wf(),
        old(nested_expressions)@.len() >= 1,
        old(requirements)@.stack.len() == old(nested_expressions)@.len(),
    ensures
        match coalesced(index@, open_view(old(nested_expressions)@), old(requirements)@) {
            Ok((end, open, reqs)) => r matches Ok(i) && i@ == end && open_view(
                final(nested_expressions)@,
            ) == open && final(requirements)@ == reqs,
            Err(e) => r matches Err(x) && x@ == e,
        },
        r matches Ok(i) ==> i@.wf() && i@.is_after(index@) && final(nested_expressions)@.len()
            >= 1 && final(requirements)@.stack.len() == final(nested_expressions)@.len(),
        r is Err ==> final(nested_expressions)@ == old(nested_expressions)@,
        final(requirements)@ == coalesce_counted(
            index@,
            open_view(old(nested_expressions)@),
            old(requirements)@,
        ),
{
    if nested_expressions.len() <= 1 {
        return Err(CompileError::at_index(CompileErrorKind::ExtraCloseParen, index));
    }
    let (min, max, end) = match get_repetition_bounds(index) {
        Ok(bounds) => bounds,
        Err(e) => {
            return Err(e);
        },
    };
    if let Err(e) = requirements.pop_nested_expr(min, max) {
        return Err(CompileError::at_index(CompileErrorKind::Field(e), end));
    }
    let expression = close_expression(nested_expressions);
    push_atom(nested_expressions, Atom { kind: AtomKind::Group(expression), min, max });
    Ok(end)
}

/// Reads the atom that begins with the character `c`, which has been
/// read and is none of `(`, `)`, `|`, `<` and `>`.
fn match_plain<'a>(c: char, index: Index<'a>) -> (r: Result<(Atom, Index<'a>), CompileError>)
    requires
        index@.wf(),
    ensures
        match plain_atom(c, index@) {
            Ok((atom, end)) => r matches Ok((a, i)) && a@ == atom && i@ == end,
            Err(e) => r matches Err(x) && x@ == e,
        },
        r matches Ok((_, i)) ==> i@.wf() && i@.is_after(index@),
{
    match c {
        '[' => match_one_of(index),
        ']' | '*' | '+' | '?' | '{' | '}' => Err(
            CompileError::at_index(CompileErrorKind::UnexpectedToken, index),
        ),
        '^' | '$' => Err(CompileError::at_index(CompileErrorKind::NotImplemented, index)),
        '.' => match_any_character(index),
        '\\' => match_backslash_class(index),
        _ => match_character(c, index),
    }
}

/// Reads on from the character `c`, which has been read.
fn compile_step<'a>(
    c: char,
    index: Index<'a>,
    nested_expressions: &mut Vec<OpenExpression>,
    requirements: &mut FieldRequirements,
    with_fields: bool,
) -> (r: Result<Index<'a>, CompileError>)
    requires
        index@.wf(),
        old(nested_expressions)@.len() >= 1,
        old(requirements)@.stack.len() == old(nested_expressions)@.len(),
    ensures
        match step_behind(
            c,
            index@,
            open_view(old(nested_expressions)@),
            old(requirements)@,
            with_fields,
        ) {
            Ok((end, open, reqs)) => r matches Ok(i) && i@ == end && open_view(
                final(nested_expressions)@,
            ) == open && final(requirements)@ == reqs,
            Err(e) => r matches Err(x) && x@ == e,
        },
        r matches Ok(i) ==> i@.wf() && i@.is_after(index@) && final(nested_expressions)@.len()
            >= 1 && final(requirements)@.stack.len() == final(nested_expressions)@.len(),
{
    proof {
        assert(index@.remaining =~= index@.remaining.skip(0));
    }
    match c {
        '(' => {
            // Add another nested expression on the stack
            open_expression(nested_expressions);
            requirements.push_nested_expr();
            Ok(index)
        },
        ')' => coalesce_topmost_expression(index, nested_expressions, requirements),
        '|' => {
            // Add another option to the current expression
            if let Err(e) = requirements.add_choice_split() {
                return Err(CompileError::at_index(CompileErrorKind::Field(e), index));
            }
            split_expression(nested_expressions);
            Ok(index)
        },
        '<' | '>' => {
            if c == '<' && with_fields {
                match match_field(index, requirements) {
                    Ok((atom, end)) => {
                        push_atom(nested_expressions, atom);
                        Ok(end)
                    },
                    Err(e) => Err(e),
                }
            } else if with_fields {
                Err(CompileError::at_index(CompileErrorKind::UnexpectedToken, index))
            } else {
                Err(CompileError::at_index(CompileErrorKind::ReservedBracket, index))
            }
        },
        _ => match match_plain(c, index) {
            Ok((atom, end)) => {
                push_atom(nested_expressions, atom);
                Ok(end)
            },
            Err(e) => Err(e),
        },
    }
}

/// Ends the pattern.
fn compile_finish(
    index: Index<'_>,
    nested_expressions: Vec<OpenExpression>,
    requirements: &FieldRequirements,
) -> (r: Result<Expression, CompileError>)
    requires
        nested_expressions@.len() >= 1,
        requirements@.stack.len() == nested_expressions@.len(),
    ensures
        match finished(index@, open_view(nested_expressions@), requirements@) {
            Ok(e) => r matches Ok(x) && x@ == e,
            Err(e) => r matches Err(x) && x@ == e,
        },
{
    let mut nested_expressions = nested_expressions;
    if nested_expressions.len() > 1 {
        return Err(CompileError::at_index(CompileErrorKind::MissingCloseParen, index));
    }
    if let Err(e) = requirements.check_final_fields() {
        return Err(CompileError::at_index(CompileErrorKind::Field(e), index));
    }
    Ok(close_expression(&mut nested_expressions))
}

/// Reads a whole pattern against the given requirements.
pub fn compile_expression(pegex: &str, requirements: FieldRequirements, with_fields: bool) -> (r:
    Result<Expression, CompileError>)
    requires
        requirements@.stack.len() == 1,
    ensures
        match compile_from(
            Cursor::start(pegex@),
            seq![OpenSpec::empty()],
            requirements@,
            with_fields,
        ) {
            Ok(e) => r matches Ok(x) && x@ == e,
            Err(e) => r matches Err(x) && x@ == e,
        },
        r matches Ok(x) ==> x@.is_well_formed(),
{
    proof {
        lemma_compile_from_shape(
            Cursor::start(pegex@),
            seq![OpenSpec::empty()],
            requirements@,
            with_fields,
        );
    }
    let mut counted = requirements;
    let mut index = Index::new(pegex);
    let mut nested_expressions: Vec<OpenExpression> = Vec::new();
    open_expression(&mut nested_expressions);
    assert(open_view(nested_expressions@) =~= seq![OpenSpec::empty()]);
    loop
        invariant
            index@.wf(),
            nested_expressions@.len() >= 1,
            counted@.stack.len() == nested_expressions@.len(),
            compile_from(
                Cursor::start(pegex@),
                seq![OpenSpec::empty()],
                requirements@,
                with_fields,
            ) matches Ok(e) ==> e.is_well_formed(),
            compile_from(index@, open_view(nested_expressions@), counted@, with_fields)
                == compile_from(
                Cursor::start(pegex@),
                seq![OpenSpec::empty()],
                requirements@,
                with_fields,
            ),
        decreases index@.remaining.len(),
    {
        let ghost before = index@;
        let c = match index.next() {
            Some(c) => c,
            None => {
                return compile_finish(index, nested_expressions, &counted);
            },
        };
        proof {
            lemma_step_behind(
                c,
                index@,
                open_view(nested_expressions@),
                counted@,
                with_fields,
            );
        }
        match compile_step(c, index, &mut nested_expressions, &mut counted, with_fields) {
            Ok(end) => {
                index = end;
            },
            Err(e) => {
                return Err(e);
            },
        }
    }
}

/// A pattern cannot give a field that is required exactly once a
/// repetition: wherever the pattern reaches a `<`, the name of such a
/// field and a repetition other than exactly once, it is refused behind
/// the repetition, whatever stands before and after.
pub proof fn law_single_field_without_repetition(
    cur: Cursor,
    open: Seq<OpenSpec>,
    reqs: Requirements,
)
    requires
        cur.peek() == Some('<'),
        field_name(cur.advance()) is Ok,
        repetition_bounds(field_name(cur.advance())->Ok_0.1) matches Ok((min, max, _)) && (min
            != 1 || max != 1),
        reqs.field_index(field_name(cur.advance())->Ok_0.0) matches Some(i)
            && reqs.fields[i].cardinality == FieldCardinality::Single,
    ensures
        compile_from(cur, open, reqs, true) == Err::<ExpressionSpec, CompileFailure>(
            failure(
                CompileErrorKind::Field(FieldError::SingleNotOnce),
                repetition_bounds(field_name(cur.advance())->Ok_0.1)->Ok_0.2,
            ),
        ),
{
    let name = field_name(cur.advance())->Ok_0.0;
    let behind = field_name(cur.advance())->Ok_0.1;
    let bounds = repetition_bounds(behind)->Ok_0;
    lemma_repetition_bounds(behind);
    law_single_field_is_captured_once(reqs, name, bounds.0, bounds.1);
    assert(cur.head() == '<');
}

/// A pattern cannot have a choice that captures other required fields
/// than the first choice of its scope: wherever the pattern reaches the
/// `|` behind such a choice, it is refused there, and where it reaches
/// its own end behind such a choice, it is refused at the end.
pub proof fn law_unequal_choices(
    cur: Cursor,
    open: Seq<OpenSpec>,
    reqs: Requirements,
    with_fields: bool,
    field: int,
)
    requires
        0 <= field < reqs.fields.len(),
        reqs.fields[field].cardinality == FieldCardinality::Single,
        reqs.top().baseline matches Some(first) && first.contains_key(field)
            != reqs.top().current.contains_key(field),
        cur.peek() == Some('|') || (cur.at_end() && open.len() == 1),
    ensures
        compile_from(cur, open, reqs, with_fields) == Err::<ExpressionSpec, CompileFailure>(
            failure(
                CompileErrorKind::Field(FieldError::ChoiceMismatch),
                if cur.at_end() {
                    cur
                } else {
                    cur.advance()
                },
            ),
        ),
{
    law_choices_capture_the_same_required_fields(reqs, field, 0, 0);
    if !cur.at_end() {
        assert(cur.head() == '|');
    }
}

/// A pattern cannot close a group whose last choice captures other
/// required fields than its first: wherever the pattern reaches the `)`
/// behind such a choice, and a repetition can be read behind the `)`, it
/// is refused behind the repetition.
pub proof fn law_unequal_choices_in_group(
    cur: Cursor,
    open: Seq<OpenSpec>,
    reqs: Requirements,
    with_fields: bool,
    field: int,
)
    requires
        0 <= field < reqs.fields.len(),
        reqs.fields[field].cardinality == FieldCardinality::Single,
        reqs.top().baseline matches Some(first) && first.contains_key(field)
            != reqs.top().current.contains_key(field),
        cur.peek() == Some(')'),
        open.len() > 1,
        repetition_bounds(cur.advance()) is Ok,
    ensures
        compile_from(cur, open, reqs, with_fields) == Err::<ExpressionSpec, CompileFailure>(
            failure(
                CompileErrorKind::Field(FieldError::ChoiceMismatch),
                repetition_bounds(cur.advance())->Ok_0.2,
            ),
        ),
{
    let bounds = repetition_bounds(cur.advance())->Ok_0;
    law_choices_capture_the_same_required_fields(reqs, field, bounds.0, bounds.1);
    assert(cur.head() == ')');
}

/// The name of a field ends at the first `>` behind it.
pub proof fn lemma_name_end(name: Seq<char>, rest: Seq<char>, from: int)
    requires
        0 <= from <= name.len(),
        forall|i: int| 0 <= i < name.len() ==> name[i] != '>',
    ensures
        name_end(name + seq!['>'] + rest, from) == Some(name.len() as int),
    decreases name.len() - from,
{
    let text = name + seq!['>'] + rest;
    if from < name.len() {
        assert(text[from] == name[from]);
        lemma_name_end(name, rest, from + 1);
    } else {
        assert(text[from] == '>');
    }
}

/// Reading on leaves the text behind what was read.
pub proof fn lemma_advance_by_remaining(cur: Cursor, n: nat)
    requires
        n <= cur.remaining.len(),
    ensures
        cur.advance_by(n).remaining == cur.remaining.skip(n as int),
{
    lemma_advance_by_is_after(cur, n);
}

/// A pattern that begins with a field that is required exactly once and
/// a `*` behind it is refused, whatever follows.
pub proof fn law_starred_single_field_is_refused(
    fields: Seq<FieldSpec>,
    name: Seq<char>,
    rest: Seq<char>,
)
    requires
        forall|i: int| 0 <= i < name.len() ==> name[i] != '>',
        Requirements::initial(fields).field_index(name) matches Some(i) && fields[i].cardinality
            == FieldCardinality::Single,
    ensures
        compiled(seq!['<'] + name + seq!['>', '*'] + rest, fields, true) matches Err(e) && e.kind
            == CompileErrorKind::Field(FieldError::SingleNotOnce),
{
    let pattern = seq!['<'] + name + seq!['>', '*'] + rest;
    let cur = Cursor::start(pattern);
    let inner = cur.advance();
    let tail = seq!['*'] + rest;
    assert(pattern[0] == '<');
    assert(inner.remaining =~= name + seq!['>'] + tail);
    lemma_name_end(name, tail, 0);
    assert(inner.remaining.take(name.len() as int) =~= name);
    lemma_advance_by_remaining(inner, (name.len() + 1) as nat);
    let behind = inner.advance_by((name.len() + 1) as nat);
    assert(behind.remaining =~= tail);
    assert(behind.remaining[0] == '*');
    assert(repetition_bounds(behind) == Ok::<(usize, usize, Cursor), CompileFailure>(
        (0, usize::MAX, behind.advance()),
    ));
    law_single_field_without_repetition(
        cur,
        seq![OpenSpec::empty()],
        Requirements::initial(fields),
    );
}

} // verus!








