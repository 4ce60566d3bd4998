//! The tree that a pattern compiles to, and which characters its
//! character classes hold.

use vstd::prelude::*;

verus! {

/// A named class of ASCII characters, written `[:name:]` inside brackets.
#[derive(Copy, Clone, PartialEq, Eq, Debug, Structural)]
pub enum PosixClass {
    Upper,
    Lower,
    Alpha,
    Digit,
    Xdigit,
    Alnum,
    Punct,
    Blank,
    Space,
    Cntrl,
    Graph,
    Print,
}

/// One member of a bracketed character class.
#[derive(Copy, Clone, PartialEq, Eq, Debug, Structural)]
pub enum ClassItem {
    /// A single character.
    Char(char),
    /// All characters from the first to the second, both included.
    Range(char, char),
    Posix(PosixClass),
}

/// A class of characters written with a backslash and a letter.
#[derive(Copy, Clone, PartialEq, Eq, Debug, Structural)]
pub enum EscapeClass {
    /// `\w`: ASCII letters and the underscore.
    Word,
    /// `\W`: everything but `\w`.
    NonWord,
    /// `\d`: ASCII digits.
    Digit,
    /// `\D`: everything but `\d`.
    NonDigit,
    /// `\s`: space, tab, line feed, carriage return, vertical tab, form feed.
    Space,
    /// `\S`: everything but `\s`.
    NonSpace,
}

pub open spec fn is_upper(c: char) -> bool {
    'A' <= c && c <= 'Z'
}

pub open spec fn is_lower(c: char) -> bool {
    'a' <= c && c <= 'z'
}

pub open spec fn is_decimal(c: char) -> bool {
    '0' <= c && c <= '9'
}

pub open spec fn is_blank(c: char) -> bool {
    c == ' ' || c == '\t'
}

pub open spec fn is_space(c: char) -> bool {
    c == ' ' || c == '\t' || c == '\n' || c == '\r' || c == '\x0b' || c == '\x0c'
}

/// Which characters a named class holds.
pub open spec fn posix_contains(class: PosixClass, c: char) -> bool {
    match class {
        PosixClass::Upper => is_upper(c),
        PosixClass::Lower => is_lower(c),
        PosixClass::Alpha => is_upper(c) || is_lower(c),
        PosixClass::Digit => is_decimal(c),
        PosixClass::Xdigit => is_decimal(c) || ('A' <= c && c <= 'F') || ('a' <= c && c <= 'f'),
        PosixClass::Alnum => is_upper(c) || is_lower(c) || is_decimal(c),
        PosixClass::Punct => ('!' <= c && c <= '/') || (':' <= c && c <= '@') || ('[' <= c && c
            <= '`') || ('{' <= c && c <= '~'),
        PosixClass::Blank => is_blank(c),
        PosixClass::Space => is_space(c),
        PosixClass::Cntrl => c <= '\x1f' || c == '\x7f',
        PosixClass::Graph => '!' <= c && c <= '~',
        PosixClass::Print => ' ' <= c && c <= '~',
    }
}

/// Which characters a member of a bracketed class stands for.
pub open spec fn item_contains(item: ClassItem, c: char) -> bool {
    match item {
        ClassItem::Char(x) => c == x,
        ClassItem::Range(lo, hi) => lo <= c && c <= hi,
        ClassItem::Posix(class) => posix_contains(class, c),
    }
}

/// Whether one of the members holds the character.
pub open spec fn items_contain(items: Seq<ClassItem>, c: char) -> bool {
    exists|i: int| 0 <= i < items.len() && item_contains(#[trigger] items[i], c)
}

/// Which characters a backslash class holds.
pub open spec fn escape_contains(class: EscapeClass, c: char) -> bool {
    match class {
        EscapeClass::Word => is_upper(c) || is_lower(c) || c == '_',
        EscapeClass::NonWord => !(is_upper(c) || is_lower(c) || c == '_'),
        EscapeClass::Digit => is_decimal(c),
        EscapeClass::NonDigit => !is_decimal(c),
        EscapeClass::Space => is_space(c),
        EscapeClass::NonSpace => !is_space(c),
    }
}

/// What an atom matches once.
#[derive(Debug, PartialEq, Eq)]
pub enum AtomKind {
    /// The character itself.
    Literal(char),
    /// Any one character.
    AnyChar,
    /// One character that is among the items, or that is not where `negated`.
    CharClass { items: Vec<ClassItem>, negated: bool },
    /// One character of a backslash class.
    EscapeClass(EscapeClass),
    /// A value for the field at this position in the record.
    FieldCapture(usize),
    /// A nested expression.
    Group(Expression),
}

/// Something to match, and how often in a row: at least `min`, at most `max` times.
#[derive(Debug, PartialEq, Eq)]
pub struct Atom {
    pub kind: AtomKind,
    pub min: usize,
    pub max: usize,
}

/// Atoms that match one after the other.
#[derive(Debug, PartialEq, Eq)]
pub struct Sequence {
    pub atoms: Vec<Atom>,
}

/// Sequences of which the first that matches is taken.
#[derive(Debug, PartialEq, Eq)]
pub struct Expression {
    pub alternatives: Vec<Sequence>,
}

/// The model of an [`AtomKind`].
pub enum AtomKindSpec {
    Literal(char),
    AnyChar,
    CharClass { items: Seq<ClassItem>, negated: bool },
    EscapeClass(EscapeClass),
    FieldCapture(usize),
    Group(ExpressionSpec),
}

/// The model of an [`Atom`].
pub struct AtomSpec {
    pub kind: AtomKindSpec,
    pub min: usize,
    pub max: usize,
}

/// The model of an [`Expression`]: its alternatives, each a sequence of atoms.
pub struct ExpressionSpec {
    pub alternatives: Seq<Seq<AtomSpec>>,
}

pub open spec fn kind_view(kind: AtomKind) -> AtomKindSpec
    decreases kind,
{
    match kind {
        AtomKind::Literal(c) => AtomKindSpec::Literal(c),
        AtomKind::AnyChar => AtomKindSpec::AnyChar,
        AtomKind::CharClass { items, negated } => AtomKindSpec::CharClass {
            items: items@,
            negated,
        },
        AtomKind::EscapeClass(class) => AtomKindSpec::EscapeClass(class),
        AtomKind::FieldCapture(field) => AtomKindSpec::FieldCapture(field),
        AtomKind::Group(expression) => AtomKindSpec::Group(expression_view(expression)),
    }
}

pub open spec fn atom_view(atom: Atom) -> AtomSpec
    decreases atom,
{
    AtomSpec { kind: kind_view(atom.kind), min: atom.min, max: atom.max }
}

pub open spec fn atoms_view(atoms: Vec<Atom>) -> Seq<AtomSpec>
    decreases atoms,
{
    Seq::new(
        atoms@.len(),
        |i: int|
            if 0 <= i < atoms@.len() {
                atom_view(atoms@[i])
            } else {
                arbitrary()
            },
    )
}

pub open spec fn sequences_view(sequences: Vec<Sequence>) -> Seq<Seq<AtomSpec>>
    decreases sequences,
{
    Seq::new(
        sequences@.len(),
        |i: int|
            if 0 <= i < sequences@.len() {
                atoms_view(sequences@[i].atoms)
            } else {
                arbitrary()
            },
    )
}

pub open spec fn expression_view(expression: Expression) -> ExpressionSpec
    decreases expression,
{
    ExpressionSpec { alternatives: sequences_view(expression.alternatives) }
}

impl View for AtomKind {
    type V = AtomKindSpec;

    open spec fn view(&self) -> AtomKindSpec {
        kind_view(*self)
    }
}

impl View for Atom {
    type V = AtomSpec;

    open spec fn view(&self) -> AtomSpec {
        atom_view(*self)
    }
}

impl View for Sequence {
    type V = Seq<AtomSpec>;

    open spec fn view(&self) -> Seq<AtomSpec> {
        atoms_view(self.atoms)
    }
}

impl View for Expression {
    type V = ExpressionSpec;

    open spec fn view(&self) -> ExpressionSpec {
        expression_view(*self)
    }
}

/// Whether every range among the members of a class ends at or above
/// its start.
pub open spec fn items_are_well_formed(items: Seq<ClassItem>) -> bool {
    forall|i: int|
        0 <= i < items.len() ==> (#[trigger] items[i] matches ClassItem::Range(lo, hi) ==> lo
            <= hi)
}

/// Whether the atom is to match no more often at least than at most,
/// and what it matches is well formed.
pub open spec fn atom_is_well_formed(atom: AtomSpec) -> bool
    decreases atom,
{
    atom.min <= atom.max && match atom.kind {
        AtomKindSpec::CharClass { items, negated } => items_are_well_formed(items),
        AtomKindSpec::Group(expression) => alternatives_are_well_formed(expression.alternatives),
        _ => true,
    }
}

/// Whether each atom of the sequence is well formed.
pub open spec fn sequence_is_well_formed(atoms: Seq<AtomSpec>) -> bool
    decreases atoms,
{
    forall|j: int| 0 <= j < atoms.len() ==> atom_is_well_formed(#[trigger] atoms[j])
}

/// Whether each of the sequences is well formed.
pub open spec fn sequences_are_well_formed(alternatives: Seq<Seq<AtomSpec>>) -> bool
    decreases alternatives,
{
    forall|i: int|
        0 <= i < alternatives.len() ==> sequence_is_well_formed(#[trigger] alternatives[i])
}

/// Whether there is an alternative, and each is well formed.
pub open spec fn alternatives_are_well_formed(alternatives: Seq<Seq<AtomSpec>>) -> bool
    decreases alternatives,
{
    alternatives.len() >= 1 && forall|i: int|
        0 <= i < alternatives.len() ==> sequence_is_well_formed(#[trigger] alternatives[i])
}

impl ExpressionSpec {
    /// Whether the expression is well formed: it has an alternative, no
    /// atom in it is to match more often at least than at most, and no
    /// range in it ends below its start.
    pub open spec fn is_well_formed(self) -> bool {
        alternatives_are_well_formed(self.alternatives)
    }
}

} // verus!

