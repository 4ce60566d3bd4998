use peggle::compile::{
    get_repetition_bounds, match_backslash_class, match_one_of, match_posix_class, CompileError,
    CompileErrorKind,
};
use peggle::index::Index;
use peggle::matcher::{
    derive_fields_steps, derive_peg_parse, derive_single_field_fns, derive_single_field_steps,
    Grammar,
};
use peggle::pattern::{Atom, AtomKind, ClassItem, EscapeClass, Expression, PosixClass, Sequence};
use peggle::requirements::FieldError;
use peggle::structure::{CollectionInfo, DeriveInfo, FieldCardinality, FieldInfo, LeafType};

fn field(ident: &str, cardinality: FieldCardinality) -> FieldInfo {
    FieldInfo { ident: ident.to_string(), leaf: LeafType::U32, cardinality, pegex: None }
}

fn schema(pegex: &str, fields: Vec<FieldInfo>) -> CollectionInfo {
    CollectionInfo { name: "T".to_string(), pegex: pegex.to_string(), fields }
}

fn kind_of(pegex: &str, fields: Vec<FieldInfo>) -> CompileErrorKind {
    derive_fields_steps(&schema(pegex, fields)).unwrap_err().kind
}

fn bare(pegex: &str) -> Result<Expression, CompileError> {
    derive_fields_steps(&schema(pegex, Vec::new())).map(|m| m.expression)
}

fn error(kind: CompileErrorKind, colno: usize) -> CompileError {
    CompileError { kind, lineno: 0, colno }
}

fn once(kind: AtomKind) -> Atom {
    Atom { kind, min: 1, max: 1 }
}

fn one_sequence(atoms: Vec<Atom>) -> Expression {
    Expression { alternatives: vec![Sequence { atoms }] }
}

#[test]
fn repetition_suffixes_give_their_bounds() {
    let bounds = |s: &'static str| {
        get_repetition_bounds(Index::new(s)).map(|(min, max, rest)| (min, max, rest.remaining))
    };
    assert_eq!(bounds("x"), Ok((1, 1, "x")));
    assert_eq!(bounds(""), Ok((1, 1, "")));
    assert_eq!(bounds("?x"), Ok((0, 1, "x")));
    assert_eq!(bounds("*x"), Ok((0, usize::MAX, "x")));
    assert_eq!(bounds("+x"), Ok((1, usize::MAX, "x")));
    assert_eq!(bounds("{3}x"), Ok((3, 3, "x")));
    assert_eq!(bounds("{3,}x"), Ok((3, usize::MAX, "x")));
    assert_eq!(bounds("{,7}x"), Ok((0, 7, "x")));
    assert_eq!(bounds("{2,11}x"), Ok((2, 11, "x")));
    assert_eq!(bounds("{0,0}"), Ok((0, 0, "")));
}

#[test]
fn malformed_repetitions_are_refused() {
    let bounds = |s: &'static str| get_repetition_bounds(Index::new(s)).unwrap_err();
    assert_eq!(bounds("{,}"), error(CompileErrorKind::MissingMax, 2));
    assert_eq!(bounds("{x}"), error(CompileErrorKind::InvalidMin, 1));
    assert_eq!(bounds("{01}"), error(CompileErrorKind::InvalidMin, 2));
    assert_eq!(bounds("{1,x}"), error(CompileErrorKind::InvalidMax, 3));
    assert_eq!(bounds("{,x}"), error(CompileErrorKind::InvalidMax, 2));
    assert_eq!(bounds("{3"), error(CompileErrorKind::MissingCloseBrace, 2));
    assert_eq!(bounds("{3x"), error(CompileErrorKind::MissingCloseBrace, 3));
    assert_eq!(bounds("{3,4x"), error(CompileErrorKind::MissingCloseBrace, 5));
    assert_eq!(bounds("{4,3}"), error(CompileErrorKind::MinAboveMax, 5));
    assert_eq!(bounds("{99999999999999999999999}"), error(CompileErrorKind::InvalidMin, 20));
}

#[test]
fn literal_pattern_compiles_to_one_sequence_of_literals() {
    assert_eq!(
        bare("ab"),
        Ok(one_sequence(vec![once(AtomKind::Literal('a')), once(AtomKind::Literal('b'))]))
    );
    assert_eq!(bare(""), Ok(one_sequence(Vec::new())));
}

#[test]
fn choices_and_groups_compile_to_nested_expressions() {
    let inner = Expression {
        alternatives: vec![
            Sequence { atoms: vec![once(AtomKind::Literal('b'))] },
            Sequence { atoms: vec![once(AtomKind::AnyChar)] },
        ],
    };
    assert_eq!(
        bare("a(b|.){2,}|c"),
        Ok(Expression {
            alternatives: vec![
                Sequence {
                    atoms: vec![
                        once(AtomKind::Literal('a')),
                        Atom { kind: AtomKind::Group(inner), min: 2, max: usize::MAX },
                    ],
                },
                Sequence { atoms: vec![once(AtomKind::Literal('c'))] },
            ],
        })
    );
}

#[test]
fn backslash_classes_and_escapes() {
    let atom = |s: &'static str| match_backslash_class(Index::new(s)).map(|(a, _)| a);
    assert_eq!(atom("w"), Ok(once(AtomKind::EscapeClass(EscapeClass::Word))));
    assert_eq!(atom("W"), Ok(once(AtomKind::EscapeClass(EscapeClass::NonWord))));
    assert_eq!(atom("d"), Ok(once(AtomKind::EscapeClass(EscapeClass::Digit))));
    assert_eq!(atom("D"), Ok(once(AtomKind::EscapeClass(EscapeClass::NonDigit))));
    assert_eq!(atom("s"), Ok(once(AtomKind::EscapeClass(EscapeClass::Space))));
    assert_eq!(atom("S"), Ok(once(AtomKind::EscapeClass(EscapeClass::NonSpace))));
    for c in ['\\', '{', '}', '[', ']', '(', ')', '^', '$', '.', '|', '*', '+', '?', '<', '>', '&']
    {
        let text = c.to_string();
        let r = match_backslash_class(Index::new(&text)).map(|(a, _)| a);
        assert_eq!(r, Ok(once(AtomKind::Literal(c))));
    }
    assert_eq!(
        atom("d+"),
        Ok(Atom { kind: AtomKind::EscapeClass(EscapeClass::Digit), min: 1, max: usize::MAX })
    );
    assert_eq!(atom(""), Err(error(CompileErrorKind::MissingEscape, 0)));
    assert_eq!(atom("q"), Err(error(CompileErrorKind::UnknownEscape, 1)));
    assert_eq!(atom("q{x}"), Err(error(CompileErrorKind::InvalidMin, 2)));
}

#[test]
fn character_class_forms() {
    let class = |s: &'static str| match match_one_of(Index::new(s)) {
        Ok((Atom { kind: AtomKind::CharClass { items, negated }, min: 1, max: 1 }, rest)) => {
            Ok((items, negated, rest.remaining))
        }
        Ok(other) => panic!("unexpected: {:?}", other),
        Err(e) => Err(e),
    };
    assert_eq!(class("ab]x"), Ok((vec![ClassItem::Char('a'), ClassItem::Char('b')], false, "x")));
    assert_eq!(class("^a]"), Ok((vec![ClassItem::Char('a')], true, "")));
    assert_eq!(class("a-z]"), Ok((vec![ClassItem::Range('a', 'z')], false, "")));
    assert_eq!(class("]a]"), Ok((vec![ClassItem::Char(']'), ClassItem::Char('a')], false, "")));
    assert_eq!(class("-a]"), Ok((vec![ClassItem::Char('-'), ClassItem::Char('a')], false, "")));
    assert_eq!(class("--a]"), Ok((vec![ClassItem::Range('-', 'a')], false, "")));
    assert_eq!(class("]-]"), Ok((vec![ClassItem::Char(']'), ClassItem::Char('-')], false, "")));
    assert_eq!(class("a-]"), Ok((vec![ClassItem::Char('a'), ClassItem::Char('-')], false, "")));
    assert_eq!(class("^]]"), Ok((vec![ClassItem::Char(']')], true, "")));
    assert_eq!(
        class("[:digit:]_]"),
        Ok((vec![ClassItem::Posix(PosixClass::Digit), ClassItem::Char('_')], false, ""))
    );
    assert_eq!(class("ab"), Err(error(CompileErrorKind::UnterminatedClass, 2)));
    assert_eq!(class("a-"), Err(error(CompileErrorKind::UnterminatedClass, 2)));
    assert_eq!(class("]-"), Err(error(CompileErrorKind::UnterminatedClass, 2)));
    assert_eq!(class("z-a]"), Err(error(CompileErrorKind::RangeOrder, 3)));
    assert_eq!(class("a-c-e]"), Err(error(CompileErrorKind::DanglingDash, 4)));
    assert_eq!(class("[:nope:]]"), Err(error(CompileErrorKind::UnknownPosixClass, 7)));
}

#[test]
fn posix_class_names() {
    let named = |s: &'static str| match_posix_class(Index::new(s)).map(|(c, rest)| (c, rest.remaining));
    assert_eq!(named(":upper:]x"), Ok((PosixClass::Upper, "x")));
    assert_eq!(named(":lower:]"), Ok((PosixClass::Lower, "")));
    assert_eq!(named(":alpha:]"), Ok((PosixClass::Alpha, "")));
    assert_eq!(named(":digit:]"), Ok((PosixClass::Digit, "")));
    assert_eq!(named(":xdigit:]"), Ok((PosixClass::Xdigit, "")));
    assert_eq!(named(":alnum:]"), Ok((PosixClass::Alnum, "")));
    assert_eq!(named(":punct:]"), Ok((PosixClass::Punct, "")));
    assert_eq!(named(":blank:]"), Ok((PosixClass::Blank, "")));
    assert_eq!(named(":space:]"), Ok((PosixClass::Space, "")));
    assert_eq!(named(":cntrl:]"), Ok((PosixClass::Cntrl, "")));
    assert_eq!(named(":graph:]"), Ok((PosixClass::Graph, "")));
    assert_eq!(named(":print:]"), Ok((PosixClass::Print, "")));
    assert_eq!(named(":xdigix:]"), Err(error(CompileErrorKind::UnknownPosixClass, 7)));
    assert_eq!(named(":wide:]"), Err(error(CompileErrorKind::UnknownPosixClass, 6)));
    assert_eq!(named(":up"), Err(error(CompileErrorKind::UnknownPosixClass, 3)));
    assert_eq!(named(":upper]"), Err(error(CompileErrorKind::UnterminatedPosixClass, 7)));
    assert_eq!(named(":upper:x"), Err(error(CompileErrorKind::UnterminatedPosixClass, 8)));
}

#[test]
fn structural_errors_are_refused() {
    assert_eq!(bare("(ab"), Err(error(CompileErrorKind::MissingCloseParen, 3)));
    assert_eq!(bare("ab)"), Err(error(CompileErrorKind::ExtraCloseParen, 3)));
    assert_eq!(bare("a^"), Err(error(CompileErrorKind::NotImplemented, 2)));
    assert_eq!(bare("$"), Err(error(CompileErrorKind::NotImplemented, 1)));
    for token in ["]", "*", "+", "?", "{", "}", ">"] {
        assert_eq!(bare(token), Err(error(CompileErrorKind::UnexpectedToken, 1)), "{}", token);
    }
    assert_eq!(bare("a**"), Err(error(CompileErrorKind::UnexpectedToken, 3)));
    assert_eq!(bare("<a"), Err(error(CompileErrorKind::UnterminatedField, 2)));
    assert_eq!(bare("a\\"), Err(error(CompileErrorKind::MissingEscape, 2)));
    assert_eq!(bare("[a"), Err(error(CompileErrorKind::UnterminatedClass, 2)));
}

#[test]
fn error_position_counts_lines_of_the_pattern() {
    assert_eq!(
        bare("ab\nc*d^"),
        Err(CompileError { kind: CompileErrorKind::NotImplemented, lineno: 1, colno: 4 })
    );
}

#[test]
fn field_pattern_reserves_angle_brackets() {
    assert_eq!(derive_single_field_steps("a<b>"), Err(error(CompileErrorKind::ReservedBracket, 2)));
    assert_eq!(derive_single_field_steps(">"), Err(error(CompileErrorKind::ReservedBracket, 1)));
    assert_eq!(
        derive_single_field_steps("(why)+"),
        Ok(one_sequence(vec![Atom {
            kind: AtomKind::Group(one_sequence(vec![
                once(AtomKind::Literal('w')),
                once(AtomKind::Literal('h')),
                once(AtomKind::Literal('y')),
            ])),
            min: 1,
            max: usize::MAX,
        }]))
    );
}

#[test]
fn field_matcher_holds_the_compiled_pattern_of_the_field() {
    let plain = field("n", FieldCardinality::Optional);
    let m = derive_single_field_fns(&plain).unwrap();
    assert_eq!(m.restriction, None);
    assert_eq!(m.leaf, LeafType::U32);
    assert_eq!(m.cardinality, FieldCardinality::Optional);
    let restricted = FieldInfo { pegex: Some("7".to_string()), ..field("n", FieldCardinality::Single) };
    let m = derive_single_field_fns(&restricted).unwrap();
    assert_eq!(m.restriction, Some(one_sequence(vec![once(AtomKind::Literal('7'))])));
    let broken = FieldInfo { pegex: Some("(".to_string()), ..field("n", FieldCardinality::Single) };
    assert_eq!(
        derive_single_field_fns(&broken).unwrap_err(),
        error(CompileErrorKind::MissingCloseParen, 1)
    );
}

#[test]
fn field_capture_names_the_field_by_its_position() {
    let m = derive_fields_steps(&schema(
        "<b>-<a>",
        vec![field("a", FieldCardinality::Single), field("b", FieldCardinality::Single)],
    ))
    .unwrap();
    assert_eq!(
        m.expression,
        one_sequence(vec![
            once(AtomKind::FieldCapture(1)),
            once(AtomKind::Literal('-')),
            once(AtomKind::FieldCapture(0)),
        ])
    );
    assert_eq!(m.fields.len(), 2);
}

#[test]
fn unknown_field_is_refused() {
    assert_eq!(
        kind_of("<x>", vec![field("a", FieldCardinality::Many)]),
        CompileErrorKind::Field(FieldError::NotFound)
    );
}

#[test]
fn duplicate_field_names_are_refused() {
    assert_eq!(
        kind_of("<a>", vec![field("a", FieldCardinality::Single), field("a", FieldCardinality::Many)]),
        CompileErrorKind::DuplicateField
    );
}

#[test]
fn single_field_with_star_or_zero_lower_bound_is_refused() {
    let single = || vec![field("a", FieldCardinality::Single)];
    for pegex in ["<a>*", "<a>?", "<a>{0,3}", "<a>{,1}", "<a>{0,0}", "<a>+", "<a>{2}", "(<a>)*", "(<a>)?"] {
        assert_eq!(
            kind_of(pegex, single()),
            CompileErrorKind::Field(FieldError::SingleNotOnce),
            "{}",
            pegex
        );
    }
    assert!(derive_fields_steps(&schema("<a>", single())).is_ok());
    assert!(derive_fields_steps(&schema("(x<a>){1,1}", single())).is_ok());
}

#[test]
fn single_field_captured_twice_is_refused() {
    let single = || vec![field("a", FieldCardinality::Single)];
    assert_eq!(kind_of("<a><a>", single()), CompileErrorKind::Field(FieldError::SingleNotOnce));
    assert_eq!(kind_of("<a>(<a>)", single()), CompileErrorKind::Field(FieldError::SingleNotOnce));
    assert_eq!(kind_of("<a><a>{0}", single()), CompileErrorKind::Field(FieldError::SingleNotOnce));
}

#[test]
fn optional_field_that_may_repeat_is_refused() {
    let optional = || vec![field("a", FieldCardinality::Optional)];
    for pegex in ["<a>*", "<a>+", "<a>{0,2}", "<a><a>", "(<a>){2}", "(<a>?)*"] {
        assert_eq!(
            kind_of(pegex, optional()),
            CompileErrorKind::Field(FieldError::OptionalRepeated),
            "{}",
            pegex
        );
    }
    for pegex in ["<a>", "<a>?", "(<a>)?", "x", "<a>|x", "<a>|<a>"] {
        assert!(derive_fields_steps(&schema(pegex, optional())).is_ok(), "{}", pegex);
    }
}

#[test]
fn many_field_takes_any_repetition() {
    let many = || vec![field("a", FieldCardinality::Many)];
    for pegex in ["<a>*", "<a>+", "<a>{0,2}", "<a><a>", "(<a>){2}", "x", "<a>|x"] {
        assert!(derive_fields_steps(&schema(pegex, many())).is_ok(), "{}", pegex);
    }
}

#[test]
fn choices_with_different_required_fields_are_refused() {
    let two = || vec![field("a", FieldCardinality::Single), field("b", FieldCardinality::Single)];
    for pegex in ["<a><b>|<a>", "<a>|<a><b>", "(<a>|<b>)", "x(<a><b>|<b>)y", "<a><b>|<b><a>|<a>"] {
        assert_eq!(
            kind_of(pegex, two()),
            CompileErrorKind::Field(FieldError::ChoiceMismatch),
            "{}",
            pegex
        );
    }
    for pegex in ["<a><b>|<b><a>", "(<a>|<a>)<b>", "<a>x<b>|<b>y<a>|<a><b>"] {
        assert!(derive_fields_steps(&schema(pegex, two())).is_ok(), "{}", pegex);
    }
}

#[test]
fn required_field_that_the_pattern_lacks_is_refused() {
    let two = || vec![field("a", FieldCardinality::Single), field("b", FieldCardinality::Single)];
    assert_eq!(kind_of("<a>", two()), CompileErrorKind::Field(FieldError::RequiredMissing));
    assert_eq!(kind_of("", two()), CompileErrorKind::Field(FieldError::RequiredMissing));
    assert_eq!(
        derive_fields_steps(&schema("x<a>", two())).unwrap_err(),
        error(CompileErrorKind::Field(FieldError::RequiredMissing), 4)
    );
}

#[test]
fn field_error_is_found_before_a_later_syntax_error() {
    assert_eq!(
        derive_fields_steps(&schema("<a>*)", vec![field("a", FieldCardinality::Single)]))
            .unwrap_err(),
        error(CompileErrorKind::Field(FieldError::SingleNotOnce), 4)
    );
}

#[test]
fn pattern_of_a_field_is_compiled_before_the_pattern_of_the_whole() {
    let broken = FieldInfo { pegex: Some("[".to_string()), ..field("a", FieldCardinality::Single) };
    assert_eq!(kind_of(")", vec![broken]), CompileErrorKind::UnterminatedClass);
}

#[test]
fn compiling_twice_gives_the_same() {
    let info = || {
        DeriveInfo::NamedStruct(schema(
            "x(<a>|y<a>)[[:alpha:]q-z]{2,}",
            vec![field("a", FieldCardinality::Single)],
        ))
    };
    let first = derive_peg_parse(&info()).unwrap();
    let second = derive_peg_parse(&info()).unwrap();
    assert_eq!(first.variants[0].expression, second.variants[0].expression);
    let broken = || DeriveInfo::NamedStruct(schema("x(<a>|y)", vec![field("a", FieldCardinality::Single)]));
    assert_eq!(derive_peg_parse(&broken()).unwrap_err(), derive_peg_parse(&broken()).unwrap_err());
    assert_eq!(
        Grammar::compile(&vec![info(), broken()]).unwrap_err(),
        error(CompileErrorKind::Field(FieldError::ChoiceMismatch), 8)
    );
}
