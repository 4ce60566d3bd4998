use peggle::engine::MatchError;
use peggle::matcher::Grammar;
use peggle::structure::{
    CollectionInfo, DeriveInfo, EnumInfo, FieldCardinality, FieldInfo, LeafType,
};
use peggle::value::{Record, Value};

const DEPTH: usize = 64;

fn field(
    ident: &str,
    leaf: LeafType,
    cardinality: FieldCardinality,
    pegex: Option<&str>,
) -> FieldInfo {
    FieldInfo {
        ident: ident.to_string(),
        leaf,
        cardinality,
        pegex: pegex.map(|p| p.to_string()),
    }
}

fn collection(name: &str, pegex: &str, fields: Vec<FieldInfo>) -> CollectionInfo {
    CollectionInfo { name: name.to_string(), pegex: pegex.to_string(), fields }
}

fn test01() -> DeriveInfo {
    DeriveInfo::NamedStruct(collection(
        "Test01",
        "gggg<second> fdsa <first>",
        vec![
            field("first", LeafType::U32, FieldCardinality::Single, None),
            field("second", LeafType::Text, FieldCardinality::Single, Some("asdf")),
        ],
    ))
}

fn test02() -> DeriveInfo {
    DeriveInfo::NamedStruct(collection(
        "Test02",
        "g<second><first><third>+",
        vec![
            field("first", LeafType::U32, FieldCardinality::Single, None),
            field("second", LeafType::Text, FieldCardinality::Single, Some("asdf")),
            field("third", LeafType::Record(0), FieldCardinality::Many, None),
        ],
    ))
}

fn test03() -> DeriveInfo {
    DeriveInfo::Enum(EnumInfo {
        name: "Test03".to_string(),
        discriminants: vec![
            collection(
                "Test02",
                "hello<0>",
                vec![field("0", LeafType::Text, FieldCardinality::Single, Some("hoii"))],
            ),
            collection(
                "TestInt",
                "hieee<0>",
                vec![field("0", LeafType::U32, FieldCardinality::Single, None)],
            ),
        ],
    })
}

fn test04() -> DeriveInfo {
    DeriveInfo::UnnamedStruct(collection(
        "Test04",
        "<0>hello<1>",
        vec![
            field("0", LeafType::Text, FieldCardinality::Single, Some("why ")),
            field("1", LeafType::Text, FieldCardinality::Single, Some(", world")),
        ],
    ))
}

fn test05() -> DeriveInfo {
    DeriveInfo::UnnamedStruct(collection(
        "Test05",
        "<0>+hello",
        vec![field("0", LeafType::Text, FieldCardinality::Many, Some("why"))],
    ))
}

fn test06() -> DeriveInfo {
    DeriveInfo::NamedStruct(collection(
        "Test06",
        "<f1>hello(world<f2>){5,12}<f3>{0,1}|ah<f1>",
        vec![
            field("f1", LeafType::Text, FieldCardinality::Single, Some("(as|df(5g)*)+")),
            field("f2", LeafType::U32, FieldCardinality::Many, None),
            field("f3", LeafType::U16, FieldCardinality::Optional, None),
        ],
    ))
}

fn text(s: &str) -> Value {
    Value::Text(s.to_string())
}

#[test]
fn test_one() {
    let grammar = Grammar::compile(&vec![test01()]).unwrap();
    let Err(_) = grammar.parse(0, "hello", DEPTH) else { panic!("failed \"hello\" test") };

    let _second = "asdf".to_string();
    match grammar.parse(0, "ggggasdf fdsa 0", DEPTH) {
        Ok(Value::Record(Record { variant: 0, fields })) => {
            assert_eq!(fields, vec![vec![Value::Unsigned(0)], vec![Value::Text(_second)]]);
        }
        Ok(e) => panic!("wrong value returned: {:?}", e),
        Err(e) => panic!("err when should have been Ok: {:?}", e),
    }
}

#[test]
fn test_two() {
    let grammar = Grammar::compile(&vec![test01(), test02()]).unwrap();
    let Err(_) = grammar.parse(1, "hello", DEPTH) else { panic!("failed \"hello\" test") };

    match grammar.parse(1, "gasdf0ggggasdf fdsa 13ggggasdf fdsa 65", DEPTH) {
        Ok(value) => {
            let inner = |n: u128| {
                Value::Record(Record {
                    variant: 0,
                    fields: vec![vec![Value::Unsigned(n)], vec![text("asdf")]],
                })
            };
            assert_eq!(
                value,
                Value::Record(Record {
                    variant: 0,
                    fields: vec![
                        vec![Value::Unsigned(0)],
                        vec![text("asdf")],
                        vec![inner(13), inner(65)],
                    ],
                })
            );
        }
        Err(e) => panic!("err when should have been Ok: {:?}", e),
    }
}

#[test]
fn test_three() {
    let grammar = Grammar::compile(&vec![test03()]).unwrap();
    let Err(_) = grammar.parse(0, "hello", DEPTH) else { panic!("failed \"hello\" test") };

    match grammar.parse(0, "hellohoii", DEPTH) {
        Ok(Value::Record(Record { variant: 0, fields })) => {
            assert_eq!(fields, vec![vec![text("hoii")]]);
        }
        Ok(e) => panic!("wrong enum matched: {:?}", e),
        Err(e) => panic!("err when should have been Ok: {:?}", e),
    }
}

#[test]
fn test_four() {
    let grammar = Grammar::compile(&vec![test04()]).unwrap();
    let Err(_) = grammar.parse(0, "hello", DEPTH) else { panic!("failed \"hello\" test") };

    match grammar.parse(0, "why hello, world", DEPTH) {
        Ok(value) => {
            assert_eq!(
                value,
                Value::Record(Record {
                    variant: 0,
                    fields: vec![vec![text("why ")], vec![text(", world")]],
                })
            );
        }
        Err(e) => panic!("err when should have been Ok: {:?}", e),
    }
}

#[test]
fn test_five() {
    let grammar = Grammar::compile(&vec![test05()]).unwrap();
    let Err(_) = grammar.parse(0, "hello", DEPTH) else { panic!("failed \"hello\" test") };

    match grammar.parse(0, "whywhywhyhello", DEPTH) {
        Ok(value) => {
            assert_eq!(
                value,
                Value::Record(Record {
                    variant: 0,
                    fields: vec![vec![text("why"), text("why"), text("why")]],
                })
            );
        }
        Err(e) => panic!("err when should have been Ok: {:?}", e),
    }
}

#[test]
fn pattern_with_groups_choices_and_all_cardinalities_compiles() {
    assert!(Grammar::compile(&vec![test06()]).is_ok());
}

#[test]
fn second_enum_discriminant_is_tried_after_the_first() {
    let grammar = Grammar::compile(&vec![test03()]).unwrap();
    assert_eq!(
        grammar.parse(0, "hieee42", DEPTH),
        Ok(Value::Record(Record { variant: 1, fields: vec![vec![Value::Unsigned(42)]] }))
    );
}

#[test]
fn enum_failure_is_reported_at_the_start() {
    let grammar = Grammar::compile(&vec![test03()]).unwrap();
    match grammar.parse(0, "hiee", DEPTH) {
        Err(MatchError::NoMatch(e)) => assert_eq!((e.lineno, e.colno), (0, 0)),
        other => panic!("unexpected: {:?}", other),
    }
}

#[test]
fn struct_failure_is_reported_where_the_last_attempt_stopped() {
    let grammar = Grammar::compile(&vec![test01()]).unwrap();
    match grammar.parse(0, "ggggasdf fdsX 0", DEPTH) {
        Err(MatchError::NoMatch(e)) => assert_eq!((e.lineno, e.colno), (0, 12)),
        other => panic!("unexpected: {:?}", other),
    }
}

#[test]
fn prefix_match_fails_at_the_start() {
    let grammar = Grammar::compile(&vec![test01()]).unwrap();
    match grammar.parse(0, "ggggasdf fdsa 0!", DEPTH) {
        Err(MatchError::NoMatch(e)) => assert_eq!((e.lineno, e.colno), (0, 0)),
        other => panic!("unexpected: {:?}", other),
    }
}
