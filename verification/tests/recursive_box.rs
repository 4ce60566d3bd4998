use peggle::engine::{Abort, MatchError};
use peggle::matcher::Grammar;
use peggle::structure::{CollectionInfo, DeriveInfo, FieldCardinality, FieldInfo, LeafType};
use peggle::value::{Record, Value};

fn optional_record(ident: &str, ty: usize) -> FieldInfo {
    FieldInfo {
        ident: ident.to_string(),
        leaf: LeafType::Record(ty),
        cardinality: FieldCardinality::Optional,
        pegex: None,
    }
}

fn named(name: &str, pegex: &str, fields: Vec<FieldInfo>) -> DeriveInfo {
    DeriveInfo::NamedStruct(CollectionInfo {
        name: name.to_string(),
        pegex: pegex.to_string(),
        fields,
    })
}

fn one_option_recursion() -> DeriveInfo {
    named(
        "OneOptionRecursion",
        "<f1>hello(world<f2>)?",
        vec![
            FieldInfo {
                ident: "f1".to_string(),
                leaf: LeafType::Text,
                cardinality: FieldCardinality::Single,
                pegex: Some("(why)+".to_string()),
            },
            optional_record("f2", 0),
        ],
    )
}

fn two_option_recursion() -> Vec<DeriveInfo> {
    vec![
        named(
            "TwoOptionRecursion1",
            "a<f1>?b<f2>?",
            vec![optional_record("f1", 0), optional_record("f2", 1)],
        ),
        named(
            "TwoOptionRecursion2",
            "<f1>?c(d<f2>)?",
            vec![optional_record("f1", 0), optional_record("f2", 1)],
        ),
    ]
}

fn record(value: Value) -> Record {
    match value {
        Value::Record(r) => r,
        other => panic!("not a record: {:?}", other),
    }
}

fn take(values: &mut Vec<Value>) -> Option<Record> {
    assert!(values.len() <= 1);
    values.pop().map(record)
}

#[test]
fn test_one_option_box_recursion() {
    let grammar = Grammar::compile(&vec![one_option_recursion()]).unwrap();
    let Ok(r1) = grammar.parse(0, "whyhelloworldwhywhyhello", 64) else {
        panic!("self-recursive struct returned parse error")
    };
    let mut r1 = record(r1);

    assert_eq!(r1.fields[0], vec![Value::Text("why".to_string())]);
    let Some(mut r2) = take(&mut r1.fields[1]) else {
        panic!("self-recursive struct had not recursive element where one was expected");
    };

    assert_eq!(r2.fields[0], vec![Value::Text("whywhy".to_string())]);
    if take(&mut r2.fields[1]).is_some() {
        panic!("self-recursive struct had recursive element where none was expected");
    }
}

#[test]
fn test_two_option_box_recursion() {
    // Input aabcdcb:
    // =================
    //       [a]
    //      /   \
    //   [a]  b  X
    //  /   \
    // X  b [cd]
    //      /  \
    //     X   [c]
    //         / \
    //        X   X
    // =================
    let grammar = Grammar::compile(&two_option_recursion()).unwrap();
    let Ok(r1) = grammar.parse(0, "aabcdcb", 64) else {
        panic!("doubly-recursive struct returned parse error")
    };
    let mut r1 = record(r1);

    let Some(mut r1_f1) = take(&mut r1.fields[0]) else {
        panic!("self-recursive struct had no recursive element where one was expected");
    };

    assert!(take(&mut r1_f1.fields[0]).is_none());

    let Some(mut r1_f1_f2) = take(&mut r1_f1.fields[1]) else {
        panic!("self-recursive struct had no recursive element where one was expected");
    };

    assert!(take(&mut r1_f1_f2.fields[0]).is_none());
    let Some(mut r1_f1_f2_f2) = take(&mut r1_f1_f2.fields[1]) else {
        panic!("self-recursive struct had no recursive element where one was expected");
    };
    assert!(take(&mut r1_f1_f2_f2.fields[0]).is_none());
    assert!(take(&mut r1_f1_f2_f2.fields[1]).is_none());

    assert!(take(&mut r1.fields[1]).is_none());
}

#[test]
fn recursion_terminates_on_input_without_nesting() {
    let grammar = Grammar::compile(&vec![one_option_recursion()]).unwrap();
    let r = record(grammar.parse(0, "whyhello", 64).unwrap());
    assert_eq!(r.fields[0], vec![Value::Text("why".to_string())]);
    assert!(r.fields[1].is_empty());
}

#[test]
fn nesting_beyond_the_allowed_depth_is_given_up() {
    let grammar = Grammar::compile(&vec![one_option_recursion()]).unwrap();
    assert!(grammar.parse(0, "whyhelloworldwhyhello", 1).is_ok());
    assert_eq!(
        grammar.parse(0, "whyhelloworldwhyhello", 0),
        Err(MatchError::Aborted(Abort::TooDeep))
    );
}

#[test]
fn record_that_begins_with_itself_is_given_up_at_any_depth() {
    let grammar =
        Grammar::compile(&vec![named("Left", "<f>?x", vec![optional_record("f", 0)])]).unwrap();
    assert_eq!(grammar.parse(0, "x", 5), Err(MatchError::Aborted(Abort::TooDeep)));
    assert_eq!(grammar.parse(0, "x", 500), Err(MatchError::Aborted(Abort::TooDeep)));
}

#[test]
fn field_of_a_type_that_the_grammar_lacks_is_given_up() {
    let grammar =
        Grammar::compile(&vec![named("Lost", "a<f>?", vec![optional_record("f", 7)])]).unwrap();
    assert_eq!(grammar.parse(0, "a", 5), Err(MatchError::Aborted(Abort::UnknownType)));
    assert_eq!(grammar.parse(3, "a", 5), Err(MatchError::Aborted(Abort::UnknownType)));
}
