use peggle::index::str_eq;
use peggle::requirements::{FieldCounter, FieldError, FieldRequirements};
use peggle::structure::{CollectionInfo, FieldCardinality, FieldInfo, LeafType};

fn requirements() -> FieldRequirements {
    let field = |ident: &str, cardinality| FieldInfo {
        ident: ident.to_string(),
        leaf: LeafType::Text,
        cardinality,
        pegex: None,
    };
    FieldRequirements::new(&CollectionInfo {
        name: "T".to_string(),
        pegex: String::new(),
        fields: vec![
            field("one", FieldCardinality::Single),
            field("opt", FieldCardinality::Optional),
            field("many", FieldCardinality::Many),
            field("two", FieldCardinality::Single),
        ],
    })
}

fn add(r: &mut FieldRequirements, name: &str, min: usize, max: usize) -> Result<(), FieldError> {
    r.add_field(name.to_string(), min, max)
}

#[test]
fn new_counter_has_counted_nothing() {
    let counter = FieldCounter::new();
    assert!(counter.0.is_empty());
    assert_eq!(counter.get(0), None);
    assert_eq!(counter.get(17), None);
}

#[test]
fn counter_holds_what_was_set() {
    let mut counter = FieldCounter::new();
    counter.set(3, 1, 2);
    assert_eq!(counter.get(3), Some((1, 2)));
    assert_eq!(counter.get(2), None);
    assert_eq!(counter.get(4), None);
    counter.set(3, 5, 6);
    counter.set(0, 0, 1);
    assert_eq!(counter.get(3), Some((5, 6)));
    assert_eq!(counter.get(0), Some((0, 1)));
}

#[test]
fn new_requirements_have_one_empty_scope() {
    let r = requirements();
    assert_eq!(r.fields.len(), 4);
    assert_eq!(r.field_min_max_stack.len(), 1);
    assert!(r.field_min_max_stack[0].0.is_none());
    assert_eq!(r.field_min_max_stack[0].1.get(0), None);
    assert_eq!(r.field_index("opt"), Some(1));
    assert_eq!(r.field_index("nope"), None);
}

#[test]
fn counts_of_a_field_add_up() {
    let mut r = requirements();
    assert_eq!(add(&mut r, "opt", 0, 1), Ok(()));
    assert_eq!(r.field_min_max_stack[0].1.get(1), Some((0, 1)));
    assert_eq!(add(&mut r, "opt", 1, 1), Err(FieldError::OptionalRepeated));
    assert_eq!(r.field_min_max_stack[0].1.get(1), Some((1, 2)));
    assert_eq!(add(&mut r, "opt", 3, usize::MAX), Err(FieldError::OptionalRepeated));
    assert_eq!(r.field_min_max_stack[0].1.get(1), Some((4, usize::MAX)));
}

#[test]
fn single_field_is_counted_exactly_once() {
    for (min, max) in [(0, 0), (0, 1), (0, usize::MAX), (1, 2), (1, usize::MAX), (2, 2)] {
        assert_eq!(add(&mut requirements(), "one", min, max), Err(FieldError::SingleNotOnce));
    }
    let mut r = requirements();
    assert_eq!(add(&mut r, "one", 1, 1), Ok(()));
    assert_eq!(add(&mut r, "one", 0, 0), Err(FieldError::SingleNotOnce));
    let mut r = requirements();
    assert_eq!(add(&mut r, "one", 1, 1), Ok(()));
    assert_eq!(add(&mut r, "one", 1, 1), Err(FieldError::SingleNotOnce));
}

#[test]
fn many_field_is_not_counted() {
    let mut r = requirements();
    assert_eq!(add(&mut r, "many", 0, usize::MAX), Ok(()));
    assert_eq!(add(&mut r, "many", 5, 9), Ok(()));
    assert_eq!(r.field_min_max_stack[0].1.get(2), None);
}

#[test]
fn unknown_field_is_not_found() {
    let mut r = requirements();
    assert_eq!(add(&mut r, "nope", 1, 1), Err(FieldError::NotFound));
    assert_eq!(add(&mut r, "", 1, 1), Err(FieldError::NotFound));
}

#[test]
fn closed_scope_is_counted_as_often_as_it_repeats() {
    let mut r = requirements();
    r.push_nested_expr();
    assert_eq!(r.field_min_max_stack.len(), 2);
    assert_eq!(add(&mut r, "opt", 1, 1), Ok(()));
    assert_eq!(r.pop_nested_expr(0, 1), Ok(()));
    assert_eq!(r.field_min_max_stack.len(), 1);
    assert_eq!(r.field_min_max_stack[0].1.get(1), Some((0, 1)));

    let mut r = requirements();
    r.push_nested_expr();
    assert_eq!(add(&mut r, "opt", 1, 1), Ok(()));
    assert_eq!(r.pop_nested_expr(2, 3), Err(FieldError::OptionalRepeated));
    assert_eq!(r.field_min_max_stack[0].1.get(1), Some((2, 3)));

    let mut r = requirements();
    r.push_nested_expr();
    assert_eq!(add(&mut r, "one", 1, 1), Ok(()));
    assert_eq!(r.pop_nested_expr(0, usize::MAX), Err(FieldError::SingleNotOnce));
    assert_eq!(r.field_min_max_stack[0].1.get(0), Some((0, usize::MAX)));
}

#[test]
fn repeated_scope_saturates() {
    let mut r = requirements();
    r.push_nested_expr();
    r.push_nested_expr();
    assert_eq!(add(&mut r, "opt", 1, 1), Ok(()));
    assert_eq!(r.pop_nested_expr(1, usize::MAX), Err(FieldError::OptionalRepeated));
    assert_eq!(r.pop_nested_expr(7, 7), Err(FieldError::OptionalRepeated));
    assert_eq!(r.field_min_max_stack[0].1.get(1), Some((7, usize::MAX)));
}

#[test]
fn first_error_in_field_order_decides() {
    let mut r = requirements();
    r.push_nested_expr();
    assert_eq!(add(&mut r, "opt", 1, 1), Ok(()));
    assert_eq!(add(&mut r, "one", 1, 1), Ok(()));
    assert_eq!(r.pop_nested_expr(0, 2), Err(FieldError::SingleNotOnce));
    assert_eq!(r.field_min_max_stack[0].1.get(1), None);
}

#[test]
fn choice_split_keeps_the_first_choice_for_comparison() {
    let mut r = requirements();
    assert_eq!(add(&mut r, "one", 1, 1), Ok(()));
    assert_eq!(add(&mut r, "opt", 0, 1), Ok(()));
    assert_eq!(r.add_choice_split(), Ok(()));
    assert_eq!(r.field_min_max_stack[0].0.as_ref().unwrap().get(0), Some((1, 1)));
    assert_eq!(r.field_min_max_stack[0].1.get(0), None);
    assert_eq!(r.add_choice_split(), Err(FieldError::ChoiceMismatch));
    assert_eq!(add(&mut r, "one", 1, 1), Ok(()));
    assert_eq!(r.add_choice_split(), Ok(()));
    assert_eq!(r.field_min_max_stack[0].0.as_ref().unwrap().get(1), Some((0, 1)));
    assert_eq!(add(&mut r, "one", 1, 1), Ok(()));
    assert_eq!(add(&mut r, "two", 1, 1), Ok(()));
    assert_eq!(r.add_choice_split(), Err(FieldError::ChoiceMismatch));
    assert_eq!(r.check_final_fields(), Err(FieldError::ChoiceMismatch));
}

#[test]
fn closing_a_scope_compares_its_last_choice_with_its_first() {
    let mut r = requirements();
    r.push_nested_expr();
    assert_eq!(r.add_choice_split(), Ok(()));
    assert_eq!(add(&mut r, "one", 1, 1), Ok(()));
    assert_eq!(r.pop_nested_expr(1, 1), Err(FieldError::ChoiceMismatch));
    assert_eq!(r.field_min_max_stack.len(), 2);
}

#[test]
fn final_check_wants_every_required_field() {
    let mut r = requirements();
    assert_eq!(r.check_final_fields(), Err(FieldError::RequiredMissing));
    assert_eq!(add(&mut r, "one", 1, 1), Ok(()));
    assert_eq!(r.check_final_fields(), Err(FieldError::RequiredMissing));
    assert_eq!(add(&mut r, "two", 1, 1), Ok(()));
    assert_eq!(r.check_final_fields(), Ok(()));
}

#[test]
fn strings_are_compared_by_their_text() {
    assert!(str_eq("", ""));
    assert!(str_eq("f\u{e9}e", "f\u{e9}e"));
    assert!(!str_eq("abc", "abd"));
    assert!(!str_eq("abc", "ab"));
    assert!(!str_eq("ab", "abc"));
    assert!(!str_eq("", "a"));
}
