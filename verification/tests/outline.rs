use peggle::structure::{get_inner_type, leaf_of_name, FieldCardinality, LeafType, TypeOutline};

fn plain(name: &str) -> TypeOutline {
    TypeOutline { name: Some(name.to_string()), argument: None }
}

fn wrap(name: &str, argument: TypeOutline) -> TypeOutline {
    TypeOutline { name: Some(name.to_string()), argument: Some(Box::new(argument)) }
}

#[test]
fn plain_type_holds_itself_once() {
    let ty = plain("u32");
    assert_eq!(get_inner_type(&ty), Some((&ty, FieldCardinality::Single, false)));
    let ty = wrap("HashSet", plain("u8"));
    assert_eq!(get_inner_type(&ty), Some((&ty, FieldCardinality::Single, false)));
    let ty = TypeOutline { name: None, argument: None };
    assert_eq!(get_inner_type(&ty), Some((&ty, FieldCardinality::Single, false)));
}

#[test]
fn wrappers_hold_their_argument() {
    let inner = plain("String");
    assert_eq!(
        get_inner_type(&wrap("Vec", plain("String"))),
        Some((&inner, FieldCardinality::Many, false))
    );
    assert_eq!(
        get_inner_type(&wrap("Option", plain("String"))),
        Some((&inner, FieldCardinality::Optional, false))
    );
    assert_eq!(
        get_inner_type(&wrap("Box", plain("String"))),
        Some((&inner, FieldCardinality::Single, true))
    );
    let tuple = TypeOutline { name: None, argument: None };
    assert_eq!(
        get_inner_type(&wrap("Vec", TypeOutline { name: None, argument: None })),
        Some((&tuple, FieldCardinality::Many, false))
    );
}

#[test]
fn box_inside_a_wrapper_is_looked_through() {
    let inner = plain("Node");
    assert_eq!(
        get_inner_type(&wrap("Option", wrap("Box", plain("Node")))),
        Some((&inner, FieldCardinality::Optional, true))
    );
    assert_eq!(
        get_inner_type(&wrap("Vec", wrap("Box", plain("Node")))),
        Some((&inner, FieldCardinality::Many, true))
    );
    assert_eq!(
        get_inner_type(&wrap("Box", wrap("Box", plain("Node")))),
        Some((&inner, FieldCardinality::Single, true))
    );
    let option = wrap("Option", plain("Node"));
    assert_eq!(
        get_inner_type(&wrap("Vec", wrap("Option", plain("Node")))),
        Some((&option, FieldCardinality::Many, false))
    );
}

#[test]
fn wrapper_without_argument_has_no_inner_type() {
    assert_eq!(get_inner_type(&plain("Vec")), None);
    assert_eq!(get_inner_type(&plain("Option")), None);
    assert_eq!(get_inner_type(&plain("Box")), None);
    assert_eq!(get_inner_type(&wrap("Option", plain("Box"))), None);
}

#[test]
fn names_of_plain_types() {
    assert_eq!(leaf_of_name("bool"), Some(LeafType::Bool));
    assert_eq!(leaf_of_name("u8"), Some(LeafType::U8));
    assert_eq!(leaf_of_name("u16"), Some(LeafType::U16));
    assert_eq!(leaf_of_name("u32"), Some(LeafType::U32));
    assert_eq!(leaf_of_name("u64"), Some(LeafType::U64));
    assert_eq!(leaf_of_name("u128"), Some(LeafType::U128));
    assert_eq!(leaf_of_name("usize"), Some(LeafType::Usize));
    assert_eq!(leaf_of_name("i8"), Some(LeafType::I8));
    assert_eq!(leaf_of_name("i16"), Some(LeafType::I16));
    assert_eq!(leaf_of_name("i32"), Some(LeafType::I32));
    assert_eq!(leaf_of_name("i64"), Some(LeafType::I64));
    assert_eq!(leaf_of_name("i128"), Some(LeafType::I128));
    assert_eq!(leaf_of_name("isize"), Some(LeafType::Isize));
    assert_eq!(leaf_of_name("String"), Some(LeafType::Text));
    assert_eq!(leaf_of_name("char"), Some(LeafType::Char));
    assert_eq!(leaf_of_name("Test01"), None);
    assert_eq!(leaf_of_name("U8"), None);
    assert_eq!(leaf_of_name(""), None);
}
