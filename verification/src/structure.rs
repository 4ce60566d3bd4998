//! The shape of the record that a pattern fills: its fields, how often
//! each may be captured, and what kind of value each holds.

use crate::index::str_eq;
use vstd::prelude::*;

verus! {

/// the "cardinality" of a field, or the minimum/maximum number of times that field is permitted to match in a PEG.
#[derive(Copy, Clone, PartialEq, Eq, Debug, Structural)]
pub enum FieldCardinality {
    /// Exactly one instance of the field is required
    Single,
    /// Either zero or one instances of the field may exist
    Optional,
    /// Any number of instances of the field may exist
    Many,
}

/// The kind of value that a field holds, which decides how its text is read.
#[derive(Copy, Clone, PartialEq, Eq, Debug, Structural)]
pub enum LeafType {
    Bool,
    U8,
    U16,
    U32,
    U64,
    U128,
    Usize,
    I8,
    I16,
    I32,
    I64,
    I128,
    Isize,
    /// All the text that the field is given.
    Text,
    Char,
    /// A nested record or enum: the position of its definition in the grammar.
    Record(usize),
}

/// Information on the field of an element, such as a `struct` member or `enum` discriminant tuple member.
#[derive(Debug)]
pub struct FieldInfo {
    pub ident: String,
    pub leaf: LeafType,
    pub cardinality: FieldCardinality,
    /// A pattern that the field's text must match before its value is read from it.
    pub pegex: Option<String>,
}

/// The model of a [`FieldInfo`].
pub struct FieldSpec {
    pub ident: Seq<char>,
    pub leaf: LeafType,
    pub cardinality: FieldCardinality,
    pub pegex: Option<Seq<char>>,
}

impl View for FieldInfo {
    type V = FieldSpec;

    open spec fn view(&self) -> FieldSpec {
        FieldSpec {
            ident: self.ident@,
            leaf: self.leaf,
            cardinality: self.cardinality,
            pegex: match self.pegex {
                Some(p) => Some(p@),
                None => None,
            },
        }
    }
}

impl Clone for FieldInfo {
    fn clone(&self) -> (r: Self)
        ensures
            r@ == self@,
    {
        FieldInfo {
            ident: self.ident.clone(),
            leaf: self.leaf,
            cardinality: self.cardinality,
            pegex: match &self.pegex {
                Some(p) => Some(p.clone()),
                None => None,
            },
        }
    }
}

/// The models of a list of fields, in order.
pub open spec fn fields_view(fields: Seq<FieldInfo>) -> Seq<FieldSpec> {
    Seq::new(fields.len(), |i: int| fields[i]@)
}

/// Information on an element that is either an `enum` discriminant or a `struct`.
#[derive(Debug)]
pub struct CollectionInfo {
    pub name: String,
    pub pegex: String,
    pub fields: Vec<FieldInfo>,
}

/// The model of a [`CollectionInfo`].
pub struct CollectionSpec {
    pub name: Seq<char>,
    pub pegex: Seq<char>,
    pub fields: Seq<FieldSpec>,
}

impl View for CollectionInfo {
    type V = CollectionSpec;

    open spec fn view(&self) -> CollectionSpec {
        CollectionSpec { name: self.name@, pegex: self.pegex@, fields: fields_view(self.fields@) }
    }
}

/// The models of a list of collections, in order.
pub open spec fn collections_view(collections: Seq<CollectionInfo>) -> Seq<CollectionSpec> {
    Seq::new(collections.len(), |i: int| collections[i]@)
}

/// Information on an `enum` element.
#[derive(Debug)]
pub struct EnumInfo {
    pub name: String,
    pub discriminants: Vec<CollectionInfo>,
}

/// The root element for which a parser is being built.
#[derive(Debug)]
pub enum DeriveInfo {
    /// A struct containing named fields (or no fields)
    NamedStruct(CollectionInfo),
    /// A struct containing unnamed fields
    UnnamedStruct(CollectionInfo),
    /// An enum
    Enum(EnumInfo),
}

/// The model of a [`DeriveInfo`]: the alternatives of the type, tried in
/// order. A struct has one.
pub struct TypeSpec {
    pub name: Seq<char>,
    pub is_enum: bool,
    pub variants: Seq<CollectionSpec>,
}

impl View for DeriveInfo {
    type V = TypeSpec;

    open spec fn view(&self) -> TypeSpec {
        match self {
            DeriveInfo::NamedStruct(c) => TypeSpec {
                name: c.name@,
                is_enum: false,
                variants: seq![c@],
            },
            DeriveInfo::UnnamedStruct(c) => TypeSpec {
                name: c.name@,
                is_enum: false,
                variants: seq![c@],
            },
            DeriveInfo::Enum(e) => TypeSpec {
                name: e.name@,
                is_enum: true,
                variants: collections_view(e.discriminants@),
            },
        }
    }
}

/// The outline of a declared type: the last name of its path, if it is
/// written as a path, and its first type argument, if it has one.
#[derive(Debug, PartialEq, Eq)]
pub struct TypeOutline {
    pub name: Option<String>,
    pub argument: Option<Box<TypeOutline>>,
}

impl TypeOutline {
    /// Whether the type is written as a path that ends in `name`.
    pub open spec fn is_named(&self, name: Seq<char>) -> bool {
        self.name matches Some(n) && n@ == name
    }

    /// Whether the type is written as a path that ends in `name`.
    pub fn has_name(&self, name: &str) -> (r: bool)
        ensures
            r == self.is_named(name@),
    {
        match &self.name {
            Some(n) => str_eq(n.as_str(), name),
            None => false,
        }
    }
}

/// What the name of a type says of a field that is declared with it:
/// `Vec` stands for any number of values, `Option` for one at most,
/// and `Box` for exactly one; any other name says nothing.
pub open spec fn wrapper_cardinality(ty: TypeOutline) -> Option<FieldCardinality> {
    if ty.is_named("Vec"@) {
        Some(FieldCardinality::Many)
    } else if ty.is_named("Option"@) {
        Some(FieldCardinality::Optional)
    } else if ty.is_named("Box"@) {
        Some(FieldCardinality::Single)
    } else {
        None
    }
}

/// The type of the values of a field that is declared with the type
/// `ty`, how many of them the field takes, and whether they are boxed.
/// A `Vec`, an `Option` or a `Box` holds values of its argument, and of
/// the argument of that where it is a `Box`; any other type holds itself
/// once. `None` where a `Vec`, an `Option` or a `Box` has no argument.
pub open spec fn inner_type(ty: TypeOutline) -> Option<(TypeOutline, FieldCardinality, bool)> {
    match wrapper_cardinality(ty) {
        None => Some((ty, FieldCardinality::Single, false)),
        Some(cardinality) => match ty.argument {
            None => None,
            Some(inner) => if inner.is_named("Box"@) {
                match inner.argument {
                    None => None,
                    Some(innermost) => Some((*innermost, cardinality, true)),
                }
            } else {
                Some((*inner, cardinality, cardinality == FieldCardinality::Single))
            },
        },
    }
}

/// Determines whether the supplied type is a Vec<T> or Option<T> type.
/// If it is, this method returns the inner type (`T`) as well as the appropriate cardinality of the input type; otherwise, it returns the input type and [`FieldCardinality::Single`].
pub fn get_inner_type(ty: &TypeOutline) -> (r: Option<(&TypeOutline, FieldCardinality, bool)>)
    ensures
        match inner_type(*ty) {
            Some((inner, cardinality, is_boxed)) => r matches Some((x, c, b)) && *x == inner && c
                == cardinality && b == is_boxed,
            None => r is None,
        },
{
    let cardinality = if ty.has_name("Vec") {
        FieldCardinality::Many
    } else if ty.has_name("Option") {
        FieldCardinality::Optional
    } else if ty.has_name("Box") {
        FieldCardinality::Single
    } else {
        return Some((ty, FieldCardinality::Single, false));
    };
    match &ty.argument {
        None => None,
        Some(inner) => {
            if inner.has_name("Box") {
                match &inner.argument {
                    None => None,
                    Some(innermost) => Some((&**innermost, cardinality, true)),
                }
            } else {
                // Single => had Box wrapping outside, otherwise not
                Some((&**inner, cardinality, cardinality == FieldCardinality::Single))
            }
        },
    }
}

/// The plain kind of value that the name of a type stands for.
pub open spec fn plain_leaf(name: Seq<char>) -> Option<LeafType> {
    if name == "bool"@ {
        Some(LeafType::Bool)
    } else if name == "u8"@ {
        Some(LeafType::U8)
    } else if name == "u16"@ {
        Some(LeafType::U16)
    } else if name == "u32"@ {
        Some(LeafType::U32)
    } else if name == "u64"@ {
        Some(LeafType::U64)
    } else if name == "u128"@ {
        Some(LeafType::U128)
    } else if name == "usize"@ {
        Some(LeafType::Usize)
    } else if name == "i8"@ {
        Some(LeafType::I8)
    } else if name == "i16"@ {
        Some(LeafType::I16)
    } else if name == "i32"@ {
        Some(LeafType::I32)
    } else if name == "i64"@ {
        Some(LeafType::I64)
    } else if name == "i128"@ {
        Some(LeafType::I128)
    } else if name == "isize"@ {
        Some(LeafType::Isize)
    } else if name == "String"@ {
        Some(LeafType::Text)
    } else if name == "char"@ {
        Some(LeafType::Char)
    } else {
        None
    }
}

/// The plain kind of value that the name of a type stands for, if it
/// names one: the name of a record names none.
pub fn leaf_of_name(name: &str) -> (r: Option<LeafType>)
    ensures
        r == plain_leaf(name@),
{
    if str_eq(name, "bool") {
        Some(LeafType::Bool)
    } else if str_eq(name, "u8") {
        Some(LeafType::U8)
    } else if str_eq(name, "u16") {
        Some(LeafType::U16)
    } else if str_eq(name, "u32") {
        Some(LeafType::U32)
    } else if str_eq(name, "u64") {
        Some(LeafType::U64)
    } else if str_eq(name, "u128") {
        Some(LeafType::U128)
    } else if str_eq(name, "usize") {
        Some(LeafType::Usize)
    } else if str_eq(name, "i8") {
        Some(LeafType::I8)
    } else if str_eq(name, "i16") {
        Some(LeafType::I16)
    } else if str_eq(name, "i32") {
        Some(LeafType::I32)
    } else if str_eq(name, "i64") {
        Some(LeafType::I64)
    } else if str_eq(name, "i128") {
        Some(LeafType::I128)
    } else if str_eq(name, "isize") {
        Some(LeafType::Isize)
    } else if str_eq(name, "String") {
        Some(LeafType::Text)
    } else if str_eq(name, "char") {
        Some(LeafType::Char)
    } else {
        None
    }
}

} // verus!

