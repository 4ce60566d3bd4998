//! From the declaration of a type to its description: which pattern it
//! has, what its fields are called, and what each of them holds.

use crate::index::str_eq;
use crate::structure::{
    collections_view, fields_view, get_inner_type, inner_type, leaf_of_name, plain_leaf,
    CollectionInfo, CollectionSpec, DeriveInfo, EnumInfo, FieldInfo, FieldSpec, LeafType,
    TypeOutline, TypeSpec,
};
use vstd::prelude::*;
use vstd::string::*;

verus! {

/// A field as it is declared: its name, if it has one, its type, and the
/// pattern that is attached to it, if any.
#[derive(Debug)]
pub struct FieldDeclaration {
    pub ident: Option<String>,
    pub ty: TypeOutline,
    pub pegex: Option<String>,
}

/// A discriminant of an enum as it is declared.
#[derive(Debug)]
pub struct VariantDeclaration {
    pub name: String,
    pub pegex: Option<String>,
    pub fields: Vec<FieldDeclaration>,
}

/// What kind of type is declared, and what it is made of.
#[derive(Debug)]
pub enum DeclarationData {
    /// A struct containing named fields (or no fields)
    NamedStruct(Vec<FieldDeclaration>),
    /// A struct containing unnamed fields
    UnnamedStruct(Vec<FieldDeclaration>),
    /// An enum
    Enum(Vec<VariantDeclaration>),
    /// Anything else, such as a struct without a body or a union.
    Other,
}

/// A type as it is declared: its name, the pattern that is attached to
/// it, if any, and what it is made of.
#[derive(Debug)]
pub struct Declaration {
    pub name: String,
    pub pegex: Option<String>,
    pub data: DeclarationData,
}

/// Why a declaration cannot be described.
#[derive(Copy, Clone, PartialEq, Eq, Debug, Structural)]
pub enum DeclarationError {
    /// A struct or a discriminant of an enum has no pattern.
    MissingPattern,
    /// An enum has a pattern of its own.
    PatternOnEnum,
    /// The type is neither a struct with fields nor an enum.
    IncompatibleType,
    /// A field of a struct with named fields has no name.
    MissingName,
    /// A `Vec`, an `Option` or a `Box` has no type in its angle brackets.
    MissingTypeArgument,
    /// The values of a field are of a type that is not written as a path.
    UnnamedType,
    /// The values of a field are of a type that is neither plain nor known.
    UnknownType,
}

/// The decimal digit for a number below ten.
pub open spec fn digit_char(d: nat) -> char {
    if d == 0 {
        '0'
    } else if d == 1 {
        '1'
    } else if d == 2 {
        '2'
    } else if d == 3 {
        '3'
    } else if d == 4 {
        '4'
    } else if d == 5 {
        '5'
    } else if d == 6 {
        '6'
    } else if d == 7 {
        '7'
    } else if d == 8 {
        '8'
    } else {
        '9'
    }
}

/// The decimal digits of a number, without leading zeros.
pub open spec fn decimal(n: nat) -> Seq<char>
    decreases n,
{
    if n < 10 {
        seq![digit_char(n)]
    } else {
        decimal(n / 10).push(digit_char(n % 10))
    }
}

/// The texts of a list of strings, in order.
pub open spec fn strings_view(strings: Seq<String>) -> Seq<Seq<char>> {
    Seq::new(strings.len(), |i: int| strings[i]@)
}

/// The position of the first of the texts from position `from` on that
/// is `name`.
pub open spec fn position_from(known: Seq<Seq<char>>, name: Seq<char>, from: int) -> Option<int>
    decreases known.len() - from,
{
    if from < 0 || from >= known.len() {
        None
    } else if known[from] == name {
        Some(from)
    } else {
        position_from(known, name, from + 1)
    }
}

/// The kind of value that a type with the given name holds: a plain
/// kind where the name is that of a plain type, else the record whose
/// type is the first of that name among the known types.
pub open spec fn leaf_called(name: Seq<char>, known: Seq<Seq<char>>) -> Option<LeafType> {
    match plain_leaf(name) {
        Some(leaf) => Some(leaf),
        None => match position_from(known, name, 0) {
            Some(position) => Some(LeafType::Record(position as usize)),
            None => None,
        },
    }
}

/// The text of an optional string.
pub open spec fn optional_text(text: Option<String>) -> Option<Seq<char>> {
    match text {
        Some(t) => Some(t@),
        None => None,
    }
}

/// The description of a field that is called `ident`.
pub open spec fn described_field(
    ident: Seq<char>,
    field: FieldDeclaration,
    known: Seq<Seq<char>>,
) -> Result<FieldSpec, DeclarationError> {
    match inner_type(field.ty) {
        None => Err(DeclarationError::MissingTypeArgument),
        Some((inner, cardinality, _)) => match inner.name {
            None => Err(DeclarationError::UnnamedType),
            Some(name) => match leaf_called(name@, known) {
                None => Err(DeclarationError::UnknownType),
                Some(leaf) => Ok(
                    FieldSpec { ident, leaf, cardinality, pegex: optional_text(field.pegex) },
                ),
            },
        },
    }
}

/// The name of the field at position `position`: its own where fields
/// are `named`, else the digits of its position.
pub open spec fn field_ident(field: FieldDeclaration, position: int, named: bool) -> Option<
    Seq<char>,
> {
    if named {
        optional_text(field.ident)
    } else {
        Some(decimal(position as nat))
    }
}

/// The descriptions of the fields from position `from` on, behind the
/// descriptions `done` of those before; the first field that cannot be
/// described decides.
pub open spec fn described_fields(
    fields: Seq<FieldDeclaration>,
    named: bool,
    known: Seq<Seq<char>>,
    from: int,
    done: Seq<FieldSpec>,
) -> Result<Seq<FieldSpec>, DeclarationError>
    decreases fields.len() - from,
{
    if from < 0 || from >= fields.len() {
        Ok(done)
    } else {
        match field_ident(fields[from], from, named) {
            None => Err(DeclarationError::MissingName),
            Some(ident) => match described_field(ident, fields[from], known) {
                Err(e) => Err(e),
                Ok(field) => described_fields(fields, named, known, from + 1, done.push(field)),
            },
        }
    }
}

/// The description of a struct or of a discriminant of an enum: it
/// needs a pattern, and then each of its fields.
pub open spec fn described_collection(
    name: Seq<char>,
    pegex: Option<String>,
    fields: Seq<FieldDeclaration>,
    named: bool,
    known: Seq<Seq<char>>,
) -> Result<CollectionSpec, DeclarationError> {
    match pegex {
        None => Err(DeclarationError::MissingPattern),
        Some(pattern) => match described_fields(fields, named, known, 0, Seq::empty()) {
            Err(e) => Err(e),
            Ok(described) => Ok(CollectionSpec { name, pegex: pattern@, fields: described }),
        },
    }
}

/// The descriptions of the discriminants from position `from` on, behind
/// the descriptions `done` of those before. The fields of a
/// discriminant are called by their positions.
pub open spec fn described_variants(
    variants: Seq<VariantDeclaration>,
    known: Seq<Seq<char>>,
    from: int,
    done: Seq<CollectionSpec>,
) -> Result<Seq<CollectionSpec>, DeclarationError>
    decreases variants.len() - from,
{
    if from < 0 || from >= variants.len() {
        Ok(done)
    } else {
        match described_collection(
            variants[from].name@,
            variants[from].pegex,
            variants[from].fields@,
            false,
            known,
        ) {
            Err(e) => Err(e),
            Ok(collection) => described_variants(variants, known, from + 1, done.push(collection)),
        }
    }
}

/// The description of a declared type. A struct needs a pattern; an
/// enum must have none of its own, and needs one for each discriminant.
pub open spec fn described(ast: Declaration, known: Seq<Seq<char>>) -> Result<
    TypeSpec,
    DeclarationError,
> {
    match ast.data {
        DeclarationData::NamedStruct(fields) => match described_collection(
            ast.name@,
            ast.pegex,
            fields@,
            true,
            known,
        ) {
            Err(e) => Err(e),
            Ok(collection) => Ok(
                TypeSpec { name: ast.name@, is_enum: false, variants: seq![collection] },
            ),
        },
        DeclarationData::UnnamedStruct(fields) => match described_collection(
            ast.name@,
            ast.pegex,
            fields@,
            false,
            known,
        ) {
            Err(e) => Err(e),
            Ok(collection) => Ok(
                TypeSpec { name: ast.name@, is_enum: false, variants: seq![collection] },
            ),
        },
        DeclarationData::Enum(variants) => if ast.pegex is Some {
            Err(DeclarationError::PatternOnEnum)
        } else {
            match described_variants(variants@, known, 0, Seq::empty()) {
                Err(e) => Err(e),
                Ok(discriminants) => Ok(
                    TypeSpec { name: ast.name@, is_enum: true, variants: discriminants },
                ),
            }
        },
        DeclarationData::Other => Err(DeclarationError::IncompatibleType),
    }
}

/// The decimal digit for a number below ten, as a text.
fn digit_text(d: usize) -> (r: &'static str)
    requires
        d < 10,
    ensures
        r@ == seq![digit_char(d as nat)],
{
    proof {
        reveal_strlit("0");
        reveal_strlit("1");
        reveal_strlit("2");
        reveal_strlit("3");
        reveal_strlit("4");
        reveal_strlit("5");
        reveal_strlit("6");
        reveal_strlit("7");
        reveal_strlit("8");
        reveal_strlit("9");
    }
    let r = if d == 0 {
        "0"
    } else if d == 1 {
        "1"
    } else if d == 2 {
        "2"
    } else if d == 3 {
        "3"
    } else if d == 4 {
        "4"
    } else if d == 5 {
        "5"
    } else if d == 6 {
        "6"
    } else if d == 7 {
        "7"
    } else if d == 8 {
        "8"
    } else {
        "9"
    };
    assert(r@ =~= seq![digit_char(d as nat)]);
    r
}

/// Writes the decimal digits of `n` behind `text`.
fn push_decimal(text: &mut String, n: usize)
    ensures
        final(text)@ == old(text)@ + decimal(n as nat),
    decreases n,
{
    if n >= 10 {
        push_decimal(text, n / 10);
    }
    let ghost before = text@;
    text.append(digit_text(n % 10));
    proof {
        if n >= 10 {
            assert(text@ =~= old(text)@ + decimal((n / 10) as nat).push(
                digit_char((n % 10) as nat),
            ));
        }
    }
}

/// The decimal digits of a number.
pub fn decimal_string(n: usize) -> (r: String)
    ensures
        r@ == decimal(n as nat),
{
    let mut text = String::new();
    push_decimal(&mut text, n);
    assert(text@ =~= decimal(n as nat));
    text
}

/// A copy of an optional string.
fn clone_optional(text: &Option<String>) -> (r: Option<String>)
    ensures
        optional_text(r) == optional_text(*text),
{
    match text {
        Some(t) => Some(t.clone()),
        None => None,
    }
}

/// The kind of value that a type with the given name holds.
pub fn resolve_leaf(name: &str, known: &Vec<String>) -> (r: Option<LeafType>)
    ensures
        r == leaf_called(name@, strings_view(known@)),
{
    if let Some(leaf) = leaf_of_name(name) {
        return Some(leaf);
    }
    let ghost names = strings_view(known@);
    let mut i: usize = 0;
    while i < known.len()
        invariant
            0 <= i <= known.len(),
            names == strings_view(known@),
            plain_leaf(name@) is None,
            position_from(names, name@, i as int) == position_from(names, name@, 0),
        decreases known.len() - i,
    {
        assert(names[i as int] == known@[i as int]@);
        if str_eq(known[i].as_str(), name) {
            return Some(LeafType::Record(i));
        }
        i += 1;
    }
    None
}

/// Describes a field that is called `ident`.
fn describe_field(ident: String, field: &FieldDeclaration, known: &Vec<String>) -> (r: Result<
    FieldInfo,
    DeclarationError,
>)
    ensures
        match described_field(ident@, *field, strings_view(known@)) {
            Ok(f) => r matches Ok(x) && x@ == f,
            Err(e) => r == Err::<FieldInfo, DeclarationError>(e),
        },
{
    let (inner, cardinality, _) = match get_inner_type(&field.ty) {
        Some(found) => found,
        None => {
            return Err(DeclarationError::MissingTypeArgument);
        },
    };
    let name = match &inner.name {
        Some(name) => name,
        None => {
            return Err(DeclarationError::UnnamedType);
        },
    };
    match resolve_leaf(name.as_str(), known) {
        Some(leaf) => Ok(FieldInfo { ident, leaf, cardinality, pegex: clone_optional(&field.pegex) }),
        None => Err(DeclarationError::UnknownType),
    }
}

/// Describes the fields of a struct or of a discriminant, in order.
fn describe_fields(fields: &Vec<FieldDeclaration>, named: bool, known: &Vec<String>) -> (r: Result<
    Vec<FieldInfo>,
    DeclarationError,
>)
    ensures
        match described_fields(fields@, named, strings_view(known@), 0, Seq::empty()) {
            Ok(f) => r matches Ok(x) && fields_view(x@) == f,
            Err(e) => r == Err::<Vec<FieldInfo>, DeclarationError>(e),
        },
{
    let mut described: Vec<FieldInfo> = Vec::new();
    let mut i: usize = 0;
    assert(fields_view(described@) =~= Seq::<FieldSpec>::empty());
    while i < fields.len()
        invariant
            0 <= i <= fields.len(),
            described_fields(
                fields@,
                named,
                strings_view(known@),
                i as int,
                fields_view(described@),
            ) == described_fields(fields@, named, strings_view(known@), 0, Seq::empty()),
        decreases fields.len() - i,
    {
        let ident = if named {
            match &fields[i].ident {
                Some(ident) => ident.clone(),
                None => {
                    return Err(DeclarationError::MissingName);
                },
            }
        } else {
            decimal_string(i)
        };
        let ghost before = fields_view(described@);
        match describe_field(ident, &fields[i], known) {
            Ok(field) => {
                let ghost model = field@;
                described.push(field);
                assert(fields_view(described@) =~= before.push(model));
            },
            Err(e) => {
                return Err(e);
            },
        }
        i += 1;
    }
    Ok(described)
}

/// Describes a struct or a discriminant of an enum.
fn describe_collection(
    name: &String,
    pegex: &Option<String>,
    fields: &Vec<FieldDeclaration>,
    named: bool,
    known: &Vec<String>,
) -> (r: Result<CollectionInfo, DeclarationError>)
    ensures
        match described_collection(name@, *pegex, fields@, named, strings_view(known@)) {
            Ok(c) => r matches Ok(x) && x@ == c,
            Err(e) => r == Err::<CollectionInfo, DeclarationError>(e),
        },
{
    let pattern = match pegex {
        Some(pattern) => pattern.clone(),
        None => {
            return Err(DeclarationError::MissingPattern);
        },
    };
    match describe_fields(fields, named, known) {
        Ok(described) => Ok(CollectionInfo { name: name.clone(), pegex: pattern, fields: described }),
        Err(e) => Err(e),
    }
}

impl DeriveInfo {
    /// Extracts all relevant information from the declaration to populate a [`DeriveInfo`] instance.
    /// A field whose values are records names their type by its
    /// position among the `known` types.
    pub fn new(ast: &Declaration, known: &Vec<String>) -> (r: Result<Self, DeclarationError>)
        ensures
            match described(*ast, strings_view(known@)) {
                Ok(t) => r matches Ok(x) && x@ == t && (x is NamedStruct == ast.data is NamedStruct),
                Err(e) => r == Err::<DeriveInfo, DeclarationError>(e),
            },
    {
        match &ast.data {
            DeclarationData::NamedStruct(fields) => match describe_collection(
                &ast.name,
                &ast.pegex,
                fields,
                true,
                known,
            ) {
                Ok(collection) => Ok(DeriveInfo::NamedStruct(collection)),
                Err(e) => Err(e),
            },
            DeclarationData::UnnamedStruct(fields) => match describe_collection(
                &ast.name,
                &ast.pegex,
                fields,
                false,
                known,
            ) {
                Ok(collection) => Ok(DeriveInfo::UnnamedStruct(collection)),
                Err(e) => Err(e),
            },
            DeclarationData::Enum(variants) => {
                if ast.pegex.is_some() {
                    return Err(DeclarationError::PatternOnEnum);
                }
                match Self::collect_enum_discriminants(variants, known) {
                    Ok(discriminants) => Ok(
                        DeriveInfo::Enum(EnumInfo { name: ast.name.clone(), discriminants }),
                    ),
                    Err(e) => Err(e),
                }
            },
            DeclarationData::Other => Err(DeclarationError::IncompatibleType),
        }
    }

    /// Describes the discriminants of an enum, in order.
    fn collect_enum_discriminants(variants: &Vec<VariantDeclaration>, known: &Vec<String>) -> (r:
        Result<Vec<CollectionInfo>, DeclarationError>)
        ensures
            match described_variants(variants@, strings_view(known@), 0, Seq::empty()) {
                Ok(c) => r matches Ok(x) && collections_view(x@) == c,
                Err(e) => r == Err::<Vec<CollectionInfo>, DeclarationError>(e),
            },
    {
        let mut discriminants: Vec<CollectionInfo> = Vec::new();
        let mut i: usize = 0;
        assert(collections_view(discriminants@) =~= Seq::<CollectionSpec>::empty());
        while i < variants.len()
            invariant
                0 <= i <= variants.len(),
                described_variants(
                    variants@,
                    strings_view(known@),
                    i as int,
                    collections_view(discriminants@),
                ) == described_variants(variants@, strings_view(known@), 0, Seq::empty()),
            decreases variants.len() - i,
        {
            let ghost before = collections_view(discriminants@);
            match describe_collection(
                &variants[i].name,
                &variants[i].pegex,
                &variants[i].fields,
                false,
                known,
            ) {
                Ok(collection) => {
                    let ghost model = collection@;
                    discriminants.push(collection);
                    assert(collections_view(discriminants@) =~= before.push(model));
                },
                Err(e) => {
                    return Err(e);
                },
            }
            i += 1;
        }
        Ok(discriminants)
    }
}

} // verus!
