//! From the description of a type to what matches it: the compiled
//! pattern of each of its alternatives and of each of their fields.

use crate::compile::{
    compile_expression, compiled, CompileError, CompileErrorKind, CompileFailure,
};
use crate::index::{str_eq, Position};
use crate::pattern::{Expression, ExpressionSpec};
use crate::requirements::FieldRequirements;
use crate::structure::{
    collections_view, fields_view, CollectionInfo, CollectionSpec, DeriveInfo, EnumInfo,
    FieldCardinality, FieldInfo, FieldSpec, LeafType, TypeSpec,
};
use vstd::prelude::*;

verus! {

/// How the text of one field is read.
#[derive(Debug)]
pub struct FieldMatcher {
    /// What the field's text must match; the value is read from the match alone.
    pub restriction: Option<Expression>,
    pub leaf: LeafType,
    pub cardinality: FieldCardinality,
}

/// The model of a [`FieldMatcher`].
pub struct FieldMatcherSpec {
    pub restriction: Option<ExpressionSpec>,
    pub leaf: LeafType,
    pub cardinality: FieldCardinality,
}

impl View for FieldMatcher {
    type V = FieldMatcherSpec;

    open spec fn view(&self) -> FieldMatcherSpec {
        FieldMatcherSpec {
            restriction: match self.restriction {
                Some(e) => Some(e@),
                None => None,
            },
            leaf: self.leaf,
            cardinality: self.cardinality,
        }
    }
}

/// The models of a list of field matchers, in order.
pub open spec fn field_matchers_view(fields: Seq<FieldMatcher>) -> Seq<FieldMatcherSpec> {
    Seq::new(fields.len(), |i: int| fields[i]@)
}

/// What matches a struct or one discriminant of an enum.
#[derive(Debug)]
pub struct CollectionMatcher {
    pub expression: Expression,
    pub fields: Vec<FieldMatcher>,
}

/// The model of a [`CollectionMatcher`].
pub struct CollectionMatcherSpec {
    pub expression: ExpressionSpec,
    pub fields: Seq<FieldMatcherSpec>,
}

impl View for CollectionMatcher {
    type V = CollectionMatcherSpec;

    open spec fn view(&self) -> CollectionMatcherSpec {
        CollectionMatcherSpec {
            expression: self.expression@,
            fields: field_matchers_view(self.fields@),
        }
    }
}

/// The models of a list of collection matchers, in order.
pub open spec fn collection_matchers_view(variants: Seq<CollectionMatcher>) -> Seq<
    CollectionMatcherSpec,
> {
    Seq::new(variants.len(), |i: int| variants[i]@)
}

/// What matches a type: its alternatives, tried in order.
#[derive(Debug)]
pub struct TypeMatcher {
    pub is_enum: bool,
    pub variants: Vec<CollectionMatcher>,
}

/// The model of a [`TypeMatcher`].
pub struct TypeMatcherSpec {
    pub is_enum: bool,
    pub variants: Seq<CollectionMatcherSpec>,
}

impl View for TypeMatcher {
    type V = TypeMatcherSpec;

    open spec fn view(&self) -> TypeMatcherSpec {
        TypeMatcherSpec {
            is_enum: self.is_enum,
            variants: collection_matchers_view(self.variants@),
        }
    }
}

/// The models of a list of type matchers, in order.
pub open spec fn type_matchers_view(types: Seq<TypeMatcher>) -> Seq<TypeMatcherSpec> {
    Seq::new(types.len(), |i: int| types[i]@)
}

/// The expression that a field's own pattern makes. Such a pattern
/// captures no field.
pub open spec fn field_pattern(pegex: Seq<char>) -> Result<ExpressionSpec, CompileFailure> {
    compiled(pegex, Seq::empty(), false)
}

/// The matcher of a field.
pub open spec fn field_matcher(field: FieldSpec) -> Result<FieldMatcherSpec, CompileFailure> {
    match field.pegex {
        None => Ok(
            FieldMatcherSpec {
                restriction: None,
                leaf: field.leaf,
                cardinality: field.cardinality,
            },
        ),
        Some(pegex) => match field_pattern(pegex) {
            Err(e) => Err(e),
            Ok(expression) => Ok(
                FieldMatcherSpec {
                    restriction: Some(expression),
                    leaf: field.leaf,
                    cardinality: field.cardinality,
                },
            ),
        },
    }
}

/// The matchers of the fields from position `from` on, behind the
/// matchers `done` of the fields before; the first field whose pattern
/// is refused decides.
pub open spec fn field_matchers_from(
    fields: Seq<FieldSpec>,
    from: int,
    done: Seq<FieldMatcherSpec>,
) -> Result<Seq<FieldMatcherSpec>, CompileFailure>
    decreases fields.len() - from,
{
    if from < 0 || from >= fields.len() {
        Ok(done)
    } else {
        match field_matcher(fields[from]) {
            Err(e) => Err(e),
            Ok(matcher) => field_matchers_from(fields, from + 1, done.push(matcher)),
        }
    }
}

/// Two of the fields have the same name.
pub open spec fn has_duplicate_names(fields: Seq<FieldSpec>) -> bool {
    exists|i: int, j: int|
        0 <= i < j < fields.len() && (#[trigger] fields[i]).ident == (#[trigger] fields[j]).ident
}

/// The matcher of a struct or of one discriminant of an enum. The names
/// of the fields are looked at first, then the fields' own patterns in
/// order, then the pattern of the whole.
pub open spec fn collection_matcher(collection: CollectionSpec) -> Result<
    CollectionMatcherSpec,
    CompileFailure,
> {
    if has_duplicate_names(collection.fields) {
        Err(
            CompileFailure {
                kind: CompileErrorKind::DuplicateField,
                at: Position { lineno: 0, colno: 0 },
            },
        )
    } else {
        match field_matchers_from(collection.fields, 0, Seq::empty()) {
            Err(e) => Err(e),
            Ok(fields) => match compiled(collection.pegex, collection.fields, true) {
                Err(e) => Err(e),
                Ok(expression) => Ok(CollectionMatcherSpec { expression, fields }),
            },
        }
    }
}

/// The matchers of the collections from position `from` on, behind the
/// matchers `done` of those before; the first that is refused decides.
pub open spec fn collection_matchers_from(
    collections: Seq<CollectionSpec>,
    from: int,
    done: Seq<CollectionMatcherSpec>,
) -> Result<Seq<CollectionMatcherSpec>, CompileFailure>
    decreases collections.len() - from,
{
    if from < 0 || from >= collections.len() {
        Ok(done)
    } else {
        match collection_matcher(collections[from]) {
            Err(e) => Err(e),
            Ok(matcher) => collection_matchers_from(collections, from + 1, done.push(matcher)),
        }
    }
}

/// The matcher of a type.
pub open spec fn type_matcher(info: TypeSpec) -> Result<TypeMatcherSpec, CompileFailure> {
    match collection_matchers_from(info.variants, 0, Seq::empty()) {
        Err(e) => Err(e),
        Ok(variants) => Ok(TypeMatcherSpec { is_enum: info.is_enum, variants }),
    }
}

/// Compiles the pattern of a field. Such a pattern captures no field.
pub fn derive_single_field_steps(pegex: &str) -> (r: Result<Expression, CompileError>)
    ensures
        match field_pattern(pegex@) {
            Ok(e) => r matches Ok(x) && x@ == e,
            Err(e) => r matches Err(x) && x@ == e,
        },
        r matches Ok(x) ==> x@.is_well_formed(),
{
    let nothing = CollectionInfo { name: String::new(), pegex: String::new(), fields: Vec::new() };
    assert(nothing@.fields =~= Seq::<FieldSpec>::empty());
    let requirements = FieldRequirements::new(&nothing);
    compile_expression(pegex, requirements, false)
}

/// Builds the matcher of a field: its own pattern, if it has one, and
/// how its value is read.
pub fn derive_single_field_fns(field: &FieldInfo) -> (r: Result<FieldMatcher, CompileError>)
    ensures
        match field_matcher(field@) {
            Ok(m) => r matches Ok(x) && x@ == m,
            Err(e) => r matches Err(x) && x@ == e,
        },
{
    match &field.pegex {
        Some(pegex) => match derive_single_field_steps(pegex.as_str()) {
            Ok(expression) => Ok(
                FieldMatcher {
                    restriction: Some(expression),
                    leaf: field.leaf,
                    cardinality: field.cardinality,
                },
            ),
            Err(e) => Err(e),
        },
        None => Ok(
            FieldMatcher { restriction: None, leaf: field.leaf, cardinality: field.cardinality },
        ),
    }
}

/// Whether two of the fields have the same name.
pub fn duplicate_names(fields: &Vec<FieldInfo>) -> (r: bool)
    ensures
        r == has_duplicate_names(fields_view(fields@)),
{
    let ghost specs = fields_view(fields@);
    let mut j: usize = 0;
    while j < fields.len()
        invariant
            0 <= j <= fields.len(),
            specs == fields_view(fields@),
            forall|a: int, b: int|
                0 <= a < b < j ==> (#[trigger] specs[a]).ident != (#[trigger] specs[b]).ident,
        decreases fields.len() - j,
    {
        let mut i: usize = 0;
        while i < j
            invariant
                0 <= i <= j < fields.len(),
                specs == fields_view(fields@),
                forall|a: int| 0 <= a < i ==> (#[trigger] specs[a]).ident != specs[j as int].ident,
            decreases j - i,
        {
            if str_eq(fields[i].ident.as_str(), fields[j].ident.as_str()) {
                assert(specs[i as int].ident == specs[j as int].ident);
                return true;
            }
            i += 1;
        }
        j += 1;
    }
    false
}

/// Builds the matchers of the fields, in order.
fn derive_field_matchers(fields: &Vec<FieldInfo>) -> (r: Result<Vec<FieldMatcher>, CompileError>)
    ensures
        match field_matchers_from(fields_view(fields@), 0, Seq::empty()) {
            Ok(m) => r matches Ok(x) && field_matchers_view(x@) == m,
            Err(e) => r matches Err(x) && x@ == e,
        },
{
    let ghost specs = fields_view(fields@);
    let mut field_steps: Vec<FieldMatcher> = Vec::new();
    let mut i: usize = 0;
    assert(field_matchers_view(field_steps@) =~= Seq::<FieldMatcherSpec>::empty());
    while i < fields.len()
        invariant
            0 <= i <= fields.len(),
            specs == fields_view(fields@),
            field_matchers_from(specs, i as int, field_matchers_view(field_steps@))
                == field_matchers_from(specs, 0, Seq::empty()),
        decreases fields.len() - i,
    {
        let ghost before = field_matchers_view(field_steps@);
        assert(specs[i as int] == fields@[i as int]@);
        match derive_single_field_fns(&fields[i]) {
            Ok(matcher) => {
                let ghost model = matcher@;
                field_steps.push(matcher);
                assert(field_matchers_view(field_steps@) =~= before.push(model));
            },
            Err(e) => {
                return Err(e);
            },
        }
        i += 1;
    }
    Ok(field_steps)
}

/// Builds the matcher of a struct or of one discriminant of an enum.
pub fn derive_fields_steps(collection: &CollectionInfo) -> (r: Result<
    CollectionMatcher,
    CompileError,
>)
    ensures
        match collection_matcher(collection@) {
            Ok(m) => r matches Ok(x) && x@ == m,
            Err(e) => r matches Err(x) && x@ == e,
        },
{
    if duplicate_names(&collection.fields) {
        return Err(CompileError { kind: CompileErrorKind::DuplicateField, lineno: 0, colno: 0 });
    }
    let requirements = FieldRequirements::new(collection);
    let field_steps = match derive_field_matchers(&collection.fields) {
        Ok(found) => found,
        Err(e) => {
            return Err(e);
        },
    };
    match compile_expression(collection.pegex.as_str(), requirements, true) {
        Ok(expression) => Ok(CollectionMatcher { expression, fields: field_steps }),
        Err(e) => Err(e),
    }
}

/// Builds the matchers of the discriminants of an enum, in order.
pub fn derive_enum_steps(discriminants: &Vec<CollectionInfo>) -> (r: Result<
    Vec<CollectionMatcher>,
    CompileError,
>)
    ensures
        match collection_matchers_from(
            collections_view(discriminants@),
            0,
            Seq::empty(),
        ) {
            Ok(m) => r matches Ok(x) && collection_matchers_view(x@) == m,
            Err(e) => r matches Err(x) && x@ == e,
        },
{
    let ghost specs = collections_view(discriminants@);
    let mut variants: Vec<CollectionMatcher> = Vec::new();
    let mut i: usize = 0;
    assert(collection_matchers_view(variants@) =~= Seq::<CollectionMatcherSpec>::empty());
    while i < discriminants.len()
        invariant
            0 <= i <= discriminants.len(),
            specs == collections_view(discriminants@),
            collection_matchers_from(specs, i as int, collection_matchers_view(variants@))
                == collection_matchers_from(specs, 0, Seq::empty()),
        decreases discriminants.len() - i,
    {
        let ghost before = collection_matchers_view(variants@);
        assert(specs[i as int] == discriminants@[i as int]@);
        match derive_fields_steps(&discriminants[i]) {
            Ok(matcher) => {
                let ghost model = matcher@;
                variants.push(matcher);
                assert(collection_matchers_view(variants@) =~= before.push(model));
            },
            Err(e) => {
                return Err(e);
            },
        }
        i += 1;
    }
    Ok(variants)
}

/// Builds the matcher of an enum: its discriminants are tried in order.
pub fn derive_enum(e: &EnumInfo) -> (r: Result<TypeMatcher, CompileError>)
    ensures
        match type_matcher(
            TypeSpec {
                name: e.name@,
                is_enum: true,
                variants: collections_view(e.discriminants@),
            },
        ) {
            Ok(m) => r matches Ok(x) && x@ == m,
            Err(e) => r matches Err(x) && x@ == e,
        },
{
    match derive_enum_steps(&e.discriminants) {
        Ok(variants) => Ok(TypeMatcher { is_enum: true, variants }),
        Err(e) => Err(e),
    }
}

/// Builds the matcher of a struct.
fn derive_struct(struct_info: &CollectionInfo) -> (r: Result<TypeMatcher, CompileError>)
    ensures
        match type_matcher(
            TypeSpec { name: struct_info@.name, is_enum: false, variants: seq![struct_info@] },
        ) {
            Ok(m) => r matches Ok(x) && x@ == m,
            Err(e) => r matches Err(x) && x@ == e,
        },
{
    let ghost one = seq![struct_info@];
    assert(collection_matchers_from(one, 0, Seq::empty()) == match collection_matcher(
        struct_info@,
    ) {
        Err(e) => Err(e),
        Ok(m) => collection_matchers_from(one, 1, Seq::empty().push(m)),
    });
    match derive_fields_steps(struct_info) {
        Ok(matcher) => {
            let ghost model = matcher@;
            let mut variants: Vec<CollectionMatcher> = Vec::new();
            variants.push(matcher);
            assert(collection_matchers_view(variants@) =~= Seq::empty().push(model));
            Ok(TypeMatcher { is_enum: false, variants })
        },
        Err(e) => Err(e),
    }
}

/// Builds the matcher of a struct with named fields.
pub fn derive_named_struct(struct_info: &CollectionInfo) -> (r: Result<TypeMatcher, CompileError>)
    ensures
        match type_matcher(
            TypeSpec { name: struct_info@.name, is_enum: false, variants: seq![struct_info@] },
        ) {
            Ok(m) => r matches Ok(x) && x@ == m,
            Err(e) => r matches Err(x) && x@ == e,
        },
{
    derive_struct(struct_info)
}

/// Builds the matcher of a struct with unnamed fields, which are named
/// by their positions.
pub fn derive_unnamed_struct(struct_info: &CollectionInfo) -> (r: Result<
    TypeMatcher,
    CompileError,
>)
    ensures
        match type_matcher(
            TypeSpec { name: struct_info@.name, is_enum: false, variants: seq![struct_info@] },
        ) {
            Ok(m) => r matches Ok(x) && x@ == m,
            Err(e) => r matches Err(x) && x@ == e,
        },
{
    derive_struct(struct_info)
}

/// Builds the matcher of a type.
pub fn derive_peg_parse(derive_info: &DeriveInfo) -> (r: Result<TypeMatcher, CompileError>)
    ensures
        match type_matcher(derive_info@) {
            Ok(m) => r matches Ok(x) && x@ == m,
            Err(e) => r matches Err(x) && x@ == e,
        },
{
    match derive_info {
        DeriveInfo::NamedStruct(st) => derive_named_struct(st),
        DeriveInfo::UnnamedStruct(st) => derive_unnamed_struct(st),
        DeriveInfo::Enum(e) => derive_enum(e),
    }
}

/// The matchers of a set of types. A field that holds a record names the
/// record's type by its position here.
#[derive(Debug)]
pub struct Grammar {
    pub types: Vec<TypeMatcher>,
}

impl View for Grammar {
    type V = Seq<TypeMatcherSpec>;

    open spec fn view(&self) -> Seq<TypeMatcherSpec> {
        type_matchers_view(self.types@)
    }
}

/// The models of a list of type descriptions, in order.
pub open spec fn types_view(types: Seq<DeriveInfo>) -> Seq<TypeSpec> {
    Seq::new(types.len(), |i: int| types[i]@)
}

/// The matchers of the types from position `from` on, behind the
/// matchers `done` of those before; the first that is refused decides.
pub open spec fn type_matchers_from(
    types: Seq<TypeSpec>,
    from: int,
    done: Seq<TypeMatcherSpec>,
) -> Result<Seq<TypeMatcherSpec>, CompileFailure>
    decreases types.len() - from,
{
    if from < 0 || from >= types.len() {
        Ok(done)
    } else {
        match type_matcher(types[from]) {
            Err(e) => Err(e),
            Ok(matcher) => type_matchers_from(types, from + 1, done.push(matcher)),
        }
    }
}

impl Grammar {
    /// Builds the matchers of the given types, in order.
    pub fn compile(types: &Vec<DeriveInfo>) -> (r: Result<Grammar, CompileError>)
        ensures
            match type_matchers_from(types_view(types@), 0, Seq::empty()) {
                Ok(m) => r matches Ok(x) && x@ == m,
                Err(e) => r matches Err(x) && x@ == e,
            },
    {
        let ghost specs = types_view(types@);
        let mut matchers: Vec<TypeMatcher> = Vec::new();
        let mut i: usize = 0;
        assert(type_matchers_view(matchers@) =~= Seq::<TypeMatcherSpec>::empty());
        while i < types.len()
            invariant
                0 <= i <= types.len(),
                specs == types_view(types@),
                type_matchers_from(specs, i as int, type_matchers_view(matchers@))
                    == type_matchers_from(specs, 0, Seq::empty()),
            decreases types.len() - i,
        {
            let ghost before = type_matchers_view(matchers@);
            assert(specs[i as int] == types@[i as int]@);
            match derive_peg_parse(&types[i]) {
                Ok(matcher) => {
                    let ghost model = matcher@;
                    matchers.push(matcher);
                    assert(type_matchers_view(matchers@) =~= before.push(model));
                },
                Err(e) => {
                    return Err(e);
                },
            }
            i += 1;
        }
        Ok(Grammar { types: matchers })
    }
}

} // verus!

