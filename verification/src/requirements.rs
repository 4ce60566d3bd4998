//! How often a pattern can capture each field, checked against how often
//! the field's declaration allows it.

use crate::index::str_eq;
use crate::structure::{fields_view, CollectionInfo, FieldCardinality, FieldInfo, FieldSpec};
use vstd::prelude::*;

verus! {

/// Why a pattern does not fit the fields it captures.
#[derive(Copy, Clone, PartialEq, Eq, Debug, Structural)]
pub enum FieldError {
    /// The pattern names a field that the record does not have.
    NotFound,
    /// A field that is required exactly once could be captured more or less often.
    SingleNotOnce,
    /// A field that is optional could be captured more than once.
    OptionalRepeated,
    /// A field that is required is captured in one choice and not in another.
    ChoiceMismatch,
    /// A field that is required is not captured by the pattern.
    RequiredMissing,
}

/// The sum of two counts, held at the largest count where it would pass it.
pub open spec fn saturating_sum(a: usize, b: usize) -> usize {
    if a + b > usize::MAX {
        usize::MAX
    } else {
        (a + b) as usize
    }
}

/// The product of two counts, held at the largest count where it would pass it.
pub open spec fn saturating_product(a: usize, b: usize) -> usize {
    if a * b > usize::MAX {
        usize::MAX
    } else {
        (a * b) as usize
    }
}

/// What is wrong, if anything, with a field of the given cardinality that
/// an atom captures between `min` and `max` times, which brings its count
/// in the enclosing scope to between `new_min` and `new_max`.
pub open spec fn check_counts(
    cardinality: FieldCardinality,
    min: usize,
    max: usize,
    new_min: usize,
    new_max: usize,
) -> Result<(), FieldError> {
    match cardinality {
        FieldCardinality::Single => if new_max > 1 || new_min < 1 || min < 1 {
            Err(FieldError::SingleNotOnce)
        } else {
            Ok(())
        },
        FieldCardinality::Optional => if new_max > 1 {
            Err(FieldError::OptionalRepeated)
        } else {
            Ok(())
        },
        FieldCardinality::Many => Ok(()),
    }
}

/// The first field from position `from` on that is called `name`.
pub open spec fn field_index_from(fields: Seq<FieldSpec>, name: Seq<char>, from: int) -> Option<int>
    decreases fields.len() - from,
{
    if from < 0 || from >= fields.len() {
        None
    } else if fields[from].ident == name {
        Some(from)
    } else {
        field_index_from(fields, name, from + 1)
    }
}

/// A required field is counted in one of two choices and not in the other.
pub open spec fn required_differ(fields: Seq<FieldSpec>, expected: Counts, actual: Counts) -> bool {
    exists|i: int|
        0 <= i < fields.len() && fields[i].cardinality == FieldCardinality::Single && (
        #[trigger] expected.contains_key(i)) != actual.contains_key(i)
}

/// A required field is not counted at least once.
pub open spec fn required_uncounted(fields: Seq<FieldSpec>, counts: Counts) -> bool {
    exists|i: int|
        0 <= i < fields.len() && fields[i].cardinality == FieldCardinality::Single && !(
        #[trigger] counts.contains_key(i) && counts[i].0 > 0)
}

/// The counts of one scope of a pattern: for each field captured in it,
/// by its position in the record, the least and the greatest number of captures.
pub type Counts = Map<int, (usize, usize)>;

/// One open scope: the counts of its first choice, once that is complete,
/// and the counts of the choice that is being read.
pub struct Frame {
    pub baseline: Option<Counts>,
    pub current: Counts,
}

/// The model of [`FieldRequirements`]: the record's fields and the open
/// scopes, the innermost last.
pub struct Requirements {
    pub fields: Seq<FieldSpec>,
    pub stack: Seq<Frame>,
}

impl Requirements {
    /// The requirements at the start of a pattern for the given fields.
    pub open spec fn initial(fields: Seq<FieldSpec>) -> Requirements {
        Requirements { fields, stack: seq![Frame { baseline: None, current: Map::empty() }] }
    }

    /// The position of the first field called `name`.
    pub open spec fn field_index(self, name: Seq<char>) -> Option<int> {
        field_index_from(self.fields, name, 0)
    }

    pub open spec fn top(self) -> Frame {
        self.stack.last()
    }

    pub open spec fn with_top(self, frame: Frame) -> Requirements {
        Requirements { fields: self.fields, stack: self.stack.drop_last().push(frame) }
    }

    /// A required field is counted in the innermost scope's first choice
    /// and not in its current one, or the other way round.
    pub open spec fn choice_mismatch(self) -> bool {
        self.top().baseline is Some && required_differ(
            self.fields,
            self.top().baseline->0,
            self.top().current,
        )
    }

    pub open spec fn check_choice_difference(self) -> Result<(), FieldError> {
        if self.choice_mismatch() {
            Err(FieldError::ChoiceMismatch)
        } else {
            Ok(())
        }
    }

    /// Counts between `min` and `max` further captures of the field at
    /// position `field` in the innermost scope, unless any number is
    /// allowed of it, and checks the new count.
    pub open spec fn add_field_at(self, field: int, min: usize, max: usize) -> (
        Requirements,
        Result<(), FieldError>,
    ) {
        let cardinality = self.fields[field].cardinality;
        if cardinality == FieldCardinality::Many {
            (self, Ok(()))
        } else {
            let current = self.top().current;
            let (new_min, new_max) = if current.contains_key(field) {
                (saturating_sum(current[field].0, min), saturating_sum(current[field].1, max))
            } else {
                (min, max)
            };
            (
                self.with_top(
                    Frame {
                        baseline: self.top().baseline,
                        current: current.insert(field, (new_min, new_max)),
                    },
                ),
                check_counts(cardinality, min, max, new_min, new_max),
            )
        }
    }

    /// Counts between `min` and `max` further captures of the field called `name`.
    pub open spec fn add_field(self, name: Seq<char>, min: usize, max: usize) -> (
        Requirements,
        Result<(), FieldError>,
    ) {
        match self.field_index(name) {
            Some(field) => self.add_field_at(field, min, max),
            None => (self, Err(FieldError::NotFound)),
        }
    }

    pub open spec fn push_nested_expr(self) -> Requirements {
        Requirements {
            fields: self.fields,
            stack: self.stack.push(Frame { baseline: None, current: Map::empty() }),
        }
    }

    /// Counts the fields of a closed scope, from position `from` on, in
    /// the scope around it, each `min` to `max` times what it was counted inside.
    pub open spec fn merge_from(self, popped: Counts, from: int, min: usize, max: usize) -> (
        Requirements,
        Result<(), FieldError>,
    )
        decreases self.fields.len() - from,
    {
        if from < 0 || from >= self.fields.len() {
            (self, Ok(()))
        } else if popped.contains_key(from) {
            let (next, result) = self.add_field_at(
                from,
                saturating_product(popped[from].0, min),
                saturating_product(popped[from].1, max),
            );
            if result is Err {
                (next, result)
            } else {
                next.merge_from(popped, from + 1, min, max)
            }
        } else {
            self.merge_from(popped, from + 1, min, max)
        }
    }

    /// Closes the innermost scope, which is repeated `min` to `max` times.
    pub open spec fn pop_nested_expr(self, min: usize, max: usize) -> (
        Requirements,
        Result<(), FieldError>,
    ) {
        if self.choice_mismatch() {
            (self, Err(FieldError::ChoiceMismatch))
        } else {
            Requirements { fields: self.fields, stack: self.stack.drop_last() }.merge_from(
                self.top().current,
                0,
                min,
                max,
            )
        }
    }

    /// Ends the current choice of the innermost scope and starts the next.
    pub open spec fn add_choice_split(self) -> (Requirements, Result<(), FieldError>) {
        if self.choice_mismatch() {
            (self, Err(FieldError::ChoiceMismatch))
        } else {
            (
                self.with_top(
                    Frame {
                        baseline: match self.top().baseline {
                            Some(expected) => Some(expected),
                            None => Some(self.top().current),
                        },
                        current: Map::empty(),
                    },
                ),
                Ok(()),
            )
        }
    }

    /// A required field that the innermost scope does not count at least once.
    pub open spec fn required_missing(self) -> bool {
        required_uncounted(self.fields, self.top().current)
    }

    /// The check at the end of the pattern.
    pub open spec fn check_final_fields(self) -> Result<(), FieldError> {
        if self.choice_mismatch() {
            Err(FieldError::ChoiceMismatch)
        } else if self.required_missing() {
            Err(FieldError::RequiredMissing)
        } else {
            Ok(())
        }
    }
}

/// The sum of two counts, held at the largest count where it would pass it.
fn saturating_add(a: usize, b: usize) -> (r: usize)
    ensures
        r == saturating_sum(a, b),
{
    a.saturating_add(b)
}

/// The product of two counts, held at the largest count where it would pass it.
fn saturating_mul(a: usize, b: usize) -> (r: usize)
    ensures
        r == saturating_product(a, b),
{
    match a.checked_mul(b) {
        Some(v) => v,
        None => usize::MAX,
    }
}

/// field position, (min_instances, max_instances)
#[derive(Debug)]
pub struct FieldCounter(pub Vec<Option<(usize, usize)>>);

impl View for FieldCounter {
    type V = Counts;

    open spec fn view(&self) -> Counts {
        Map::new(
            |i: int| 0 <= i < self.0@.len() && self.0@[i] is Some,
            |i: int| self.0@[i]->0,
        )
    }
}

impl FieldCounter {
    /// A counter that has counted nothing.
    pub fn new() -> (r: Self)
        ensures
            r@ == Counts::empty(),
    {
        let r = Self(Vec::new());
        assert(r@ =~= Counts::empty());
        r
    }

    /// The counts of the field at position `field`, if it was counted.
    pub fn get(&self, field: usize) -> (r: Option<(usize, usize)>)
        ensures
            r == (if self@.contains_key(field as int) {
                Some(self@[field as int])
            } else {
                None
            }),
    {
        if field < self.0.len() {
            self.0[field]
        } else {
            None
        }
    }

    /// Sets the counts of the field at position `field`.
    pub fn set(&mut self, field: usize, min: usize, max: usize)
        ensures
            final(self)@ == old(self)@.insert(field as int, (min, max)),
    {
        while self.0.len() <= field
            invariant
                self@ == old(self)@,
            decreases field + 1 - self.0.len(),
        {
            let ghost before = self@;
            self.0.push(None);
            assert(self@ =~= before);
        }
        let ghost before = self@;
        self.0[field] = Some((min, max));
        assert(self@ =~= before.insert(field as int, (min, max)));
    }
}

/// The model of one scope as it is held.
pub open spec fn frame_view(frame: (Option<FieldCounter>, FieldCounter)) -> Frame {
    Frame {
        baseline: match frame.0 {
            Some(counter) => Some(counter@),
            None => None,
        },
        current: frame.1@,
    }
}

/// Which fields a record has, and how often the pattern read so far can
/// capture each of them.
pub struct FieldRequirements {
    pub fields: Vec<FieldInfo>,
    pub field_min_max_stack: Vec<(Option<FieldCounter>, FieldCounter)>,
}

impl View for FieldRequirements {
    type V = Requirements;

    open spec fn view(&self) -> Requirements {
        Requirements {
            fields: fields_view(self.fields@),
            stack: Seq::new(
                self.field_min_max_stack@.len(),
                |i: int| frame_view(self.field_min_max_stack@[i]),
            ),
        }
    }
}

impl FieldRequirements {
    /// The requirements at the start of the pattern of `collection`.
    pub fn new(collection: &CollectionInfo) -> (r: Self)
        ensures
            r@ == Requirements::initial(collection@.fields),
    {
        let mut fields: Vec<FieldInfo> = Vec::new();
        let mut i: usize = 0;
        while i < collection.fields.len()
            invariant
                0 <= i <= collection.fields.len(),
                fields@.len() == i,
                forall|j: int| 0 <= j < i ==> fields@[j]@ == collection.fields@[j]@,
            decreases collection.fields.len() - i,
        {
            fields.push(collection.fields[i].clone());
            i += 1;
        }
        let mut stack: Vec<(Option<FieldCounter>, FieldCounter)> = Vec::new();
        stack.push((None, FieldCounter::new()));
        let r = Self { fields, field_min_max_stack: stack };
        assert(r@.fields =~= collection@.fields);
        assert(r@.stack =~= Requirements::initial(collection@.fields).stack);
        r
    }

    /// The position of the first field called `name`.
    pub fn field_index(&self, name: &str) -> (r: Option<usize>)
        ensures
            match r {
                Some(i) => self@.field_index(name@) == Some(i as int) && i < self@.fields.len(),
                None => self@.field_index(name@) is None,
            },
    {
        let mut i: usize = 0;
        while i < self.fields.len()
            invariant
                0 <= i <= self.fields.len(),
                field_index_from(self@.fields, name@, i as int) == self@.field_index(name@),
            decreases self.fields.len() - i,
        {
            if str_eq(self.fields[i].ident.as_str(), name) {
                return Some(i);
            }
            i += 1;
        }
        None
    }

    fn check_field(
        &self,
        field: usize,
        min: usize,
        max: usize,
        new_min: usize,
        new_max: usize,
    ) -> (r: Result<(), FieldError>)
        requires
            field < self.fields@.len(),
        ensures
            r == check_counts(self@.fields[field as int].cardinality, min, max, new_min, new_max),
    {
        match self.fields[field].cardinality {
            FieldCardinality::Single => if new_max > 1 || new_min < 1 || min < 1 {
                Err(FieldError::SingleNotOnce)
            } else {
                Ok(())
            },
            FieldCardinality::Optional => if new_max > 1 {
                Err(FieldError::OptionalRepeated)
            } else {
                Ok(())
            },
            FieldCardinality::Many => Ok(()),
        }
    }

    fn check_choice_difference(&self) -> (r: Result<(), FieldError>)
        requires
            self@.stack.len() > 0,
        ensures
            r == self@.check_choice_difference(),
    {
        let top = &self.field_min_max_stack[self.field_min_max_stack.len() - 1];
        assert(self@.top() == frame_view(*top));
        if let Some(expected) = &top.0 {
            let mut i: usize = 0;
            while i < self.fields.len()
                invariant
                    0 <= i <= self.fields.len(),
                    self@.stack.len() > 0,
                    self@.top().baseline == Some(expected@),
                    self@.top().current == top.1@,
                    forall|j: int|
                        0 <= j < i ==> !(self@.fields[j].cardinality == FieldCardinality::Single
                            && (#[trigger] expected@.contains_key(j)) != top.1@.contains_key(j)),
                decreases self.fields.len() - i,
            {
                if self.fields[i].cardinality == FieldCardinality::Single && expected.get(
                    i,
                ).is_some() != top.1.get(i).is_some() {
                    assert(self@.fields[i as int].cardinality == FieldCardinality::Single);
                    assert(expected@.contains_key(i as int) != top.1@.contains_key(i as int));
                    assert(required_differ(self@.fields, expected@, top.1@));
                    return Err(FieldError::ChoiceMismatch);
                }
                i += 1;
            }
        }
        Ok(())
    }

    /// Counts between `min` and `max` further captures of the field at
    /// position `field`.
    pub fn add_field_at(&mut self, field: usize, min: usize, max: usize) -> (r: Result<
        (),
        FieldError,
    >)
        requires
            old(self)@.stack.len() > 0,
            field < old(self)@.fields.len(),
        ensures
            (final(self)@, r) == old(self)@.add_field_at(field as int, min, max),
            final(self)@.fields == old(self)@.fields,
            final(self)@.stack.len() == old(self)@.stack.len(),
    {
        if self.fields[field].cardinality == FieldCardinality::Many {
            return Ok(());  // Variable fields can have any count of fields
        }
        let ghost before = self@;
        let (baseline, mut current) = self.field_min_max_stack.pop().unwrap();
        assert(frame_view((baseline, current)) == before.top());
        let (new_min, new_max) = match current.get(field) {
            Some((curr_min, curr_max)) => (
                saturating_add(curr_min, min),
                saturating_add(curr_max, max),
            ),
            None => (min, max),
        };
        current.set(field, new_min, new_max);
        self.field_min_max_stack.push((baseline, current));
        assert(self@.stack =~= before.add_field_at(field as int, min, max).0.stack);
        self.check_field(field, min, max, new_min, new_max)
    }

    /// Counts between `min` and `max` further captures of the field called
    /// `field_name`. Fails where the record has no such field, and where
    /// the new count is not allowed of the field.
    pub fn add_field(&mut self, field_name: String, min: usize, max: usize) -> (r: Result<
        (),
        FieldError,
    >)
        requires
            old(self)@.stack.len() > 0,
        ensures
            (final(self)@, r) == old(self)@.add_field(field_name@, min, max),
    {
        let found = self.field_index(field_name.as_str());
        match found {
            Some(field) => {
                assert(self@.field_index(field_name@) == Some(field as int));
                self.add_field_at(field, min, max)
            },
            None => {
                assert(self@.field_index(field_name@) is None);
                Err(FieldError::NotFound)
            },
        }
    }

    /// Opens a scope.
    pub fn push_nested_expr(&mut self)
        ensures
            final(self)@ == old(self)@.push_nested_expr(),
    {
        self.field_min_max_stack.push((None, FieldCounter::new()));
        assert(self@.stack =~= old(self)@.push_nested_expr().stack);
    }

    /// Closes the innermost scope, which is repeated `min` to `max` times:
    /// counts each of its fields that many times in the scope around it.
    pub fn pop_nested_expr(&mut self, min: usize, max: usize) -> (r: Result<(), FieldError>)
        requires
            old(self)@.stack.len() > 1,
        ensures
            (final(self)@, r) == old(self)@.pop_nested_expr(min, max),
            final(self)@.fields == old(self)@.fields,
            r is Ok ==> final(self)@.stack.len() == old(self)@.stack.len() - 1,
    {
        // First, check the existing choice against expected choice (if applicable)
        if let Err(e) = self.check_choice_difference() {
            return Err(e);
        }
        let ghost before = self@;
        let popped_expr_counter = self.field_min_max_stack.pop().unwrap().1;
        assert(popped_expr_counter@ == before.top().current);
        assert(self@.stack =~= before.stack.drop_last());
        let mut field: usize = 0;
        while field < self.fields.len()
            invariant
                0 <= field <= self.fields.len(),
                before == old(self)@,
                !before.choice_mismatch(),
                self@.stack.len() == before.stack.len() - 1,
                self@.stack.len() > 0,
                self@.fields == before.fields,
                self@.merge_from(popped_expr_counter@, field as int, min, max)
                    == before.pop_nested_expr(min, max),
            decreases self.fields.len() - field,
        {
            if let Some((field_min, field_max)) = popped_expr_counter.get(field) {
                if let Err(e) = self.add_field_at(
                    field,
                    saturating_mul(field_min, min),
                    saturating_mul(field_max, max),
                ) {
                    return Err(e);
                }
            }
            field += 1;
        }
        Ok(())
    }

    /// Ends the current choice of the innermost scope and starts the next.
    /// Fails where the choice that ends captures other required fields
    /// than the scope's first choice.
    pub fn add_choice_split(&mut self) -> (r: Result<(), FieldError>)
        requires
            old(self)@.stack.len() > 0,
        ensures
            (final(self)@, r) == old(self)@.add_choice_split(),
            final(self)@.fields == old(self)@.fields,
            final(self)@.stack.len() == old(self)@.stack.len(),
    {
        if let Err(e) = self.check_choice_difference() {
            return Err(e);
        }
        let ghost before = self@;
        let (baseline, current) = self.field_min_max_stack.pop().unwrap();
        assert(frame_view((baseline, current)) == before.top());
        let kept = match baseline {
            Some(expected) => Some(expected),
            None => Some(current),
        };
        self.field_min_max_stack.push((kept, FieldCounter::new()));
        assert(self@.stack =~= before.add_choice_split().0.stack);
        Ok(())
    }

    /// The check at the end of the pattern: the last choice fits the
    /// first, and every required field is captured.
    pub fn check_final_fields(&self) -> (r: Result<(), FieldError>)
        requires
            self@.stack.len() == 1,
        ensures
            r == self@.check_final_fields(),
    {
        if let Err(e) = self.check_choice_difference() {
            return Err(e);
        }
        let field_counter = &self.field_min_max_stack[self.field_min_max_stack.len() - 1].1;
        assert(self@.top() == frame_view(self.field_min_max_stack@[0]));
        // Now check to ensure all required fields exist
        let mut i: usize = 0;
        while i < self.fields.len()
            invariant
                0 <= i <= self.fields.len(),
                self@.stack.len() == 1,
                !self@.choice_mismatch(),
                self@.top().current == field_counter@,
                forall|j: int|
                    0 <= j < i ==> !(self@.fields[j].cardinality == FieldCardinality::Single && !(
                    #[trigger] field_counter@.contains_key(j) && field_counter@[j].0 > 0)),
            decreases self.fields.len() - i,
        {
            if self.fields[i].cardinality == FieldCardinality::Single {
                let counted = match field_counter.get(i) {
                    Some((field_min, _)) => field_min > 0,
                    None => false,
                };
                if !counted {
                    assert(self@.fields[i as int].cardinality == FieldCardinality::Single);
                    assert(!(field_counter@.contains_key(i as int) && field_counter@[i as int].0
                        > 0));
                    assert(required_uncounted(self@.fields, field_counter@));
                    return Err(FieldError::RequiredMissing);
                }
            }
            i += 1;
        }
        Ok(())
    }
}

/// Where a field is found by its name, it is found among the fields.
pub proof fn lemma_field_index_from(fields: Seq<FieldSpec>, name: Seq<char>, from: int)
    requires
        0 <= from,
    ensures
        field_index_from(fields, name, from) matches Some(i) ==> from <= i < fields.len()
            && fields[i].ident == name,
    decreases fields.len() - from,
{
    if from < fields.len() && fields[from].ident != name {
        lemma_field_index_from(fields, name, from + 1);
    }
}

/// A field that is required exactly once can be captured only by an
/// atom that matches exactly once: with any other repetition, such as
/// `?`, `*`, `+` or `{0,n}`, counting the field fails.
pub proof fn law_single_field_is_captured_once(
    reqs: Requirements,
    name: Seq<char>,
    min: usize,
    max: usize,
)
    requires
        reqs.field_index(name) matches Some(i) && reqs.fields[i].cardinality
            == FieldCardinality::Single,
        min <= max,
        min != 1 || max != 1,
    ensures
        reqs.add_field(name, min, max).1 == Err::<(), FieldError>(FieldError::SingleNotOnce),
{
    lemma_field_index_from(reqs.fields, name, 0);
}

/// A field that is optional cannot be captured by an atom that can
/// match more than once.
pub proof fn law_optional_field_is_captured_at_most_once(
    reqs: Requirements,
    name: Seq<char>,
    min: usize,
    max: usize,
)
    requires
        reqs.field_index(name) matches Some(i) && reqs.fields[i].cardinality
            == FieldCardinality::Optional,
        max > 1,
    ensures
        reqs.add_field(name, min, max).1 == Err::<(), FieldError>(FieldError::OptionalRepeated),
{
    lemma_field_index_from(reqs.fields, name, 0);
}

/// A field that may be captured any number of times is never refused
/// and never counted.
pub proof fn law_many_field_is_unchecked(
    reqs: Requirements,
    name: Seq<char>,
    min: usize,
    max: usize,
)
    requires
        reqs.field_index(name) matches Some(i) && reqs.fields[i].cardinality
            == FieldCardinality::Many,
    ensures
        reqs.add_field(name, min, max) == (reqs, Ok::<(), FieldError>(())),
{
    lemma_field_index_from(reqs.fields, name, 0);
}

/// Where a choice captures a required field that the first choice of
/// its scope does not capture, or the other way round, the choice
/// cannot be ended: not by the next choice, not by the end of the scope,
/// and not by the end of the pattern.
pub proof fn law_choices_capture_the_same_required_fields(
    reqs: Requirements,
    field: int,
    min: usize,
    max: usize,
)
    requires
        0 <= field < reqs.fields.len(),
        reqs.fields[field].cardinality == FieldCardinality::Single,
        reqs.top().baseline matches Some(first) && first.contains_key(field)
            != reqs.top().current.contains_key(field),
    ensures
        reqs.add_choice_split() == (reqs, Err::<(), FieldError>(FieldError::ChoiceMismatch)),
        reqs.pop_nested_expr(min, max) == (reqs, Err::<(), FieldError>(FieldError::ChoiceMismatch)),
        reqs.check_final_fields() == Err::<(), FieldError>(FieldError::ChoiceMismatch),
{
    assert(reqs.top().baseline->0.contains_key(field) != reqs.top().current.contains_key(field));
    assert(required_differ(reqs.fields, reqs.top().baseline->0, reqs.top().current));
}

} // verus!


