//! Values that can be read from the start of a text: the [`Parse`] trait
//! and its implementations for booleans, integers, characters and strings.

use crate::index::{lemma_is_after_trans, Cursor, Index, ParseError, Position};
use vstd::prelude::*;

verus! {

/// A parse result agrees with its model: the same value and end on
/// success, the same position on failure.
pub open spec fn models<'a, T: View>(
    r: Result<(T, Index<'a>), ParseError>,
    m: Result<(T::V, Cursor), Position>,
) -> bool {
    match (r, m) {
        (Ok((v, end)), Ok((mv, mend))) => v@ == mv && end@ == mend,
        (Err(e), Err(p)) => e@ == p,
        _ => false,
    }
}

pub open spec fn is_digit(c: char) -> bool {
    '0' <= c && c <= '9'
}

/// The number that a decimal digit stands for.
pub open spec fn digit_value(c: char) -> nat {
    (c as u32 - 0x30) as nat
}

/// Reads decimal digits from `cur` on top of the value `acc` read so far
/// (`None` before the first digit). Fails at a digit that would take the
/// value above `max`, and where there is no digit at all.
pub open spec fn unsigned_digits(cur: Cursor, acc: Option<nat>, max: nat) -> Result<
    (nat, Cursor),
    Position,
>
    decreases cur.remaining.len(),
{
    if cur.remaining.len() > 0 && is_digit(cur.remaining[0]) {
        let value = (match acc {
            Some(v) => v,
            None => 0,
        }) * 10 + digit_value(cur.remaining[0]);
        if value > max {
            Err(cur.position())
        } else {
            unsigned_digits(cur.advance(), Some(value), max)
        }
    } else {
        match acc {
            Some(v) => Ok((v, cur)),
            None => Err(cur.position()),
        }
    }
}

/// An unsigned decimal number of at most `max` at the start of the text:
/// a single `0` that no digit follows, or digits that do not begin with `0`.
pub open spec fn unsigned_model(cur: Cursor, max: nat) -> Result<(nat, Cursor), Position> {
    if cur.peek() == Some('0') {
        let after = cur.advance();
        if after.remaining.len() > 0 && is_digit(after.remaining[0]) {
            Err(after.position())
        } else {
            Ok((0, after))
        }
    } else {
        unsigned_digits(cur, None, max)
    }
}

/// Reads decimal digits from `cur` on top of the value `acc` read so far,
/// counting downwards where `negative`. Fails at a digit that would take
/// the value out of `min ..= max`, and where there is no digit at all.
pub open spec fn signed_digits(
    cur: Cursor,
    acc: Option<int>,
    negative: bool,
    min: int,
    max: int,
) -> Result<(int, Cursor), Position>
    decreases cur.remaining.len(),
{
    if cur.remaining.len() > 0 && is_digit(cur.remaining[0]) {
        let shifted = (match acc {
            Some(v) => v,
            None => 0,
        }) * 10;
        let value = if negative {
            shifted - digit_value(cur.remaining[0])
        } else {
            shifted + digit_value(cur.remaining[0])
        };
        if value < min || value > max {
            Err(cur.position())
        } else {
            signed_digits(cur.advance(), Some(value), negative, min, max)
        }
    } else {
        match acc {
            Some(v) => Ok((v, cur)),
            None => Err(cur.position()),
        }
    }
}

/// A decimal number in `min ..= max` at the start of the text, with an
/// optional `-` in front: a single `0` that no digit follows, or digits
/// that do not begin with `0`.
pub open spec fn signed_model(cur: Cursor, min: int, max: int) -> Result<(int, Cursor), Position> {
    let negative = cur.peek() == Some('-');
    let body = if negative {
        cur.advance()
    } else {
        cur
    };
    if body.peek() == Some('0') {
        let after = body.advance();
        if after.remaining.len() > 0 && is_digit(after.remaining[0]) {
            Err(after.position())
        } else {
            Ok((0, after))
        }
    } else {
        signed_digits(body, None, negative, min, max)
    }
}

/// Reading digits never leads back: the cursor behind them has no more
/// text left than the cursor before them.
pub proof fn lemma_unsigned_digits_shrink(cur: Cursor, acc: Option<nat>, max: nat)
    ensures
        unsigned_digits(cur, acc, max) matches Ok((v, end)) ==> end.remaining.len()
            <= cur.remaining.len() && (v <= max || acc == Some(v)),
    decreases cur.remaining.len(),
{
    if cur.remaining.len() > 0 && is_digit(cur.remaining[0]) {
        let value = (match acc {
            Some(v) => v,
            None => 0,
        }) * 10 + digit_value(cur.remaining[0]);
        if value <= max {
            lemma_unsigned_digits_shrink(cur.advance(), Some(value), max);
        }
    }
}

/// Reading a number never leads back.
pub proof fn lemma_unsigned_model_shrink(cur: Cursor, max: nat)
    ensures
        unsigned_model(cur, max) matches Ok((v, end)) ==> end.remaining.len()
            <= cur.remaining.len() && v <= max,
{
    lemma_unsigned_digits_shrink(cur, None, max);
}

/// The value read so far, as a number.
pub open spec fn unsigned_so_far(value: Option<u128>) -> Option<nat> {
    match value {
        Some(v) => Some(v as nat),
        None => None,
    }
}

/// The value read so far, as a number.
pub open spec fn signed_so_far(value: Option<i128>) -> Option<int> {
    match value {
        Some(v) => Some(v as int),
        None => None,
    }
}

/// `num::Zero::zero` for `u128`: the number zero.
#[verifier::external_body]
fn zero_u128() -> (r: u128)
    ensures
        r == 0,
{
    num::Zero::zero()
}

/// `num::CheckedMul::checked_mul` for `u128`: the product, or `None` where
/// it does not fit the type.
#[verifier::external_body]
fn checked_mul_u128(a: u128, b: u128) -> (r: Option<u128>)
    ensures
        r == (if a * b <= u128::MAX {
            Some((a * b) as u128)
        } else {
            None
        }),
{
    num::CheckedMul::checked_mul(&a, &b)
}

/// `num::CheckedAdd::checked_add` for `u128`: the sum, or `None` where it
/// does not fit the type.
#[verifier::external_body]
fn checked_add_u128(a: u128, b: u128) -> (r: Option<u128>)
    ensures
        r == (if a + b <= u128::MAX {
            Some((a + b) as u128)
        } else {
            None
        }),
{
    num::CheckedAdd::checked_add(&a, &b)
}

/// `num::Zero::zero` for `i128`: the number zero.
#[verifier::external_body]
fn zero_i128() -> (r: i128)
    ensures
        r == 0,
{
    num::Zero::zero()
}

/// `num::CheckedMul::checked_mul` for `i128`: the product, or `None` where
/// it does not fit the type.
#[verifier::external_body]
fn checked_mul_i128(a: i128, b: i128) -> (r: Option<i128>)
    ensures
        r == (if i128::MIN <= a * b <= i128::MAX {
            Some((a * b) as i128)
        } else {
            None
        }),
{
    num::CheckedMul::checked_mul(&a, &b)
}

/// `num::CheckedAdd::checked_add` for `i128`: the sum, or `None` where it
/// does not fit the type.
#[verifier::external_body]
fn checked_add_i128(a: i128, b: i128) -> (r: Option<i128>)
    ensures
        r == (if i128::MIN <= a + b <= i128::MAX {
            Some((a + b) as i128)
        } else {
            None
        }),
{
    num::CheckedAdd::checked_add(&a, &b)
}

/// `num::CheckedSub::checked_sub` for `i128`: the difference, or `None`
/// where it does not fit the type.
#[verifier::external_body]
fn checked_sub_i128(a: i128, b: i128) -> (r: Option<i128>)
    ensures
        r == (if i128::MIN <= a - b <= i128::MAX {
            Some((a - b) as i128)
        } else {
            None
        }),
{
    num::CheckedSub::checked_sub(&a, &b)
}

/// The decimal digit at the start of the text, if there is one.
fn peek_digit(index: &Index<'_>) -> (r: Option<u8>)
    ensures
        r is Some <==> index@.remaining.len() > 0 && is_digit(index@.remaining[0]),
        r matches Some(d) ==> d == digit_value(index@.remaining[0]) && d <= 9,
{
    match index.peek() {
        Some(c) => {
            if c >= '0' && c <= '9' {
                let v = c as u32;
                Some((v - 0x30) as u8)
            } else {
                None
            }
        },
        None => None,
    }
}

/// Reads an unsigned decimal number of at most `max`.
pub fn parse_unsigned(index: Index<'_>, max: u128) -> (r: Result<(u128, Index<'_>), ParseError>)
    requires
        index@.wf(),
    ensures
        match unsigned_model(index@, max as nat) {
            Ok((v, end)) => r matches Ok((x, i)) && x == v && i@ == end,
            Err(p) => r matches Err(e) && e@ == p,
        },
        r matches Ok((x, i)) ==> x <= max && i@.wf() && i@.is_after(index@),
{
    let mut at = index;
    // Edge case: 0 (no leading zeros are allowed)
    if let Some('0') = at.peek() {
        let _ = at.next();
        return match peek_digit(&at) {
            Some(_) => Err(ParseError::from_index(at)),
            None => Ok((zero_u128(), at)),
        };
    }
    let mut value: Option<u128> = None;
    proof {
        assert(index@.remaining =~= index@.remaining.skip(0));
    }
    let mut digit = peek_digit(&at);
    // Match characters 0-9, checking for overflow
    while digit.is_some()
        invariant
            at@.wf(),
            at@.is_after(index@),
            index@.peek() != Some('0'),
            digit is Some <==> at@.remaining.len() > 0 && is_digit(at@.remaining[0]),
            digit matches Some(d) ==> d == digit_value(at@.remaining[0]) && d <= 9,
            unsigned_digits(at@, unsigned_so_far(value), max as nat) == unsigned_digits(
                index@,
                None,
                max as nat,
            ),
            value matches Some(v) ==> v <= max,
        decreases at@.remaining.len(),
    {
        let current = match value {
            Some(v) => v,
            None => zero_u128(),
        };
        let next = match (checked_mul_u128(current, 10), digit) {
            (Some(shifted), Some(d)) => checked_add_u128(shifted, d as u128),
            _ => None,
        };
        match next {
            Some(v) if v <= max => {
                value = Some(v);
            },
            _ => {
                // Next digit would lead to overflow
                return Err(ParseError::from_index(at));
            },
        }
        let ghost before = at@;
        let _ = at.next();
        proof {
            lemma_is_after_trans(index@, before, at@);
        }
        digit = peek_digit(&at);
    }
    // If value == None then no digits were detected--return an error
    match value {
        Some(v) => Ok((v, at)),
        None => Err(ParseError::from_index(at)),
    }
}

/// Reads a decimal number in `min ..= max`, with an optional `-` in front.
pub fn parse_signed(index: Index<'_>, min: i128, max: i128) -> (r: Result<
    (i128, Index<'_>),
    ParseError,
>)
    requires
        index@.wf(),
    ensures
        match signed_model(index@, min as int, max as int) {
            Ok((v, end)) => r matches Ok((x, i)) && x == v && i@ == end,
            Err(p) => r matches Err(e) && e@ == p,
        },
        r matches Ok((x, i)) ==> (x == 0 || min <= x <= max) && i@.wf() && i@.is_after(index@),
{
    let mut at = index;
    let mut is_negative = false;
    proof {
        assert(index@.remaining =~= index@.remaining.skip(0));
    }
    if let Some('-') = at.peek() {
        is_negative = true;
        let _ = at.next();
    }
    let ghost body = at@;
    // Edge case: 0 (no leading zeros are allowed)
    if let Some('0') = at.peek() {
        let _ = at.next();
        proof {
            lemma_is_after_trans(index@, body, at@);
        }
        return match peek_digit(&at) {
            Some(_) => Err(ParseError::from_index(at)),
            None => Ok((zero_i128(), at)),
        };
    }
    let mut value: Option<i128> = None;
    let mut digit = peek_digit(&at);
    // Match characters 0-9, checking for overflow
    while digit.is_some()
        invariant
            at@.wf(),
            at@.is_after(index@),
            is_negative == (index@.peek() == Some('-')),
            body == (if is_negative {
                index@.advance()
            } else {
                index@
            }),
            body.peek() != Some('0'),
            digit is Some <==> at@.remaining.len() > 0 && is_digit(at@.remaining[0]),
            digit matches Some(d) ==> d == digit_value(at@.remaining[0]) && d <= 9,
            signed_digits(at@, signed_so_far(value), is_negative, min as int, max as int)
                == signed_digits(body, None, is_negative, min as int, max as int),
            value matches Some(v) ==> min <= v <= max && (is_negative ==> v <= 0) && (!is_negative
                ==> v >= 0),
        decreases at@.remaining.len(),
    {
        let current = match value {
            Some(v) => v,
            None => zero_i128(),
        };
        let next = match (checked_mul_i128(current, 10), digit) {
            (Some(shifted), Some(d)) => if is_negative {
                checked_sub_i128(shifted, d as i128)
            } else {
                checked_add_i128(shifted, d as i128)
            },
            _ => None,
        };
        match next {
            Some(v) if min <= v && v <= max => {
                value = Some(v);
            },
            _ => {
                // Next digit would lead to overflow
                return Err(ParseError::from_index(at));
            },
        }
        let ghost before = at@;
        let _ = at.next();
        proof {
            lemma_is_after_trans(index@, before, at@);
        }
        digit = peek_digit(&at);
    }
    // If value == None then no digits were detected--return an error
    match value {
        Some(v) => Ok((v, at)),
        None => Err(ParseError::from_index(at)),
    }
}

/// A type with a value that can be read from the start of a text.
pub trait Parse: Sized + View {
    /// What reading a value at `cur` gives: the value and the cursor behind
    /// it, or the position at which reading failed.
    spec fn parse_model(cur: Cursor) -> Result<(Self::V, Cursor), Position>;

    /// Reads a value at `index`.
    fn parse_at(index: Index<'_>) -> (r: Result<(Self, Index<'_>), ParseError>)
        requires
            index@.wf(),
        ensures
            models(r, Self::parse_model(index@)),
            r matches Ok((_, end)) ==> end@.wf() && end@.is_after(index@),
    ;

    /// Reads a value at `index` and returns the text it was read from
    /// in place of the value.
    #[inline]
    fn parse_raw_at(index: Index<'_>) -> (r: Result<(&str, Index<'_>), ParseError>)
        requires
            index@.wf(),
        ensures
            match Self::parse_model(index@) {
                Ok((_, end)) => r matches Ok((text, i)) && text@ == index@.consumed(end) && i@
                    == end,
                Err(p) => r matches Err(e) && e@ == p,
            },
    {
        match Self::parse_at(index) {
            Ok((_, new_index)) => {
                let consumed = index.consumed(&new_index);
                Ok((consumed, new_index))
            },
            Err(e) => Err(e),
        }
    }

    /// Reads a value from the whole of `input`: fails at the start of the
    /// text where a value was read but text is left behind it.
    #[inline]
    fn parse(input: &str) -> (r: Result<Self, ParseError>)
        ensures
            match Self::parse_model(Cursor::start(input@)) {
                Ok((v, end)) => if end.at_end() {
                    r matches Ok(x) && x@ == v
                } else {
                    r matches Err(e) && e@ == Cursor::start(input@).position()
                },
                Err(p) => r matches Err(e) && e@ == p,
            },
    {
        let idx = Index::new(input);
        match Self::parse_at(idx) {
            Ok((ret, remaining)) => {
                if remaining.remaining.is_empty() {
                    Ok(ret)
                } else {
                    Err(ParseError::from_index(idx))
                }
            },
            Err(e) => Err(e),
        }
    }
}

impl<T: Parse> Parse for Box<T> {
    open spec fn parse_model(cur: Cursor) -> Result<(T::V, Cursor), Position> {
        T::parse_model(cur)
    }

    #[inline]
    fn parse_at(index: Index<'_>) -> (r: Result<(Self, Index<'_>), ParseError>) {
        match T::parse_at(index) {
            Ok((val, idx)) => Ok((Box::new(val), idx)),
            Err(e) => Err(e),
        }
    }
}

impl Parse for bool {
    /// The word `true` or the word `false`. A failure lies behind the
    /// characters that were read to tell: four, or five after `fals`.
    open spec fn parse_model(cur: Cursor) -> Result<(bool, Cursor), Position> {
        let four = cur.advance_by(4);
        if 4 <= cur.remaining.len() && cur.remaining.take(4) == seq!['t', 'r', 'u', 'e'] {
            Ok((true, four))
        } else if 4 <= cur.remaining.len() && cur.remaining.take(4) == seq!['f', 'a', 'l', 's'] {
            if four.peek() == Some('e') {
                Ok((false, four.advance()))
            } else {
                Err(four.advance().position())
            }
        } else {
            Err(four.position())
        }
    }

    #[inline]
    fn parse_at(index: Index<'_>) -> (r: Result<(Self, Index<'_>), ParseError>) {
        let mut at = index;
        match at.next_multiple::<4>() {
            Some(word) => {
                if word[0] == 't' && word[1] == 'r' && word[2] == 'u' && word[3] == 'e' {
                    assert(word@ =~= seq!['t', 'r', 'u', 'e']);
                    Ok((true, at))
                } else if word[0] == 'f' && word[1] == 'a' && word[2] == 'l' && word[3] == 's' {
                    assert(word@ =~= seq!['f', 'a', 'l', 's']);
                    assert(word@ != seq!['t', 'r', 'u', 'e']) by {
                        assert(seq!['t', 'r', 'u', 'e'][0] == 't');
                    }
                    let ghost four = at@;
                    let last = at.next();
                    proof {
                        lemma_is_after_trans(index@, four, at@);
                    }
                    match last {
                        Some('e') => Ok((false, at)),
                        _ => Err(ParseError::from_index(at)),
                    }
                } else {
                    assert(word@ != seq!['t', 'r', 'u', 'e']) by {
                        let w = seq!['t', 'r', 'u', 'e'];
                        assert(w[0] == 't' && w[1] == 'r' && w[2] == 'u' && w[3] == 'e');
                    }
                    assert(word@ != seq!['f', 'a', 'l', 's']) by {
                        let w = seq!['f', 'a', 'l', 's'];
                        assert(w[0] == 'f' && w[1] == 'a' && w[2] == 'l' && w[3] == 's');
                    }
                    Err(ParseError::from_index(at))
                }
            },
            None => Err(ParseError::from_index(at)),
        }
    }
}

impl Parse for u8 {
    open spec fn parse_model(cur: Cursor) -> Result<(u8, Cursor), Position> {
        match unsigned_model(cur, u8::MAX as nat) {
            Ok((v, end)) => Ok((v as u8, end)),
            Err(p) => Err(p),
        }
    }

    #[inline]
    fn parse_at(index: Index<'_>) -> (r: Result<(Self, Index<'_>), ParseError>) {
        match parse_unsigned(index, u8::MAX as u128) {
            Ok((v, end)) => Ok((v as u8, end)),
            Err(e) => Err(e),
        }
    }
}

impl Parse for u16 {
    open spec fn parse_model(cur: Cursor) -> Result<(u16, Cursor), Position> {
        match unsigned_model(cur, u16::MAX as nat) {
            Ok((v, end)) => Ok((v as u16, end)),
            Err(p) => Err(p),
        }
    }

    #[inline]
    fn parse_at(index: Index<'_>) -> (r: Result<(Self, Index<'_>), ParseError>) {
        match parse_unsigned(index, u16::MAX as u128) {
            Ok((v, end)) => Ok((v as u16, end)),
            Err(e) => Err(e),
        }
    }
}

impl Parse for u32 {
    open spec fn parse_model(cur: Cursor) -> Result<(u32, Cursor), Position> {
        match unsigned_model(cur, u32::MAX as nat) {
            Ok((v, end)) => Ok((v as u32, end)),
            Err(p) => Err(p),
        }
    }

    #[inline]
    fn parse_at(index: Index<'_>) -> (r: Result<(Self, Index<'_>), ParseError>) {
        match parse_unsigned(index, u32::MAX as u128) {
            Ok((v, end)) => Ok((v as u32, end)),
            Err(e) => Err(e),
        }
    }
}

impl Parse for u64 {
    open spec fn parse_model(cur: Cursor) -> Result<(u64, Cursor), Position> {
        match unsigned_model(cur, u64::MAX as nat) {
            Ok((v, end)) => Ok((v as u64, end)),
            Err(p) => Err(p),
        }
    }

    #[inline]
    fn parse_at(index: Index<'_>) -> (r: Result<(Self, Index<'_>), ParseError>) {
        match parse_unsigned(index, u64::MAX as u128) {
            Ok((v, end)) => Ok((v as u64, end)),
            Err(e) => Err(e),
        }
    }
}

impl Parse for u128 {
    open spec fn parse_model(cur: Cursor) -> Result<(u128, Cursor), Position> {
        match unsigned_model(cur, u128::MAX as nat) {
            Ok((v, end)) => Ok((v as u128, end)),
            Err(p) => Err(p),
        }
    }

    #[inline]
    fn parse_at(index: Index<'_>) -> (r: Result<(Self, Index<'_>), ParseError>) {
        match parse_unsigned(index, u128::MAX as u128) {
            Ok((v, end)) => Ok((v as u128, end)),
            Err(e) => Err(e),
        }
    }
}

impl Parse for usize {
    open spec fn parse_model(cur: Cursor) -> Result<(usize, Cursor), Position> {
        match unsigned_model(cur, usize::MAX as nat) {
            Ok((v, end)) => Ok((v as usize, end)),
            Err(p) => Err(p),
        }
    }

    #[inline]
    fn parse_at(index: Index<'_>) -> (r: Result<(Self, Index<'_>), ParseError>) {
        match parse_unsigned(index, usize::MAX as u128) {
            Ok((v, end)) => Ok((v as usize, end)),
            Err(e) => Err(e),
        }
    }
}

impl Parse for i8 {
    open spec fn parse_model(cur: Cursor) -> Result<(i8, Cursor), Position> {
        match signed_model(cur, i8::MIN as int, i8::MAX as int) {
            Ok((v, end)) => Ok((v as i8, end)),
            Err(p) => Err(p),
        }
    }

    #[inline]
    fn parse_at(index: Index<'_>) -> (r: Result<(Self, Index<'_>), ParseError>) {
        match parse_signed(index, i8::MIN as i128, i8::MAX as i128) {
            Ok((v, end)) => Ok((v as i8, end)),
            Err(e) => Err(e),
        }
    }
}

impl Parse for i16 {
    open spec fn parse_model(cur: Cursor) -> Result<(i16, Cursor), Position> {
        match signed_model(cur, i16::MIN as int, i16::MAX as int) {
            Ok((v, end)) => Ok((v as i16, end)),
            Err(p) => Err(p),
        }
    }

    #[inline]
    fn parse_at(index: Index<'_>) -> (r: Result<(Self, Index<'_>), ParseError>) {
        match parse_signed(index, i16::MIN as i128, i16::MAX as i128) {
            Ok((v, end)) => Ok((v as i16, end)),
            Err(e) => Err(e),
        }
    }
}

impl Parse for i32 {
    open spec fn parse_model(cur: Cursor) -> Result<(i32, Cursor), Position> {
        match signed_model(cur, i32::MIN as int, i32::MAX as int) {
            Ok((v, end)) => Ok((v as i32, end)),
            Err(p) => Err(p),
        }
    }

    #[inline]
    fn parse_at(index: Index<'_>) -> (r: Result<(Self, Index<'_>), ParseError>) {
        match parse_signed(index, i32::MIN as i128, i32::MAX as i128) {
            Ok((v, end)) => Ok((v as i32, end)),
            Err(e) => Err(e),
        }
    }
}

impl Parse for i64 {
    open spec fn parse_model(cur: Cursor) -> Result<(i64, Cursor), Position> {
        match signed_model(cur, i64::MIN as int, i64::MAX as int) {
            Ok((v, end)) => Ok((v as i64, end)),
            Err(p) => Err(p),
        }
    }

    #[inline]
    fn parse_at(index: Index<'_>) -> (r: Result<(Self, Index<'_>), ParseError>) {
        match parse_signed(index, i64::MIN as i128, i64::MAX as i128) {
            Ok((v, end)) => Ok((v as i64, end)),
            Err(e) => Err(e),
        }
    }
}

impl Parse for i128 {
    open spec fn parse_model(cur: Cursor) -> Result<(i128, Cursor), Position> {
        match signed_model(cur, i128::MIN as int, i128::MAX as int) {
            Ok((v, end)) => Ok((v as i128, end)),
            Err(p) => Err(p),
        }
    }

    #[inline]
    fn parse_at(index: Index<'_>) -> (r: Result<(Self, Index<'_>), ParseError>) {
        match parse_signed(index, i128::MIN as i128, i128::MAX as i128) {
            Ok((v, end)) => Ok((v as i128, end)),
            Err(e) => Err(e),
        }
    }
}

impl Parse for isize {
    open spec fn parse_model(cur: Cursor) -> Result<(isize, Cursor), Position> {
        match signed_model(cur, isize::MIN as int, isize::MAX as int) {
            Ok((v, end)) => Ok((v as isize, end)),
            Err(p) => Err(p),
        }
    }

    #[inline]
    fn parse_at(index: Index<'_>) -> (r: Result<(Self, Index<'_>), ParseError>) {
        match parse_signed(index, isize::MIN as i128, isize::MAX as i128) {
            Ok((v, end)) => Ok((v as isize, end)),
            Err(e) => Err(e),
        }
    }
}

impl Parse for String {
    /// All the text that is left.
    open spec fn parse_model(cur: Cursor) -> Result<(Seq<char>, Cursor), Position> {
        Ok((cur.remaining, cur.advance_to_end()))
    }

    #[inline]
    fn parse_at(index: Index<'_>) -> (r: Result<(Self, Index<'_>), ParseError>) {
        let mut at = index;
        let s = at.remaining.to_owned();
        at.advance_to_end();
        Ok((s, at))
    }
}

impl Parse for char {
    /// The next character; fails at the end of the text.
    open spec fn parse_model(cur: Cursor) -> Result<(char, Cursor), Position> {
        if cur.at_end() {
            Err(cur.position())
        } else {
            Ok((cur.head(), cur.advance()))
        }
    }

    #[inline]
    fn parse_at(index: Index<'_>) -> (r: Result<(Self, Index<'_>), ParseError>) {
        let mut at = index;
        match at.next() {
            Some(c) => Ok((c, at)),
            None => Err(ParseError::from_index(at)),
        }
    }
}

} // verus!
