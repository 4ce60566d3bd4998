//! Positions in an input text: the executable [`Index`], its mathematical
//! model [`Cursor`], and the position carried by a failed parse.

use vstd::prelude::*;
use vstd::std_specs::iter::IteratorSpec;
use vstd::string::*;
use vstd::utf8::*;

verus! {

/// Number of bytes that `c` occupies in UTF-8.
pub open spec fn utf8_width(c: char) -> nat {
    let v = c as u32;
    if v < 0x80 {
        1
    } else if v < 0x800 {
        2
    } else if v < 0x10000 {
        3
    } else {
        4
    }
}

/// Number of bytes that the text `s` occupies in UTF-8.
pub open spec fn utf8_len(s: Seq<char>) -> nat {
    encode_utf8(s).len()
}

/// A line and a column; the column counts bytes since the last line break.
pub struct Position {
    pub lineno: nat,
    pub colno: nat,
}

/// The model of an [`Index`]: the text still to be read and the position reached.
pub struct Cursor {
    pub remaining: Seq<char>,
    pub lineno: nat,
    pub colno: nat,
}

impl Cursor {
    /// The cursor at the start of `text`.
    pub open spec fn start(text: Seq<char>) -> Cursor {
        Cursor { remaining: text, lineno: 0, colno: 0 }
    }

    pub open spec fn at_end(self) -> bool {
        self.remaining.len() == 0
    }

    /// The next character, where one is left.
    pub open spec fn head(self) -> char {
        self.remaining[0]
    }

    /// The next character, if any is left.
    pub open spec fn peek(self) -> Option<char> {
        if self.remaining.len() > 0 {
            Some(self.remaining[0])
        } else {
            None
        }
    }

    /// The cursor after reading one character; a cursor at the end stays where it is.
    /// A line break starts a new line at column zero, any other character
    /// moves the column by its width in bytes.
    pub open spec fn advance(self) -> Cursor {
        if self.remaining.len() == 0 {
            self
        } else if self.remaining[0] == '\n' {
            Cursor { remaining: self.remaining.drop_first(), lineno: self.lineno + 1, colno: 0 }
        } else {
            Cursor {
                remaining: self.remaining.drop_first(),
                lineno: self.lineno,
                colno: self.colno + utf8_width(self.remaining[0]),
            }
        }
    }

    /// The cursor after reading `n` characters, or all that are left if there are fewer.
    pub open spec fn advance_by(self, n: nat) -> Cursor
        decreases n,
    {
        if n == 0 {
            self
        } else {
            self.advance().advance_by((n - 1) as nat)
        }
    }

    /// The cursor after reading everything that is left.
    pub open spec fn advance_to_end(self) -> Cursor {
        self.advance_by(self.remaining.len())
    }

    pub open spec fn position(self) -> Position {
        Position { lineno: self.lineno, colno: self.colno }
    }

    /// Lines, columns and the bytes still to be read never add up to more
    /// than a `usize` holds, so no counter can overflow while reading on.
    pub open spec fn wf(self) -> bool {
        self.lineno + self.colno + utf8_len(self.remaining) <= usize::MAX
    }

    /// `self` can be reached from `earlier` by reading on: its text is a
    /// suffix of the earlier text, and what it has counted is covered by
    /// what the earlier cursor had still to read.
    pub open spec fn is_after(self, earlier: Cursor) -> bool {
        &&& self.remaining.len() <= earlier.remaining.len()
        &&& self.remaining == earlier.remaining.skip(
            earlier.remaining.len() - self.remaining.len(),
        )
        &&& self.lineno + self.colno + utf8_len(self.remaining) <= earlier.lineno + earlier.colno
            + utf8_len(earlier.remaining)
    }

    /// The text between `self` and a later cursor `end`.
    pub open spec fn consumed(self, end: Cursor) -> Seq<char> {
        self.remaining.take(self.remaining.len() - end.remaining.len())
    }

    /// The cursor at the place of `self` that sees only the text up to `end`.
    pub open spec fn restricted(self, end: Cursor) -> Cursor {
        Cursor { remaining: self.consumed(end), lineno: self.lineno, colno: self.colno }
    }
}

/// The UTF-8 width of a character is the length of its encoding.
pub proof fn lemma_utf8_width(c: char)
    ensures
        encode_scalar(c as u32).len() == utf8_width(c),
        1 <= utf8_width(c) <= 4,
{
    char_is_scalar(c);
}

/// Encoding distributes over concatenation, and the seam is a character boundary.
pub proof fn lemma_encode_concat(a: Seq<char>, b: Seq<char>)
    ensures
        encode_utf8(a + b) == encode_utf8(a) + encode_utf8(b),
        is_char_boundary(encode_utf8(a + b), encode_utf8(a).len() as int),
        utf8_len(a + b) == utf8_len(a) + utf8_len(b),
    decreases a.len(),
{
    broadcast use encode_utf8_valid_utf8;

    if a.len() == 0 {
        assert(a + b =~= b);
        assert(encode_utf8(a) + encode_utf8(b) =~= encode_utf8(b));
    } else {
        let s = a + b;
        let bytes = encode_utf8(s);
        lemma_encode_concat(a.drop_first(), b);
        assert(s.drop_first() =~= a.drop_first() + b);
        assert(s[0] == a[0]);
        let head = encode_scalar(a[0] as u32);
        assert(bytes =~= head + (encode_utf8(a.drop_first()) + encode_utf8(b)));
        assert(encode_utf8(a) =~= head + encode_utf8(a.drop_first()));
        assert(bytes =~= encode_utf8(a) + encode_utf8(b));
        encode_utf8_first_scalar(s);
        lemma_utf8_width(a[0]);
        assert(pop_first_scalar(bytes) =~= encode_utf8(s.drop_first()));
        assert(valid_utf8(bytes));
        assert(encode_utf8(a).len() - length_of_first_scalar(bytes) == encode_utf8(
            a.drop_first(),
        ).len());
    }
}

/// A text that is not empty takes up bytes.
pub proof fn lemma_nonempty_has_bytes(s: Seq<char>)
    requires
        s.len() > 0,
    ensures
        utf8_len(s) > 0,
{
    lemma_utf8_width(s[0]);
}

/// A text is determined by its encoding.
pub proof fn lemma_encode_injective(a: Seq<char>, b: Seq<char>)
    requires
        encode_utf8(a) == encode_utf8(b),
    ensures
        a == b,
{
    encode_utf8_decode_utf8(a);
    encode_utf8_decode_utf8(b);
}

/// Being after is transitive and keeps a cursor well formed.
pub proof fn lemma_is_after_trans(a: Cursor, b: Cursor, c: Cursor)
    requires
        b.is_after(a),
        c.is_after(b),
    ensures
        c.is_after(a),
{
    assert(c.remaining =~= a.remaining.skip(a.remaining.len() - c.remaining.len()));
}

/// Reading one character leads to a cursor that is after the first.
pub proof fn lemma_advance_is_after(c: Cursor)
    ensures
        c.advance().is_after(c),
        c.wf() ==> c.advance().wf(),
        !c.at_end() ==> c.advance().remaining.len() + 1 == c.remaining.len(),
{
    if c.remaining.len() > 0 {
        let head = seq![c.remaining[0]];
        let tail = c.remaining.drop_first();
        assert(c.remaining =~= head + tail);
        lemma_encode_concat(head, tail);
        assert(encode_utf8(head) =~= encode_scalar(c.remaining[0] as u32)) by {
            assert(head.drop_first() =~= Seq::<char>::empty());
            assert(encode_utf8(head.drop_first()) =~= Seq::<u8>::empty());
            assert(head[0] == c.remaining[0]);
            assert(encode_utf8(head) == encode_scalar(head[0] as u32) + encode_utf8(
                head.drop_first(),
            ));
        }
        lemma_utf8_width(c.remaining[0]);
        assert(tail =~= c.remaining.skip(1));
    } else {
        assert(c.remaining =~= c.remaining.skip(0));
    }
}

/// Reading any number of characters leads to a cursor that is after the first.
pub proof fn lemma_advance_by_is_after(c: Cursor, n: nat)
    ensures
        c.advance_by(n).is_after(c),
        c.wf() ==> c.advance_by(n).wf(),
        c.advance_by(n).remaining.len() == if n <= c.remaining.len() {
            c.remaining.len() - n
        } else {
            0
        },
    decreases n,
{
    if n == 0 {
        assert(c.remaining =~= c.remaining.skip(0));
    } else {
        lemma_advance_is_after(c);
        lemma_advance_by_is_after(c.advance(), (n - 1) as nat);
        lemma_is_after_trans(c, c.advance(), c.advance_by(n));
    }
}

/// Reading `n` characters and then one more is reading `n + 1`.
pub proof fn lemma_advance_by_step(c: Cursor, n: nat)
    ensures
        c.advance_by(n).advance() == c.advance_by(n + 1),
    decreases n,
{
    if n == 0 {
        assert(c.advance_by(1) == c.advance().advance_by(0));
    } else {
        lemma_advance_by_step(c.advance(), (n - 1) as nat);
    }
}

/// The text between two cursors and the text after the second make up the
/// text after the first, in characters and in bytes.
pub proof fn lemma_consumed(start: Cursor, end: Cursor)
    requires
        end.is_after(start),
    ensures
        start.remaining == start.consumed(end) + end.remaining,
        utf8_len(start.remaining) == utf8_len(start.consumed(end)) + utf8_len(end.remaining),
        is_char_boundary(encode_utf8(start.remaining), utf8_len(start.consumed(end)) as int),
        encode_utf8(start.remaining).subrange(0, utf8_len(start.consumed(end)) as int)
            == encode_utf8(start.consumed(end)),
        start.wf() ==> start.restricted(end).wf(),
{
    let k = start.remaining.len() - end.remaining.len();
    let a = start.remaining.take(k);
    let b = start.remaining.skip(k);
    assert(start.remaining =~= a + b);
    lemma_encode_concat(a, b);
    assert((encode_utf8(a) + encode_utf8(b)).subrange(0, encode_utf8(a).len() as int)
        =~= encode_utf8(a));
}

/// A cursor at the end stays where it is, however far it is asked to read.
pub proof fn lemma_advance_by_at_end(c: Cursor, n: nat)
    requires
        c.at_end(),
    ensures
        c.advance_by(n) == c,
    decreases n,
{
    if n > 0 {
        lemma_advance_by_at_end(c, (n - 1) as nat);
    }
}

/// Reading `m` characters and then `n` is reading `m + n`.
pub proof fn lemma_advance_by_add(c: Cursor, m: nat, n: nat)
    ensures
        c.advance_by(m).advance_by(n) == c.advance_by(m + n),
    decreases m,
{
    if m > 0 {
        lemma_advance_by_add(c.advance(), (m - 1) as nat, n);
    }
}

/// Keeps track of the current parse location of a string input.
#[derive(Clone, Copy, Debug, PartialEq, Eq, PartialOrd, Ord)]
pub struct Index<'a> {
    /// The remaining data
    pub remaining: &'a str,
    pub lineno: usize,
    pub colno: usize,
}

impl<'a> View for Index<'a> {
    type V = Cursor;

    open spec fn view(&self) -> Cursor {
        Cursor {
            remaining: self.remaining@,
            lineno: self.lineno as nat,
            colno: self.colno as nat,
        }
    }
}

/// The length of a string in bytes.
fn byte_len(s: &str) -> (n: usize)
    ensures
        n == utf8_len(s@),
{
    let bytes = s.as_bytes();
    bytes.len()
}

/// The number of bytes that `c` occupies in UTF-8.
fn char_width(c: char) -> (n: usize)
    ensures
        n == utf8_width(c),
{
    let v = c as u32;
    if v < 0x80 {
        1
    } else if v < 0x800 {
        2
    } else if v < 0x10000 {
        3
    } else {
        4
    }
}

/// The first character of a string, if it has one.
fn first_char(s: &str) -> (r: Option<char>)
    ensures
        r == (if s@.len() > 0 {
            Some(s@[0])
        } else {
            None
        }),
{
    broadcast use group_string_axioms;

    let mut chars = s.chars();
    chars.next()
}

impl<'a> Index<'a> {
    /// The index at the start of `string`.
    #[inline]
    pub fn new(string: &'a str) -> (r: Self)
        ensures
            r@ == Cursor::start(string@),
            r@.wf(),
            r.remaining == string,
    {
        let _ = byte_len(string);
        Self { remaining: string, lineno: 0, colno: 0 }
    }

    /// The next character, without reading it.
    #[inline]
    pub fn peek(&self) -> (r: Option<char>)
        ensures
            r == self@.peek(),
    {
        first_char(self.remaining)
    }

    /// Reads one character: returns it and moves past it, or returns `None`
    /// at the end and stays.
    pub fn next(&mut self) -> (r: Option<char>)
        requires
            old(self)@.wf(),
        ensures
            r == old(self)@.peek(),
            final(self)@ == old(self)@.advance(),
            final(self)@.wf(),
            final(self)@.is_after(old(self)@),
    {
        proof {
            lemma_advance_is_after(self@);
        }
        let c = match first_char(self.remaining) {
            Some(c) => c,
            None => {
                return None;
            },
        };
        let len = char_width(c);
        let ghost text = self.remaining@;
        proof {
            let head = seq![c];
            let tail = text.drop_first();
            assert(text =~= head + tail);
            lemma_encode_concat(head, tail);
            assert(encode_utf8(head) =~= encode_scalar(c as u32)) by {
                assert(head.drop_first() =~= Seq::<char>::empty());
                assert(encode_utf8(head.drop_first()) =~= Seq::<u8>::empty());
                assert(encode_utf8(head) == encode_scalar(head[0] as u32) + encode_utf8(
                    head.drop_first(),
                ));
            }
            lemma_utf8_width(c);
        }
        let (_, rest) = self.remaining.split_at(len);
        proof {
            let bytes = encode_utf8(text);
            assert(bytes.subrange(len as int, bytes.len() as int) =~= encode_utf8(
                text.drop_first(),
            ));
            lemma_encode_injective(rest@, text.drop_first());
        }
        self.remaining = rest;
        if c == '\n' {
            self.lineno += 1;
            self.colno = 0;
        } else {
            self.colno += len;
        }
        Some(c)
    }

    /// The next `N` characters, without reading them; `None` if fewer are left.
    #[inline]
    pub fn peek_multiple<const N: usize>(&self) -> (r: Option<[char; N]>)
        ensures
            r is Some <==> N <= self@.remaining.len(),
            r matches Some(a) ==> a@ == self@.remaining.take(N as int),
    {
        broadcast use group_string_axioms;

        let mut peeked = ['\0';N];
        let mut chars = self.remaining.chars();
        let ghost text = self.remaining@;
        let mut i: usize = 0;
        while i < N
            invariant
                0 <= i <= N,
                text == self.remaining@,
                i <= text.len(),
                chars.remaining() == text.skip(i as int),
                forall|j: int| 0 <= j < i ==> peeked@[j] == text[j],
            decreases N - i,
        {
            let ghost before = chars.remaining();
            match chars.next() {
                Some(c) => {
                    peeked[i] = c;
                    assert(chars.remaining() =~= text.skip(i + 1));
                },
                None => {
                    return None;
                },
            }
            i += 1;
        }
        assert(peeked@ =~= text.take(N as int));
        Some(peeked)
    }

    /// Reads the next `N` characters. Where fewer are left it reads them
    /// all and returns `None`.
    #[inline]
    pub fn next_multiple<const N: usize>(&mut self) -> (r: Option<[char; N]>)
        requires
            old(self)@.wf(),
        ensures
            r is Some <==> N <= old(self)@.remaining.len(),
            r matches Some(a) ==> a@ == old(self)@.remaining.take(N as int),
            final(self)@ == old(self)@.advance_by(N as nat),
            final(self)@.wf(),
            final(self)@.is_after(old(self)@),
    {
        let mut all_next = ['\0';N];
        let ghost start = self@;
        let mut i: usize = 0;
        while i < N
            invariant
                0 <= i <= N,
                start == old(self)@,
                start.wf(),
                self@ == start.advance_by(i as nat),
                i <= start.remaining.len(),
                forall|j: int| 0 <= j < i ==> all_next@[j] == start.remaining[j],
            decreases N - i,
        {
            proof {
                lemma_advance_by_is_after(start, i as nat);
                lemma_advance_by_step(start, i as nat);
                lemma_advance_by_is_after(start, N as nat);
            }
            match self.next() {
                Some(c) => {
                    all_next[i] = c;
                },
                None => {
                    proof {
                        lemma_advance_by_at_end(self@, (N - i) as nat);
                        lemma_advance_by_add(start, i as nat, (N - i) as nat);
                    }
                    return None;
                },
            }
            i += 1;
        }
        proof {
            lemma_advance_by_is_after(start, N as nat);
            assert(all_next@ =~= start.remaining.take(N as int));
        }
        Some(all_next)
    }

    /// Reads everything that is left.
    #[inline]
    pub fn advance_to_end(&mut self)
        requires
            old(self)@.wf(),
        ensures
            final(self)@ == old(self)@.advance_to_end(),
            final(self)@.at_end(),
            final(self)@.wf(),
            final(self)@.is_after(old(self)@),
    {
        let ghost start = self@;
        let ghost mut n: nat = 0;
        proof {
            lemma_advance_by_is_after(start, 0);
            lemma_advance_by_is_after(start, start.remaining.len());
        }
        while self.peek().is_some()
            invariant
                start == old(self)@,
                start.wf(),
                n <= start.remaining.len(),
                self@ == start.advance_by(n),
                self@.remaining.len() == start.remaining.len() - n,
                self@.wf(),
                self@.is_after(start),
            decreases start.remaining.len() - n,
        {
            proof {
                lemma_advance_by_step(start, n);
                lemma_advance_by_is_after(start, n + 1);
            }
            let _ = self.next();
            proof {
                n = n + 1;
            }
        }
    }

    /// The text between this index and a later one.
    pub fn consumed(&self, end: &Index<'a>) -> (r: &'a str)
        requires
            end@.is_after(self@),
        ensures
            r@ == self@.consumed(end@),
    {
        proof {
            lemma_consumed(self@, end@);
        }
        let consumed_len = byte_len(self.remaining) - byte_len(end.remaining);
        let (head, _) = self.remaining.split_at(consumed_len);
        proof {
            lemma_encode_injective(head@, self@.consumed(end@));
        }
        head
    }

    /// The index at this place that sees only the text up to a later index.
    pub fn restricted(&self, end: &Index<'a>) -> (r: Index<'a>)
        requires
            end@.is_after(self@),
            self@.wf(),
        ensures
            r@ == self@.restricted(end@),
            r@.wf(),
    {
        proof {
            lemma_consumed(self@, end@);
        }
        Index { remaining: self.consumed(end), lineno: self.lineno, colno: self.colno }
    }
}

/// Represents an error that occurred during the parsing of a string input.
#[derive(Debug, PartialEq, Eq)]
pub struct ParseError {
    pub lineno: usize,
    pub colno: usize,
}

impl View for ParseError {
    type V = Position;

    open spec fn view(&self) -> Position {
        Position { lineno: self.lineno as nat, colno: self.colno as nat }
    }
}

impl ParseError {
    /// Creates an error containing the given index's line/column information.
    pub fn from_index(idx: Index<'_>) -> (r: Self)
        ensures
            r@ == idx@.position(),
    {
        Self { lineno: idx.lineno, colno: idx.colno }
    }
}

/// Whether two strings hold the same text.
pub fn str_eq(a: &str, b: &str) -> (r: bool)
    ensures
        r == (a@ == b@),
{
    let mut left = Index::new(a);
    let mut right = Index::new(b);
    loop
        invariant
            left@.wf(),
            right@.wf(),
            left@.remaining.len() <= a@.len(),
            right@.remaining.len() <= b@.len(),
            a@.len() - left@.remaining.len() == b@.len() - right@.remaining.len(),
            left@.remaining == a@.skip(a@.len() - left@.remaining.len()),
            right@.remaining == b@.skip(b@.len() - right@.remaining.len()),
            a@.take(a@.len() - left@.remaining.len()) == b@.take(
                b@.len() - right@.remaining.len(),
            ),
        decreases left@.remaining.len(),
    {
        let ghost n = a@.len() - left@.remaining.len();
        let x = left.next();
        let y = right.next();
        match (x, y) {
            (Some(c), Some(d)) => {
                if c != d {
                    assert(a@[n] == c);
                    assert(b@[n] == d);
                    return false;
                }
                assert(a@.take(n + 1) =~= a@.take(n).push(c));
                assert(b@.take(n + 1) =~= b@.take(n).push(d));
                assert(left@.remaining =~= a@.skip(n + 1));
                assert(right@.remaining =~= b@.skip(n + 1));
            },
            (None, None) => {
                assert(a@ =~= a@.take(n));
                assert(b@ =~= b@.take(n));
                return true;
            },
            _ => {
                return false;
            },
        }
    }
}

} // verus!
