use peggle::index::{Index, ParseError};

#[test]
fn index_new_starts_at_origin() {
    let idx = Index::new("ab\ncd");
    assert_eq!(idx.remaining, "ab\ncd");
    assert_eq!(idx.lineno, 0);
    assert_eq!(idx.colno, 0);
}

#[test]
fn index_next_counts_lines_and_byte_columns() {
    let mut idx = Index::new("a\u{e9}\nz");
    assert_eq!(idx.next(), Some('a'));
    assert_eq!((idx.lineno, idx.colno), (0, 1));
    assert_eq!(idx.next(), Some('\u{e9}'));
    assert_eq!((idx.lineno, idx.colno), (0, 3));
    assert_eq!(idx.next(), Some('\n'));
    assert_eq!((idx.lineno, idx.colno), (1, 0));
    assert_eq!(idx.remaining, "z");
    assert_eq!(idx.next(), Some('z'));
    assert_eq!(idx.next(), None);
    assert_eq!((idx.lineno, idx.colno), (1, 1));
}

#[test]
fn index_peek_multiple_and_next_multiple() {
    let mut idx = Index::new("hello");
    assert_eq!(idx.peek(), Some('h'));
    assert_eq!(idx.peek_multiple::<2>(), Some(['h', 'e']));
    assert_eq!(idx.peek_multiple::<6>(), None);
    assert_eq!(idx.remaining, "hello");
    assert_eq!(idx.next_multiple::<3>(), Some(['h', 'e', 'l']));
    assert_eq!(idx.remaining, "lo");
    assert_eq!(idx.next_multiple::<3>(), None);
    assert_eq!(idx.remaining, "");
    assert_eq!(idx.colno, 5);
}

#[test]
fn index_advance_to_end_and_error_position() {
    let mut idx = Index::new("ab\ncde");
    idx.advance_to_end();
    assert_eq!(idx.remaining, "");
    let e = ParseError::from_index(idx);
    assert_eq!((e.lineno, e.colno), (1, 3));
}
