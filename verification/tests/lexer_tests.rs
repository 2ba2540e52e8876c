use marklite::lex::Token;
use marklite::Lexer;

#[test]
fn peek_and_next_walk_the_source() {
    let mut l = Lexer::new("abc");
    assert_eq!(l.peek(), Some('a'));
    assert_eq!(l.peek_nth(1), Some('b'));
    assert_eq!(l.peek_nth(2), Some('c'));
    assert_eq!(l.peek_nth(3), None);
    assert!(!l.is_ended());
    assert_eq!(l.next(), Some('b'));
    assert_eq!(l.next(), Some('c'));
    assert_eq!(l.next(), None);
    assert!(l.is_ended());
}

#[test]
fn peek_span_returns_the_text_ahead() {
    let l = Lexer::new("hello");
    assert_eq!(l.peek_span(3), "hel");
    assert_eq!(l.peek_span(9), "hello");
}

#[test]
fn span_marks_the_token_built_so_far() {
    let mut l = Lexer::new("abcd");
    l.next();
    l.next();
    assert_eq!(l.span(), (0, 2));
    l.next();
    assert_eq!(l.span(), (2, 3));
}

#[test]
fn create_token_carries_span_and_source() {
    let mut l = Lexer::new("ab");
    l.next();
    l.next();
    let t = l.create_token(Token::Whitespace);
    assert_eq!(t.span, (0, 2));
    assert_eq!(t.source, "ab");
    assert!(matches!(t.token_type, Token::Whitespace));
}

#[test]
fn to_next_stops_before_the_delimiter() {
    let mut l = Lexer::new("one**two");
    let (txt, n) = l.to_next("**");
    assert_eq!(txt, "one");
    assert_eq!(n, 3);
    assert_eq!(l.peek(), Some('*'));
}

#[test]
fn to_next_consumes_to_the_end_when_never_found() {
    let mut l = Lexer::new("one two");
    let (txt, n) = l.to_next("**");
    assert_eq!(txt, "one two");
    assert_eq!(n, 7);
    assert!(l.is_ended());
}

#[test]
fn to_next_token_stops_at_a_marker() {
    let mut l = Lexer::new("plain*rest");
    let txt = l.to_next_token();
    assert_eq!(txt, "plain");
    assert_eq!(l.peek(), Some('*'));
}

#[test]
fn next_nth_advances_by_the_given_count() {
    let mut l = Lexer::new("abcdef");
    l.next_nth(2);
    assert_eq!(l.peek(), Some('c'));
    l.next_nth(100);
    assert!(l.is_ended());
}
