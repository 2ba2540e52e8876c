use marklite::lex::Token;
use marklite::tokenise;

#[test]
fn verify_paragraphs() {
    let t = tokenise("This is a paragraph. **Bold text.** *Italics text.*").unwrap();
    println!("{:#?}", t);
}

#[test]
fn verify_headings() {
    let t = tokenise("# This is a top level heading").unwrap();
    // The stream holds the heading and the terminal end-of-input marker.
    assert_eq!(t.len(), 2);
    assert!(matches!(t.get(0).unwrap().token_type, Token::Heading { level: 1, .. }));
    assert!(matches!(t.get(1).unwrap().token_type, Token::EOI));
}

#[test]
fn verify_tables() {}

#[test]
fn verify_unordered_list() {}

#[test]
fn verify_ordered_list() {}

#[test]
fn verify_checked_list_item() {}

#[test]
fn verify_fenced_code() {}

#[test]
fn verify_footnotes() {}

#[test]
fn heading_token_text_is_rest_of_line() {
    let t = tokenise("## Second level").unwrap();
    match &t[0].token_type {
        Token::Heading { level, text } => {
            assert_eq!(*level, 2);
            assert_eq!(text.as_str(), "Second level");
        }
        other => panic!("expected a heading token, got {:?}", other),
    }
}

#[test]
fn too_many_markers_is_an_error_token() {
    let t = tokenise("####### seven").unwrap();
    assert!(matches!(t[0].token_type, Token::Error(_)));
}

#[test]
fn marker_without_space_is_an_error_token() {
    let t = tokenise("#seven").unwrap();
    assert!(matches!(t[0].token_type, Token::Error(_)));
}

#[test]
fn spans_are_adjacent_and_increasing() {
    let src = "ab *i* c";
    let t = tokenise(src).unwrap();
    assert!(t.len() >= 2);
    assert_eq!(t[0].span.0, 0);
    for k in 0..t.len() - 1 {
        assert!(t[k].span.0 <= t[k].span.1);
        assert_eq!(t[k].span.1, t[k + 1].span.0);
    }
    let last = t.last().unwrap();
    assert!(matches!(last.token_type, Token::EOI));
    assert_eq!(last.span, (src.len(), src.len()));
    for k in 0..t.len() - 1 {
        assert!(!matches!(t[k].token_type, Token::EOI));
    }
}

#[test]
fn bold_and_italics_tokens() {
    let t = tokenise("**b** *i*").unwrap();
    assert!(matches!(&t[0].token_type, Token::Bold(s) if s.as_str() == "b"));
    assert!(matches!(&t[1].token_type, Token::Whitespace));
    assert!(matches!(&t[2].token_type, Token::Italics(s) if s.as_str() == "i"));
    assert!(matches!(&t[3].token_type, Token::EOI));
}

#[test]
fn strikethrough_superscript_subscript_tokens() {
    let t = tokenise("~~x~~^y^___z___").unwrap();
    assert!(matches!(&t[0].token_type, Token::StrikeThrough(s) if s.as_str() == "x"));
    assert!(matches!(&t[1].token_type, Token::Superscript(s) if s.as_str() == "y"));
    assert!(matches!(&t[2].token_type, Token::Subscript(s) if s.as_str() == "z"));
}

#[test]
fn comment_only_at_line_start() {
    let t = tokenise("// note").unwrap();
    assert!(matches!(t[0].token_type, Token::Comment));
    let t2 = tokenise("a// note").unwrap();
    assert!(matches!(&t2[0].token_type, Token::Text(s) if s.as_str() == "a"));
    assert!(matches!(&t2[1].token_type, Token::Text(s) if s.as_str() == "/"));
}

#[test]
fn fenced_code_token_keeps_language_and_body() {
    let t = tokenise("```rust\nlet x = 1;\n```").unwrap();
    match &t[0].token_type {
        Token::FencedCode((lang, body)) => {
            assert_eq!(lang.as_str(), "rust");
            assert_eq!(body.as_str(), "let x = 1;\n");
        }
        other => panic!("expected a fenced code token, got {:?}", other),
    }
}

#[test]
fn unterminated_bold_runs_to_end_of_input() {
    let t = tokenise("**loud").unwrap();
    assert!(matches!(&t[0].token_type, Token::Bold(s) if s.as_str() == "loud"));
    assert!(matches!(&t[1].token_type, Token::EOI));
}

#[test]
fn inline_code_token() {
    let t = tokenise("`x`").unwrap();
    assert!(matches!(&t[0].token_type, Token::InlineCode(s) if s.as_str() == "x"));
}

#[test]
fn lone_underscore_and_tilde_are_text() {
    let t = tokenise("a_b").unwrap();
    assert!(matches!(&t[0].token_type, Token::Text(s) if s.as_str() == "a"));
    assert!(matches!(&t[1].token_type, Token::Text(s) if s.as_str() == "_"));
    assert!(matches!(&t[2].token_type, Token::Text(s) if s.as_str() == "b"));
    let t2 = tokenise("a~b").unwrap();
    assert!(matches!(&t2[1].token_type, Token::Text(s) if s.as_str() == "~"));
}
