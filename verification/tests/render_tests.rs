use marklite::lex::{LexError, Output as LexOutput, Token};
use marklite::parser::{
    AstNode, CodeBlock, CodeType, Error, List, ListType, Output as NodeOutput, RichText, Table,
    Text, generate_rich_text_output,
};

#[test]
fn token_inline_fragments() {
    assert_eq!(Token::Text(String::from("t")).to_output().unwrap(), "t");
    assert_eq!(Token::Bold(String::from("b")).to_output().unwrap(), "<strong>b</strong>");
    assert_eq!(Token::Italics(String::from("i")).to_output().unwrap(), "<em>i</em>");
    assert_eq!(Token::StrikeThrough(String::from("s")).to_output().unwrap(), "<del>s</del>");
    assert_eq!(Token::Subscript(String::from("d")).to_output().unwrap(), "<sub>d</sub>");
    assert_eq!(Token::Superscript(String::from("u")).to_output().unwrap(), "<sup>u</sup>");
    assert_eq!(Token::InlineCode(String::from("c")).to_output().unwrap(), "<code>c</code>");
}

#[test]
fn token_heading_fragment_uses_the_dialect_closing_tag() {
    let t = Token::Heading { level: 3, text: String::from("head") };
    assert_eq!(t.to_output().unwrap(), "<h3>head<h3/>");
}

#[test]
fn token_paragraph_concatenates_children() {
    let t = Token::Paragraph(vec![
        Token::Text(String::from("a ")),
        Token::Bold(String::from("b")),
        Token::Whitespace,
        Token::Text(String::from("c")),
    ]);
    assert_eq!(t.to_output().unwrap(), "a <strong>b</strong>c");
}

#[test]
fn token_lists_wrap_each_item() {
    let ordered = Token::OrderedList(vec![
        Token::Text(String::from("x")),
        Token::Text(String::from("y")),
    ]);
    assert_eq!(ordered.to_output().unwrap(), "<ol><li>x</li><li>y</li></ol>");
    let unordered = Token::UnorderedList(vec![
        Token::Text(String::from("x")),
        Token::Text(String::from("y")),
    ]);
    assert_eq!(unordered.to_output().unwrap(), "<ul><li>x</li><li>y</li></ul>");
}

#[test]
fn token_table_renders_headers_then_rows() {
    let t = Token::Table((
        vec![String::from("H1"), String::from("H2")],
        vec![
            vec![Token::Text(String::from("a")), Token::Text(String::from("b"))],
            vec![Token::Text(String::from("c"))],
        ],
    ));
    assert_eq!(
        t.to_output().unwrap(),
        "<table><tr><th>H1</th><th>H2</th></tr><tr><td>a</td><td>b</td></tr><tr><td>c</td></tr></table>"
    );
}

#[test]
fn token_fenced_code_renders_pre_code() {
    let t = Token::FencedCode((String::from("rust"), String::from("let x;")));
    assert_eq!(t.to_output().unwrap(), "<pre><code>let x;</code></pre>");
}

#[test]
fn token_aside_details_image_break_variables() {
    let aside = Token::Aside(vec![Token::Text(String::from("note"))]);
    assert_eq!(aside.to_output().unwrap(), "<aside>note</aside>");
    let details = Token::Details((
        vec![Token::Text(String::from("more"))],
        vec![Token::Text(String::from("body"))],
    ));
    assert_eq!(
        details.to_output().unwrap(),
        "<details><summary>more</summary>body</details>"
    );
    let img = Token::Image(String::from("alt text"), String::from("a.png"));
    assert_eq!(img.to_output().unwrap(), "<img src=\"a.png\" alt=\"alt text\" />");
    assert_eq!(Token::HorizontalBreak.to_output().unwrap(), "<hr>");
    assert_eq!(
        Token::Variable(String::from("v")).to_output().unwrap(),
        "<var>v</var>"
    );
    assert_eq!(
        Token::NegatedVariable(String::from("v")).to_output().unwrap(),
        "<span>v</span>"
    );
}

#[test]
fn token_silent_kinds_render_empty() {
    assert_eq!(Token::Whitespace.to_output().unwrap(), "");
    assert_eq!(Token::Comment.to_output().unwrap(), "");
    assert_eq!(Token::EOI.to_output().unwrap(), "");
    assert_eq!(
        Token::Metadata(vec![(String::from("k"), String::from("v"))]).to_output().unwrap(),
        ""
    );
}

#[test]
fn token_error_renders_its_message() {
    assert_eq!(
        Token::Error(LexError::Invalid).to_output().unwrap(),
        "The given source has invalid syntax."
    );
    assert_eq!(Token::Error(LexError::Other("boom")).to_output().unwrap(), "boom");
}

#[test]
fn rich_text_fragments() {
    assert_eq!(generate_rich_text_output(RichText::Text(String::from("t"))), "t");
    assert_eq!(
        generate_rich_text_output(RichText::Bold(String::from("b"))),
        "<strong>b</strong>"
    );
    assert_eq!(
        generate_rich_text_output(RichText::Italics(String::from("i"))),
        "<em>i</em>"
    );
    assert_eq!(
        generate_rich_text_output(RichText::StrikeThrough(String::from("s"))),
        "<del>s</del>"
    );
    assert_eq!(
        generate_rich_text_output(RichText::Subscript(String::from("d"))),
        "<sub>d</sub>"
    );
    assert_eq!(
        generate_rich_text_output(RichText::Superscript(String::from("u"))),
        "<sup>u</sup>"
    );
    assert_eq!(
        generate_rich_text_output(RichText::CodeBlock(CodeBlock {
            block_type: CodeType::Inline,
            contents: String::from("c"),
        })),
        "<code>c</code>"
    );
}

#[test]
fn node_heading_and_paragraph() {
    let h = AstNode::Heading { level: 1, text: "top" };
    assert_eq!(h.to_output().unwrap(), "<h1>top<h1/>");
    let p = AstNode::Paragraph(Text {
        children: vec![
            RichText::Text(String::from("a ")),
            RichText::Bold(String::from("b")),
        ],
    });
    assert_eq!(p.to_output().unwrap(), "a <strong>b</strong>");
}

#[test]
fn node_code_blocks() {
    let inline = AstNode::Code(CodeBlock {
        block_type: CodeType::Inline,
        contents: String::from("c"),
    });
    assert_eq!(inline.to_output().unwrap(), "<code>c</code>");
    let fenced = AstNode::Code(CodeBlock {
        block_type: CodeType::Fenced,
        contents: String::from("c"),
    });
    assert_eq!(fenced.to_output().unwrap(), "<pre><code>c</code></pre>");
}

#[test]
fn node_lists_and_tables() {
    let l = AstNode::List(List {
        list_type: ListType::Ordered,
        items: Text { children: vec![RichText::Text(String::from("x"))] },
    });
    assert_eq!(l.to_output().unwrap(), "<ol><li>x</li></ol>");
    let t = AstNode::Table(Table {
        headers: vec![String::from("H")],
        rows: vec![Text { children: vec![RichText::Text(String::from("v"))] }],
    });
    assert_eq!(
        t.to_output().unwrap(),
        "<table><tr><th>H</th></tr><tr><td>v</td></tr></table>"
    );
}

#[test]
fn node_error_renders_its_message() {
    assert_eq!(
        AstNode::Error(Error::Invalid).to_output().unwrap(),
        "The given source has invalid syntax."
    );
    assert_eq!(
        AstNode::Error(Error::Other(String::from("niche"))).to_output().unwrap(),
        "niche"
    );
}
