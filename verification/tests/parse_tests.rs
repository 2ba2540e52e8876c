use marklite::parse;

#[test]
fn headings_render_for_each_level() {
    assert_eq!(parse("# Title").unwrap().as_str(), "<h1>Title<h1/>");
    assert_eq!(parse("## Title").unwrap().as_str(), "<h2>Title<h2/>");
    assert_eq!(parse("### Title").unwrap().as_str(), "<h3>Title<h3/>");
    assert_eq!(parse("#### Title").unwrap().as_str(), "<h4>Title<h4/>");
    assert_eq!(parse("##### Title").unwrap().as_str(), "<h5>Title<h5/>");
    assert_eq!(parse("###### Title").unwrap().as_str(), "<h6>Title<h6/>");
}

#[test]
fn seven_markers_render_the_error_message() {
    assert_eq!(
        parse("####### Title").unwrap().as_str(),
        "The given source has invalid syntax."
    );
}

#[test]
fn marker_without_space_renders_the_error_message() {
    assert_eq!(
        parse("#Title").unwrap().as_str(),
        "The given source has invalid syntax."
    );
}

#[test]
fn no_marker_is_a_paragraph_not_an_error() {
    assert_eq!(parse(" Title").unwrap().as_str(), " Title");
}

#[test]
fn bold_renders_strong() {
    assert_eq!(parse("**bold**").unwrap().as_str(), "<strong>bold</strong>");
}

#[test]
fn italics_render_em() {
    assert_eq!(parse("*italic*").unwrap().as_str(), "<em>italic</em>");
}

#[test]
fn strikethrough_superscript_subscript_render() {
    assert_eq!(parse("~~gone~~").unwrap().as_str(), "<del>gone</del>");
    assert_eq!(parse("^up^").unwrap().as_str(), "<sup>up</sup>");
    assert_eq!(parse("___down___").unwrap().as_str(), "<sub>down</sub>");
}

#[test]
fn parsing_is_deterministic() {
    let src = "# Doc\nSome **bold** and *italic* text.\n";
    let a = parse(src).unwrap();
    let b = parse(src).unwrap();
    assert_eq!(a, b);
}

#[test]
fn ragged_table_rows_keep_their_own_cells() {
    assert_eq!(
        parse("| A | B |\n| 1 |").unwrap().as_str(),
        "<table><tr><th>A</th><th>B</th></tr><tr><td>1</td></tr></table>"
    );
}

#[test]
fn two_row_table_renders_headers_and_cells() {
    assert_eq!(
        parse("| Test | Second Heading |\n| Value | Other Value |").unwrap().as_str(),
        "<table><tr><th>Test</th><th>Second Heading</th></tr><tr><td>Value</td><td>Other Value</td></tr></table>"
    );
}

#[test]
fn unterminated_fence_takes_the_rest_of_the_input() {
    assert_eq!(
        parse("```rust\nlet x = 1;").unwrap().as_str(),
        "<pre><code>let x = 1;</code></pre>"
    );
}

#[test]
fn closed_fence_keeps_inner_lines() {
    assert_eq!(
        parse("```rust\nlet x = 1;\nlet y = 2;\n```\nafter").unwrap().as_str(),
        "<pre><code>let x = 1;\nlet y = 2;</code></pre>after"
    );
}

#[test]
fn heading_then_paragraph_preserves_order_and_text() {
    assert_eq!(
        parse("# Doc\nSome **bold** and *italic* text.\n").unwrap().as_str(),
        "<h1>Doc<h1/>Some <strong>bold</strong> and <em>italic</em> text."
    );
}

#[test]
fn unordered_list_renders_ul_items() {
    assert_eq!(
        parse("- one\n- two").unwrap().as_str(),
        "<ul><li>one</li><li>two</li></ul>"
    );
    assert_eq!(
        parse("* one\n* two").unwrap().as_str(),
        "<ul><li>one</li><li>two</li></ul>"
    );
}

#[test]
fn ordered_list_renders_ol_items() {
    assert_eq!(
        parse("1. one\n2. two").unwrap().as_str(),
        "<ol><li>one</li><li>two</li></ol>"
    );
}

#[test]
fn list_item_that_is_one_span_keeps_its_markup() {
    assert_eq!(parse("- *one*").unwrap().as_str(), "<ul><li><em>one</em></li></ul>");
}

#[test]
fn inline_code_renders_code() {
    assert_eq!(parse("before `x + y` after").unwrap().as_str(), "before <code>x + y</code> after");
}

#[test]
fn comment_lines_are_dropped() {
    assert_eq!(parse("// secret\nhello").unwrap().as_str(), "hello");
    assert_eq!(parse("  // indented comment\nhello").unwrap().as_str(), "hello");
}

#[test]
fn blank_lines_are_dropped() {
    assert_eq!(parse("a\n\n\nb").unwrap().as_str(), "ab");
}

#[test]
fn empty_input_renders_empty() {
    assert_eq!(parse("").unwrap().as_str(), "");
}

#[test]
fn unterminated_emphasis_runs_to_end_of_line() {
    assert_eq!(parse("*foo").unwrap().as_str(), "<em>foo</em>");
    assert_eq!(parse("**foo").unwrap().as_str(), "<strong>foo</strong>");
}

#[test]
fn lone_marks_stay_plain_text() {
    assert_eq!(parse("a_b").unwrap().as_str(), "a_b");
    assert_eq!(parse("a~b").unwrap().as_str(), "a~b");
}

#[test]
fn table_with_trailing_blank_cell_drops_it() {
    assert_eq!(
        parse("| A |\n| x |").unwrap().as_str(),
        "<table><tr><th>A</th></tr><tr><td>x</td></tr></table>"
    );
}
