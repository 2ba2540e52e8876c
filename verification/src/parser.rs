//! The grammar-driven parser and its document tree.
//!
//! [`parse_spec`] specifies the whole pipeline over `Seq<char>`: the
//! source is split into lines, consecutive lines are grouped into
//! block-level nodes (headings, paragraphs, tables, lists, fenced
//! code), inline runs are resolved to rich-text spans, and every node
//! is rendered to its HTML fragment.  The executable [`parse`] is
//! proved to return exactly `parse_spec` of its input.

use vstd::prelude::*;

use crate::scan;

verus! {

/// Represents a node.
#[derive(Debug, Clone)]
pub enum AstNode<'a> {
    Heading { level: u8, text: &'a str },
    Paragraph(Text),
    Table(Table),
    Code(CodeBlock),
    Error(Error),
    List(List),
}

/// Represents a type of rich text within a paragraph block.
#[derive(Debug, Clone)]
pub enum RichText {
    /// Italics, denoted using opening and closing asterisks (`*`)
    Italics(String),
    /// Bold text, denoted using opening and closing double asterisks (`**`)
    Bold(String),
    /// Subscript, denoted using opening and closing triple underscores (`___`)
    Subscript(String),
    /// Superscript, denoted using opening and closing carets (`^`)
    Superscript(String),
    /// An inline code block, denoted using opening and closing backticks
    CodeBlock(CodeBlock),
    /// Strikethrough text, denoted using opening and closing double tildes (`~~`)
    StrikeThrough(String),
    /// Normal text.
    Text(String),
}

/// Represents a paragraph.
#[derive(Debug, Clone)]
pub struct Text {
    pub children: Vec<RichText>,
}

/// A code block
#[derive(Debug, Clone)]
pub struct CodeBlock {
    /// The type of code block
    pub block_type: CodeType,
    /// The contents of the code block
    pub contents: String,
}

/// The type of code block
#[derive(Debug, Clone)]
pub enum CodeType {
    /// Separate code
    Fenced,
    /// Inline code within a paragraph
    Inline,
}

/// Represents an ordered or unordered list.
#[derive(Debug, Clone)]
pub struct List {
    pub list_type: ListType,
    pub items: Text,
}

/// Represents a type of list
#[derive(Debug, Clone)]
pub enum ListType {
    /// Ordered list (`ol` element)
    Ordered,
    /// Unordered list (`ul` element)
    Unordered,
}

/// A table
#[derive(Debug, Clone)]
pub struct Table {
    /// The headers of the table
    pub headers: Vec<String>,
    /// The rows within the table
    pub rows: Vec<Text>,
}

/// Generic Error type
#[derive(Debug, Clone)]
pub enum Error {
    /// Niche errors
    Other(String),
    /// The given source is invalid in some way
    Invalid,
}

/// Ghost model of an [`Error`].
pub enum ErrorV {
    Other(Seq<char>),
    Invalid,
}

/// Ghost model of a [`RichText`].
pub enum RichTextV {
    Italics(Seq<char>),
    Bold(Seq<char>),
    Subscript(Seq<char>),
    Superscript(Seq<char>),
    CodeBlock(CodeBlockV),
    StrikeThrough(Seq<char>),
    Text(Seq<char>),
}

/// Ghost model of a [`CodeBlock`].
pub struct CodeBlockV {
    pub block_type: CodeType,
    pub contents: Seq<char>,
}

/// Ghost model of a [`Text`].
pub struct TextV {
    pub children: Seq<RichTextV>,
}

/// Ghost model of a [`List`].
pub struct ListV {
    pub list_type: ListType,
    pub items: TextV,
}

/// Ghost model of a [`Table`].
pub struct TableV {
    pub headers: Seq<Seq<char>>,
    pub rows: Seq<TextV>,
}

/// Ghost model of an [`AstNode`].
pub enum AstNodeV {
    Heading { level: u8, text: Seq<char> },
    Paragraph(TextV),
    Table(TableV),
    Code(CodeBlockV),
    Error(ErrorV),
    List(ListV),
}

impl View for Error {
    type V = ErrorV;

    open spec fn view(&self) -> ErrorV {
        match self {
            Error::Other(s) => ErrorV::Other(s@),
            Error::Invalid => ErrorV::Invalid,
        }
    }
}

impl View for CodeBlock {
    type V = CodeBlockV;

    open spec fn view(&self) -> CodeBlockV {
        CodeBlockV { block_type: self.block_type, contents: self.contents@ }
    }
}

impl View for RichText {
    type V = RichTextV;

    open spec fn view(&self) -> RichTextV {
        match self {
            RichText::Italics(s) => RichTextV::Italics(s@),
            RichText::Bold(s) => RichTextV::Bold(s@),
            RichText::Subscript(s) => RichTextV::Subscript(s@),
            RichText::Superscript(s) => RichTextV::Superscript(s@),
            RichText::CodeBlock(c) => RichTextV::CodeBlock(c@),
            RichText::StrikeThrough(s) => RichTextV::StrikeThrough(s@),
            RichText::Text(s) => RichTextV::Text(s@),
        }
    }
}

impl DeepView for RichText {
    type V = RichTextV;

    open spec fn deep_view(&self) -> RichTextV {
        self@
    }
}

impl View for Text {
    type V = TextV;

    open spec fn view(&self) -> TextV {
        TextV { children: self.children.deep_view() }
    }
}

impl DeepView for Text {
    type V = TextV;

    open spec fn deep_view(&self) -> TextV {
        self@
    }
}

impl View for List {
    type V = ListV;

    open spec fn view(&self) -> ListV {
        ListV { list_type: self.list_type, items: self.items@ }
    }
}

impl View for Table {
    type V = TableV;

    open spec fn view(&self) -> TableV {
        TableV { headers: crate::lex::strings_view(self.headers@), rows: self.rows.deep_view() }
    }
}

impl<'a> View for AstNode<'a> {
    type V = AstNodeV;

    open spec fn view(&self) -> AstNodeV {
        match self {
            AstNode::Heading { level, text } => AstNodeV::Heading { level: *level, text: text@ },
            AstNode::Paragraph(t) => AstNodeV::Paragraph(t@),
            AstNode::Table(t) => AstNodeV::Table(t@),
            AstNode::Code(c) => AstNodeV::Code(c@),
            AstNode::Error(e) => AstNodeV::Error(e@),
            AstNode::List(l) => AstNodeV::List(l@),
        }
    }
}

impl<'a> DeepView for AstNode<'a> {
    type V = AstNodeV;

    open spec fn deep_view(&self) -> AstNodeV {
        self@
    }
}

/// The display message of an error, rendered in place of the construct
/// that produced it.
pub open spec fn error_message(e: ErrorV) -> Seq<char> {
    match e {
        ErrorV::Other(s) => s,
        ErrorV::Invalid => "The given source has invalid syntax."@,
    }
}

impl Error {
    /// The display message of this error.
    pub fn message(&self) -> (r: String)
        ensures
            r@ == error_message(self@),
    {
        match self {
            Error::Other(s) => s.clone(),
            Error::Invalid => String::from_str("The given source has invalid syntax."),
        }
    }
}

/// The HTML fragment of one rich-text span.
pub open spec fn render_rich(r: RichTextV) -> Seq<char> {
    match r {
        RichTextV::Text(s) => s,
        RichTextV::Bold(s) => "<strong>"@ + s + "</strong>"@,
        RichTextV::Italics(s) => "<em>"@ + s + "</em>"@,
        RichTextV::StrikeThrough(s) => "<del>"@ + s + "</del>"@,
        RichTextV::Subscript(s) => "<sub>"@ + s + "</sub>"@,
        RichTextV::Superscript(s) => "<sup>"@ + s + "</sup>"@,
        RichTextV::CodeBlock(c) => "<code>"@ + c.contents + "</code>"@,
    }
}

/// The concatenated fragments of the spans of `t` from index `i` on.
pub open spec fn render_text(t: Seq<RichTextV>, i: int) -> Seq<char>
    decreases t.len() - i,
{
    if i < 0 || i >= t.len() {
        Seq::empty()
    } else {
        render_rich(t[i]) + render_text(t, i + 1)
    }
}

/// The spans of `t` from index `i` on, each wrapped in a list-item
/// element.
pub open spec fn render_li(t: Seq<RichTextV>, i: int) -> Seq<char>
    decreases t.len() - i,
{
    if i < 0 || i >= t.len() {
        Seq::empty()
    } else {
        "<li>"@ + render_rich(t[i]) + "</li>"@ + render_li(t, i + 1)
    }
}

/// The header cells of a table from index `i` on.
pub open spec fn render_th(headers: Seq<Seq<char>>, i: int) -> Seq<char>
    decreases headers.len() - i,
{
    if i < 0 || i >= headers.len() {
        Seq::empty()
    } else {
        "<th>"@ + headers[i] + "</th>"@ + render_th(headers, i + 1)
    }
}

/// The cells of one table row from index `i` on.
pub open spec fn render_td(row: Seq<RichTextV>, i: int) -> Seq<char>
    decreases row.len() - i,
{
    if i < 0 || i >= row.len() {
        Seq::empty()
    } else {
        "<td>"@ + render_rich(row[i]) + "</td>"@ + render_td(row, i + 1)
    }
}

/// The rows of a table from index `i` on.
pub open spec fn render_tr(rows: Seq<TextV>, i: int) -> Seq<char>
    decreases rows.len() - i,
{
    if i < 0 || i >= rows.len() {
        Seq::empty()
    } else {
        "<tr>"@ + render_td(rows[i].children, 0) + "</tr>"@ + render_tr(rows, i + 1)
    }
}

/// The HTML fragment of one document node.  Raw text is embedded
/// verbatim: the dialect performs no HTML escaping, so untrusted input
/// must be escaped by the caller.
pub open spec fn render_node(n: AstNodeV) -> Seq<char> {
    match n {
        AstNodeV::Heading { level, text } => crate::lex::h_open(level) + text + crate::lex::h_close(
            level,
        ),
        AstNodeV::Paragraph(t) => render_text(t.children, 0),
        AstNodeV::List(l) => (if l.list_type == ListType::Ordered {
            "<ol>"@ + render_li(l.items.children, 0) + "</ol>"@
        } else {
            "<ul>"@ + render_li(l.items.children, 0) + "</ul>"@
        }),
        AstNodeV::Code(c) => (if c.block_type == CodeType::Inline {
            "<code>"@ + c.contents + "</code>"@
        } else {
            "<pre><code>"@ + c.contents + "</code></pre>"@
        }),
        AstNodeV::Table(t) => "<table><tr>"@ + render_th(t.headers, 0) + "</tr>"@ + render_tr(
            t.rows,
            0,
        ) + "</table>"@,
        AstNodeV::Error(e) => error_message(e),
    }
}

/// The concatenated fragments of the nodes of `ns` from index `i` on.
pub open spec fn render_nodes(ns: Seq<AstNodeV>, i: int) -> Seq<char>
    decreases ns.len() - i,
{
    if i < 0 || i >= ns.len() {
        Seq::empty()
    } else {
        render_node(ns[i]) + render_nodes(ns, i + 1)
    }
}

/// Generates the HTML fragment of one rich-text span.
pub fn generate_rich_text_output(rich_text: RichText) -> (out: String)
    ensures
        out@ == render_rich(rich_text@),
{
    match rich_text {
        RichText::Text(text) => text,
        RichText::Bold(text) => wrap_rich("<strong>", &text, "</strong>"),
        RichText::Italics(text) => wrap_rich("<em>", &text, "</em>"),
        RichText::StrikeThrough(text) => wrap_rich("<del>", &text, "</del>"),
        RichText::Subscript(text) => wrap_rich("<sub>", &text, "</sub>"),
        RichText::Superscript(text) => wrap_rich("<sup>", &text, "</sup>"),
        RichText::CodeBlock(code) => wrap_rich("<code>", &code.contents, "</code>"),
    }
}

/// Renders one rich-text span behind a reference.
fn rich_out(r: &RichText) -> (out: String)
    ensures
        out@ == render_rich(r@),
{
    match r {
        RichText::Text(text) => text.clone(),
        RichText::Bold(text) => wrap_rich("<strong>", text, "</strong>"),
        RichText::Italics(text) => wrap_rich("<em>", text, "</em>"),
        RichText::StrikeThrough(text) => wrap_rich("<del>", text, "</del>"),
        RichText::Subscript(text) => wrap_rich("<sub>", text, "</sub>"),
        RichText::Superscript(text) => wrap_rich("<sup>", text, "</sup>"),
        RichText::CodeBlock(code) => wrap_rich("<code>", &code.contents, "</code>"),
    }
}

/// Builds `open + middle + close`.
fn wrap_rich(open: &str, middle: &String, close: &str) -> (out: String)
    ensures
        out@ == open@ + middle@ + close@,
{
    let mut out = String::new();
    out.append(open);
    out.append(middle.as_str());
    out.append(close);
    assert(out@ =~= open@ + middle@ + close@);
    out
}

/// The segments of `s` between newlines, from position `i` on.  A
/// trailing newline yields a final empty segment, which the block
/// grammar skips as a blank line.
pub open spec fn split_lines_from(s: Seq<char>, i: int) -> Seq<Seq<char>>
    decreases s.len() - i
    when 0 <= i <= s.len()
{
    proof {
        crate::scan::lemma_find_sub(s, seq!['\n'], i);
    }
    let p = crate::scan::find_sub(s, seq!['\n'], i);
    if p < s.len() {
        seq![s.subrange(i, p)] + split_lines_from(s, p + 1)
    } else {
        seq![s.subrange(i, s.len() as int)]
    }
}

/// The lines of a source document.
pub open spec fn split_lines(s: Seq<char>) -> Seq<Seq<char>> {
    split_lines_from(s, 0)
}

/// Splits the source into its lines.
pub fn split_lines_exec<'a>(s: &'a str) -> (r: Vec<&'a str>)
    ensures
        r.deep_view() == split_lines(s@),
{
    let total: usize = s.unicode_len();
    let mut lines: Vec<&'a str> = Vec::new();
    let mut i: usize = 0;
    proof {
        reveal_strlit("\n");
        assert("\n"@ =~= seq!['\n']);
    }
    loop
        invariant_except_break
            lines.deep_view() + split_lines_from(s@, i as int) == split_lines_from(s@, 0),
        invariant
            i <= total,
            total == s@.len(),
            "\n"@ == seq!['\n'],
        ensures
            lines.deep_view() == split_lines_from(s@, 0),
        decreases total - i,
    {
        let ghost prior = lines.deep_view();
        proof {
            crate::scan::lemma_find_sub(s@, seq!['\n'], i as int);
        }
        let p = crate::scan::find_sub_exec(s, "\n", i);
        if p < total {
            let line = s.substring_char(i, p);
            lines.push(line);
            proof {
                assert(lines.deep_view() =~= prior.push(line@));
                assert(prior.push(line@) + split_lines_from(s@, p + 1) =~= prior + (seq![line@]
                    + split_lines_from(s@, p + 1)));
            }
            i = p + 1;
        } else {
            let line = s.substring_char(i, total);
            lines.push(line);
            proof {
                assert(split_lines_from(s@, i as int) =~= seq![line@]);
                assert(lines.deep_view() =~= prior.push(line@));
                assert(prior.push(line@) =~= prior + seq![line@]);
            }
            break;
        }
    }
    lines
}

/// Whitespace that surrounds cell and fence text without meaning.
pub open spec fn is_blank(c: char) -> bool {
    c == ' ' || c == '\t' || c == '\r'
}

/// First position at or after `i` holding a non-blank character.
pub open spec fn trim_start_idx(s: Seq<char>, i: int) -> int
    decreases s.len() - i
    when 0 <= i <= s.len()
{
    if i < s.len() && is_blank(s[i]) {
        trim_start_idx(s, i + 1)
    } else {
        i
    }
}

/// Position after the last non-blank character before `j`.
pub open spec fn trim_end_idx(s: Seq<char>, j: int) -> int
    decreases j
    when 0 <= j <= s.len()
{
    if j > 0 && is_blank(s[j - 1]) {
        trim_end_idx(s, j - 1)
    } else {
        j
    }
}

/// `s` without its leading and trailing blanks.
pub open spec fn trim_view(s: Seq<char>) -> Seq<char> {
    let a = trim_start_idx(s, 0);
    let b = trim_end_idx(s, s.len() as int);
    if a <= b {
        s.subrange(a, b)
    } else {
        Seq::empty()
    }
}

pub proof fn lemma_trim_idx(s: Seq<char>, i: int, j: int)
    requires
        0 <= i <= s.len(),
        0 <= j <= s.len(),
    ensures
        i <= trim_start_idx(s, i) <= s.len(),
        0 <= trim_end_idx(s, j) <= j,
    decreases s.len() - i + j,
{
    if i < s.len() && is_blank(s[i]) {
        lemma_trim_idx(s, i + 1, j);
    } else if j > 0 && is_blank(s[j - 1]) {
        lemma_trim_idx(s, i, j - 1);
    }
}

/// Strips leading and trailing blanks.
pub fn trim_exec<'a>(s: &'a str) -> (r: &'a str)
    ensures
        r@ == trim_view(s@),
{
    let total: usize = s.unicode_len();
    let mut a: usize = 0;
    while a < total && is_blank_exec(s.get_char(a))
        invariant
            0 <= a <= total,
            total == s@.len(),
            trim_start_idx(s@, 0) == trim_start_idx(s@, a as int),
        decreases total - a,
    {
        a += 1;
    }
    let mut b: usize = total;
    while b > 0 && is_blank_exec(s.get_char(b - 1))
        invariant
            0 <= b <= total,
            total == s@.len(),
            trim_end_idx(s@, total as int) == trim_end_idx(s@, b as int),
        decreases b,
    {
        b -= 1;
    }
    if a <= b {
        s.substring_char(a, b)
    } else {
        let r = s.substring_char(0, 0);
        proof {
            assert(r@ =~= trim_view(s@));
        }
        r
    }
}

/// Executable test for [`is_blank`].
pub fn is_blank_exec(c: char) -> (b: bool)
    ensures
        b == is_blank(c),
{
    c == ' ' || c == '\t' || c == '\r'
}

/// The characters that open an inline formatting span inside a
/// paragraph, list item or cell.
pub open spec fn inline_marker(c: char) -> bool {
    c == '*' || c == '_' || c == '~' || c == '^' || c == '`'
}

/// Executable test for [`inline_marker`].
pub fn is_inline_marker(c: char) -> (b: bool)
    ensures
        b == inline_marker(c),
{
    c == '*' || c == '_' || c == '~' || c == '^' || c == '`'
}

/// End of the run of plain text beginning at `i`: the position of the
/// next inline marker, or the end of the line.
pub open spec fn inline_text_end(l: Seq<char>, i: int) -> int
    decreases l.len() - i
    when 0 <= i <= l.len()
{
    if i >= l.len() {
        l.len() as int
    } else if inline_marker(l[i]) {
        i
    } else {
        inline_text_end(l, i + 1)
    }
}

pub proof fn lemma_inline_text_end(l: Seq<char>, i: int)
    requires
        0 <= i <= l.len(),
    ensures
        i <= inline_text_end(l, i) <= l.len(),
        inline_text_end(l, i) < l.len() ==> inline_marker(l[inline_text_end(l, i)]),
        forall|k: int| i <= k < inline_text_end(l, i) ==> !inline_marker(l[k]),
    decreases l.len() - i,
{
    if i < l.len() && !inline_marker(l[i]) {
        lemma_inline_text_end(l, i + 1);
    }
}

/// The result of resolving one inline span: its ghost model and the
/// position after it.
pub struct InlineStep {
    pub span: RichTextV,
    pub next: int,
}

/// One step of inline scanning: the rich-text span that begins at
/// position `i` of the line `l`.  The doubling rules mirror the lexer:
/// `**`, `___`, `~~` open bold, subscript and strikethrough; single
/// `*`, `^` and a backtick open italics, superscript and inline code;
/// a lone `_` or `~` is plain text.  An unterminated span runs to the
/// end of the line, best-effort.
pub open spec fn inline_step(l: Seq<char>, i: int) -> InlineStep
    recommends
        0 <= i < l.len(),
{
    let c = l[i];
    if c == '*' {
        if crate::scan::delim_at(l, seq!['*', '*'], i) {
            let r = crate::delim_scan(l, i, 2, seq!['*', '*']);
            InlineStep { span: RichTextV::Bold(r.0), next: r.1 }
        } else {
            let r = crate::delim_scan(l, i, 1, seq!['*']);
            InlineStep { span: RichTextV::Italics(r.0), next: r.1 }
        }
    } else if c == '_' {
        if crate::scan::delim_at(l, seq!['_', '_', '_'], i) {
            let r = crate::delim_scan(l, i, 3, seq!['_', '_', '_']);
            InlineStep { span: RichTextV::Subscript(r.0), next: r.1 }
        } else {
            InlineStep { span: RichTextV::Text(seq!['_']), next: i + 1 }
        }
    } else if c == '~' {
        if crate::scan::delim_at(l, seq!['~', '~'], i) {
            let r = crate::delim_scan(l, i, 2, seq!['~', '~']);
            InlineStep { span: RichTextV::StrikeThrough(r.0), next: r.1 }
        } else {
            InlineStep { span: RichTextV::Text(seq!['~']), next: i + 1 }
        }
    } else if c == '^' {
        let r = crate::delim_scan(l, i, 1, seq!['^']);
        InlineStep { span: RichTextV::Superscript(r.0), next: r.1 }
    } else if c == '`' {
        let r = crate::delim_scan(l, i, 1, seq!['`']);
        InlineStep {
            span: RichTextV::CodeBlock(CodeBlockV { block_type: CodeType::Inline, contents: r.0 }),
            next: r.1,
        }
    } else {
        let e = inline_text_end(l, i);
        InlineStep { span: RichTextV::Text(l.subrange(i, e)), next: e }
    }
}

/// Every inline step consumes at least one character.
pub proof fn lemma_inline_step(l: Seq<char>, i: int)
    requires
        0 <= i < l.len(),
    ensures
        i < inline_step(l, i).next <= l.len(),
{
    let c = l[i];
    if c == '*' {
        if crate::scan::delim_at(l, seq!['*', '*'], i) {
            crate::scan::lemma_find_sub(l, seq!['*', '*'], i + 2);
        } else {
            crate::scan::lemma_find_sub(l, seq!['*'], i + 1);
        }
    } else if c == '_' {
        if crate::scan::delim_at(l, seq!['_', '_', '_'], i) {
            crate::scan::lemma_find_sub(l, seq!['_', '_', '_'], i + 3);
        }
    } else if c == '~' {
        if crate::scan::delim_at(l, seq!['~', '~'], i) {
            crate::scan::lemma_find_sub(l, seq!['~', '~'], i + 2);
        }
    } else if c == '^' {
        crate::scan::lemma_find_sub(l, seq!['^'], i + 1);
    } else if c == '`' {
        crate::scan::lemma_find_sub(l, seq!['`'], i + 1);
    } else {
        lemma_inline_text_end(l, i);
        assert(!inline_marker(c));
    }
}

/// The ordered rich-text spans of the line `l` from position `i` on.
pub open spec fn inline_spec(l: Seq<char>, i: int) -> Seq<RichTextV>
    decreases l.len() - i
    when 0 <= i <= l.len()
{
    if i >= l.len() {
        Seq::empty()
    } else {
        proof {
            lemma_inline_step(l, i);
        }
        let st = inline_step(l, i);
        seq![st.span] + inline_spec(l, st.next)
    }
}

/// Resolves the one inline span that begins at position `i` of the
/// line; returns the span and the position after it.
#[verifier::rlimit(30)]
fn inline_one(l: &str, i: usize) -> (r: (RichText, usize))
    requires
        i < l@.len(),
    ensures
        r.0@ == inline_step(l@, i as int).span,
        r.1 == inline_step(l@, i as int).next,
{
    let ghost s = l@;
    let ghost gi = i as int;
    let total: usize = l.unicode_len();
    let c = l.get_char(i);
    if c == '*' {
        let two = total - i > 1 && l.get_char(i + 1) == '*';
        if two {
            proof {
                assert(s.subrange(gi, gi + 2) =~= seq!['*', '*']);
                reveal_strlit("**");
                assert("**"@ =~= seq!['*', '*']);
                crate::scan::lemma_find_sub(s, seq!['*', '*'], gi + 2);
            }
            let e = crate::scan::find_sub_exec(l, "**", i + 2);
            let txt = l.substring_char(i + 2, e);
            let next = if total - e >= 2 {
                e + 2
            } else {
                e
            };
            (RichText::Bold(String::from_str(txt)), next)
        } else {
            proof {
                assert(!crate::scan::delim_at(s, seq!['*', '*'], gi)) by {
                    if crate::scan::delim_at(s, seq!['*', '*'], gi) {
                        assert(s.subrange(gi, gi + 2)[1] == '*');
                    }
                }
                reveal_strlit("*");
                assert("*"@ =~= seq!['*']);
                crate::scan::lemma_find_sub(s, seq!['*'], gi + 1);
            }
            let e = crate::scan::find_sub_exec(l, "*", i + 1);
            let txt = l.substring_char(i + 1, e);
            let next = if total - e >= 1 {
                e + 1
            } else {
                e
            };
            (RichText::Italics(String::from_str(txt)), next)
        }
    } else if c == '_' {
        let three = total - i > 2 && l.get_char(i + 1) == '_' && l.get_char(i + 2) == '_';
        if three {
            proof {
                assert(s.subrange(gi, gi + 3) =~= seq!['_', '_', '_']);
                reveal_strlit("___");
                assert("___"@ =~= seq!['_', '_', '_']);
                crate::scan::lemma_find_sub(s, seq!['_', '_', '_'], gi + 3);
            }
            let e = crate::scan::find_sub_exec(l, "___", i + 3);
            let txt = l.substring_char(i + 3, e);
            let next = if total - e >= 3 {
                e + 3
            } else {
                e
            };
            (RichText::Subscript(String::from_str(txt)), next)
        } else {
            proof {
                assert(!crate::scan::delim_at(s, seq!['_', '_', '_'], gi)) by {
                    if crate::scan::delim_at(s, seq!['_', '_', '_'], gi) {
                        assert(s.subrange(gi, gi + 3)[1] == '_');
                        assert(s.subrange(gi, gi + 3)[2] == '_');
                    }
                }
                reveal_strlit("_");
                assert("_"@ =~= seq!['_']);
            }
            (RichText::Text(String::from_str("_")), i + 1)
        }
    } else if c == '~' {
        let two = total - i > 1 && l.get_char(i + 1) == '~';
        if two {
            proof {
                assert(s.subrange(gi, gi + 2) =~= seq!['~', '~']);
                reveal_strlit("~~");
                assert("~~"@ =~= seq!['~', '~']);
                crate::scan::lemma_find_sub(s, seq!['~', '~'], gi + 2);
            }
            let e = crate::scan::find_sub_exec(l, "~~", i + 2);
            let txt = l.substring_char(i + 2, e);
            let next = if total - e >= 2 {
                e + 2
            } else {
                e
            };
            (RichText::StrikeThrough(String::from_str(txt)), next)
        } else {
            proof {
                assert(!crate::scan::delim_at(s, seq!['~', '~'], gi)) by {
                    if crate::scan::delim_at(s, seq!['~', '~'], gi) {
                        assert(s.subrange(gi, gi + 2)[1] == '~');
                    }
                }
                reveal_strlit("~");
                assert("~"@ =~= seq!['~']);
            }
            (RichText::Text(String::from_str("~")), i + 1)
        }
    } else if c == '^' {
        proof {
            reveal_strlit("^");
            assert("^"@ =~= seq!['^']);
            crate::scan::lemma_find_sub(s, seq!['^'], gi + 1);
        }
        let e = crate::scan::find_sub_exec(l, "^", i + 1);
        let txt = l.substring_char(i + 1, e);
        let next = if total - e >= 1 {
            e + 1
        } else {
            e
        };
        (RichText::Superscript(String::from_str(txt)), next)
    } else if c == '`' {
        proof {
            reveal_strlit("`");
            assert("`"@ =~= seq!['`']);
            crate::scan::lemma_find_sub(s, seq!['`'], gi + 1);
        }
        let e = crate::scan::find_sub_exec(l, "`", i + 1);
        let txt = l.substring_char(i + 1, e);
        let next = if total - e >= 1 {
            e + 1
        } else {
            e
        };
        (
            RichText::CodeBlock(
                CodeBlock { block_type: CodeType::Inline, contents: String::from_str(txt) },
            ),
            next,
        )
    } else {
        proof {
            lemma_inline_text_end(s, gi);
        }
        let mut e: usize = i;
        while e < total && !is_inline_marker(l.get_char(e))
            invariant
                i <= e <= total,
                total == l@.len(),
                inline_text_end(l@, i as int) == inline_text_end(l@, e as int),
            decreases total - e,
        {
            e += 1;
        }
        let txt = l.substring_char(i, e);
        (RichText::Text(String::from_str(txt)), e)
    }
}

/// Resolves a whole line of inline rich text.
pub fn inline_parse(l: &str) -> (r: Vec<RichText>)
    ensures
        r.deep_view() == inline_spec(l@, 0),
{
    let total: usize = l.unicode_len();
    let mut spans: Vec<RichText> = Vec::new();
    let mut i: usize = 0;
    while i < total
        invariant
            i <= total,
            total == l@.len(),
            spans.deep_view() + inline_spec(l@, i as int) == inline_spec(l@, 0),
        decreases total - i,
    {
        let ghost prior = spans.deep_view();
        proof {
            lemma_inline_step(l@, i as int);
        }
        let r = inline_one(l, i);
        spans.push(r.0);
        proof {
            assert(spans.deep_view() =~= prior.push(inline_step(l@, i as int).span));
            assert(prior.push(inline_step(l@, i as int).span) + inline_spec(l@, r.1 as int)
                =~= prior + (seq![inline_step(l@, i as int).span] + inline_spec(l@, r.1 as int)));
        }
        i = r.1;
    }
    proof {
        assert(spans.deep_view() + inline_spec(l@, i as int) =~= spans.deep_view());
    }
    spans
}


/// A line with nothing but blanks.
pub open spec fn is_blank_line(l: Seq<char>) -> bool {
    trim_view(l).len() == 0
}

/// A line whose first non-blank characters open a comment.
pub open spec fn is_comment_line(l: Seq<char>) -> bool {
    let t = trim_view(l);
    t.len() >= 2 && t[0] == '/' && t[1] == '/'
}

/// A heading line: it begins with a heading marker.
pub open spec fn is_heading_line(l: Seq<char>) -> bool {
    l.len() > 0 && l[0] == '#'
}

/// A table line: it begins with a cell separator.
pub open spec fn is_table_line(l: Seq<char>) -> bool {
    l.len() > 0 && l[0] == '|'
}

/// An unordered list item: a dash or asterisk marker and a space.
pub open spec fn is_unordered_item(l: Seq<char>) -> bool {
    l.len() >= 2 && (l[0] == '-' || l[0] == '*') && l[1] == ' '
}

/// A decimal digit.
pub open spec fn is_digit(c: char) -> bool {
    c == '0' || c == '1' || c == '2' || c == '3' || c == '4' || c == '5' || c == '6' || c == '7'
        || c == '8' || c == '9'
}

/// End of the run of digits beginning at `i`.
pub open spec fn digit_run_end(l: Seq<char>, i: int) -> int
    decreases l.len() - i
    when 0 <= i <= l.len()
{
    if i < l.len() && is_digit(l[i]) {
        digit_run_end(l, i + 1)
    } else {
        i
    }
}

pub proof fn lemma_digit_run_end(l: Seq<char>, i: int)
    requires
        0 <= i <= l.len(),
    ensures
        i <= digit_run_end(l, i) <= l.len(),
        digit_run_end(l, i) < l.len() ==> !is_digit(l[digit_run_end(l, i)]),
        forall|k: int| i <= k < digit_run_end(l, i) ==> is_digit(l[k]),
    decreases l.len() - i,
{
    if i < l.len() && is_digit(l[i]) {
        lemma_digit_run_end(l, i + 1);
    }
}

/// An ordered list item: one or more digits, a dot and a space.
pub open spec fn is_ordered_item(l: Seq<char>) -> bool {
    let e = digit_run_end(l, 0);
    e > 0 && e + 1 < l.len() && l[e] == '.' && l[e + 1] == ' '
}

/// A line that opens a fenced code block.
pub open spec fn is_fence_line(l: Seq<char>) -> bool {
    scan::delim_at(l, seq!['`', '`', '`'], 0)
}

/// A line that closes a fenced code block: nothing but the fence,
/// blanks aside.
pub open spec fn is_fence_close(l: Seq<char>) -> bool {
    trim_view(l) == seq!['`', '`', '`']
}

/// End of the run of table lines beginning at line `i`.
pub open spec fn table_end(lines: Seq<Seq<char>>, i: int) -> int
    decreases lines.len() - i
    when 0 <= i <= lines.len()
{
    if i < lines.len() && is_table_line(lines[i]) {
        table_end(lines, i + 1)
    } else {
        i
    }
}

pub proof fn lemma_table_end(lines: Seq<Seq<char>>, i: int)
    requires
        0 <= i <= lines.len(),
    ensures
        i <= table_end(lines, i) <= lines.len(),
        forall|k: int| i <= k < table_end(lines, i) ==> is_table_line(lines[k]),
        table_end(lines, i) < lines.len() ==> !is_table_line(lines[table_end(lines, i)]),
    decreases lines.len() - i,
{
    if i < lines.len() && is_table_line(lines[i]) {
        lemma_table_end(lines, i + 1);
    }
}

/// End of the run of unordered list items beginning at line `i`.
pub open spec fn unordered_end(lines: Seq<Seq<char>>, i: int) -> int
    decreases lines.len() - i
    when 0 <= i <= lines.len()
{
    if i < lines.len() && is_unordered_item(lines[i]) {
        unordered_end(lines, i + 1)
    } else {
        i
    }
}

pub proof fn lemma_unordered_end(lines: Seq<Seq<char>>, i: int)
    requires
        0 <= i <= lines.len(),
    ensures
        i <= unordered_end(lines, i) <= lines.len(),
        forall|k: int| i <= k < unordered_end(lines, i) ==> is_unordered_item(lines[k]),
        unordered_end(lines, i) < lines.len() ==> !is_unordered_item(
            lines[unordered_end(lines, i)],
        ),
    decreases lines.len() - i,
{
    if i < lines.len() && is_unordered_item(lines[i]) {
        lemma_unordered_end(lines, i + 1);
    }
}

/// End of the run of ordered list items beginning at line `i`.
pub open spec fn ordered_end(lines: Seq<Seq<char>>, i: int) -> int
    decreases lines.len() - i
    when 0 <= i <= lines.len()
{
    if i < lines.len() && is_ordered_item(lines[i]) {
        ordered_end(lines, i + 1)
    } else {
        i
    }
}

pub proof fn lemma_ordered_end(lines: Seq<Seq<char>>, i: int)
    requires
        0 <= i <= lines.len(),
    ensures
        i <= ordered_end(lines, i) <= lines.len(),
        forall|k: int| i <= k < ordered_end(lines, i) ==> is_ordered_item(lines[k]),
        ordered_end(lines, i) < lines.len() ==> !is_ordered_item(lines[ordered_end(lines, i)]),
    decreases lines.len() - i,
{
    if i < lines.len() && is_ordered_item(lines[i]) {
        lemma_ordered_end(lines, i + 1);
    }
}

/// Index of the line that closes a fenced code block opened before
/// line `i`, or the number of lines when it is never closed.
pub open spec fn fence_close_at(lines: Seq<Seq<char>>, i: int) -> int
    decreases lines.len() - i
    when 0 <= i <= lines.len()
{
    if i >= lines.len() {
        lines.len() as int
    } else if is_fence_close(lines[i]) {
        i
    } else {
        fence_close_at(lines, i + 1)
    }
}

pub proof fn lemma_fence_close_at(lines: Seq<Seq<char>>, i: int)
    requires
        0 <= i <= lines.len(),
    ensures
        i <= fence_close_at(lines, i) <= lines.len(),
        fence_close_at(lines, i) < lines.len() ==> is_fence_close(
            lines[fence_close_at(lines, i)],
        ),
        forall|k: int| i <= k < fence_close_at(lines, i) ==> !is_fence_close(lines[k]),
    decreases lines.len() - i,
{
    if i < lines.len() && !is_fence_close(lines[i]) {
        lemma_fence_close_at(lines, i + 1);
    }
}

/// The lines `i` (inclusive) to `j` (exclusive) joined by newlines.
pub open spec fn join_lines(lines: Seq<Seq<char>>, i: int, j: int) -> Seq<char>
    decreases j - i
{
    if i >= j {
        Seq::empty()
    } else if i + 1 == j {
        lines[i]
    } else {
        lines[i] + seq!['\n'] + join_lines(lines, i + 1, j)
    }
}

/// The segments of the table line `l` between cell separators: the
/// text after the leading separator is split at each further `|`.
pub open spec fn pipe_split_from(l: Seq<char>, i: int) -> Seq<Seq<char>>
    decreases l.len() - i
    when 0 <= i <= l.len()
{
    proof {
        scan::lemma_find_sub(l, seq!['|'], i);
    }
    let p = scan::find_sub(l, seq!['|'], i);
    if p < l.len() {
        seq![l.subrange(i, p)] + pipe_split_from(l, p + 1)
    } else {
        seq![l.subrange(i, l.len() as int)]
    }
}

/// The trimmed segments of the table line `l` between cell
/// separators, from position `i` on.
pub open spec fn cells_from(l: Seq<char>, i: int) -> Seq<Seq<char>>
    decreases l.len() - i
    when 0 <= i <= l.len()
{
    proof {
        scan::lemma_find_sub(l, seq!['|'], i);
    }
    let p = scan::find_sub(l, seq!['|'], i);
    if p < l.len() {
        seq![trim_view(l.subrange(i, p))] + cells_from(l, p + 1)
    } else {
        seq![trim_view(l.subrange(i, l.len() as int))]
    }
}

pub proof fn lemma_cells_from(l: Seq<char>, i: int)
    requires
        0 <= i <= l.len(),
    ensures
        cells_from(l, i).len() >= 1,
    decreases l.len() - i,
{
    scan::lemma_find_sub(l, seq!['|'], i);
}

/// The cells of one table line: the segments after the leading
/// separator, each trimmed of blanks; a final empty cell (the text
/// after a trailing separator) is dropped.
pub open spec fn row_cells(l: Seq<char>) -> Seq<Seq<char>>
    recommends
        l.len() >= 1,
{
    let parts = cells_from(l, 1);
    if parts.len() > 0 && parts.last().len() == 0 {
        parts.drop_last()
    } else {
        parts
    }
}

/// The cells of a table body line, each a plain-text cell of the row.
pub open spec fn row_text(l: Seq<char>) -> TextV {
    TextV { children: row_cells(l).map_values(|c: Seq<char>| RichTextV::Text(c)) }
}

/// The heading node of a heading line: one to six markers and a space
/// give a heading of that level whose text is the rest of the line;
/// any other marker run is an error node.
pub open spec fn heading_node(l: Seq<char>) -> AstNodeV {
    let e = crate::hash_run_end(l, 0);
    if e <= 6 && e < l.len() && l[e] == ' ' {
        AstNodeV::Heading { level: e as u8, text: l.subrange(e + 1, l.len() as int) }
    } else {
        AstNodeV::Error(ErrorV::Invalid)
    }
}

/// The table node of the table lines `i` (its header line) to `j`
/// (exclusive): the first line's cells are the headers, each further
/// line is one row.  Row lengths are free to differ.
pub open spec fn table_node(lines: Seq<Seq<char>>, i: int, j: int) -> AstNodeV {
    AstNodeV::Table(
        TableV {
            headers: row_cells(lines[i]),
            rows: Seq::new((j - i - 1) as nat, |k: int| row_text(lines[i + 1 + k])),
        },
    )
}

/// The content of a list item line, after its marker.
pub open spec fn item_content(l: Seq<char>, ordered: bool) -> Seq<char> {
    if ordered {
        l.subrange(digit_run_end(l, 0) + 2, l.len() as int)
    } else {
        l.subrange(2, l.len() as int)
    }
}

/// One list item as a single rich-text span: an item that is exactly
/// one inline span keeps it; any other content stays plain text.
pub open spec fn item_rich(c: Seq<char>) -> RichTextV {
    if inline_spec(c, 0).len() == 1 {
        inline_spec(c, 0)[0]
    } else {
        RichTextV::Text(c)
    }
}

/// The list node of the item lines `i` to `j` (exclusive).
pub open spec fn list_node(lines: Seq<Seq<char>>, i: int, j: int, ordered: bool) -> AstNodeV {
    AstNodeV::List(
        ListV {
            list_type: if ordered {
                ListType::Ordered
            } else {
                ListType::Unordered
            },
            items: TextV {
                children: Seq::new(
                    (j - i) as nat,
                    |k: int| item_rich(item_content(lines[i + k], ordered)),
                ),
            },
        },
    )
}

/// The document nodes of the lines from index `i` on.  Blank and
/// comment lines are skipped; a heading line is one node; consecutive
/// table lines form one table; consecutive list item lines form one
/// list whose kind the first item fixes; a fence line opens a code
/// block that runs to the closing fence or, best-effort, to the end of
/// the document; every other line is a paragraph of inline rich text.
pub open spec fn parse_doc(lines: Seq<Seq<char>>, i: int) -> Seq<AstNodeV>
    decreases lines.len() - i
    when 0 <= i <= lines.len()
{
    if i >= lines.len() {
        Seq::empty()
    } else {
        let l = lines[i];
        if is_blank_line(l) || is_comment_line(l) {
            parse_doc(lines, i + 1)
        } else if is_heading_line(l) {
            seq![heading_node(l)] + parse_doc(lines, i + 1)
        } else if is_table_line(l) {
            proof {
                lemma_table_end(lines, i + 1);
            }
            let j = table_end(lines, i + 1);
            seq![table_node(lines, i, j)] + parse_doc(lines, j)
        } else if is_unordered_item(l) {
            proof {
                lemma_unordered_end(lines, i + 1);
            }
            let j = unordered_end(lines, i + 1);
            seq![list_node(lines, i, j, false)] + parse_doc(lines, j)
        } else if is_ordered_item(l) {
            proof {
                lemma_ordered_end(lines, i + 1);
            }
            let j = ordered_end(lines, i + 1);
            seq![list_node(lines, i, j, true)] + parse_doc(lines, j)
        } else if is_fence_line(l) {
            proof {
                lemma_fence_close_at(lines, i + 1);
            }
            let j = fence_close_at(lines, i + 1);
            let node = AstNodeV::Code(
                CodeBlockV { block_type: CodeType::Fenced, contents: join_lines(lines, i + 1, j) },
            );
            if j < lines.len() {
                seq![node] + parse_doc(lines, j + 1)
            } else {
                seq![node]
            }
        } else {
            seq![AstNodeV::Paragraph(TextV { children: inline_spec(l, 0) })] + parse_doc(
                lines,
                i + 1,
            )
        }
    }
}

/// The whole pipeline: the source is split into lines, parsed into
/// document nodes, and each node is rendered to HTML, the fragments
/// concatenated in document order with no separator.
pub open spec fn parse_spec(s: Seq<char>) -> Seq<char> {
    render_nodes(parse_doc(split_lines(s), 0), 0)
}


/// Executable test for [`is_blank_line`].
pub fn is_blank_line_exec(l: &str) -> (b: bool)
    ensures
        b == is_blank_line(l@),
{
    let t = trim_exec(l);
    t.unicode_len() == 0
}

/// Executable test for [`is_comment_line`].
pub fn is_comment_line_exec(l: &str) -> (b: bool)
    ensures
        b == is_comment_line(l@),
{
    let t = trim_exec(l);
    let n = t.unicode_len();
    n >= 2 && t.get_char(0) == '/' && t.get_char(1) == '/'
}

/// Executable test for [`is_heading_line`].
pub fn is_heading_line_exec(l: &str) -> (b: bool)
    ensures
        b == is_heading_line(l@),
{
    l.unicode_len() > 0 && l.get_char(0) == '#'
}

/// Executable test for [`is_table_line`].
pub fn is_table_line_exec(l: &str) -> (b: bool)
    ensures
        b == is_table_line(l@),
{
    l.unicode_len() > 0 && l.get_char(0) == '|'
}

/// Executable test for [`is_unordered_item`].
pub fn is_unordered_item_exec(l: &str) -> (b: bool)
    ensures
        b == is_unordered_item(l@),
{
    let n = l.unicode_len();
    n >= 2 && (l.get_char(0) == '-' || l.get_char(0) == '*') && l.get_char(1) == ' '
}

/// Executable test for [`is_digit`].
pub fn is_digit_exec(c: char) -> (b: bool)
    ensures
        b == is_digit(c),
{
    c == '0' || c == '1' || c == '2' || c == '3' || c == '4' || c == '5' || c == '6' || c == '7'
        || c == '8' || c == '9'
}

/// Length of the run of digits opening the line.
pub fn digit_run_exec(l: &str) -> (e: usize)
    ensures
        e == digit_run_end(l@, 0),
        e <= l@.len(),
{
    let total: usize = l.unicode_len();
    let mut e: usize = 0;
    while e < total && is_digit_exec(l.get_char(e))
        invariant
            0 <= e <= total,
            total == l@.len(),
            digit_run_end(l@, 0) == digit_run_end(l@, e as int),
        decreases total - e,
    {
        e += 1;
    }
    e
}

/// Executable test for [`is_ordered_item`].
pub fn is_ordered_item_exec(l: &str) -> (b: bool)
    ensures
        b == is_ordered_item(l@),
{
    let total: usize = l.unicode_len();
    let e = digit_run_exec(l);
    e > 0 && total - e > 1 && l.get_char(e) == '.' && l.get_char(e + 1) == ' '
}

/// Executable test for [`is_fence_line`].
pub fn is_fence_line_exec(l: &str) -> (b: bool)
    ensures
        b == is_fence_line(l@),
{
    proof {
        reveal_strlit("```");
        assert("```"@ =~= seq!['`', '`', '`']);
    }
    scan::delim_at_exec(l, "```", 0)
}

/// Executable test for [`is_fence_close`].
pub fn is_fence_close_exec(l: &str) -> (b: bool)
    ensures
        b == is_fence_close(l@),
{
    let t = trim_exec(l);
    let n = t.unicode_len();
    let r = n == 3 && t.get_char(0) == '`' && t.get_char(1) == '`' && t.get_char(2) == '`';
    proof {
        if r {
            assert(t@ =~= seq!['`', '`', '`']);
        } else {
            assert(t@ != seq!['`', '`', '`']) by {
                if t@ == seq!['`', '`', '`'] {
                    assert(t@[0] == '`' && t@[1] == '`' && t@[2] == '`');
                }
            }
        }
    }
    r
}

/// Splits a table line into its trimmed cell strings.
pub fn cells_exec(l: &str) -> (r: Vec<String>)
    requires
        l@.len() >= 1,
    ensures
        crate::lex::strings_view(r@) == row_cells(l@),
{
    let total: usize = l.unicode_len();
    let mut cells: Vec<String> = Vec::new();
    let mut i: usize = 1;
    proof {
        reveal_strlit("|");
        assert("|"@ =~= seq!['|']);
    }
    loop
        invariant_except_break
            crate::lex::strings_view(cells@) + cells_from(l@, i as int) == cells_from(l@, 1),
        invariant
            1 <= i <= total,
            total == l@.len(),
            "|"@ == seq!['|'],
        ensures
            crate::lex::strings_view(cells@) == cells_from(l@, 1),
        decreases total - i,
    {
        let ghost prior = crate::lex::strings_view(cells@);
        proof {
            scan::lemma_find_sub(l@, seq!['|'], i as int);
        }
        let p = scan::find_sub_exec(l, "|", i);
        if p < total {
            let cell = trim_exec(l.substring_char(i, p));
            cells.push(String::from_str(cell));
            proof {
                assert(crate::lex::strings_view(cells@) =~= prior.push(cell@));
                assert(prior.push(cell@) + cells_from(l@, p + 1) =~= prior + (seq![cell@]
                    + cells_from(l@, p + 1)));
            }
            i = p + 1;
        } else {
            let cell = trim_exec(l.substring_char(i, total));
            cells.push(String::from_str(cell));
            proof {
                assert(cells_from(l@, i as int) =~= seq![cell@]);
                assert(crate::lex::strings_view(cells@) =~= prior.push(cell@));
                assert(prior.push(cell@) =~= prior + seq![cell@]);
            }
            break;
        }
    }
    let keep = match cells.last() {
        Some(c) => c.unicode_len() > 0,
        None => true,
    };
    proof {
        lemma_cells_from(l@, 1);
    }
    if !keep {
        cells.pop();
        proof {
            assert(crate::lex::strings_view(cells@) =~= cells_from(l@, 1).drop_last());
        }
    }
    cells
}

/// Parses one heading line into its node.
pub fn heading_node_exec<'a>(l: &'a str) -> (r: AstNode<'a>)
    ensures
        r@ == heading_node(l@),
{
    let total: usize = l.unicode_len();
    proof {
        crate::lemma_hash_run_end(l@, 0);
    }
    let mut e: usize = 0;
    while e < total && l.get_char(e) == '#'
        invariant
            0 <= e <= total,
            total == l@.len(),
            crate::hash_run_end(l@, 0) == crate::hash_run_end(l@, e as int),
        decreases total - e,
    {
        e += 1;
    }
    if e <= 6 && e < total && l.get_char(e) == ' ' {
        let text = l.substring_char(e + 1, total);
        AstNode::Heading { level: e as u8, text }
    } else {
        AstNode::Error(Error::Invalid)
    }
}

/// One list item as a single rich-text span.
fn item_rich_exec(content: &str) -> (r: RichText)
    ensures
        r@ == item_rich(content@),
{
    let mut spans = inline_parse(content);
    if spans.len() == 1 {
        match spans.pop() {
            Some(span) => {
                proof {
                    assert(spans@.len() == 0);
                    assert(span@ == inline_spec(content@, 0)[0]);
                }
                span
            },
            None => RichText::Text(String::from_str(content)),
        }
    } else {
        RichText::Text(String::from_str(content))
    }
}

/// `join_lines` grows at its right end one line at a time.
proof fn lemma_join_snoc(lines: Seq<Seq<char>>, a: int, b: int)
    requires
        0 <= a <= b < lines.len(),
    ensures
        b == a ==> join_lines(lines, a, b + 1) == lines[a],
        b > a ==> join_lines(lines, a, b + 1) == join_lines(lines, a, b) + seq!['\n'] + lines[b],
    decreases b - a,
{
    if b > a {
        lemma_join_snoc(lines, a + 1, b);
        if b == a + 1 {
            assert(join_lines(lines, a, b + 1) =~= join_lines(lines, a, b) + seq!['\n']
                + lines[b]);
        } else {
            assert(join_lines(lines, a, b + 1) =~= join_lines(lines, a, b) + seq!['\n']
                + lines[b]);
        }
    }
}


/// Builds one table row: each cell a plain-text span.
fn row_text_exec(l: &str) -> (r: Text)
    requires
        l@.len() >= 1,
    ensures
        r@ == row_text(l@),
{
    let cells = cells_exec(l);
    let ghost cv = row_cells(l@);
    let mut children: Vec<RichText> = Vec::new();
    let mut c: usize = 0;
    while c < cells.len()
        invariant
            0 <= c <= cells.len(),
            crate::lex::strings_view(cells@) == cv,
            cells@.len() == cv.len(),
            children.deep_view().len() == c,
            forall|j: int| 0 <= j < c ==> children.deep_view()[j] == RichTextV::Text(cv[j]),
        decreases cells.len() - c,
    {
        let ghost prior = children.deep_view();
        children.push(RichText::Text(cells[c].clone()));
        proof {
            assert(children.deep_view() =~= prior.push(RichTextV::Text(cv[c as int])));
        }
        c += 1;
    }
    let r = Text { children };
    proof {
        assert(r@.children =~= cv.map_values(|cell: Seq<char>| RichTextV::Text(cell)));
    }
    r
}

/// Builds the table node of the lines `i` (header) to `j` (exclusive).
fn table_block<'a>(lines: &Vec<&'a str>, i: usize, j: usize) -> (node: AstNode<'a>)
    requires
        i < j <= lines@.len(),
        forall|k: int| i <= k < j ==> is_table_line(#[trigger] lines.deep_view()[k]),
    ensures
        node@ == table_node(lines.deep_view(), i as int, j as int),
{
    let ghost lv = lines.deep_view();
    let headers = cells_exec(lines[i]);
    let mut rows: Vec<Text> = Vec::new();
    let mut k: usize = i + 1;
    while k < j
        invariant
            i + 1 <= k <= j <= lines@.len(),
            lv == lines.deep_view(),
            lv.len() == lines@.len(),
            forall|m: int| i <= m < j ==> is_table_line(#[trigger] lv[m]),
            crate::lex::strings_view(headers@) == row_cells(lv[i as int]),
            rows.deep_view().len() == k - i - 1,
            forall|m: int|
                0 <= m < k - i - 1 ==> rows.deep_view()[m] == row_text(lv[i + 1 + m]),
        decreases j - k,
    {
        proof {
            assert(lv[k as int] == lines@[k as int]@);
            assert(is_table_line(lv[k as int]));
        }
        let row = row_text_exec(lines[k]);
        let ghost prior = rows.deep_view();
        rows.push(row);
        proof {
            assert(rows.deep_view() =~= prior.push(row@));
        }
        k += 1;
    }
    let node = AstNode::Table(Table { headers, rows });
    proof {
        assert(rows.deep_view() =~= Seq::new(
            (j - i - 1) as nat,
            |m: int| row_text(lv[i + 1 + m]),
        ));
    }
    node
}

/// Builds the list node of the item lines `i` to `j` (exclusive).
fn list_block<'a>(lines: &Vec<&'a str>, i: usize, j: usize, ordered: bool) -> (node: AstNode<'a>)
    requires
        i < j <= lines@.len(),
        ordered ==> forall|k: int| i <= k < j ==> is_ordered_item(#[trigger] lines.deep_view()[k]),
        !ordered ==> forall|k: int|
            i <= k < j ==> is_unordered_item(#[trigger] lines.deep_view()[k]),
    ensures
        node@ == list_node(lines.deep_view(), i as int, j as int, ordered),
{
    let ghost lv = lines.deep_view();
    let mut children: Vec<RichText> = Vec::new();
    let mut k: usize = i;
    while k < j
        invariant
            i <= k <= j <= lines@.len(),
            lv == lines.deep_view(),
            lv.len() == lines@.len(),
            ordered ==> forall|m: int| i <= m < j ==> is_ordered_item(#[trigger] lv[m]),
            !ordered ==> forall|m: int| i <= m < j ==> is_unordered_item(#[trigger] lv[m]),
            children.deep_view().len() == k - i,
            forall|m: int|
                0 <= m < k - i ==> children.deep_view()[m] == item_rich(
                    item_content(lv[i + m], ordered),
                ),
        decreases j - k,
    {
        let line = lines[k];
        let total: usize = line.unicode_len();
        proof {
            assert(lv[k as int] == lines@[k as int]@);
        }
        let content = if ordered {
            proof {
                lemma_digit_run_end(line@, 0);
            }
            let e = digit_run_exec(line);
            line.substring_char(e + 2, total)
        } else {
            line.substring_char(2, total)
        };
        proof {
            assert(content@ == item_content(lv[k as int], ordered));
        }
        let item = item_rich_exec(content);
        let ghost prior = children.deep_view();
        children.push(item);
        proof {
            assert(children.deep_view() =~= prior.push(item@));
        }
        k += 1;
    }
    let node = AstNode::List(
        List {
            list_type: if ordered {
                ListType::Ordered
            } else {
                ListType::Unordered
            },
            items: Text { children },
        },
    );
    proof {
        assert(children.deep_view() =~= Seq::new(
            (j - i) as nat,
            |m: int| item_rich(item_content(lv[i + m], ordered)),
        ));
    }
    node
}

/// Joins the lines `a` to `j` (exclusive) with newlines: the contents
/// of a fenced code block.
fn fence_contents(lines: &Vec<&str>, a: usize, j: usize) -> (out: String)
    requires
        a <= j <= lines@.len(),
    ensures
        out@ == join_lines(lines.deep_view(), a as int, j as int),
{
    let ghost lv = lines.deep_view();
    let mut out = String::new();
    let mut k: usize = a;
    while k < j
        invariant
            a <= k <= j <= lines@.len(),
            lv == lines.deep_view(),
            lv.len() == lines@.len(),
            out@ == join_lines(lv, a as int, k as int),
        decreases j - k,
    {
        if k > a {
            out.append("\n");
        }
        out.append(lines[k]);
        proof {
            reveal_strlit("\n");
            assert("\n"@ =~= seq!['\n']);
            lemma_join_snoc(lv, a as int, k as int);
            assert(lv[k as int] == lines@[k as int]@);
            assert(out@ =~= join_lines(lv, a as int, (k + 1) as int));
        }
        k += 1;
    }
    out
}

/// Parses the lines of a document into its nodes: the grammar
/// [`parse_doc`] describes, block by block.
pub fn parse_document<'a>(lines: &Vec<&'a str>) -> (r: Vec<AstNode<'a>>)
    ensures
        r.deep_view() == parse_doc(lines.deep_view(), 0),
{
    let ghost lv = lines.deep_view();
    let n = lines.len();
    let mut nodes: Vec<AstNode<'a>> = Vec::new();
    let mut i: usize = 0;
    while i < n
        invariant
            0 <= i <= n,
            n == lines@.len(),
            lv == lines.deep_view(),
            lv.len() == n,
            forall|m: int| 0 <= m < n ==> #[trigger] lv[m] == lines@[m]@,
            nodes.deep_view() + parse_doc(lv, i as int) == parse_doc(lv, 0),
        decreases n - i,
    {
        let ghost prior = nodes.deep_view();
        let line = lines[i];
        if is_blank_line_exec(line) || is_comment_line_exec(line) {
            i += 1;
        } else if is_heading_line_exec(line) {
            let node = heading_node_exec(line);
            let ghost nv = node@;
            nodes.push(node);
            proof {
                assert(nodes.deep_view() =~= prior.push(nv));
                assert(prior.push(nv) + parse_doc(lv, i + 1) =~= prior + (seq![nv] + parse_doc(
                    lv,
                    i + 1,
                )));
            }
            i += 1;
        } else if is_table_line_exec(line) {
            let mut j: usize = i + 1;
            while j < n && is_table_line_exec(lines[j])
                invariant
                    i + 1 <= j <= n,
                    n == lines@.len(),
                    lv == lines.deep_view(),
                    lv.len() == n,
                    forall|m: int| 0 <= m < n ==> #[trigger] lv[m] == lines@[m]@,
                    table_end(lv, (i + 1) as int) == table_end(lv, j as int),
                decreases n - j,
            {
                j += 1;
            }
            proof {
                lemma_table_end(lv, (i + 1) as int);
                assert(j == table_end(lv, (i + 1) as int));
            }
            let node = table_block(lines, i, j);
            let ghost nv = node@;
            nodes.push(node);
            proof {
                assert(nodes.deep_view() =~= prior.push(nv));
                assert(prior.push(nv) + parse_doc(lv, j as int) =~= prior + (seq![nv] + parse_doc(
                    lv,
                    j as int,
                )));
            }
            i = j;
        } else if is_unordered_item_exec(line) {
            let mut j: usize = i + 1;
            while j < n && is_unordered_item_exec(lines[j])
                invariant
                    i + 1 <= j <= n,
                    n == lines@.len(),
                    lv == lines.deep_view(),
                    lv.len() == n,
                    forall|m: int| 0 <= m < n ==> #[trigger] lv[m] == lines@[m]@,
                    unordered_end(lv, (i + 1) as int) == unordered_end(lv, j as int),
                decreases n - j,
            {
                j += 1;
            }
            proof {
                lemma_unordered_end(lv, (i + 1) as int);
                assert(j == unordered_end(lv, (i + 1) as int));
            }
            let node = list_block(lines, i, j, false);
            let ghost nv = node@;
            nodes.push(node);
            proof {
                assert(nodes.deep_view() =~= prior.push(nv));
                assert(prior.push(nv) + parse_doc(lv, j as int) =~= prior + (seq![nv] + parse_doc(
                    lv,
                    j as int,
                )));
            }
            i = j;
        } else if is_ordered_item_exec(line) {
            let mut j: usize = i + 1;
            while j < n && is_ordered_item_exec(lines[j])
                invariant
                    i + 1 <= j <= n,
                    n == lines@.len(),
                    lv == lines.deep_view(),
                    lv.len() == n,
                    forall|m: int| 0 <= m < n ==> #[trigger] lv[m] == lines@[m]@,
                    ordered_end(lv, (i + 1) as int) == ordered_end(lv, j as int),
                decreases n - j,
            {
                j += 1;
            }
            proof {
                lemma_ordered_end(lv, (i + 1) as int);
                assert(j == ordered_end(lv, (i + 1) as int));
            }
            let node = list_block(lines, i, j, true);
            let ghost nv = node@;
            nodes.push(node);
            proof {
                assert(nodes.deep_view() =~= prior.push(nv));
                assert(prior.push(nv) + parse_doc(lv, j as int) =~= prior + (seq![nv] + parse_doc(
                    lv,
                    j as int,
                )));
            }
            i = j;
        } else if is_fence_line_exec(line) {
            let mut j: usize = i + 1;
            while j < n && !is_fence_close_exec(lines[j])
                invariant
                    i + 1 <= j <= n,
                    n == lines@.len(),
                    lv == lines.deep_view(),
                    lv.len() == n,
                    forall|m: int| 0 <= m < n ==> #[trigger] lv[m] == lines@[m]@,
                    fence_close_at(lv, (i + 1) as int) == fence_close_at(lv, j as int),
                decreases n - j,
            {
                j += 1;
            }
            proof {
                lemma_fence_close_at(lv, (i + 1) as int);
                assert(j == fence_close_at(lv, (i + 1) as int));
            }
            let contents = fence_contents(lines, i + 1, j);
            let node = AstNode::Code(CodeBlock { block_type: CodeType::Fenced, contents });
            let ghost nv = node@;
            nodes.push(node);
            if j < n {
                proof {
                    assert(nodes.deep_view() =~= prior.push(nv));
                    assert(prior.push(nv) + parse_doc(lv, j + 1) =~= prior + (seq![nv]
                        + parse_doc(lv, j + 1)));
                }
                i = j + 1;
            } else {
                proof {
                    assert(nodes.deep_view() =~= prior.push(nv));
                    assert(parse_doc(lv, i as int) =~= seq![nv]);
                    assert(prior.push(nv) =~= prior + seq![nv]);
                }
                i = j;
                proof {
                    assert(nodes.deep_view() + parse_doc(lv, i as int) =~= nodes.deep_view());
                }
            }
        } else {
            let spans = inline_parse(line);
            let node = AstNode::Paragraph(Text { children: spans });
            let ghost nv = node@;
            nodes.push(node);
            proof {
                assert(nv == AstNodeV::Paragraph(TextV { children: inline_spec(lv[i as int], 0) }));
                assert(nodes.deep_view() =~= prior.push(nv));
                assert(prior.push(nv) + parse_doc(lv, i + 1) =~= prior + (seq![nv] + parse_doc(
                    lv,
                    i + 1,
                )));
            }
            i += 1;
        }
    }
    nodes
}

/// A run of `n` heading markers.
pub open spec fn hash_marks(n: int) -> Seq<char> {
    Seq::new(n as nat, |k: int| '#')
}

/// A heading line: `n` markers, one space, and the heading text.
pub open spec fn heading_source(n: int, text: Seq<char>) -> Seq<char> {
    hash_marks(n) + seq![' '] + text
}

proof fn lemma_trim_end_ge(s: Seq<char>, j: int, k: int)
    requires
        0 <= k < j <= s.len(),
        !is_blank(s[k]),
    ensures
        trim_end_idx(s, j) >= k + 1,
    decreases j,
{
    if j > k + 1 && is_blank(s[j - 1]) {
        lemma_trim_end_ge(s, j - 1, k);
    }
}

/// Rendering is deterministic: the output is a function of the source
/// characters alone, so two parses of equal sources yield equal
/// output, with no hidden state between calls.
pub proof fn lemma_parse_deterministic(
    s1: Seq<char>,
    s2: Seq<char>,
    out1: Seq<char>,
    out2: Seq<char>,
)
    requires
        s1 == s2,
        out1 == parse_spec(s1),
        out2 == parse_spec(s2),
    ensures
        out1 == out2,
{
}

/// The heading law: a line of `n` heading markers (1 to 6), one space
/// and marker-free text renders as a heading of level `n` with that
/// text; a run of more than 6 markers is rejected as an error node,
/// which renders as its display message.
pub proof fn lemma_heading_law(n: int, text: Seq<char>)
    requires
        1 <= n,
        !text.contains('\n'),
    ensures
        1 <= n <= 6 ==> parse_spec(heading_source(n, text)) == crate::lex::h_open(n as u8) + text
            + crate::lex::h_close(n as u8),
        n > 6 ==> parse_spec(heading_source(n, text)) == "The given source has invalid syntax."@,
{
    let src = heading_source(n, text);
    let len = src.len() as int;
    assert(len == n + 1 + text.len());
    assert(forall|k: int| 0 <= k < n ==> src[k] == '#');
    assert(src[n] == ' ');
    assert(forall|k: int| n + 1 <= k < len ==> src[k] == text[k - (n + 1)]);
    assert(forall|k: int| 0 <= k < len ==> src[k] != '\n') by {
        assert(forall|k: int| 0 <= k < text.len() ==> text[k] != '\n') by {
            assert(!text.contains('\n'));
        }
    }
    // One line only: the source holds no newline.
    scan::lemma_find_sub(src, seq!['\n'], 0);
    let p = scan::find_sub(src, seq!['\n'], 0);
    if p < len {
        assert(scan::delim_at(src, seq!['\n'], p));
        assert(src.subrange(p, p + 1)[0] == '\n');
        assert(false);
    }
    assert(split_lines(src) =~= seq![src.subrange(0, len)]);
    assert(src.subrange(0, len) =~= src);
    assert(split_lines(src) =~= seq![src]);
    let lines = split_lines(src);
    // The line is a heading line, neither blank nor a comment.
    assert(trim_start_idx(src, 0) == 0);
    lemma_trim_end_ge(src, len, 0);
    let b = trim_end_idx(src, len);
    lemma_trim_idx(src, 0, len);
    assert(trim_view(src) == src.subrange(0, b));
    assert(trim_view(src).len() >= 1);
    assert(trim_view(src)[0] == src[0]);
    assert(!is_blank_line(src));
    assert(!is_comment_line(src));
    assert(is_heading_line(src));
    // The marker run is exactly the n leading markers.
    crate::lemma_hash_run_end(src, 0);
    let e = crate::hash_run_end(src, 0);
    assert(e <= len);
    if e < n {
        assert(src[e] == '#');
        assert(false);
    }
    if e > n {
        assert(src[n] == '#');
        assert(false);
    }
    assert(e == n);
    let node = heading_node(src);
    assert(parse_doc(lines, 0) =~= seq![node] + parse_doc(lines, 1));
    assert(parse_doc(lines, 1) =~= Seq::<AstNodeV>::empty());
    assert(parse_doc(lines, 0) =~= seq![node]);
    assert(parse_spec(src) == render_node(node) + render_nodes(parse_doc(lines, 0), 1));
    assert(render_nodes(parse_doc(lines, 0), 1) =~= Seq::<char>::empty());
    if n <= 6 {
        assert(src[e] == ' ');
        assert(node == AstNodeV::Heading { level: n as u8, text: src.subrange(n + 1, len) });
        assert(src.subrange(n + 1, len) =~= text);
        assert(render_node(node) == crate::lex::h_open(n as u8) + text + crate::lex::h_close(
            n as u8,
        ));
        assert(parse_spec(src) =~= crate::lex::h_open(n as u8) + text + crate::lex::h_close(
            n as u8,
        ));
    } else {
        assert(node == AstNodeV::Error(ErrorV::Invalid));
        assert(render_node(node) == "The given source has invalid syntax."@);
        assert(parse_spec(src) =~= "The given source has invalid syntax."@);
    }
}

/// A line that begins with a non-blank character neither blank-trims
/// away nor changes its first character.
proof fn lemma_nonblank_head(l: Seq<char>)
    requires
        l.len() > 0,
        !is_blank(l[0]),
    ensures
        trim_view(l).len() >= 1,
        trim_view(l)[0] == l[0],
{
    assert(trim_start_idx(l, 0) == 0);
    lemma_trim_end_ge(l, l.len() as int, 0);
    lemma_trim_idx(l, 0, l.len() as int);
}

/// The fenced code law: a fence line that is never closed opens a code
/// block that consumes every remaining line, best-effort; parsing
/// still terminates and yields that one node, never an error.  The
/// same rule closes every unterminated construct of the dialect at the
/// end of its input.
pub proof fn lemma_unterminated_fence(lines: Seq<Seq<char>>, i: int)
    requires
        0 <= i < lines.len(),
        is_fence_line(lines[i]),
        forall|k: int| i < k < lines.len() ==> !is_fence_close(#[trigger] lines[k]),
    ensures
        parse_doc(lines, i) == seq![
            AstNodeV::Code(
                CodeBlockV {
                    block_type: CodeType::Fenced,
                    contents: join_lines(lines, i + 1, lines.len() as int),
                },
            ),
        ],
{
    let l = lines[i];
    assert(l.subrange(0, 3)[0] == '`');
    assert(l[0] == '`');
    lemma_nonblank_head(l);
    assert(!is_blank_line(l));
    assert(!is_comment_line(l));
    assert(!is_heading_line(l));
    assert(!is_table_line(l));
    assert(!is_unordered_item(l));
    assert(!is_ordered_item(l)) by {
        assert(digit_run_end(l, 0) == 0);
    }
    lemma_fence_close_at(lines, i + 1);
    let j = fence_close_at(lines, i + 1);
    if j < lines.len() {
        assert(is_fence_close(lines[j]));
        assert(false);
    }
    assert(parse_doc(lines, i) =~= seq![
        AstNodeV::Code(
            CodeBlockV {
                block_type: CodeType::Fenced,
                contents: join_lines(lines, i + 1, lines.len() as int),
            },
        ),
    ]);
}

/// The ragged table law: consecutive table lines form one table node;
/// the first line's cells are the headers and every further line is a
/// row holding exactly its own cells, one cell element per field, so
/// rows shorter or longer than the header row are legal and simply
/// render fewer or more cell entries.
pub proof fn lemma_ragged_table(lines: Seq<Seq<char>>, i: int, j: int)
    requires
        0 <= i < j <= lines.len(),
        forall|k: int| i <= k < j ==> is_table_line(#[trigger] lines[k]),
        j == lines.len() || !is_table_line(lines[j]),
    ensures
        parse_doc(lines, i) == seq![table_node(lines, i, j)] + parse_doc(lines, j),
        table_node(lines, i, j) == AstNodeV::Table(
            TableV {
                headers: row_cells(lines[i]),
                rows: Seq::new((j - i - 1) as nat, |k: int| row_text(lines[i + 1 + k])),
            },
        ),
        forall|k: int|
            0 <= k < j - i - 1 ==> (#[trigger] row_text(lines[i + 1 + k]).children).len()
                == row_cells(lines[i + 1 + k]).len(),
{
    let l = lines[i];
    assert(is_table_line(l));
    assert(l[0] == '|');
    lemma_nonblank_head(l);
    assert(!is_blank_line(l));
    assert(!is_comment_line(l));
    assert(!is_heading_line(l));
    assert(!is_unordered_item(l));
    assert(!is_ordered_item(l)) by {
        assert(digit_run_end(l, 0) == 0);
    }
    assert(!is_fence_line(l)) by {
        if is_fence_line(l) {
            assert(l.subrange(0, 3)[0] == '`');
        }
    }
    lemma_table_end(lines, i + 1);
    let te = table_end(lines, i + 1);
    if te < j {
        assert(is_table_line(lines[te]));
        assert(false);
    }
    if te > j {
        assert(is_table_line(lines[j]));
        assert(false);
    }
    assert(te == j);
}
/// Implemtors of this trait can generate HTML from an AST node.
pub trait Output {
    /// The HTML fragment this value renders to.
    spec fn spec_output(&self) -> Seq<char>;

    fn to_output(&self) -> (r: Result<String, Error>)
        ensures
            r matches Ok(out) && out@ == self.spec_output(),
    ;
}

impl<'a> Output for AstNode<'a> {
    open spec fn spec_output(&self) -> Seq<char> {
        render_node(self@)
    }

    fn to_output(&self) -> (r: Result<String, Error>) {
        Ok(self.render())
    }
}

impl<'a> AstNode<'a> {
    /// Renders this node to its HTML fragment.
    pub fn render(&self) -> (out: String)
        ensures
            out@ == render_node(self@),
    {
        match self {
            AstNode::Heading { level, text } => {
                let mut out = String::new();
                crate::lex::append_h_open(&mut out, *level);
                out.append(text);
                crate::lex::append_h_close(&mut out, *level);
                assert(out@ =~= render_node(self@));
                out
            },
            AstNode::Paragraph(t) => {
                let mut out = String::new();
                append_text(&mut out, &t.children);
                assert(out@ =~= render_node(self@));
                out
            },
            AstNode::List(l) => {
                let mut out = String::new();
                match l.list_type {
                    ListType::Ordered => out.append("<ol>"),
                    ListType::Unordered => out.append("<ul>"),
                }
                append_li(&mut out, &l.items.children);
                match l.list_type {
                    ListType::Ordered => out.append("</ol>"),
                    ListType::Unordered => out.append("</ul>"),
                }
                assert(out@ =~= render_node(self@));
                out
            },
            AstNode::Code(c) => {
                let mut out = String::new();
                match c.block_type {
                    CodeType::Inline => {
                        out.append("<code>");
                        out.append(c.contents.as_str());
                        out.append("</code>");
                    },
                    CodeType::Fenced => {
                        out.append("<pre><code>");
                        out.append(c.contents.as_str());
                        out.append("</code></pre>");
                    },
                }
                assert(out@ =~= render_node(self@));
                out
            },
            AstNode::Table(t) => {
                let mut out = String::new();
                out.append("<table><tr>");
                append_th(&mut out, &t.headers);
                out.append("</tr>");
                append_tr(&mut out, &t.rows);
                out.append("</table>");
                assert(out@ =~= render_node(self@));
                out
            },
            AstNode::Error(e) => e.message(),
        }
    }
}

/// Appends each span's fragment.
fn append_text(out: &mut String, children: &Vec<RichText>)
    ensures
        final(out)@ == old(out)@ + render_text(children.deep_view(), 0),
{
    let ghost cv = children.deep_view();
    let mut k: usize = 0;
    while k < children.len()
        invariant
            0 <= k <= children.len(),
            cv == children.deep_view(),
            cv.len() == children@.len(),
            forall|j: int| 0 <= j < children@.len() ==> cv[j] == children@[j]@,
            out@ + render_text(cv, k as int) == old(out)@ + render_text(cv, 0),
        decreases children.len() - k,
    {
        let fragment = rich_out(&children[k]);
        out.append(fragment.as_str());
        proof {
            assert(cv[k as int] == children@[k as int]@);
            assert(out@ + render_text(cv, k + 1) =~= old(out)@ + render_text(cv, 0));
        }
        k += 1;
    }
}

/// Appends each span's fragment wrapped in a list-item element.
fn append_li(out: &mut String, children: &Vec<RichText>)
    ensures
        final(out)@ == old(out)@ + render_li(children.deep_view(), 0),
{
    let ghost cv = children.deep_view();
    let mut k: usize = 0;
    while k < children.len()
        invariant
            0 <= k <= children.len(),
            cv == children.deep_view(),
            cv.len() == children@.len(),
            forall|j: int| 0 <= j < children@.len() ==> cv[j] == children@[j]@,
            out@ + render_li(cv, k as int) == old(out)@ + render_li(cv, 0),
        decreases children.len() - k,
    {
        out.append("<li>");
        let fragment = rich_out(&children[k]);
        out.append(fragment.as_str());
        out.append("</li>");
        proof {
            assert(cv[k as int] == children@[k as int]@);
            assert(out@ + render_li(cv, k + 1) =~= old(out)@ + render_li(cv, 0));
        }
        k += 1;
    }
}

/// Appends each header cell wrapped in a table-header element.
fn append_th(out: &mut String, headers: &Vec<String>)
    ensures
        final(out)@ == old(out)@ + render_th(crate::lex::strings_view(headers@), 0),
{
    let ghost hv = crate::lex::strings_view(headers@);
    let mut k: usize = 0;
    while k < headers.len()
        invariant
            0 <= k <= headers.len(),
            hv == crate::lex::strings_view(headers@),
            out@ + render_th(hv, k as int) == old(out)@ + render_th(hv, 0),
        decreases headers.len() - k,
    {
        out.append("<th>");
        out.append(headers[k].as_str());
        out.append("</th>");
        proof {
            assert(out@ + render_th(hv, k + 1) =~= old(out)@ + render_th(hv, 0));
        }
        k += 1;
    }
}

/// Appends one row's cells, each wrapped in a table-data element.
fn append_td(out: &mut String, row: &Text)
    ensures
        final(out)@ == old(out)@ + render_td(row@.children, 0),
{
    let ghost cv = row@.children;
    let mut k: usize = 0;
    while k < row.children.len()
        invariant
            0 <= k <= row.children.len(),
            cv == row@.children,
            cv.len() == row.children@.len(),
            forall|j: int| 0 <= j < row.children@.len() ==> cv[j] == row.children@[j]@,
            out@ + render_td(cv, k as int) == old(out)@ + render_td(cv, 0),
        decreases row.children.len() - k,
    {
        out.append("<td>");
        let fragment = rich_out(&row.children[k]);
        out.append(fragment.as_str());
        out.append("</td>");
        proof {
            assert(cv[k as int] == row.children@[k as int]@);
            assert(out@ + render_td(cv, k + 1) =~= old(out)@ + render_td(cv, 0));
        }
        k += 1;
    }
}

/// Appends every table row wrapped in a table-row element.
fn append_tr(out: &mut String, rows: &Vec<Text>)
    ensures
        final(out)@ == old(out)@ + render_tr(rows.deep_view(), 0),
{
    let ghost rv = rows.deep_view();
    let mut k: usize = 0;
    while k < rows.len()
        invariant
            0 <= k <= rows.len(),
            rv == rows.deep_view(),
            rv.len() == rows@.len(),
            forall|j: int| 0 <= j < rows@.len() ==> rv[j] == rows@[j]@,
            out@ + render_tr(rv, k as int) == old(out)@ + render_tr(rv, 0),
        decreases rows.len() - k,
    {
        out.append("<tr>");
        append_td(out, &rows[k]);
        out.append("</tr>");
        proof {
            assert(rv[k as int] == rows@[k as int]@);
            assert(out@ + render_tr(rv, k + 1) =~= old(out)@ + render_tr(rv, 0));
        }
        k += 1;
    }
}

} // verus!
