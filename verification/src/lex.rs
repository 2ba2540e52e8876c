//! The token vocabulary shared by the lexer and the renderer, together
//! with the HTML rendering of every token kind.
//!
//! Each executable type has a ghost model over `Seq<char>` (the `...V`
//! types); the rendering of a token is specified by [`render_token`]
//! over that model, and [`Token::render`] is proved to produce exactly
//! that sequence of characters.

use vstd::prelude::*;

verus! {

/// A positioned token: a token type, the character span `(start, end)`
/// it covers, and a reference to the source it was scanned from.
#[derive(Debug)]
pub struct Tok<'a> {
    /// the type of token
    pub token_type: Token,
    /// token placement
    pub span: (usize, usize),
    /// token source
    pub source: &'a str,
}

type RichText = Vec<Token>;

/// Represents a node.
#[derive(Debug)]
pub enum Token {
    Heading { level: u8, text: String },
    Paragraph(RichText),
    /// Italics, denoted using opening and closing asterisks (`*`)
    Italics(String),
    /// Bold text, denoted using opening and closing double asterisks (`**`)
    Bold(String),
    /// Subscript, denoted using opening and closing triple underscores (`___`)
    Subscript(String),
    /// Superscript, denoted using opening and closing carets (`^`)
    Superscript(String),
    /// Strikethrough text, denoted using opening and closing double tildes (`~~`)
    StrikeThrough(String),
    /// Normal text.
    Text(String),
    Table((Vec<String>, Vec<RichText>)),
    /// First is language, second is contents
    FencedCode((String, String)),
    /// An inline code block, denoted using opening and closing backticks
    InlineCode(String),
    Error(LexError),
    OrderedList(RichText),
    UnorderedList(RichText),
    Aside(RichText),
    Image(String, String),
    Metadata(Vec<(String, String)>),
    Details((RichText, RichText)),
    HorizontalBreak,
    NegatedVariable(String),
    Variable(String),
    Whitespace,
    Comment,
    EOI,
}

/// A table
#[derive(Debug)]
pub struct Table {
    /// The headers of the table
    pub headers: Vec<String>,
    /// The rows within the table
    pub rows: Vec<RichText>,
}

/// Generic Error type
#[derive(Debug, Clone)]
pub enum LexError {
    /// Niche errors
    Other(&'static str),
    /// The given source is invalid in some way
    Invalid,
}

/// Ghost model of a [`LexError`].
pub enum LexErrorV {
    Other(Seq<char>),
    Invalid,
}

/// Ghost model of a [`Token`]: the same tree with every string as a
/// `Seq<char>`.
pub enum TokenV {
    Heading { level: u8, text: Seq<char> },
    Paragraph(Seq<TokenV>),
    Italics(Seq<char>),
    Bold(Seq<char>),
    Subscript(Seq<char>),
    Superscript(Seq<char>),
    StrikeThrough(Seq<char>),
    Text(Seq<char>),
    Table(Seq<Seq<char>>, Seq<Seq<TokenV>>),
    FencedCode(Seq<char>, Seq<char>),
    InlineCode(Seq<char>),
    Error(LexErrorV),
    OrderedList(Seq<TokenV>),
    UnorderedList(Seq<TokenV>),
    Aside(Seq<TokenV>),
    Image(Seq<char>, Seq<char>),
    Metadata(Seq<(Seq<char>, Seq<char>)>),
    Details(Seq<TokenV>, Seq<TokenV>),
    HorizontalBreak,
    NegatedVariable(Seq<char>),
    Variable(Seq<char>),
    Whitespace,
    Comment,
    EOI,
}

/// Ghost model of a [`Tok`].
pub struct TokV {
    pub token_type: TokenV,
    pub span: (int, int),
    pub source: Seq<char>,
}

impl View for LexError {
    type V = LexErrorV;

    open spec fn view(&self) -> LexErrorV {
        match self {
            LexError::Other(s) => LexErrorV::Other(s@),
            LexError::Invalid => LexErrorV::Invalid,
        }
    }
}

pub open spec fn strings_view(v: Seq<String>) -> Seq<Seq<char>> {
    Seq::new(v.len(), |i: int| v[i]@)
}

pub open spec fn pairs_view(v: Seq<(String, String)>) -> Seq<(Seq<char>, Seq<char>)> {
    Seq::new(v.len(), |i: int| (v[i].0@, v[i].1@))
}

/// The ghost model of a token.
pub open spec fn token_view(t: Token) -> TokenV
    decreases t, 0int, 0int,
{
    match t {
        Token::Heading { level, text } => TokenV::Heading { level, text: text@ },
        Token::Paragraph(ts) => TokenV::Paragraph(tokens_view(ts@, 0)),
        Token::Italics(s) => TokenV::Italics(s@),
        Token::Bold(s) => TokenV::Bold(s@),
        Token::Subscript(s) => TokenV::Subscript(s@),
        Token::Superscript(s) => TokenV::Superscript(s@),
        Token::StrikeThrough(s) => TokenV::StrikeThrough(s@),
        Token::Text(s) => TokenV::Text(s@),
        Token::Table(t) => TokenV::Table(strings_view(t.0@), rows_view(t.1@, 0)),
        Token::FencedCode(lc) => TokenV::FencedCode(lc.0@, lc.1@),
        Token::InlineCode(s) => TokenV::InlineCode(s@),
        Token::Error(e) => TokenV::Error(e@),
        Token::OrderedList(ts) => TokenV::OrderedList(tokens_view(ts@, 0)),
        Token::UnorderedList(ts) => TokenV::UnorderedList(tokens_view(ts@, 0)),
        Token::Aside(ts) => TokenV::Aside(tokens_view(ts@, 0)),
        Token::Image(alt, src) => TokenV::Image(alt@, src@),
        Token::Metadata(m) => TokenV::Metadata(pairs_view(m@)),
        Token::Details(sb) => TokenV::Details(tokens_view(sb.0@, 0), tokens_view(sb.1@, 0)),
        Token::HorizontalBreak => TokenV::HorizontalBreak,
        Token::NegatedVariable(s) => TokenV::NegatedVariable(s@),
        Token::Variable(s) => TokenV::Variable(s@),
        Token::Whitespace => TokenV::Whitespace,
        Token::Comment => TokenV::Comment,
        Token::EOI => TokenV::EOI,
    }
}

/// The ghost models of the tokens of `ts` from index `i` on.
pub open spec fn tokens_view(ts: Seq<Token>, i: int) -> Seq<TokenV>
    decreases ts, 1int, ts.len() - i,
{
    if i < 0 || i >= ts.len() {
        Seq::empty()
    } else {
        seq![token_view(ts[i])] + tokens_view(ts, i + 1)
    }
}

/// The ghost models of the rows of `rows` from index `i` on.
pub open spec fn rows_view(rows: Seq<Vec<Token>>, i: int) -> Seq<Seq<TokenV>>
    decreases rows, 1int, rows.len() - i,
{
    if i < 0 || i >= rows.len() {
        Seq::empty()
    } else {
        seq![tokens_view(rows[i]@, 0)] + rows_view(rows, i + 1)
    }
}

pub proof fn lemma_tokens_view(ts: Seq<Token>, i: int)
    requires
        0 <= i <= ts.len(),
    ensures
        tokens_view(ts, i).len() == ts.len() - i,
        forall|j: int|
            0 <= j < ts.len() - i ==> #[trigger] tokens_view(ts, i)[j] == token_view(ts[i + j]),
    decreases ts.len() - i,
{
    if i < ts.len() {
        lemma_tokens_view(ts, i + 1);
        assert forall|j: int| 0 <= j < ts.len() - i implies #[trigger] tokens_view(ts, i)[j]
            == token_view(ts[i + j]) by {
            if j > 0 {
                assert(tokens_view(ts, i)[j] == tokens_view(ts, i + 1)[j - 1]);
                assert(tokens_view(ts, i + 1)[j - 1] == token_view(ts[i + 1 + (j - 1)]));
            }
        }
    }
}

pub proof fn lemma_rows_view(rows: Seq<Vec<Token>>, i: int)
    requires
        0 <= i <= rows.len(),
    ensures
        rows_view(rows, i).len() == rows.len() - i,
        forall|j: int|
            0 <= j < rows.len() - i ==> #[trigger] rows_view(rows, i)[j] == tokens_view(
                rows[i + j]@,
                0,
            ),
    decreases rows.len() - i,
{
    if i < rows.len() {
        lemma_rows_view(rows, i + 1);
        assert forall|j: int| 0 <= j < rows.len() - i implies #[trigger] rows_view(rows, i)[j]
            == tokens_view(rows[i + j]@, 0) by {
            if j > 0 {
                assert(rows_view(rows, i)[j] == rows_view(rows, i + 1)[j - 1]);
                assert(rows_view(rows, i + 1)[j - 1] == tokens_view(rows[i + 1 + (j - 1)]@, 0));
            }
        }
    }
}

impl View for Token {
    type V = TokenV;

    open spec fn view(&self) -> TokenV {
        token_view(*self)
    }
}

impl DeepView for Token {
    type V = TokenV;

    open spec fn deep_view(&self) -> TokenV {
        token_view(*self)
    }
}

impl<'a> View for Tok<'a> {
    type V = TokV;

    open spec fn view(&self) -> TokV {
        TokV {
            token_type: token_view(self.token_type),
            span: (self.span.0 as int, self.span.1 as int),
            source: self.source@,
        }
    }
}

impl<'a> DeepView for Tok<'a> {
    type V = TokV;

    open spec fn deep_view(&self) -> TokV {
        self@
    }
}

/// The display message of an error, rendered in place of the construct
/// that produced it.
pub open spec fn lex_error_message(e: LexErrorV) -> Seq<char> {
    match e {
        LexErrorV::Other(s) => s,
        LexErrorV::Invalid => "The given source has invalid syntax."@,
    }
}

impl LexError {
    /// The display message of this error.
    pub fn message(&self) -> (r: String)
        ensures
            r@ == lex_error_message(self@),
    {
        match self {
            LexError::Other(s) => String::from_str(s),
            LexError::Invalid => String::from_str("The given source has invalid syntax."),
        }
    }
}

/// The HTML opening tag of a heading of the given level.
pub open spec fn h_open(level: u8) -> Seq<char> {
    if level == 1 {
        "<h1>"@
    } else if level == 2 {
        "<h2>"@
    } else if level == 3 {
        "<h3>"@
    } else if level == 4 {
        "<h4>"@
    } else if level == 5 {
        "<h5>"@
    } else if level == 6 {
        "<h6>"@
    } else {
        Seq::empty()
    }
}

/// The closing tag of a heading: the dialect's defined output is the
/// non-standard `<h1/>` form, preserved exactly.
pub open spec fn h_close(level: u8) -> Seq<char> {
    if level == 1 {
        "<h1/>"@
    } else if level == 2 {
        "<h2/>"@
    } else if level == 3 {
        "<h3/>"@
    } else if level == 4 {
        "<h4/>"@
    } else if level == 5 {
        "<h5/>"@
    } else if level == 6 {
        "<h6/>"@
    } else {
        Seq::empty()
    }
}

/// The HTML fragment of one token.  Raw text is embedded verbatim: the
/// dialect performs no HTML escaping, so untrusted input must be
/// escaped by the caller.
pub open spec fn render_token(t: TokenV) -> Seq<char>
    decreases t, 0int, 0int,
{
    match t {
        TokenV::Text(s) => s,
        TokenV::Bold(s) => "<strong>"@ + s + "</strong>"@,
        TokenV::Italics(s) => "<em>"@ + s + "</em>"@,
        TokenV::StrikeThrough(s) => "<del>"@ + s + "</del>"@,
        TokenV::Subscript(s) => "<sub>"@ + s + "</sub>"@,
        TokenV::Superscript(s) => "<sup>"@ + s + "</sup>"@,
        TokenV::InlineCode(s) => "<code>"@ + s + "</code>"@,
        TokenV::Heading { level, text } => h_open(level) + text + h_close(level),
        TokenV::Paragraph(ts) => render_tokens(ts, 0),
        TokenV::OrderedList(ts) => "<ol>"@ + render_items(ts, 0) + "</ol>"@,
        TokenV::UnorderedList(ts) => "<ul>"@ + render_items(ts, 0) + "</ul>"@,
        TokenV::Table(headers, rows) => "<table><tr>"@ + render_headers(headers, 0) + "</tr>"@
            + render_rows(rows, 0) + "</table>"@,
        TokenV::FencedCode(_lang, contents) => "<pre><code>"@ + contents + "</code></pre>"@,
        TokenV::Error(e) => lex_error_message(e),
        TokenV::Aside(ts) => "<aside>"@ + render_tokens(ts, 0) + "</aside>"@,
        TokenV::Image(alt, src) => "<img src=\""@ + src + "\" alt=\""@ + alt + "\" />"@,
        TokenV::Metadata(_m) => Seq::empty(),
        TokenV::Details(summary, body) => "<details><summary>"@ + render_tokens(summary, 0)
            + "</summary>"@ + render_tokens(body, 0) + "</details>"@,
        TokenV::HorizontalBreak => "<hr>"@,
        TokenV::NegatedVariable(v) => "<span>"@ + v + "</span>"@,
        TokenV::Variable(v) => "<var>"@ + v + "</var>"@,
        TokenV::Whitespace => Seq::empty(),
        TokenV::Comment => Seq::empty(),
        TokenV::EOI => Seq::empty(),
    }
}

/// The concatenated fragments of the tokens of `ts` from index `i` on.
pub open spec fn render_tokens(ts: Seq<TokenV>, i: int) -> Seq<char>
    decreases ts, 1int, ts.len() - i,
{
    if i < 0 || i >= ts.len() {
        Seq::empty()
    } else {
        render_token(ts[i]) + render_tokens(ts, i + 1)
    }
}

/// The fragments of the tokens of `ts` from index `i` on, each wrapped
/// in a list-item element.
pub open spec fn render_items(ts: Seq<TokenV>, i: int) -> Seq<char>
    decreases ts, 1int, ts.len() - i,
{
    if i < 0 || i >= ts.len() {
        Seq::empty()
    } else {
        "<li>"@ + render_token(ts[i]) + "</li>"@ + render_items(ts, i + 1)
    }
}

/// The header cells of a table from index `i` on.
pub open spec fn render_headers(headers: Seq<Seq<char>>, i: int) -> Seq<char>
    decreases headers.len() - i,
{
    if i < 0 || i >= headers.len() {
        Seq::empty()
    } else {
        "<th>"@ + headers[i] + "</th>"@ + render_headers(headers, i + 1)
    }
}

/// The cells of one table row from index `i` on.
pub open spec fn render_row(row: Seq<TokenV>, i: int) -> Seq<char>
    decreases row, 1int, row.len() - i,
{
    if i < 0 || i >= row.len() {
        Seq::empty()
    } else {
        "<td>"@ + render_token(row[i]) + "</td>"@ + render_row(row, i + 1)
    }
}

/// The rows of a table from index `i` on.
pub open spec fn render_rows(rows: Seq<Seq<TokenV>>, i: int) -> Seq<char>
    decreases rows, 2int, rows.len() - i,
{
    if i < 0 || i >= rows.len() {
        Seq::empty()
    } else {
        "<tr>"@ + render_row(rows[i], 0) + "</tr>"@ + render_rows(rows, i + 1)
    }
}

/// The characters that end a run of plain text and start a token of
/// their own.
pub open spec fn lex_marker(c: char) -> bool {
    c == '*' || c == '_' || c == '~' || c == '^' || c == '`' || c == '#' || c == '/' || c == ' '
        || c == '\t' || c == '\r' || c == '\n'
}

/// Executable test for [`lex_marker`].
pub fn is_lex_marker(c: char) -> (b: bool)
    ensures
        b == lex_marker(c),
{
    c == '*' || c == '_' || c == '~' || c == '^' || c == '`' || c == '#' || c == '/' || c == ' '
        || c == '\t' || c == '\r' || c == '\n'
}

/// End of the run of plain text beginning at `from`: the position of
/// the next marker character, or the end of the source.
pub open spec fn text_run_end(s: Seq<char>, from: int) -> int
    decreases s.len() - from
    when 0 <= from <= s.len()
{
    if from >= s.len() {
        s.len() as int
    } else if lex_marker(s[from]) {
        from
    } else {
        text_run_end(s, from + 1)
    }
}

pub proof fn lemma_text_run_end(s: Seq<char>, from: int)
    requires
        0 <= from <= s.len(),
    ensures
        from <= text_run_end(s, from) <= s.len(),
        text_run_end(s, from) < s.len() ==> lex_marker(s[text_run_end(s, from)]),
        forall|k: int| from <= k < text_run_end(s, from) ==> !lex_marker(s[k]),
    decreases s.len() - from,
{
    if from < s.len() && !lex_marker(s[from]) {
        lemma_text_run_end(s, from + 1);
    }
}

/// Implemtors of this trait can generate HTML from a token.
pub trait Output {
    /// The HTML fragment this value renders to.
    spec fn spec_output(&self) -> Seq<char>;

    fn to_output(&self) -> (r: Result<String, LexError>)
        ensures
            r matches Ok(out) && out@ == self.spec_output(),
    ;
}

impl Token {
    /// Renders this token to its HTML fragment.
    pub fn render(&self) -> (out: String)
        ensures
            out@ == render_token(self@),
        decreases *self,
    {
        match self {
            Token::Text(s) => {
                let mut out = String::new();
                out.append(s.as_str());
                assert(out@ =~= render_token(self@));
                out
            },
            Token::Bold(s) => wrap3("<strong>", s, "</strong>"),
            Token::Italics(s) => wrap3("<em>", s, "</em>"),
            Token::StrikeThrough(s) => wrap3("<del>", s, "</del>"),
            Token::Subscript(s) => wrap3("<sub>", s, "</sub>"),
            Token::Superscript(s) => wrap3("<sup>", s, "</sup>"),
            Token::InlineCode(s) => wrap3("<code>", s, "</code>"),
            Token::Heading { level, text } => {
                let mut out = String::new();
                append_h_open(&mut out, *level);
                out.append(text.as_str());
                append_h_close(&mut out, *level);
                assert(out@ =~= render_token(self@));
                out
            },
            Token::Paragraph(ts) => render_children(ts),
            Token::OrderedList(ts) => {
                let mut out = String::new();
                out.append("<ol>");
                append_list_items(&mut out, ts);
                out.append("</ol>");
                assert(out@ =~= render_token(self@));
                out
            },
            Token::UnorderedList(ts) => {
                let mut out = String::new();
                out.append("<ul>");
                append_list_items(&mut out, ts);
                out.append("</ul>");
                assert(out@ =~= render_token(self@));
                out
            },
            Token::Table(t) => {
                let mut out = String::new();
                out.append("<table><tr>");
                append_table_headers(&mut out, &t.0);
                out.append("</tr>");
                append_table_rows(&mut out, &t.1);
                out.append("</table>");
                assert(out@ =~= render_token(self@));
                out
            },
            Token::FencedCode(lc) => wrap3("<pre><code>", &lc.1, "</code></pre>"),
            Token::Error(e) => e.message(),
            Token::Aside(ts) => {
                let mut out = String::new();
                out.append("<aside>");
                let inner = render_children(ts);
                out.append(inner.as_str());
                out.append("</aside>");
                assert(out@ =~= render_token(self@));
                out
            },
            Token::Image(alt, src) => {
                let mut out = String::new();
                out.append("<img src=\"");
                out.append(src.as_str());
                out.append("\" alt=\"");
                out.append(alt.as_str());
                out.append("\" />");
                assert(out@ =~= render_token(self@));
                out
            },
            Token::Metadata(_m) => String::new(),
            Token::Details(sb) => {
                let mut out = String::new();
                out.append("<details><summary>");
                let summary = render_children(&sb.0);
                out.append(summary.as_str());
                out.append("</summary>");
                let body = render_children(&sb.1);
                out.append(body.as_str());
                out.append("</details>");
                assert(out@ =~= render_token(self@));
                out
            },
            Token::HorizontalBreak => {
                let mut out = String::new();
                out.append("<hr>");
                assert(out@ =~= render_token(self@));
                out
            },
            Token::NegatedVariable(v) => wrap3("<span>", v, "</span>"),
            Token::Variable(v) => wrap3("<var>", v, "</var>"),
            Token::Whitespace => String::new(),
            Token::Comment => String::new(),
            Token::EOI => String::new(),
        }
    }
}

/// Builds `open + middle + close`.
fn wrap3(open: &str, middle: &String, close: &str) -> (out: String)
    ensures
        out@ == open@ + middle@ + close@,
{
    let mut out = String::new();
    out.append(open);
    out.append(middle.as_str());
    out.append(close);
    assert(out@ =~= open@ + middle@ + close@);
    out
}

/// Appends the opening heading tag for `level`.
pub(crate) fn append_h_open(out: &mut String, level: u8)
    ensures
        final(out)@ == old(out)@ + h_open(level),
{
    if level == 1 {
        out.append("<h1>");
    } else if level == 2 {
        out.append("<h2>");
    } else if level == 3 {
        out.append("<h3>");
    } else if level == 4 {
        out.append("<h4>");
    } else if level == 5 {
        out.append("<h5>");
    } else if level == 6 {
        out.append("<h6>");
    } else {
        assert(old(out)@ + h_open(level) =~= old(out)@);
    }
}

/// Appends the closing heading tag for `level`.
pub(crate) fn append_h_close(out: &mut String, level: u8)
    ensures
        final(out)@ == old(out)@ + h_close(level),
{
    if level == 1 {
        out.append("<h1/>");
    } else if level == 2 {
        out.append("<h2/>");
    } else if level == 3 {
        out.append("<h3/>");
    } else if level == 4 {
        out.append("<h4/>");
    } else if level == 5 {
        out.append("<h5/>");
    } else if level == 6 {
        out.append("<h6/>");
    } else {
        assert(old(out)@ + h_close(level) =~= old(out)@);
    }
}

/// Renders a sequence of child tokens and concatenates the fragments.
fn render_children(ts: &Vec<Token>) -> (out: String)
    ensures
        out@ == render_tokens(tokens_view(ts@, 0), 0),
    decreases *ts,
{
    proof {
        lemma_tokens_view(ts@, 0);
    }
    let ghost tsv = tokens_view(ts@, 0);
    let mut out = String::new();
    let mut k: usize = 0;
    while k < ts.len()
        invariant
            0 <= k <= ts.len(),
            tsv == tokens_view(ts@, 0),
            tsv.len() == ts@.len(),
            render_tokens(tsv, 0) == out@ + render_tokens(tsv, k as int),
        decreases ts.len() - k,
    {
        proof {
            assert(decreases_to!(*ts => ts@[k as int]));
            lemma_tokens_view(ts@, 0);
            assert(tokens_view(ts@, 0)[k as int] == token_view(ts@[0 + k as int]));
        }
        let fragment = ts[k].render();
        out.append(fragment.as_str());
        proof {
            assert(render_tokens(tsv, 0) =~= out@ + render_tokens(tsv, k + 1));
        }
        k += 1;
    }
    proof {
        assert(out@ + render_tokens(tsv, k as int) =~= out@);
    }
    out
}

/// Appends each child's fragment wrapped in a list-item element.
fn append_list_items(out: &mut String, ts: &Vec<Token>)
    ensures
        final(out)@ == old(out)@ + render_items(tokens_view(ts@, 0), 0),
    decreases *ts,
{
    proof {
        lemma_tokens_view(ts@, 0);
    }
    let ghost tsv = tokens_view(ts@, 0);
    let mut k: usize = 0;
    while k < ts.len()
        invariant
            0 <= k <= ts.len(),
            tsv == tokens_view(ts@, 0),
            tsv.len() == ts@.len(),
            out@ + render_items(tsv, k as int) == old(out)@ + render_items(tsv, 0),
        decreases ts.len() - k,
    {
        proof {
            assert(decreases_to!(*ts => ts@[k as int]));
            lemma_tokens_view(ts@, 0);
            assert(tokens_view(ts@, 0)[k as int] == token_view(ts@[0 + k as int]));
        }
        out.append("<li>");
        let fragment = ts[k].render();
        out.append(fragment.as_str());
        out.append("</li>");
        proof {
            assert(out@ + render_items(tsv, k + 1) =~= old(out)@ + render_items(tsv, 0));
        }
        k += 1;
    }
    proof {
        assert(out@ + render_items(tsv, k as int) =~= out@);
    }
}

/// Appends each header cell wrapped in a table-header element.
fn append_table_headers(out: &mut String, headers: &Vec<String>)
    ensures
        final(out)@ == old(out)@ + render_headers(strings_view(headers@), 0),
{
    let ghost hv = strings_view(headers@);
    let mut k: usize = 0;
    while k < headers.len()
        invariant
            0 <= k <= headers.len(),
            hv == strings_view(headers@),
            out@ + render_headers(hv, k as int) == old(out)@ + render_headers(hv, 0),
        decreases headers.len() - k,
    {
        out.append("<th>");
        out.append(headers[k].as_str());
        out.append("</th>");
        proof {
            assert(out@ + render_headers(hv, k + 1) =~= old(out)@ + render_headers(hv, 0));
        }
        k += 1;
    }
    proof {
        assert(out@ + render_headers(hv, k as int) =~= out@);
    }
}

/// Appends one table row: each cell token wrapped in a table-data
/// element.
fn append_table_row(out: &mut String, row: &Vec<Token>)
    ensures
        final(out)@ == old(out)@ + render_row(tokens_view(row@, 0), 0),
    decreases *row,
{
    proof {
        lemma_tokens_view(row@, 0);
    }
    let ghost rv = tokens_view(row@, 0);
    let mut k: usize = 0;
    while k < row.len()
        invariant
            0 <= k <= row.len(),
            rv == tokens_view(row@, 0),
            rv.len() == row@.len(),
            out@ + render_row(rv, k as int) == old(out)@ + render_row(rv, 0),
        decreases row.len() - k,
    {
        proof {
            assert(decreases_to!(*row => row@[k as int]));
            lemma_tokens_view(row@, 0);
            assert(tokens_view(row@, 0)[k as int] == token_view(row@[0 + k as int]));
        }
        out.append("<td>");
        let fragment = row[k].render();
        out.append(fragment.as_str());
        out.append("</td>");
        proof {
            assert(out@ + render_row(rv, k + 1) =~= old(out)@ + render_row(rv, 0));
        }
        k += 1;
    }
    proof {
        assert(out@ + render_row(rv, k as int) =~= out@);
    }
}

/// Appends every table row wrapped in a table-row element.
fn append_table_rows(out: &mut String, rows: &Vec<Vec<Token>>)
    ensures
        final(out)@ == old(out)@ + render_rows(rows_view(rows@, 0), 0),
    decreases *rows,
{
    proof {
        lemma_rows_view(rows@, 0);
    }
    let ghost rv = rows_view(rows@, 0);
    let mut k: usize = 0;
    while k < rows.len()
        invariant
            0 <= k <= rows.len(),
            rv == rows_view(rows@, 0),
            rv.len() == rows@.len(),
            out@ + render_rows(rv, k as int) == old(out)@ + render_rows(rv, 0),
        decreases rows.len() - k,
    {
        proof {
            assert(decreases_to!(*rows => rows@[k as int]));
            lemma_rows_view(rows@, 0);
            assert(rows_view(rows@, 0)[k as int] == tokens_view(rows@[0 + k as int]@, 0));
        }
        out.append("<tr>");
        append_table_row(out, &rows[k]);
        out.append("</tr>");
        proof {
            assert(out@ + render_rows(rv, k + 1) =~= old(out)@ + render_rows(rv, 0));
        }
        k += 1;
    }
    proof {
        assert(out@ + render_rows(rv, k as int) =~= out@);
    }
}

impl Output for Token {
    open spec fn spec_output(&self) -> Seq<char> {
        render_token(self@)
    }

    fn to_output(&self) -> (r: Result<String, LexError>) {
        Ok(self.render())
    }
}

} // verus!
