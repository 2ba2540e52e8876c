//! A lightweight markup language processor.
//!
//! The crate turns a plain-text document written in a small,
//! Markdown-like dialect into an HTML string.  The pipeline has three
//! stages: a lexer ([`tokenise`]) that scans raw source into a flat
//! stream of spanned tokens, a line-oriented grammar parser that builds
//! a document tree of [`parser::AstNode`]s, and a renderer that maps
//! each token or node to its HTML fragment.  Every stage is specified
//! over `Seq<char>` views and proved against those specifications.

use vstd::prelude::*;

pub mod lex;
pub mod parser;
pub mod scan;

verus! {

/// A cursor over the characters of one source string.
///
/// `index` is the current scanning position (in characters), `start`
/// marks the beginning of the span of the token being built, and
/// `line` counts the newlines consumed so far.
#[derive(Debug)]
pub struct Lexer<'a> {
    source: &'a str,
    start: usize,
    index: usize,
    line: usize,
}

impl<'a> Lexer<'a> {
    /// The characters being scanned.
    pub closed spec fn src(self) -> Seq<char> {
        self.source@
    }

    /// Current scanning position.
    pub closed spec fn at(self) -> int {
        self.index as int
    }

    /// Start of the span of the token being built.
    pub closed spec fn mark(self) -> int {
        self.start as int
    }

    /// Number of lines consumed.
    pub closed spec fn line_no(self) -> int {
        self.line as int
    }

    /// The cursor never runs past the end of the source, and the span
    /// start never runs past the cursor.
    pub closed spec fn wf(self) -> bool {
        self.start <= self.index <= self.source@.len()
    }

    pub fn new(source: &'a str) -> (l: Lexer<'a>)
        ensures
            l.wf(),
            l.src() == source@,
            l.at() == 0,
            l.mark() == 0,
            l.line_no() == 0,
    {
        Lexer { source, start: 0, index: 0, line: 0 }
    }

    /// Returns the current character without advancing.
    pub fn peek(&self) -> (c: Option<char>)
        requires
            self.wf(),
        ensures
            c == (if self.at() < self.src().len() {
                Some(self.src()[self.at()])
            } else {
                Option::<char>::None
            }),
    {
        if self.index < self.source.unicode_len() {
            Some(self.source.get_char(self.index))
        } else {
            None
        }
    }

    /// Returns the character `idx` places ahead of the cursor without
    /// advancing.
    pub fn peek_nth(&self, idx: usize) -> (c: Option<char>)
        requires
            self.wf(),
        ensures
            c == (if self.at() + idx < self.src().len() {
                Some(self.src()[self.at() + idx])
            } else {
                Option::<char>::None
            }),
    {
        let len = self.source.unicode_len();
        if idx < len - self.index {
            Some(self.source.get_char(self.index + idx))
        } else {
            None
        }
    }

    /// Returns the next `idx` characters ahead of the cursor (fewer
    /// when the source ends first) without advancing.
    pub fn peek_span(&self, idx: usize) -> (s: String)
        requires
            self.wf(),
        ensures
            s@ == self.src().subrange(
                self.at(),
                if self.at() + idx <= self.src().len() {
                    self.at() + idx
                } else {
                    self.src().len() as int
                },
            ),
    {
        let len = self.source.unicode_len();
        let end = if idx <= len - self.index {
            self.index + idx
        } else {
            len
        };
        let sub = self.source.substring_char(self.index, end);
        String::from_str(sub)
    }

    /// Advances by one character (when not ended) and returns the new
    /// current character.
    pub fn next(&mut self) -> (c: Option<char>)
        requires
            old(self).wf(),
        ensures
            final(self).wf(),
            final(self).src() == old(self).src(),
            final(self).mark() == old(self).mark(),
            final(self).line_no() == old(self).line_no(),
            final(self).at() == (if old(self).at() < old(self).src().len() {
                old(self).at() + 1
            } else {
                old(self).at()
            }),
            c == (if final(self).at() < final(self).src().len() {
                Some(final(self).src()[final(self).at()])
            } else {
                Option::<char>::None
            }),
    {
        let len = self.source.unicode_len();
        if self.index < len {
            self.index += 1;
        }
        self.peek()
    }

    /// Advances by `idx` characters, stopping at the end of the
    /// source, and returns the character `idx` places ahead of the new
    /// position.
    pub fn next_nth(&mut self, idx: usize) -> (c: Option<char>)
        requires
            old(self).wf(),
        ensures
            final(self).wf(),
            final(self).src() == old(self).src(),
            final(self).mark() == old(self).mark(),
            final(self).line_no() == old(self).line_no(),
            final(self).at() == (if old(self).at() + idx <= old(self).src().len() {
                old(self).at() + idx
            } else {
                old(self).src().len() as int
            }),
            c == (if final(self).at() + idx < final(self).src().len() {
                Some(final(self).src()[final(self).at() + idx])
            } else {
                Option::<char>::None
            }),
    {
        let len = self.source.unicode_len();
        if idx <= len - self.index {
            self.index += idx;
        } else {
            self.index = len;
        }
        self.peek_nth(idx)
    }

    /// The whole source has been consumed.
    pub fn is_ended(&self) -> (b: bool)
        requires
            self.wf(),
        ensures
            b == (self.at() >= self.src().len()),
    {
        self.index >= self.source.unicode_len()
    }

    /// Returns the span of the token being built and starts the next
    /// one at the cursor.
    pub fn span(&mut self) -> (s: (usize, usize))
        requires
            old(self).wf(),
        ensures
            final(self).wf(),
            final(self).src() == old(self).src(),
            final(self).at() == old(self).at(),
            final(self).line_no() == old(self).line_no(),
            final(self).mark() == final(self).at(),
            s.0 == old(self).mark() && s.1 == old(self).at(),
    {
        let s = (self.start, self.index);
        self.start = self.index;
        s
    }

    /// Resets span tracking and counts one more line.
    pub fn advance_line(&mut self)
        requires
            old(self).wf(),
            old(self).line_no() < usize::MAX,
        ensures
            final(self).wf(),
            final(self).src() == old(self).src(),
            final(self).at() == old(self).at(),
            final(self).mark() == final(self).at(),
            final(self).line_no() == old(self).line_no() + 1,
    {
        self.start = self.index;
        self.line = self.line + 1;
    }

    /// Wraps a token type with the span built since the last mark and
    /// a reference to the source.
    pub fn create_token(&mut self, token_type: lex::Token) -> (t: lex::Tok<'a>)
        requires
            old(self).wf(),
        ensures
            final(self).wf(),
            final(self).src() == old(self).src(),
            final(self).at() == old(self).at(),
            final(self).line_no() == old(self).line_no(),
            final(self).mark() == final(self).at(),
            t.token_type == token_type,
            t.span.0 == old(self).mark() && t.span.1 == old(self).at(),
            t.source@ == final(self).src(),
    {
        let span = self.span();
        lex::Tok { token_type, span, source: self.source }
    }

    /// Consumes characters until the delimiter `character` starts at
    /// the cursor (exclusive), or to the end of the source when the
    /// delimiter never occurs.  Returns the consumed text and its
    /// length.
    pub fn to_next(&mut self, character: &str) -> (r: (String, usize))
        requires
            old(self).wf(),
            character@.len() > 0,
        ensures
            final(self).wf(),
            final(self).src() == old(self).src(),
            final(self).mark() == old(self).mark(),
            final(self).line_no() == old(self).line_no(),
            final(self).at() == scan::find_sub(final(self).src(), character@, old(self).at()),
            r.0@ == final(self).src().subrange(old(self).at(), final(self).at()),
            r.1 == final(self).at() - old(self).at(),
    {
        proof {
            scan::lemma_find_sub(self.src(), character@, self.at());
        }
        let dest = scan::find_sub_exec(self.source, character, self.index);
        let sub = self.source.substring_char(self.index, dest);
        let count = dest - self.index;
        self.index = dest;
        (String::from_str(sub), count)
    }

    /// Consumes a run of plain text: characters up to (exclusive) the
    /// next lexical marker character, or to the end of the source.
    pub fn to_next_token(&mut self) -> (r: String)
        requires
            old(self).wf(),
        ensures
            final(self).wf(),
            final(self).src() == old(self).src(),
            final(self).mark() == old(self).mark(),
            final(self).line_no() == old(self).line_no(),
            final(self).at() == lex::text_run_end(final(self).src(), old(self).at()),
            r@ == final(self).src().subrange(old(self).at(), final(self).at()),
    {
        proof {
            lex::lemma_text_run_end(self.src(), self.at());
        }
        let len = self.source.unicode_len();
        let begin: usize = self.index;
        while self.index < len && !lex::is_lex_marker(self.source.get_char(self.index))
            invariant
                self.wf(),
                begin <= self.index,
                len == self.src().len(),
                self.src() == old(self).src(),
                self.mark() == old(self).mark(),
                self.line_no() == old(self).line_no(),
                lex::text_run_end(self.src(), begin as int) == lex::text_run_end(
                    self.src(),
                    self.at(),
                ),
            decreases len - self.index,
        {
            self.index += 1;
        }
        let sub = self.source.substring_char(begin, self.index);
        String::from_str(sub)
    }
}

/// End of the run of `#` characters beginning at `i`.
pub open spec fn hash_run_end(s: Seq<char>, i: int) -> int
    decreases s.len() - i
    when 0 <= i <= s.len()
{
    if i < s.len() && s[i] == '#' {
        hash_run_end(s, i + 1)
    } else {
        i
    }
}

pub proof fn lemma_hash_run_end(s: Seq<char>, i: int)
    requires
        0 <= i <= s.len(),
    ensures
        i <= hash_run_end(s, i) <= s.len(),
        hash_run_end(s, i) < s.len() ==> s[hash_run_end(s, i)] != '#',
        forall|k: int| i <= k < hash_run_end(s, i) ==> s[k] == '#',
        i < s.len() && s[i] == '#' ==> hash_run_end(s, i) > i,
    decreases s.len() - i,
{
    if i < s.len() && s[i] == '#' {
        lemma_hash_run_end(s, i + 1);
    }
}

/// The result of scanning one token: the token's ghost model, the
/// position after it, and whether that position counts as the start of
/// a line (nothing but whitespace since the last newline).
pub struct LexStep {
    pub tok: lex::TokenV,
    pub next: int,
    pub line_start: bool,
}

/// Scans a delimited span: the content runs from after the opening
/// marker (of `open_len` characters, beginning at `i`) up to the next
/// occurrence of the closing delimiter `d`, which is consumed.  When
/// the delimiter never occurs the span runs to the end of the input:
/// an unterminated construct is taken best-effort, never an error.
pub open spec fn delim_scan(s: Seq<char>, i: int, open_len: int, d: Seq<char>) -> (Seq<char>, int)
    recommends
        0 <= i,
        i + open_len <= s.len(),
        d.len() > 0,
{
    let e = scan::find_sub(s, d, i + open_len);
    (s.subrange(i + open_len, e), if e + d.len() <= s.len() {
        e + d.len()
    } else {
        e
    })
}

/// One step of the scanning state machine of the lexer: the token that
/// begins at position `i` of `s`.  `line_start` reports whether only
/// whitespace has been seen since the last newline; a comment opens
/// only there.
pub open spec fn lex_step(s: Seq<char>, i: int, line_start: bool) -> LexStep
    recommends
        0 <= i < s.len(),
{
    let c = s[i];
    if c == '*' {
        if scan::delim_at(s, seq!['*', '*'], i) {
            let r = delim_scan(s, i, 2, seq!['*', '*']);
            LexStep { tok: lex::TokenV::Bold(r.0), next: r.1, line_start: false }
        } else {
            let r = delim_scan(s, i, 1, seq!['*']);
            LexStep { tok: lex::TokenV::Italics(r.0), next: r.1, line_start: false }
        }
    } else if c == '_' {
        if scan::delim_at(s, seq!['_', '_', '_'], i) {
            let r = delim_scan(s, i, 3, seq!['_', '_', '_']);
            LexStep { tok: lex::TokenV::Subscript(r.0), next: r.1, line_start: false }
        } else {
            LexStep { tok: lex::TokenV::Text(seq!['_']), next: i + 1, line_start: false }
        }
    } else if c == '~' {
        if scan::delim_at(s, seq!['~', '~'], i) {
            let r = delim_scan(s, i, 2, seq!['~', '~']);
            LexStep { tok: lex::TokenV::StrikeThrough(r.0), next: r.1, line_start: false }
        } else {
            LexStep { tok: lex::TokenV::Text(seq!['~']), next: i + 1, line_start: false }
        }
    } else if c == '^' {
        let r = delim_scan(s, i, 1, seq!['^']);
        LexStep { tok: lex::TokenV::Superscript(r.0), next: r.1, line_start: false }
    } else if c == '`' {
        if scan::delim_at(s, seq!['`', '`', '`'], i) {
            let p = scan::find_sub(s, seq!['\n'], i + 3);
            let lang = s.subrange(i + 3, p);
            if p < s.len() {
                let q = scan::find_sub(s, seq!['`', '`', '`'], p + 1);
                LexStep {
                    tok: lex::TokenV::FencedCode(lang, s.subrange(p + 1, q)),
                    next: if q + 3 <= s.len() {
                        q + 3
                    } else {
                        q
                    },
                    line_start: false,
                }
            } else {
                LexStep {
                    tok: lex::TokenV::FencedCode(lang, Seq::empty()),
                    next: s.len() as int,
                    line_start: false,
                }
            }
        } else {
            let r = delim_scan(s, i, 1, seq!['`']);
            LexStep { tok: lex::TokenV::InlineCode(r.0), next: r.1, line_start: false }
        }
    } else if c == '/' {
        if line_start && scan::delim_at(s, seq!['/', '/'], i) {
            let p = scan::find_sub(s, seq!['\n'], i);
            LexStep {
                tok: lex::TokenV::Comment,
                next: if p < s.len() {
                    p + 1
                } else {
                    p
                },
                line_start: true,
            }
        } else {
            LexStep { tok: lex::TokenV::Text(seq!['/']), next: i + 1, line_start: false }
        }
    } else if c == '#' {
        let e = hash_run_end(s, i);
        if e - i <= 6 && e < s.len() && s[e] == ' ' {
            let p = scan::find_sub(s, seq!['\n'], e + 1);
            LexStep {
                tok: lex::TokenV::Heading { level: (e - i) as u8, text: s.subrange(e + 1, p) },
                next: p,
                line_start: false,
            }
        } else {
            LexStep { tok: lex::TokenV::Error(lex::LexErrorV::Invalid), next: e, line_start: false }
        }
    } else if c == ' ' || c == '\t' || c == '\r' {
        LexStep { tok: lex::TokenV::Whitespace, next: i + 1, line_start }
    } else if c == '\n' {
        LexStep { tok: lex::TokenV::Whitespace, next: i + 1, line_start: true }
    } else {
        let e = lex::text_run_end(s, i);
        LexStep { tok: lex::TokenV::Text(s.subrange(i, e)), next: e, line_start: false }
    }
}

/// Every scanning step consumes at least one character, so the lexer
/// terminates on every input.
pub proof fn lemma_lex_step(s: Seq<char>, i: int, line_start: bool)
    requires
        0 <= i < s.len(),
    ensures
        i < lex_step(s, i, line_start).next <= s.len(),
{
    let c = s[i];
    if c == '*' {
        if scan::delim_at(s, seq!['*', '*'], i) {
            scan::lemma_find_sub(s, seq!['*', '*'], i + 2);
        } else {
            scan::lemma_find_sub(s, seq!['*'], i + 1);
        }
    } else if c == '_' {
        if scan::delim_at(s, seq!['_', '_', '_'], i) {
            scan::lemma_find_sub(s, seq!['_', '_', '_'], i + 3);
        }
    } else if c == '~' {
        if scan::delim_at(s, seq!['~', '~'], i) {
            scan::lemma_find_sub(s, seq!['~', '~'], i + 2);
        }
    } else if c == '^' {
        scan::lemma_find_sub(s, seq!['^'], i + 1);
    } else if c == '`' {
        if scan::delim_at(s, seq!['`', '`', '`'], i) {
            scan::lemma_find_sub(s, seq!['\n'], i + 3);
            let p = scan::find_sub(s, seq!['\n'], i + 3);
            if p < s.len() {
                scan::lemma_find_sub(s, seq!['`', '`', '`'], p + 1);
            }
        } else {
            scan::lemma_find_sub(s, seq!['`'], i + 1);
        }
    } else if c == '/' {
        if line_start && scan::delim_at(s, seq!['/', '/'], i) {
            scan::lemma_find_sub(s, seq!['\n'], i);
            let p = scan::find_sub(s, seq!['\n'], i);
            if p == i {
                assert(scan::delim_at(s, seq!['\n'], i));
                assert(s.subrange(i, i + 1)[0] == '\n');
            }
        }
    } else if c == '#' {
        lemma_hash_run_end(s, i);
        let e = hash_run_end(s, i);
        if e - i <= 6 && e < s.len() && s[e] == ' ' {
            scan::lemma_find_sub(s, seq!['\n'], e + 1);
        }
    } else if c == ' ' || c == '\t' || c == '\r' || c == '\n' {
    } else {
        lex::lemma_text_run_end(s, i);
        assert(!lex::lex_marker(c));
    }
}

/// The token stream of `s` from position `i` on: one token per
/// scanning step, closed by a single end-of-input marker whose span is
/// empty.  Spans are adjacent and strictly increasing: each token's
/// span begins where the previous one ended.
pub open spec fn lex_spec(s: Seq<char>, i: int, line_start: bool) -> Seq<lex::TokV>
    decreases s.len() - i
    when 0 <= i <= s.len()
{
    if i >= s.len() {
        seq![lex::TokV { token_type: lex::TokenV::EOI, span: (i, i), source: s }]
    } else {
        proof {
            lemma_lex_step(s, i, line_start);
        }
        let st = lex_step(s, i, line_start);
        seq![lex::TokV { token_type: st.tok, span: (i, st.next), source: s }] + lex_spec(
            s,
            st.next,
            st.line_start,
        )
    }
}

/// Consumes the run of `#` characters at the cursor and returns its
/// length.
fn scan_hash_run(l: &mut Lexer) -> (k: usize)
    requires
        old(l).wf(),
    ensures
        final(l).wf(),
        final(l).src() == old(l).src(),
        final(l).mark() == old(l).mark(),
        final(l).line_no() == old(l).line_no(),
        final(l).at() == hash_run_end(final(l).src(), old(l).at()),
        k == final(l).at() - old(l).at(),
{
    let mut k: usize = 0;
    loop
        invariant
            l.wf(),
            l.src() == old(l).src(),
            l.mark() == old(l).mark(),
            l.line_no() == old(l).line_no(),
            old(l).at() + k == l.at(),
            hash_run_end(l.src(), old(l).at()) == hash_run_end(l.src(), l.at()),
        ensures
            l.wf(),
            l.src() == old(l).src(),
            l.mark() == old(l).mark(),
            l.line_no() == old(l).line_no(),
            old(l).at() + k == l.at(),
            hash_run_end(l.src(), old(l).at()) == l.at(),
        decreases l.src().len() - l.at(),
    {
        let go = match l.peek() {
            Some(c) => c == '#',
            None => false,
        };
        if !go {
            proof {
                assert(hash_run_end(l.src(), l.at()) == l.at());
            }
            break;
        }
        l.next();
        k += 1;
    }
    k
}

/// Scans the one token that begins at the cursor, which must not be at
/// the end of the source, and leaves the cursor at the position after
/// it.  Exactly the step [`lex_step`] describes.
#[verifier::rlimit(60)]
fn lex_one(l: &mut Lexer, line_start: bool) -> (t: lex::Token)
    requires
        old(l).wf(),
        old(l).at() < old(l).src().len(),
    ensures
        final(l).wf(),
        final(l).src() == old(l).src(),
        final(l).mark() == old(l).mark(),
        final(l).line_no() == old(l).line_no(),
        lex::token_view(t) == lex_step(old(l).src(), old(l).at(), line_start).tok,
        final(l).at() == lex_step(old(l).src(), old(l).at(), line_start).next,
{
    let ghost s = l.src();
    let ghost i = l.at();
    let c = match l.peek() {
        Some(c) => c,
        None => {
            return lex::Token::EOI;
        },
    };
    if c == '*' {
        let two = matches!(l.peek_nth(1), Some('*'));
        if two {
            proof {
                assert(s.subrange(i, i + 2) =~= seq!['*', '*']);
                reveal_strlit("**");
                assert("**"@ =~= seq!['*', '*']);
                scan::lemma_find_sub(s, seq!['*', '*'], i + 2);
            }
            l.next_nth(2);
            let r = l.to_next("**");
            if !l.is_ended() {
                l.next_nth(2);
            }
            let t = lex::Token::Bold(r.0);
            assert(lex::token_view(t) == lex_step(s, i, line_start).tok);
            assert(l.at() == lex_step(s, i, line_start).next);
            t
        } else {
            proof {
                assert(!scan::delim_at(s, seq!['*', '*'], i)) by {
                    if scan::delim_at(s, seq!['*', '*'], i) {
                        assert(s.subrange(i, i + 2)[1] == '*');
                    }
                }
                reveal_strlit("*");
                assert("*"@ =~= seq!['*']);
                scan::lemma_find_sub(s, seq!['*'], i + 1);
            }
            l.next();
            let r = l.to_next("*");
            if !l.is_ended() {
                l.next();
            }
            let t = lex::Token::Italics(r.0);
            assert(lex::token_view(t) == lex_step(s, i, line_start).tok);
            assert(l.at() == lex_step(s, i, line_start).next);
            t
        }
    } else if c == '_' {
        let three = matches!(l.peek_nth(1), Some('_')) && matches!(l.peek_nth(2), Some('_'));
        if three {
            proof {
                assert(s.subrange(i, i + 3) =~= seq!['_', '_', '_']);
                reveal_strlit("___");
                assert("___"@ =~= seq!['_', '_', '_']);
                scan::lemma_find_sub(s, seq!['_', '_', '_'], i + 3);
            }
            l.next_nth(3);
            let r = l.to_next("___");
            if !l.is_ended() {
                l.next_nth(3);
            }
            let t = lex::Token::Subscript(r.0);
            assert(lex::token_view(t) == lex_step(s, i, line_start).tok);
            assert(l.at() == lex_step(s, i, line_start).next);
            t
        } else {
            proof {
                assert(!scan::delim_at(s, seq!['_', '_', '_'], i)) by {
                    if scan::delim_at(s, seq!['_', '_', '_'], i) {
                        assert(s.subrange(i, i + 3)[1] == '_');
                        assert(s.subrange(i, i + 3)[2] == '_');
                    }
                }
                reveal_strlit("_");
                assert("_"@ =~= seq!['_']);
            }
            l.next();
            let t = lex::Token::Text(String::from_str("_"));
            assert(lex::token_view(t) == lex_step(s, i, line_start).tok);
            t
        }
    } else if c == '~' {
        let two = matches!(l.peek_nth(1), Some('~'));
        if two {
            proof {
                assert(s.subrange(i, i + 2) =~= seq!['~', '~']);
                reveal_strlit("~~");
                assert("~~"@ =~= seq!['~', '~']);
                scan::lemma_find_sub(s, seq!['~', '~'], i + 2);
            }
            l.next_nth(2);
            let r = l.to_next("~~");
            if !l.is_ended() {
                l.next_nth(2);
            }
            let t = lex::Token::StrikeThrough(r.0);
            assert(lex::token_view(t) == lex_step(s, i, line_start).tok);
            assert(l.at() == lex_step(s, i, line_start).next);
            t
        } else {
            proof {
                assert(!scan::delim_at(s, seq!['~', '~'], i)) by {
                    if scan::delim_at(s, seq!['~', '~'], i) {
                        assert(s.subrange(i, i + 2)[1] == '~');
                    }
                }
                reveal_strlit("~");
                assert("~"@ =~= seq!['~']);
            }
            l.next();
            let t = lex::Token::Text(String::from_str("~"));
            assert(lex::token_view(t) == lex_step(s, i, line_start).tok);
            t
        }
    } else if c == '^' {
        proof {
            reveal_strlit("^");
            assert("^"@ =~= seq!['^']);
            scan::lemma_find_sub(s, seq!['^'], i + 1);
        }
        l.next();
        let r = l.to_next("^");
        if !l.is_ended() {
            l.next();
        }
        let t = lex::Token::Superscript(r.0);
        assert(lex::token_view(t) == lex_step(s, i, line_start).tok);
        assert(l.at() == lex_step(s, i, line_start).next);
        t
    } else if c == '`' {
        let three = matches!(l.peek_nth(1), Some('`')) && matches!(l.peek_nth(2), Some('`'));
        if three {
            proof {
                assert(s.subrange(i, i + 3) =~= seq!['`', '`', '`']);
                reveal_strlit("```");
                reveal_strlit("\n");
                assert("```"@ =~= seq!['`', '`', '`']);
                assert("\n"@ =~= seq!['\n']);
                scan::lemma_find_sub(s, seq!['\n'], i + 3);
            }
            l.next_nth(3);
            let lang = l.to_next("\n");
            if !l.is_ended() {
                proof {
                    scan::lemma_find_sub(s, seq!['`', '`', '`'], l.at() + 1);
                }
                l.next();
                let contents = l.to_next("```");
                if !l.is_ended() {
                    l.next_nth(3);
                }
                let t = lex::Token::FencedCode((lang.0, contents.0));
                assert(lex::token_view(t) == lex_step(s, i, line_start).tok);
                assert(l.at() == lex_step(s, i, line_start).next);
                t
            } else {
                let t = lex::Token::FencedCode((lang.0, String::new()));
                assert(lex::token_view(t) == lex_step(s, i, line_start).tok);
                assert(l.at() == lex_step(s, i, line_start).next);
                t
            }
        } else {
            proof {
                assert(!scan::delim_at(s, seq!['`', '`', '`'], i)) by {
                    if scan::delim_at(s, seq!['`', '`', '`'], i) {
                        assert(s.subrange(i, i + 3)[1] == '`');
                        assert(s.subrange(i, i + 3)[2] == '`');
                    }
                }
                reveal_strlit("`");
                assert("`"@ =~= seq!['`']);
                scan::lemma_find_sub(s, seq!['`'], i + 1);
            }
            l.next();
            let r = l.to_next("`");
            if !l.is_ended() {
                l.next();
            }
            let t = lex::Token::InlineCode(r.0);
            assert(lex::token_view(t) == lex_step(s, i, line_start).tok);
            assert(l.at() == lex_step(s, i, line_start).next);
            t
        }
    } else if c == '/' {
        let two = line_start && matches!(l.peek_nth(1), Some('/'));
        if two {
            proof {
                assert(s.subrange(i, i + 2) =~= seq!['/', '/']);
                reveal_strlit("\n");
                assert("\n"@ =~= seq!['\n']);
                scan::lemma_find_sub(s, seq!['\n'], i);
            }
            let _consumed = l.to_next("\n");
            if !l.is_ended() {
                l.next();
            }
            let t = lex::Token::Comment;
            assert(lex::token_view(t) == lex_step(s, i, line_start).tok);
            assert(l.at() == lex_step(s, i, line_start).next);
            t
        } else {
            proof {
                assert(!(line_start && scan::delim_at(s, seq!['/', '/'], i))) by {
                    if line_start && scan::delim_at(s, seq!['/', '/'], i) {
                        assert(s.subrange(i, i + 2)[1] == '/');
                    }
                }
                reveal_strlit("/");
                assert("/"@ =~= seq!['/']);
            }
            l.next();
            let t = lex::Token::Text(String::from_str("/"));
            assert(lex::token_view(t) == lex_step(s, i, line_start).tok);
            t
        }
    } else if c == '#' {
        proof {
            lemma_hash_run_end(s, i);
        }
        let k = scan_hash_run(l);
        let space = matches!(l.peek(), Some(' '));
        if k <= 6 && space {
            proof {
                reveal_strlit("\n");
                assert("\n"@ =~= seq!['\n']);
                scan::lemma_find_sub(s, seq!['\n'], l.at() + 1);
            }
            l.next();
            let r = l.to_next("\n");
            let t = lex::Token::Heading { level: k as u8, text: r.0 };
            assert(lex::token_view(t) == lex_step(s, i, line_start).tok);
            t
        } else {
            let t = lex::Token::Error(lex::LexError::Invalid);
            assert(lex::token_view(t) == lex_step(s, i, line_start).tok);
            t
        }
    } else if c == ' ' || c == '\t' || c == '\r' || c == '\n' {
        l.next();
        let t = lex::Token::Whitespace;
        assert(lex::token_view(t) == lex_step(s, i, line_start).tok);
        assert(l.at() == lex_step(s, i, line_start).next);
        t
    } else {
        proof {
            lex::lemma_text_run_end(s, i);
        }
        let r = l.to_next_token();
        let t = lex::Token::Text(r);
        assert(lex::token_view(t) == lex_step(s, i, line_start).tok);
        assert(l.at() == lex_step(s, i, line_start).next);
        t
    }
}

/// Scans the whole source into its token stream: exactly the tokens
/// of [`lex_spec`], spans adjacent and strictly increasing, closed by
/// a single end-of-input marker.
pub fn tokenise<'a>(src: &'a str) -> (r: Result<Vec<lex::Tok<'a>>, lex::LexError>)
    ensures
        r matches Ok(ts) && ts.deep_view() == lex_spec(src@, 0, true),
{
    let total: usize = src.unicode_len();
    let mut tokens: Vec<lex::Tok<'a>> = Vec::new();
    let mut lexer = Lexer::new(src);
    let mut line_start: bool = true;
    while !lexer.is_ended()
        invariant
            lexer.wf(),
            lexer.src() == src@,
            lexer.mark() == lexer.at(),
            lexer.line_no() <= lexer.at(),
            total == src@.len(),
            tokens.deep_view() + lex_spec(src@, lexer.at(), line_start) == lex_spec(
                src@,
                0,
                true,
            ),
        decreases src@.len() - lexer.at(),
    {
        let ghost i = lexer.at();
        let ghost st = lex_step(src@, i, line_start);
        let ghost prior = tokens.deep_view();
        proof {
            lemma_lex_step(src@, i, line_start);
        }
        let c = match lexer.peek() {
            Some(c) => c,
            None => {
                return Err(lex::LexError::Invalid);
            },
        };
        let tok = lex_one(&mut lexer, line_start);
        let is_comment = matches!(tok, lex::Token::Comment);
        let full = lexer.create_token(tok);
        tokens.push(full);
        if is_comment || c == '\n' {
            lexer.advance_line();
            line_start = true;
        } else if c == ' ' || c == '\t' || c == '\r' {
        } else {
            line_start = false;
        }
        proof {
            assert(line_start == st.line_start);
            let tokv = lex::TokV { token_type: st.tok, span: (i, st.next), source: src@ };
            assert(full@ == tokv);
            assert(tokens.deep_view() =~= prior.push(tokv));
            assert(prior.push(tokv) + lex_spec(src@, st.next, st.line_start) =~= prior + (seq![
                tokv,
            ] + lex_spec(src@, st.next, st.line_start)));
        }
    }
    let ghost ls_end = line_start;
    let eoi = lexer.create_token(lex::Token::EOI);
    let ghost prior = tokens.deep_view();
    tokens.push(eoi);
    proof {
        let n = src@.len() as int;
        let tokv = lex::TokV { token_type: lex::TokenV::EOI, span: (n, n), source: src@ };
        assert(eoi@ == tokv);
        assert(lex_spec(src@, lexer.at(), ls_end) =~= seq![tokv]);
        assert(tokens.deep_view() =~= prior.push(tokv));
        assert(prior.push(tokv) =~= prior + seq![tokv]);
    }
    Ok(tokens)
}

/// The token stream invariant: scanning from position `i` yields at
/// least one token; spans are adjacent (each begins where the previous
/// one ended, starting at `i`) and in bounds, so they never overlap
/// and only move forward; every token before the last covers at least
/// one character; and exactly the last token is the end-of-input
/// marker, with the empty span at the end of the source.
pub proof fn lemma_token_stream_wellformed(s: Seq<char>, i: int, line_start: bool)
    requires
        0 <= i <= s.len(),
    ensures
        lex_spec(s, i, line_start).len() >= 1,
        lex_spec(s, i, line_start)[0].span.0 == i,
        lex_spec(s, i, line_start).last().token_type is EOI,
        lex_spec(s, i, line_start).last().span == (s.len() as int, s.len() as int),
        forall|k: int|
            0 <= k < lex_spec(s, i, line_start).len() ==> (#[trigger] lex_spec(
                s,
                i,
                line_start,
            )[k].span.0 <= lex_spec(s, i, line_start)[k].span.1 <= s.len()),
        forall|k: int|
            0 <= k < lex_spec(s, i, line_start).len() - 1 ==> (#[trigger] lex_spec(
                s,
                i,
                line_start,
            )[k].span.0 < lex_spec(s, i, line_start)[k].span.1),
        forall|k: int|
            0 <= k < lex_spec(s, i, line_start).len() - 1 ==> (#[trigger] lex_spec(
                s,
                i,
                line_start,
            )[k + 1].span.0 == lex_spec(s, i, line_start)[k].span.1),
        forall|k: int|
            0 <= k < lex_spec(s, i, line_start).len() - 1 ==> !(#[trigger] lex_spec(
                s,
                i,
                line_start,
            )[k].token_type is EOI),
    decreases s.len() - i,
{
    let ts = lex_spec(s, i, line_start);
    if i >= s.len() {
        assert(ts =~= seq![
            lex::TokV { token_type: lex::TokenV::EOI, span: (i, i), source: s },
        ]);
        assert(i == s.len());
    } else {
        lemma_lex_step(s, i, line_start);
        let st = lex_step(s, i, line_start);
        lemma_token_stream_wellformed(s, st.next, st.line_start);
        let rest = lex_spec(s, st.next, st.line_start);
        assert(ts =~= seq![lex::TokV { token_type: st.tok, span: (i, st.next), source: s }]
            + rest);
        assert(forall|k: int| 1 <= k < ts.len() ==> ts[k] == rest[k - 1]);
        assert forall|k: int| 0 <= k < ts.len() - 1 implies (#[trigger] ts[k + 1].span.0)
            == ts[k].span.1 by {
            if k == 0 {
                assert(ts[1] == rest[0]);
            } else {
                assert(ts[k] == rest[k - 1]);
                assert(ts[k + 1] == rest[k]);
                assert(rest[(k - 1) + 1].span.0 == rest[k - 1].span.1);
            }
        }
        assert(!(st.tok is EOI)) by {
            lemma_lex_step_not_eoi(s, i, line_start);
        }
    }
}

/// No scanning step yields the end-of-input marker: that token closes
/// the stream alone.
proof fn lemma_lex_step_not_eoi(s: Seq<char>, i: int, line_start: bool)
    requires
        0 <= i < s.len(),
    ensures
        !(lex_step(s, i, line_start).tok is EOI),
{
}

/// Converts a whole document to HTML: the source is split into lines,
/// parsed into a tree of document nodes, and rendered, each node's
/// fragment concatenated in document order.  The result is exactly
/// [`parser::parse_spec`] of the input, so parsing is deterministic
/// and total: every input, however malformed, yields an HTML string.
pub fn parse(source: &str) -> (r: Result<String, parser::Error>)
    ensures
        r matches Ok(out) && out@ == parser::parse_spec(source@),
{
    let lines = parser::split_lines_exec(source);
    let nodes = parser::parse_document(&lines);
    let ghost nv = nodes.deep_view();
    let mut out = String::new();
    let mut k: usize = 0;
    while k < nodes.len()
        invariant
            0 <= k <= nodes.len(),
            nv == nodes.deep_view(),
            nv.len() == nodes@.len(),
            forall|j: int| 0 <= j < nodes@.len() ==> #[trigger] nv[j] == nodes@[j]@,
            parser::render_nodes(nv, 0) == out@ + parser::render_nodes(nv, k as int),
        decreases nodes.len() - k,
    {
        let fragment = nodes[k].render();
        out.append(fragment.as_str());
        proof {
            assert(parser::render_nodes(nv, 0) =~= out@ + parser::render_nodes(nv, k + 1));
        }
        k += 1;
    }
    proof {
        assert(out@ + parser::render_nodes(nv, k as int) =~= out@);
    }
    Ok(out)
}

} // verus!
