//! A minimal templating language inside branch text: `{% pic ID %}` becomes the address of
//! a picture, HTML-escaped; `{%! ... %}` asks for no escaping. Text outside templates stays
//! as it is; a template that is not a known one stays too, but for its opening `{%`.
use std::ops::Range;
use vstd::prelude::*;
use vstd::string::*;
use vstd::utf8::*;

use crate::config::Config;
use crate::escape::{cmark_entity, escape_html, flat_map_chars};
use crate::text::{
    anchored, chars_equal, chars_of, lemma_anchored_boundary, lemma_boundary_in_suffix, lemma_str_valid, slice, slice_chars,
    string_of, text_of,
};
use crate::wc::{is_whitespace, spec_is_whitespace};

verus! {

pub const OPEN_BRACE: u8 = 0x7b;
pub const CLOSE_BRACE: u8 = 0x7d;
pub const PERCENT: u8 = 0x25;
pub const BANG: u8 = 0x21;

#[derive(Debug, Clone, Copy, PartialEq, Eq, Structural)]
pub enum EscapingMode {
    EscapeHtml,
    NoEscaping,
}

#[derive(Debug, Clone, Copy, PartialEq, Eq, Structural)]
pub enum TokenKind {
    /// Verbatim text, which may be inside a template.
    Text,
    /// `{%`, or `{%!` for no escaping (the `!` is left to the text that follows).
    Open(EscapingMode),
    /// `%}`.
    Close,
}

#[derive(Debug, Clone, PartialEq, Eq)]
pub struct Token {
    pub kind: TokenKind,
    pub range: Range<usize>,
}

/// The end of the text that starts at `p`: the next `{` or `%`, or the end of the input.
pub open spec fn special_end(b: Seq<u8>, p: int) -> int
    decreases b.len() - p,
{
    if p < 0 || p >= b.len() || b[p] == OPEN_BRACE || b[p] == PERCENT {
        p
    } else {
        special_end(b, p + 1)
    }
}

pub proof fn lemma_special_end(b: Seq<u8>, p: int)
    requires
        0 <= p <= b.len(),
    ensures
        p <= special_end(b, p) <= b.len(),
        special_end(b, p) == b.len() || b[special_end(b, p)] == OPEN_BRACE || b[special_end(b, p)]
            == PERCENT,
    decreases b.len() - p,
{
    if p < b.len() && b[p] != OPEN_BRACE && b[p] != PERCENT {
        lemma_special_end(b, p + 1);
    }
}

/// The single token at `p` and where it ends, before consecutive texts are joined.
pub open spec fn raw_token(b: Seq<u8>, p: int) -> Option<(TokenKind, int)> {
    if p < 0 || p >= b.len() {
        None
    } else if b[p] == OPEN_BRACE {
        if p + 1 < b.len() && b[p + 1] == PERCENT {
            if p + 2 < b.len() && b[p + 2] == BANG {
                Some((TokenKind::Open(EscapingMode::NoEscaping), p + 2))
            } else {
                Some((TokenKind::Open(EscapingMode::EscapeHtml), p + 2))
            }
        } else {
            Some((TokenKind::Text, if p + 2 <= b.len() { p + 2 } else { b.len() as int }))
        }
    } else if b[p] == PERCENT {
        if p + 1 < b.len() && b[p + 1] == CLOSE_BRACE {
            Some((TokenKind::Close, p + 2))
        } else {
            Some((TokenKind::Text, if p + 2 <= b.len() { p + 2 } else { b.len() as int }))
        }
    } else {
        Some((TokenKind::Text, special_end(b, p)))
    }
}

pub proof fn lemma_raw_token(b: Seq<u8>, p: int)
    requires
        0 <= p <= b.len(),
    ensures
        raw_token(b, p) matches Some((kind, e)) ==> p < e <= b.len() && (kind != TokenKind::Text
            ==> anchored(b, e)),
        raw_token(b, p) is None ==> p == b.len(),
{
    if p < b.len() && b[p] != OPEN_BRACE && b[p] != PERCENT {
        lemma_special_end(b, p + 1);
        assert(special_end(b, p) == special_end(b, p + 1));
    }
}

/// Where the run of text tokens that continues at `e` ends.
pub open spec fn text_end(b: Seq<u8>, e: int) -> int
    decreases b.len() - e,
{
    if 0 <= e <= b.len() {
        proof {
            lemma_raw_token(b, e);
        }
        match raw_token(b, e) {
            Some((TokenKind::Text, e2)) => text_end(b, e2),
            _ => e,
        }
    } else {
        e
    }
}

pub proof fn lemma_text_end(b: Seq<u8>, e: int)
    requires
        0 <= e <= b.len(),
    ensures
        e <= text_end(b, e) <= b.len(),
        anchored(b, text_end(b, e)),
        raw_token(b, text_end(b, e)) matches Some((k, _)) ==> k != TokenKind::Text,
    decreases b.len() - e,
{
    lemma_raw_token(b, e);
    match raw_token(b, e) {
        Some((TokenKind::Text, e2)) => lemma_text_end(b, e2),
        _ => {},
    }
}

/// The token at `p`, with consecutive texts joined into one, and where it ends.
pub open spec fn token_at(b: Seq<u8>, p: int) -> Option<(TokenKind, int)> {
    match raw_token(b, p) {
        Some((TokenKind::Text, e)) => Some((TokenKind::Text, text_end(b, e))),
        other => other,
    }
}

pub proof fn lemma_token_at(b: Seq<u8>, p: int)
    requires
        0 <= p <= b.len(),
    ensures
        token_at(b, p) matches Some((kind, e)) ==> p < e <= b.len() && anchored(b, e),
        token_at(b, p) is None ==> p == b.len(),
{
    lemma_raw_token(b, p);
    if let Some((TokenKind::Text, e)) = raw_token(b, p) {
        lemma_text_end(b, e);
    }
}

/// `s` without white space at either end.
pub open spec fn trim(s: Seq<char>) -> Seq<char> {
    trim_end(trim_start(s))
}

pub open spec fn trim_start(s: Seq<char>) -> Seq<char>
    decreases s.len(),
{
    if s.len() > 0 && spec_is_whitespace(s[0]) {
        trim_start(s.drop_first())
    } else {
        s
    }
}

pub open spec fn trim_end(s: Seq<char>) -> Seq<char>
    decreases s.len(),
{
    if s.len() > 0 && spec_is_whitespace(s.last()) {
        trim_end(s.drop_last())
    } else {
        s
    }
}

/// The position of the first space in `s`, if any.
pub open spec fn space_index(s: Seq<char>) -> Option<int> {
    if exists|i: int| 0 <= i < s.len() && s[i] == ' ' {
        Some(choose|i: int| 0 <= i < s.len() && s[i] == ' ' && forall|j: int| 0 <= j < i ==> s[j] != ' ')
    } else {
        None
    }
}

/// What a template expands to: `pic ID` to the address of picture `ID`, `c++` to a joke;
/// anything else is not a template.
pub open spec fn expand_template(config: Config, template: Seq<char>) -> Option<Seq<char>> {
    let (function, arguments) = match space_index(template) {
        Some(i) => (template.subrange(0, i), template.subrange(i + 1, template.len() as int)),
        None => (template, Seq::<char>::empty()),
    };
    if function == "pic"@ {
        Some(config.pic_url_spec(arguments))
    } else if function == "c++"@ {
        Some("<script>alert(1)</script>"@)
    } else {
        None
    }
}

/// The text of the token at `p`, or nothing when there is none.
pub open spec fn verbatim(input: &str, p: int) -> Seq<char> {
    match token_at(input.spec_bytes(), p) {
        Some((_, e)) => text_of(input, p, e),
        None => Seq::empty(),
    }
}

/// Where the token at `p` ends, or `p` when there is none.
pub open spec fn after(b: Seq<u8>, p: int) -> int {
    match token_at(b, p) {
        Some((_, e)) => e,
        None => p,
    }
}

/// The output for the template opened by the token that ends at `e1`.
pub open spec fn template_output(config: Config, input: &str, escaping: EscapingMode, e1: int) -> Seq<char> {
    let b = input.spec_bytes();
    let e2 = after(b, e1);
    match (token_at(b, e1), token_at(b, e2)) {
        (Some((TokenKind::Text, _)), Some((TokenKind::Close, _))) => match expand_template(
            config,
            trim(text_of(input, e1, e2)),
        ) {
            Some(s) => if escaping == EscapingMode::EscapeHtml {
                flat_map_chars(s, |c: char| cmark_entity(c))
            } else {
                s
            },
            None => verbatim(input, e1) + verbatim(input, e2),
        },
        _ => verbatim(input, e1) + verbatim(input, e2),
    }
}

/// The rendering of the input from `p` on: text stays as it is, templates are expanded.
pub open spec fn render_from(config: Config, input: &str, p: int) -> Seq<char>
    decreases input.spec_bytes().len() - p,
{
    let b = input.spec_bytes();
    if 0 <= p <= b.len() {
        proof {
            lemma_token_at(b, p);
        }
        match token_at(b, p) {
            None => Seq::empty(),
            Some((TokenKind::Open(escaping), e1)) => {
                proof {
                    lemma_token_at(b, e1);
                    lemma_token_at(b, after(b, e1));
                }
                let e3 = after(b, after(b, e1));
                template_output(config, input, escaping, e1) + render_from(config, input, e3)
            },
            Some((_, e)) => text_of(input, p, e) + render_from(config, input, e),
        }
    } else {
        Seq::empty()
    }
}

struct Lexer<'a> {
    input: &'a str,
    position: usize,
    // The token after the position, when it has been looked at already.
    peek_buffer: Option<(Token, usize)>,
}

impl<'a> Lexer<'a> {
    spec fn bytes(&self) -> Seq<u8> {
        self.input.spec_bytes()
    }

    spec fn wf(&self) -> bool {
        &&& self.position <= self.bytes().len()
        &&& self.bytes().len() < usize::MAX
        &&& self.peek_buffer matches Some((token, end)) ==> raw_token(self.bytes(), self.position as int)
            == Some((token.kind, end as int)) && token.range.start == self.position
            && token.range.end == end
    }

    fn new(input: &'a str) -> (lexer: Self)
        requires
            input.spec_bytes().len() < usize::MAX,
        ensures
            lexer.wf(),
            lexer.input == input,
            lexer.position == 0,
    {
        Self { input, position: 0, peek_buffer: None }
    }

    fn current(&self) -> (c: Option<u8>)
        ensures
            c == (if self.position < self.bytes().len() {
                Some(self.bytes()[self.position as int])
            } else {
                None::<u8>
            }),
    {
        let b = self.input.as_bytes();
        if self.position < b.len() {
            Some(b[self.position])
        } else {
            None
        }
    }

    fn current_is(&self, c: u8) -> (r: bool)
        ensures
            r == (self.position < self.bytes().len() && self.bytes()[self.position as int] == c),
    {
        let b = self.input.as_bytes();
        self.position < b.len() && b[self.position] == c
    }

    fn advance(&mut self)
        requires
            old(self).position <= old(self).bytes().len(),
            old(self).bytes().len() < usize::MAX,
        ensures
            final(self).input == old(self).input,
            final(self).peek_buffer == old(self).peek_buffer,
            final(self).position == (if old(self).position < old(self).bytes().len() {
                old(self).position + 1
            } else {
                old(self).position as int
            }),
    {
        if self.position < self.input.as_bytes().len() {
            self.position = self.position + 1;
        }
    }

    fn create_token(&self, start: usize, kind: TokenKind) -> (token: Token)
        ensures
            token.kind == kind,
            token.range.start == start,
            token.range.end == self.position,
    {
        Token { kind, range: Range { start, end: self.position } }
    }

    /// The next token, texts not joined.
    fn next_inner(&mut self) -> (token: Option<Token>)
        requires
            old(self).wf(),
        ensures
            final(self).wf(),
            final(self).input == old(self).input,
            final(self).peek_buffer is None,
            match raw_token(old(self).bytes(), old(self).position as int) {
                None => token is None && final(self).position == old(self).position,
                Some((kind, e)) => token matches Some(t) && t.kind == kind && t.range.start
                    == old(self).position && t.range.end == e && final(self).position == e,
            },
    {
        proof {
            lemma_raw_token(self.bytes(), self.position as int);
        }
        if let Some((token, after_token)) = self.peek_buffer.take() {
            self.position = after_token;
            return Some(token);
        }
        let start = self.position;
        let ghost b = self.bytes();
        proof {
            lemma_raw_token(b, start as int);
        }
        match self.current() {
            Some(c) => {
                if c == OPEN_BRACE {
                    self.advance();
                    if self.current_is(PERCENT) {
                        self.advance();
                        if self.current_is(BANG) {
                            Some(self.create_token(start, TokenKind::Open(EscapingMode::NoEscaping)))
                        } else {
                            Some(self.create_token(start, TokenKind::Open(EscapingMode::EscapeHtml)))
                        }
                    } else {
                        self.advance();
                        Some(self.create_token(start, TokenKind::Text))
                    }
                } else if c == PERCENT {
                    self.advance();
                    if self.current_is(CLOSE_BRACE) {
                        self.advance();
                        Some(self.create_token(start, TokenKind::Close))
                    } else {
                        self.advance();
                        Some(self.create_token(start, TokenKind::Text))
                    }
                } else {
                    while !(self.current_is(OPEN_BRACE) || self.current_is(PERCENT) || self.position
                        >= self.input.as_bytes().len())
                        invariant
                            self.input == old(self).input,
                            self.peek_buffer is None,
                            b == self.bytes(),
                            b.len() < usize::MAX,
                            start < self.position <= b.len() || (start == self.position && b[start as int] == c),
                            start <= self.position <= b.len(),
                            special_end(b, self.position as int) == special_end(b, start as int),
                        decreases b.len() - self.position,
                    {
                        self.advance();
                    }
                    Some(self.create_token(start, TokenKind::Text))
                }
            },
            None => None,
        }
    }

    /// The token that `next_inner` would return, without moving past it.
    fn peek_inner(&mut self) -> (token: Option<Token>)
        requires
            old(self).wf(),
        ensures
            final(self).wf(),
            final(self).input == old(self).input,
            final(self).position == old(self).position,
            match raw_token(old(self).bytes(), old(self).position as int) {
                None => token is None,
                Some((kind, e)) => token matches Some(t) && t.kind == kind && t.range.start
                    == old(self).position && t.range.end == e,
            },
    {
        let position = self.position;
        let token = self.next_inner();
        let after_token = self.position;
        self.position = position;
        match token {
            Some(t) => {
                let kind = t.kind;
                let start = t.range.start;
                let end = t.range.end;
                self.peek_buffer = Some((t, after_token));
                Some(Token { kind, range: Range { start, end } })
            },
            None => None,
        }
    }

    /// The next token, with consecutive texts joined into one.
    fn next(&mut self) -> (token: Option<Token>)
        requires
            old(self).wf(),
        ensures
            final(self).wf(),
            final(self).input == old(self).input,
            match token_at(old(self).bytes(), old(self).position as int) {
                None => token is None && final(self).position == old(self).position,
                Some((kind, e)) => token matches Some(t) && t.kind == kind && t.range.start
                    == old(self).position && t.range.end == e && final(self).position == e,
            },
    {
        let ghost b = self.bytes();
        proof {
            lemma_raw_token(b, self.position as int);
        }
        match self.next_inner() {
            None => None,
            Some(token) => {
                let mut token = token;
                if token.kind == TokenKind::Text {
                    loop
                        invariant
                            self.wf(),
                            self.input == old(self).input,
                            b == self.bytes(),
                            token.kind == TokenKind::Text,
                            token.range.start == old(self).position,
                            token.range.end == self.position,
                            old(self).position < self.position,
                            text_end(b, self.position as int) == text_end(
                                b,
                                raw_token(b, old(self).position as int)->Some_0.1,
                            ),
                        ensures
                            text_end(b, self.position as int) == self.position,
                        decreases b.len() - self.position,
                    {
                        proof {
                            lemma_raw_token(b, self.position as int);
                        }
                        match self.peek_inner() {
                            Some(t) => {
                                if t.kind == TokenKind::Text {
                                    let next_token = self.next_inner();
                                    match next_token {
                                        Some(n) => {
                                            token.range.end = n.range.end;
                                        },
                                        None => {},
                                    }
                                } else {
                                    break;
                                }
                            },
                            None => break,
                        }
                    }
                }
                Some(token)
            },
        }
    }
}

/// Expands a template's text.
fn render_template(config: &Config, template: &[char]) -> (result: Option<String>)
    ensures
        match expand_template(*config, template@) {
            Some(s) => result matches Some(r) && r@ == s,
            None => result is None,
        },
{
    let mut i: usize = 0;
    while i < template.len() && template[i] != ' '
        invariant
            i <= template@.len(),
            forall|j: int| 0 <= j < i ==> template@[j] != ' ',
        decreases template@.len() - i,
    {
        i = i + 1;
    }
    let function: Vec<char>;
    let arguments: Vec<char>;
    if i < template.len() {
        assert(space_index(template@) == Some(i as int));
        function = slice_chars(template, 0, i);
        arguments = slice_chars(template, i + 1, template.len());
    } else {
        assert(space_index(template@) is None);
        function = slice_chars(template, 0, template.len());
        arguments = Vec::new();
        assert(function@ =~= template@);
    }
    let pic = chars_of("pic");
    let cpp = chars_of("c++");
    if chars_equal(function.as_slice(), pic.as_slice()) {
        let arguments = string_of(arguments.as_slice());
        Some(config.pic_url(arguments.as_str()))
    } else if chars_equal(function.as_slice(), cpp.as_slice()) {
        let s = String::from_str("<script>alert(1)</script>");
        Some(s)
    } else {
        None
    }
}

/// The characters of `s` without white space at either end.
pub(crate) fn trim_chars(s: &[char]) -> (r: Vec<char>)
    ensures
        r@ == trim(s@),
{
    let mut start: usize = 0;
    proof {
        assert(s@.subrange(0, s@.len() as int) =~= s@);
    }
    while start < s.len() && is_whitespace(s[start])
        invariant
            start <= s@.len(),
            trim_start(s@.subrange(start as int, s@.len() as int)) == trim_start(s@),
        decreases s@.len() - start,
    {
        proof {
            assert(s@.subrange(start as int, s@.len() as int).drop_first() =~= s@.subrange(
                start + 1,
                s@.len() as int,
            ));
        }
        start = start + 1;
    }
    assert(trim_start(s@) == s@.subrange(start as int, s@.len() as int));
    let mut end: usize = s.len();
    while end > start && is_whitespace(s[end - 1])
        invariant
            start <= end <= s@.len(),
            trim_end(s@.subrange(start as int, end as int)) == trim_end(
                s@.subrange(start as int, s@.len() as int),
            ),
        decreases end,
    {
        proof {
            assert(s@.subrange(start as int, end as int).drop_last() =~= s@.subrange(
                start as int,
                end - 1,
            ));
        }
        end = end - 1;
    }
    slice_chars(s, start, end)
}

/// Rendering depends on the input's characters alone.
pub proof fn lemma_render_view(config: Config, t1: &str, t2: &str, p: int)
    requires
        t1@ == t2@,
    ensures
        render_from(config, t1, p) == render_from(config, t2, p),
    decreases t1.spec_bytes().len() - p,
{
    let b = t1.spec_bytes();
    if 0 <= p <= b.len() {
        lemma_token_at(b, p);
        match token_at(b, p) {
            None => {},
            Some((TokenKind::Open(escaping), e1)) => {
                lemma_token_at(b, e1);
                lemma_token_at(b, after(b, e1));
                let e3 = after(b, after(b, e1));
                assert(template_output(config, t1, escaping, e1) == template_output(config, t2, escaping, e1));
                lemma_render_view(config, t1, t2, e3);
            },
            Some((_, e)) => {
                lemma_render_view(config, t1, t2, e);
            },
        }
    }
}

/// `b` holds no `{%`, so no template opens in it.
pub open spec fn has_no_template(b: Seq<u8>) -> bool {
    forall|i: int| 0 <= i < b.len() - 1 ==> !(#[trigger] b[i] == OPEN_BRACE && b[i + 1] == PERCENT)
}

proof fn lemma_plain_from(config: Config, input: &str, p: int)
    requires
        0 <= p <= input.spec_bytes().len(),
        anchored(input.spec_bytes(), p),
        valid_utf8(input.spec_bytes()),
        has_no_template(input.spec_bytes()),
    ensures
        render_from(config, input, p) == text_of(input, p, input.spec_bytes().len() as int),
    decreases input.spec_bytes().len() - p,
{
    let b = input.spec_bytes();
    let len = b.len() as int;
    lemma_token_at(b, p);
    match token_at(b, p) {
        None => {
            assert(b.subrange(p, len) =~= Seq::<u8>::empty());
        },
        Some((kind, e)) => {
            if p + 1 < len {
                assert(!(b[p] == OPEN_BRACE && b[p + 1] == PERCENT));
            }
            assert(kind != TokenKind::Open(EscapingMode::EscapeHtml));
            assert(kind != TokenKind::Open(EscapingMode::NoEscaping));
            lemma_plain_from(config, input, e);
            lemma_anchored_boundary(b, p);
            lemma_anchored_boundary(b, e);
            lemma_boundary_in_suffix(b, p, e);
            let c = b.subrange(p, len);
            decode_utf8_split(c, e - p);
            assert(c.subrange(0, e - p) =~= b.subrange(p, e));
            assert(c.subrange(e - p, c.len() as int) =~= b.subrange(e, len));
        },
    }
}

/// Text without `{%` opens no template, so rendering gives it back as it is.
pub proof fn law_plain_text_renders_as_is(config: Config, input: &str)
    requires
        has_no_template(input.spec_bytes()),
    ensures
        render_from(config, input, 0) == input@,
{
    lemma_str_valid(input);
    lemma_plain_from(config, input, 0);
    assert(input.spec_bytes().subrange(0, input.spec_bytes().len() as int) =~= input.spec_bytes());
}

/// Renders the templates in `input` with `config`.
pub fn render(config: &Config, input: &str) -> (output: String)
    requires
        input.spec_bytes().len() < usize::MAX,
    ensures
        output@ == render_from(*config, input, 0),
{
    let ghost b = input.spec_bytes();
    proof {
        lemma_str_valid(input);
    }
    let mut lexer = Lexer::new(input);
    let mut output = String::new();
    loop
        invariant
            lexer.wf(),
            lexer.input == input,
            b == input.spec_bytes(),
            vstd::utf8::valid_utf8(b),
            anchored(b, lexer.position as int),
            output@ + render_from(*config, input, lexer.position as int) == render_from(*config, input, 0),
        ensures
            output@ == render_from(*config, input, 0),
        decreases b.len() - lexer.position,
    {
        let p = lexer.position;
        proof {
            lemma_token_at(b, p as int);
        }
        match lexer.next() {
            None => {
                assert(output@ + Seq::<char>::empty() =~= output@);
                break;
            },
            Some(token) => {
                match token.kind {
                    TokenKind::Open(escaping) => {
                        let e1 = lexer.position;
                        proof {
                            lemma_token_at(b, e1 as int);
                        }
                        let inside = lexer.next();
                        let e2 = lexer.position;
                        proof {
                            lemma_token_at(b, e2 as int);
                        }
                        let close = lexer.next();
                        let e3 = lexer.position;
                        let ghost piece = template_output(*config, input, escaping, e1 as int);
                        let ghost before = output@;
                        proof {
                            lemma_anchored_boundary(b, e1 as int);
                            lemma_anchored_boundary(b, e2 as int);
                            lemma_anchored_boundary(b, e3 as int);
                        }
                        let mut verbatim_both = true;
                        match (&inside, &close) {
                            (Some(i), Some(c)) => {
                                if i.kind == TokenKind::Text && c.kind == TokenKind::Close {
                                    let text = slice(input, e1, e2);
                                    let chars = chars_of(text);
                                    let template = trim_chars(chars.as_slice());
                                    match render_template(config, template.as_slice()) {
                                        Some(s) => {
                                            verbatim_both = false;
                                            match escaping {
                                                EscapingMode::EscapeHtml => escape_html(&mut output, s.as_str()),
                                                EscapingMode::NoEscaping => output.push_str(s.as_str()),
                                            }
                                        },
                                        None => {},
                                    }
                                }
                            },
                            _ => {},
                        }
                        if verbatim_both {
                            output.push_str(slice(input, e1, e2));
                            output.push_str(slice(input, e2, e3));
                        }
                        proof {
                            assert(output@ =~= before + piece);
                            assert(output@ + render_from(*config, input, e3 as int) =~= before + render_from(
                                *config,
                                input,
                                p as int,
                            ));
                        }
                    },
                    _ => {
                        let e = lexer.position;
                        proof {
                            lemma_anchored_boundary(b, p as int);
                            lemma_anchored_boundary(b, e as int);
                        }
                        output.push_str(slice(input, p, e));
                        proof {
                            assert(output@ + render_from(*config, input, e as int) =~= render_from(*config, input, 0));
                        }
                    },
                }
            },
        }
    }
    output
}

} // verus!
