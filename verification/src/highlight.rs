//! Syntax highlighting of code blocks, in the manner of rxi's lite editor: at each position
//! of the code the syntax's patterns are tried in order, the first that matches there gives
//! the token types of what it matched, and if none does a single byte becomes a default
//! token. Adjacent tokens of one type are joined, and keywords then retype tokens whose
//! whole text they are.
use std::ops::Range;
use vstd::prelude::*;
use vstd::utf8::*;
use vstd::string::*;
use regex::{Regex, RegexBuilder};

use crate::escape::{cmark_entity, escape_html, flat_map_chars};
use crate::text::{chars_of, lemma_str_valid, slice, slice_chars, str_equal, string_of, text_of, valid_range};

verus! {

/// A flag passed to the regex engine.
#[derive(Debug, Clone, Copy, PartialEq, Eq, Structural)]
pub enum RegexFlag {
    /// Make `.` match line separators.
    DotMatchesNewline,
}

/// A syntax definition.
#[derive(Debug, Clone)]
pub struct Syntax {
    /// Patterns, matched in order: those at the beginning of the list take precedence.
    pub patterns: Vec<Pattern>,
    /// Replacements to use when a token's text is exactly a keyword, keyed by that text.
    pub keywords: Vec<(String, Keyword)>,
}

/// A pattern of a syntax definition.
#[derive(Debug, Clone)]
pub struct Pattern {
    /// The regular expression to match.
    pub regex: String,
    /// Flags that alter how the regular expression matches.
    pub flags: Vec<RegexFlag>,
    /// The token types to assign to what the pattern matches.
    pub is: TokenTypes,
}

/// Assignable token types.
#[derive(Debug, Clone)]
pub enum TokenTypes {
    /// One token type for the entire match.
    FullMatch(String),
    /// Token types for each capture.
    Captures(CaptureTokenTypes),
}

#[derive(Debug, Clone)]
pub struct CaptureTokenTypes {
    /// The token type outside captures.
    pub default: String,
    /// The token type inside each capture, in the order of the captures.
    pub captures: Vec<String>,
}

/// A keyword replacement.
#[derive(Debug, Clone)]
pub struct Keyword {
    /// What to replace the token type with.
    pub into: String,
    /// Only replace tokens of this type; any type when absent.
    pub only_replaces: Option<String>,
}

/// Token names are turned into indices into the compiled syntax's name table.
pub const TOKEN_ID_DEFAULT: usize = 0;

#[verifier::external_type_specification]
#[verifier::external_body]
pub struct ExRegex(Regex);

/// Whether `RegexBuilder::new(pattern)` with `dot_matches_new_line` set as given, and every
/// other setting at its default, builds a regular expression.
pub uninterp spec fn regex_compiles(pattern: Seq<char>, dot_matches_new_line: bool) -> bool;

/// The start and end of the leftmost-first match that `Regex::find` reports in `haystack`,
/// for the regular expression built from `pattern`.
pub uninterp spec fn regex_find(
    pattern: Seq<char>,
    dot_matches_new_line: bool,
    haystack: Seq<char>,
) -> Option<(usize, usize)>;

/// The ranges of the groups (group 0 being the whole match) that `Regex::captures` reports
/// in `haystack`, for the regular expression built from `pattern`.
pub uninterp spec fn regex_captures(
    pattern: Seq<char>,
    dot_matches_new_line: bool,
    haystack: Seq<char>,
) -> Option<Seq<Option<(usize, usize)>>>;

/// `RegexBuilder::new(pattern).dot_matches_new_line(..).build()`, the error dropped. Whether
/// it builds is a function of the pattern and the flag alone.
#[verifier::external_body]
fn build_regex(pattern: &str, dot_matches_new_line: bool) -> (r: Option<Regex>)
    ensures
        r is Some == regex_compiles(pattern@, dot_matches_new_line),
{
    RegexBuilder::new(pattern).dot_matches_new_line(dot_matches_new_line).build().ok()
}

/// A regular expression together with the pattern and flag that it was built from. The
/// fields are private and `new` is the only constructor, so the regular expression is always
/// the one that the pattern and flag build.
#[derive(Debug)]
pub struct PatternRegex {
    source: String,
    dot_matches_new_line: bool,
    regex: Regex,
}

impl PatternRegex {
    /// The pattern that the regular expression was built from.
    pub closed spec fn source(&self) -> Seq<char> {
        self.source@
    }

    /// Whether `.` matches line breaks.
    pub closed spec fn dot_matches_new_line(&self) -> bool {
        self.dot_matches_new_line
    }

    /// Builds the regular expression for `source`, if it is a valid one.
    pub fn new(source: String, dot_matches_new_line: bool) -> (r: Option<PatternRegex>)
        ensures
            r is Some == regex_compiles(source@, dot_matches_new_line),
            r matches Some(p) ==> p.source() == source@ && p.dot_matches_new_line()
                == dot_matches_new_line,
    {
        match build_regex(source.as_str(), dot_matches_new_line) {
            Some(regex) => Some(PatternRegex { source, dot_matches_new_line, regex }),
            None => None,
        }
    }
}

/// `Regex::find` on `haystack`, as a byte range. The regex crate guarantees that every offset
/// it reports is a character boundary of the haystack, and a match's start is never after its
/// end.
#[verifier::external_body]
fn find_in(pattern: &PatternRegex, haystack: &str) -> (r: Option<(usize, usize)>)
    ensures
        r == regex_find(pattern.source(), pattern.dot_matches_new_line(), haystack@),
        r matches Some((s, e)) ==> s <= e <= haystack.spec_bytes().len() && is_char_boundary(
            haystack.spec_bytes(),
            s as int,
        ) && is_char_boundary(haystack.spec_bytes(), e as int),
{
    pattern.regex.find(haystack).map(|m| (m.start(), m.end()))
}

/// `Regex::captures` on `haystack`: the byte range of each group, in order, where the group
/// took part in the match. Group 0, the whole match, always did; offsets are character
/// boundaries of the haystack, and a range's start is never after its end.
#[verifier::external_body]
fn captures_in(pattern: &PatternRegex, haystack: &str) -> (r: Option<Vec<Option<(usize, usize)>>>)
    ensures
        match r {
            Some(groups) => regex_captures(pattern.source(), pattern.dot_matches_new_line(), haystack@)
                == Some(groups@),
            None => regex_captures(pattern.source(), pattern.dot_matches_new_line(), haystack@) is None,
        },
        r matches Some(groups) ==> groups@.len() > 0 && groups@[0] is Some && forall|k: int|
            #![trigger groups@[k]]
            0 <= k < groups@.len() ==> (groups@[k] matches Some((s, e)) ==> s <= e
                <= haystack.spec_bytes().len() && is_char_boundary(haystack.spec_bytes(), s as int)
                && is_char_boundary(haystack.spec_bytes(), e as int)),
{
    match pattern.regex.captures(haystack) {
        Some(c) => Some(c.iter().map(|m| m.map(|m| (m.start(), m.end()))).collect()),
        None => None,
    }
}

/// Token types with names turned into indices.
#[derive(Debug, Clone)]
pub enum CompiledTokenTypes {
    FullMatch(usize),
    Captures(CompiledCaptureTokenTypes),
}

#[derive(Debug, Clone)]
pub struct CompiledCaptureTokenTypes {
    pub default: usize,
    pub captures: Vec<usize>,
}

#[derive(Debug)]
pub struct CompiledPattern {
    pub regex: PatternRegex,
    pub is: CompiledTokenTypes,
}

#[derive(Debug, Clone, Copy, PartialEq, Eq, Structural)]
pub struct CompiledKeyword {
    pub into: usize,
    pub only_replaces: Option<usize>,
}

/// A syntax definition ready for highlighting.
#[derive(Debug)]
pub struct CompiledSyntax {
    /// Maps token indices to token names.
    pub token_names: Vec<String>,
    pub patterns: Vec<CompiledPattern>,
    pub keywords: Vec<(String, CompiledKeyword)>,
}

/// A token of highlighted code: its type and the byte range that it spans.
#[derive(Debug, Clone, PartialEq, Eq)]
pub struct Token {
    pub id: usize,
    pub range: Range<usize>,
}

/// A token as the contracts see it: type, start and end.
pub open spec fn token_view(t: Token) -> (usize, int, int) {
    (t.id, t.range.start as int, t.range.end as int)
}

pub open spec fn token_views(v: Seq<Token>) -> Seq<(usize, int, int)> {
    v.map_values(|t: Token| token_view(t))
}

/// Adds a token to the end, unless its range is empty; a token of the same type as the last
/// one extends that one to its own end.
pub open spec fn push_piece(toks: Seq<(usize, int, int)>, id: usize, start: int, end: int) -> Seq<
    (usize, int, int),
> {
    if start >= end {
        toks
    } else if toks.len() > 0 && toks.last().0 == id {
        toks.update(toks.len() - 1, (id, toks.last().1, end))
    } else {
        toks.push((id, start, end))
    }
}

/// The tokens of the capture groups from group `k` on, of a match at `i`, when the last
/// capture so far ended at `last`; and where the last capture ends.
pub open spec fn capture_pieces(
    toks: Seq<(usize, int, int)>,
    default: usize,
    ids: Seq<usize>,
    groups: Seq<Option<(usize, usize)>>,
    k: int,
    i: int,
    last: int,
) -> (Seq<(usize, int, int)>, int)
    decreases groups.len() - k,
{
    if k < 1 || k >= groups.len() {
        (toks, last)
    } else {
        match groups[k] {
            None => capture_pieces(toks, default, ids, groups, k + 1, i, last),
            Some((s, e)) => {
                let id = if k - 1 < ids.len() {
                    ids[k - 1]
                } else {
                    TOKEN_ID_DEFAULT
                };
                let t = push_piece(push_piece(toks, default, i + last, i + s), id, i + s, i + e);
                capture_pieces(t, default, ids, groups, k + 1, i, e as int)
            },
        }
    }
}

/// The tokens after one step at `i`, trying patterns from the `k`th on, and where the next
/// step starts.
pub open spec fn step_from(
    syntax: &CompiledSyntax,
    text: &str,
    toks: Seq<(usize, int, int)>,
    i: int,
    k: int,
) -> (Seq<(usize, int, int)>, int)
    decreases syntax.patterns@.len() - k,
{
    if k < 0 || k >= syntax.patterns@.len() {
        (push_piece(toks, TOKEN_ID_DEFAULT, i, i + 1), i + 1)
    } else {
        let p = syntax.patterns@[k];
        let haystack = text_of(text, i, text.spec_bytes().len() as int);
        match p.is {
            CompiledTokenTypes::FullMatch(id) => match regex_find(
                p.regex.source(),
                p.regex.dot_matches_new_line(),
                haystack,
            ) {
                Some((_, e)) => (push_piece(toks, id, i, i + e), i + e),
                None => step_from(syntax, text, toks, i, k + 1),
            },
            CompiledTokenTypes::Captures(types) => match regex_captures(
                p.regex.source(),
                p.regex.dot_matches_new_line(),
                haystack,
            ) {
                Some(groups) => {
                    let (t, last) = capture_pieces(toks, types.default, types.captures@, groups, 1, i, 0);
                    let e0 = match groups[0] {
                        Some((_, e)) => e as int,
                        None => 0,
                    };
                    (push_piece(t, types.default, i + last, i + e0), i + e0)
                },
                None => step_from(syntax, text, toks, i, k + 1),
            },
        }
    }
}

/// The tokens of `text` from `i` on, after `toks`; none when a step would not move forward to
/// a character boundary (where slicing the rest of the text would fail, or the search would
/// never end).
pub open spec fn run(syntax: &CompiledSyntax, text: &str, toks: Seq<(usize, int, int)>, i: int) -> Option<
    Seq<(usize, int, int)>,
>
    decreases text.spec_bytes().len() - i,
{
    if i < 0 || i >= text.spec_bytes().len() {
        Some(toks)
    } else {
        let (t, next) = step_from(syntax, text, toks, i, 0);
        if i < next <= text.spec_bytes().len() && is_char_boundary(text.spec_bytes(), next) {
            run(syntax, text, t, next)
        } else {
            None
        }
    }
}

/// The first keyword entry for `word`.
pub open spec fn keyword_for(kws: Seq<(String, CompiledKeyword)>, word: Seq<char>) -> Option<
    CompiledKeyword,
>
    decreases kws.len(),
{
    if kws.len() == 0 {
        None
    } else if kws[0].0@ == word {
        Some(kws[0].1)
    } else {
        keyword_for(kws.drop_first(), word)
    }
}

/// A token retyped by the keyword that its text is, if that keyword replaces its type.
pub open spec fn apply_keyword(kws: Seq<(String, CompiledKeyword)>, text: &str, t: (usize, int, int)) -> (
    usize,
    int,
    int,
) {
    match keyword_for(kws, text_of(text, t.1, t.2)) {
        Some(kw) => if kw.only_replaces is None || kw.only_replaces == Some(t.0) {
            (kw.into, t.1, t.2)
        } else {
            t
        },
        None => t,
    }
}

/// Every token spans a range of `text` with character boundaries at both ends.
pub open spec fn spans_valid(text: &str, toks: Seq<(usize, int, int)>) -> bool {
    forall|j: int| 0 <= j < toks.len() ==> valid_range(text, #[trigger] toks[j].1, toks[j].2)
}

/// Every token type that the syntax assigns names a token.
pub open spec fn types_within(types: CompiledTokenTypes, n: int) -> bool {
    match types {
        CompiledTokenTypes::FullMatch(id) => id < n,
        CompiledTokenTypes::Captures(types) => types.default < n && forall|j: int|
            0 <= j < types.captures@.len() ==> types.captures@[j] < n,
    }
}

impl CompiledSyntax {
    /// The name table is not empty and every token type in the syntax indexes it.
    pub open spec fn wf(&self) -> bool {
        &&& self.token_names@.len() > 0
        &&& forall|k: int|
            0 <= k < self.patterns@.len() ==> types_within(
                #[trigger] self.patterns@[k].is,
                self.token_names@.len() as int,
            )
        &&& forall|k: int|
            0 <= k < self.keywords@.len() ==> (#[trigger] self.keywords@[k]).1.into
                < self.token_names@.len()
    }

    /// The tokens of `text`; none where tokenizing it would fail.
    pub open spec fn tokenization(&self, text: &str) -> Option<Seq<(usize, int, int)>> {
        match run(self, text, Seq::empty(), 0) {
            Some(toks) => if spans_valid(text, toks) {
                Some(toks.map_values(|t: (usize, int, int)| apply_keyword(self.keywords@, text, t)))
            } else {
                None
            },
            None => None,
        }
    }
}

/// Every token's type is below `n`.
pub open spec fn ids_below(v: Seq<Token>, n: int) -> bool {
    forall|j: int| 0 <= j < v.len() ==> (#[trigger] v[j]).id < n
}

/// Adds a token to the end, unless its range is empty; a token of the same type as the last
/// one extends that one instead.
fn push_token(tokens: &mut Vec<Token>, id: usize, range: Range<usize>)
    ensures
        token_views(final(tokens)@) == push_piece(
            token_views(old(tokens)@),
            id,
            range.start as int,
            range.end as int,
        ),
        forall|n: int| ids_below(old(tokens)@, n) && id < n ==> ids_below(final(tokens)@, n),
{
    if range.start >= range.end {
        return ;
    }
    let n = tokens.len();
    if n > 0 && tokens[n - 1].id == id {
        tokens[n - 1].range.end = range.end;
        proof {
            assert(token_views(tokens@) =~= push_piece(
                token_views(old(tokens)@),
                id,
                range.start as int,
                range.end as int,
            ));
        }
        return ;
    }
    tokens.push(Token { id, range });
    proof {
        assert(token_views(tokens@) =~= token_views(old(tokens)@).push(
            (id, range.start as int, range.end as int),
        ));
    }
}

/// Adds the tokens of the capture groups of a match at `i` and returns where the last
/// capture ended.
fn push_captures(
    tokens: &mut Vec<Token>,
    types: &CompiledCaptureTokenTypes,
    groups: &Vec<Option<(usize, usize)>>,
    i: usize,
    bound: usize,
) -> (last: usize)
    requires
        i + bound <= usize::MAX,
        forall|k: int|
            0 <= k < groups@.len() ==> (#[trigger] groups@[k] matches Some((s, e)) ==> s <= e
                <= bound),
    ensures
        (token_views(final(tokens)@), last as int) == capture_pieces(
            token_views(old(tokens)@),
            types.default,
            types.captures@,
            groups@,
            1,
            i as int,
            0,
        ),
        last <= bound,
        forall|n: int|
            ids_below(old(tokens)@, n) && TOKEN_ID_DEFAULT < n && types_within(
                CompiledTokenTypes::Captures(*types),
                n,
            ) ==> ids_below(final(tokens)@, n),
{
    let mut last: usize = 0;
    let mut k: usize = 1;
    while k < groups.len()
        invariant
            1 <= k,
            last <= bound,
            i + bound <= usize::MAX,
            forall|k: int|
                0 <= k < groups@.len() ==> (#[trigger] groups@[k] matches Some((s, e)) ==> s <= e
                    <= bound),
            capture_pieces(token_views(tokens@), types.default, types.captures@, groups@, k as int, i as int, last as int)
                == capture_pieces(
                token_views(old(tokens)@),
                types.default,
                types.captures@,
                groups@,
                1,
                i as int,
                0,
            ),
            forall|n: int|
                ids_below(old(tokens)@, n) && TOKEN_ID_DEFAULT < n && types_within(
                    CompiledTokenTypes::Captures(*types),
                    n,
                ) ==> ids_below(tokens@, n),
        decreases groups@.len() - k,
    {
        match groups[k] {
            Some((s, e)) => {
                let id = if k - 1 < types.captures.len() {
                    types.captures[k - 1]
                } else {
                    TOKEN_ID_DEFAULT
                };
                push_token(tokens, types.default, Range { start: i + last, end: i + s });
                push_token(tokens, id, Range { start: i + s, end: i + e });
                last = e;
            },
            None => {},
        }
        k = k + 1;
    }
    last
}

impl CompiledSyntax {
    /// One step of the tokenizer at `i`: adds the tokens of what the first pattern that
    /// matches there matched (or a one-byte default token when none does) and returns where
    /// the next step starts.
    fn step(&self, text: &str, i: usize, tokens: &mut Vec<Token>) -> (next: usize)
        requires
            i < text.spec_bytes().len() <= usize::MAX,
            is_char_boundary(text.spec_bytes(), i as int),
        ensures
            (token_views(final(tokens)@), next as int) == step_from(
                self,
                text,
                token_views(old(tokens)@),
                i as int,
                0,
            ),
            next <= text.spec_bytes().len(),
            self.wf() && ids_below(old(tokens)@, self.token_names@.len() as int) ==> ids_below(
                final(tokens)@,
                self.token_names@.len() as int,
            ),
    {
        let ghost b = text.spec_bytes();
        proof {
            lemma_str_valid(text);
            is_char_boundary_start_end_of_seq(b);
        }
        let rest = slice(text, i, text.len());
        let mut k: usize = 0;
        while k < self.patterns.len()
            invariant
                k <= self.patterns@.len(),
                b == text.spec_bytes(),
                i < b.len(),
                b.len() <= usize::MAX,
                rest@ == text_of(text, i as int, b.len() as int),
                rest.spec_bytes().len() == b.len() - i,
                tokens@ == old(tokens)@,
                step_from(self, text, token_views(tokens@), i as int, k as int) == step_from(
                    self,
                    text,
                    token_views(old(tokens)@),
                    i as int,
                    0,
                ),
            decreases self.patterns@.len() - k,
        {
            let pattern = &self.patterns[k];
            proof {
                if self.wf() {
                    assert(types_within(self.patterns@[k as int].is, self.token_names@.len() as int));
                }
            }
            match &pattern.is {
                CompiledTokenTypes::FullMatch(id) => {
                    if let Some((_, end)) = find_in(&pattern.regex, rest) {
                        push_token(tokens, *id, Range { start: i, end: i + end });
                        return i + end;
                    }
                },
                CompiledTokenTypes::Captures(types) => {
                    if let Some(groups) = captures_in(&pattern.regex, rest) {
                        let whole_end = match groups[0] {
                            Some((_, e)) => e,
                            None => 0,
                        };
                        let last = push_captures(tokens, types, &groups, i, rest.len());
                        push_token(tokens, types.default, Range { start: i + last, end: i + whole_end });
                        return i + whole_end;
                    }
                },
            }
            k = k + 1;
        }
        push_token(tokens, TOKEN_ID_DEFAULT, Range { start: i, end: i + 1 });
        i + 1
    }

    /// The index of the first keyword entry for `word`.
    fn keyword_index(&self, word: &str) -> (r: Option<usize>)
        ensures
            match keyword_for(self.keywords@, word@) {
                Some(kw) => r matches Some(k) && k < self.keywords@.len() && self.keywords@[k as int].1
                    == kw,
                None => r is None,
            },
    {
        let mut k: usize = 0;
        proof {
            assert(self.keywords@.skip(0) =~= self.keywords@);
        }
        while k < self.keywords.len()
            invariant
                k <= self.keywords@.len(),
                keyword_for(self.keywords@.skip(k as int), word@) == keyword_for(self.keywords@, word@),
            decreases self.keywords@.len() - k,
        {
            proof {
                assert(self.keywords@.skip(k as int).drop_first() =~= self.keywords@.skip(k + 1));
            }
            if str_equal(self.keywords[k].0.as_str(), word) {
                return Some(k);
            }
            k = k + 1;
        }
        None
    }

    /// The tokens of `text`, or none where tokenizing it fails: where a step would not move
    /// forward to a character boundary, or a token would not span a valid range of the text.
    pub fn try_tokenize(&self, text: &str) -> (r: Option<Vec<Token>>)
        requires
            text.spec_bytes().len() <= usize::MAX,
        ensures
            match r {
                Some(tokens) => self.tokenization(text) == Some(token_views(tokens@)),
                None => self.tokenization(text) is None,
            },
            self.wf() ==> (r matches Some(tokens) ==> ids_below(tokens@, self.token_names@.len() as int)),
            r matches Some(tokens) ==> spans_valid(text, token_views(tokens@)),
    {
        let ghost b = text.spec_bytes();
        proof {
            lemma_str_valid(text);
            is_char_boundary_start_end_of_seq(b);
        }
        let mut tokens: Vec<Token> = Vec::new();
        proof {
            assert(token_views(tokens@) =~= Seq::<(usize, int, int)>::empty());
        }
        let mut i: usize = 0;
        while i < text.len()
            invariant
                b == text.spec_bytes(),
                valid_utf8(b),
                i <= b.len(),
                b.len() <= usize::MAX,
                is_char_boundary(b, i as int),
                run(self, text, token_views(tokens@), i as int) == run(self, text, Seq::empty(), 0),
                self.wf() ==> ids_below(tokens@, self.token_names@.len() as int),
            decreases b.len() - i,
        {
            let next = self.step(text, i, &mut tokens);
            if !(i < next && text.is_char_boundary(next)) {
                return None;
            }
            i = next;
        }
        let ghost toks = token_views(tokens@);
        let n = tokens.len();
        let mut j: usize = 0;
        while j < n
            invariant
                b == text.spec_bytes(),
                valid_utf8(b),
                b.len() <= usize::MAX,
                n == toks.len(),
                tokens@.len() == n,
                run(self, text, Seq::empty(), 0) == Some(toks),
                forall|m: int| 0 <= m < j ==> valid_range(text, #[trigger] toks[m].1, toks[m].2),
                forall|m: int|
                    0 <= m < j ==> token_view(#[trigger] tokens@[m]) == apply_keyword(
                        self.keywords@,
                        text,
                        toks[m],
                    ),
                forall|m: int| j <= m < n ==> token_view(#[trigger] tokens@[m]) == toks[m],
                self.wf() ==> ids_below(tokens@, self.token_names@.len() as int),
            decreases n - j,
        {
            let start = tokens[j].range.start;
            let end = tokens[j].range.end;
            if !(start <= end && text.is_char_boundary(start) && text.is_char_boundary(end)) {
                proof {
                    assert(!valid_range(text, toks[j as int].1, toks[j as int].2));
                    assert(!spans_valid(text, toks));
                }
                return None;
            }
            let word = slice(text, start, end);
            match self.keyword_index(word) {
                Some(k) => {
                    let keyword = self.keywords[k].1;
                    let id = tokens[j].id;
                    let replaces = match keyword.only_replaces {
                        None => true,
                        Some(only) => only == id,
                    };
                    if replaces {
                        tokens[j].id = keyword.into;
                    }
                },
                None => {},
            }
            proof {
                assert(valid_range(text, toks[j as int].1, toks[j as int].2));
                assert(token_view(tokens@[j as int]) == apply_keyword(self.keywords@, text, toks[j as int]));
            }
            j = j + 1;
        }
        proof {
            assert(spans_valid(text, toks));
            assert(forall|m: int| 0 <= m < n ==> token_views(tokens@)[m].1 == toks[m].1 && token_views(tokens@)[m].2 == toks[m].2);
            assert(token_views(tokens@) =~= toks.map_values(
                |t: (usize, int, int)| apply_keyword(self.keywords@, text, t),
            ));
        }
        Some(tokens)
    }

    /// The tokens of `text`, which must be one that tokenizes.
    pub fn tokenize(&self, text: &str) -> (tokens: Vec<Token>)
        requires
            text.spec_bytes().len() <= usize::MAX,
            self.tokenization(text) is Some,
        ensures
            self.tokenization(text) == Some(token_views(tokens@)),
            self.wf() ==> ids_below(tokens@, self.token_names@.len() as int),
            spans_valid(text, token_views(tokens@)),
    {
        match self.try_tokenize(text) {
            Some(tokens) => tokens,
            None => Vec::new(),
        }
    }
}

/// The token names of a name table.
pub open spec fn names_view(v: Seq<String>) -> Seq<Seq<char>> {
    v.map_values(|s: String| s@)
}

/// The first position of `name` in `names`.
pub open spec fn index_of_name(names: Seq<Seq<char>>, name: Seq<char>) -> Option<int>
    decreases names.len(),
{
    if names.len() == 0 {
        None
    } else {
        match index_of_name(names.drop_last(), name) {
            Some(j) => Some(j),
            None => if names.last() == name {
                Some(names.len() - 1)
            } else {
                None
            },
        }
    }
}

/// The index of `name` in the table, which gains it at the end when it is new.
pub open spec fn intern(names: Seq<Seq<char>>, name: Seq<char>) -> (Seq<Seq<char>>, usize) {
    match index_of_name(names, name) {
        Some(j) => (names, j as usize),
        None => (names.push(name), names.len() as usize),
    }
}

/// The indices of `list`, interned in order.
pub open spec fn intern_all(names: Seq<Seq<char>>, list: Seq<Seq<char>>) -> (Seq<Seq<char>>, Seq<usize>)
    decreases list.len(),
{
    if list.len() == 0 {
        (names, Seq::empty())
    } else {
        let (n1, ids) = intern_all(names, list.drop_last());
        let (n2, id) = intern(n1, list.last());
        (n2, ids.push(id))
    }
}

/// Token types as the contracts see them: the full-match or default type, and the capture
/// types when there are captures.
pub open spec fn types_view(types: CompiledTokenTypes) -> (usize, Option<Seq<usize>>) {
    match types {
        CompiledTokenTypes::FullMatch(id) => (id, None),
        CompiledTokenTypes::Captures(types) => (types.default, Some(types.captures@)),
    }
}

/// Token types with their names interned.
pub open spec fn compile_types(names: Seq<Seq<char>>, types: TokenTypes) -> (Seq<Seq<char>>, (usize, Option<Seq<usize>>)) {
    match types {
        TokenTypes::FullMatch(name) => {
            let (n, id) = intern(names, name@);
            (n, (id, None))
        },
        TokenTypes::Captures(types) => {
            let (n1, default) = intern(names, types.default@);
            let (n2, ids) = intern_all(n1, names_view(types.captures@));
            (n2, (default, Some(ids)))
        },
    }
}

/// The pattern that is given to the regex engine: anchored to the start of the text, with
/// an existing `^` at the start dropped.
pub open spec fn anchored_pattern(regex: Seq<char>) -> Seq<char> {
    seq!['^'] + if regex.len() > 0 && regex[0] == '^' {
        regex.drop_first()
    } else {
        regex
    }
}

/// A pattern written with a leading `^` and the same pattern without it are given to the
/// regex engine alike, anchored once.
pub proof fn law_leading_caret_is_optional(regex: Seq<char>)
    requires
        !(regex.len() > 0 && regex[0] == '^'),
    ensures
        anchored_pattern(seq!['^'] + regex) == anchored_pattern(regex),
        anchored_pattern(regex)[0] == '^',
{
    assert((seq!['^'] + regex).drop_first() =~= regex);
}

/// A compiled pattern as the contracts see it: its regex pattern, its flag and its types.
pub open spec fn pattern_view(p: CompiledPattern) -> (Seq<char>, bool, (usize, Option<Seq<usize>>)) {
    (p.regex.source(), p.regex.dot_matches_new_line(), types_view(p.is))
}

/// The compiled patterns, in order; a pattern whose regular expression does not build is
/// left out.
pub open spec fn compile_patterns(names: Seq<Seq<char>>, pats: Seq<Pattern>) -> (
    Seq<Seq<char>>,
    Seq<(Seq<char>, bool, (usize, Option<Seq<usize>>))>,
)
    decreases pats.len(),
{
    if pats.len() == 0 {
        (names, Seq::empty())
    } else {
        let (n1, done) = compile_patterns(names, pats.drop_last());
        let p = pats.last();
        let source = anchored_pattern(p.regex@);
        let dot = p.flags@.contains(RegexFlag::DotMatchesNewline);
        if regex_compiles(source, dot) {
            let (n2, types) = compile_types(n1, p.is);
            (n2, done.push((source, dot, types)))
        } else {
            (n1, done)
        }
    }
}

/// The compiled keywords, in order.
pub open spec fn compile_keywords(names: Seq<Seq<char>>, kws: Seq<(String, Keyword)>) -> (
    Seq<Seq<char>>,
    Seq<(Seq<char>, CompiledKeyword)>,
)
    decreases kws.len(),
{
    if kws.len() == 0 {
        (names, Seq::empty())
    } else {
        let (n1, done) = compile_keywords(names, kws.drop_last());
        let (text, keyword) = kws.last();
        let (n2, into) = intern(n1, keyword.into@);
        let (n3, only_replaces) = match keyword.only_replaces {
            Some(name) => {
                let (n, id) = intern(n2, name@);
                (n, Some(id))
            },
            None => (n2, None),
        };
        (n3, done.push((text@, CompiledKeyword { into, only_replaces })))
    }
}

/// The compiled form of a syntax: its name table, which starts with `default`, then its
/// patterns and its keywords.
pub open spec fn compiled(syntax: &Syntax) -> (
    Seq<Seq<char>>,
    Seq<(Seq<char>, bool, (usize, Option<Seq<usize>>))>,
    Seq<(Seq<char>, CompiledKeyword)>,
) {
    let (n1, pats) = compile_patterns(seq!["default"@], syntax.patterns@);
    let (n2, kws) = compile_keywords(n1, syntax.keywords@);
    (n2, pats, kws)
}

/// The index of `name` in the table, which gains it at the end when it is new.
fn get_token_id(names: &mut Vec<String>, name: &str) -> (id: usize)
    requires
        old(names)@.len() < usize::MAX,
    ensures
        (names_view(final(names)@), id) == intern(names_view(old(names)@), name@),
        id < final(names)@.len(),
        old(names)@.len() <= final(names)@.len() <= old(names)@.len() + 1,
{
    let ghost view = names_view(names@);
    let mut j: usize = 0;
    while j < names.len()
        invariant
            j <= names@.len(),
            names@ == old(names)@,
            view == names_view(names@),
            index_of_name(view.take(j as int), name@) is None,
        decreases names@.len() - j,
    {
        proof {
            assert(view.take(j + 1).drop_last() =~= view.take(j as int));
        }
        if str_equal(names[j].as_str(), name) {
            proof {
                assert(view.take(j + 1).last() == name@);
                lemma_index_of_name_prefix(view, name@, j + 1);
            }
            return j;
        }
        j = j + 1;
    }
    proof {
        assert(view.take(j as int) =~= view);
    }
    names.push(name.to_owned());
    proof {
        assert(names_view(names@) =~= view.push(name@));
    }
    j
}

/// A position found in a prefix is the position in the whole table.
proof fn lemma_index_of_name_prefix(names: Seq<Seq<char>>, name: Seq<char>, len: int)
    requires
        0 <= len <= names.len(),
        index_of_name(names.take(len), name) is Some,
    ensures
        index_of_name(names, name) == index_of_name(names.take(len), name),
    decreases names.len(),
{
    if len < names.len() {
        assert(names.drop_last().take(len) =~= names.take(len));
        lemma_index_of_name_prefix(names.drop_last(), name, len);
    } else {
        assert(names.take(len) =~= names);
    }
}

/// `grown` keeps every name of `names` at its index, and gains only names that were not
/// there.
pub open spec fn table_grew(names: Seq<Seq<char>>, grown: Seq<Seq<char>>) -> bool {
    &&& names.len() <= grown.len()
    &&& grown.take(names.len() as int) == names
    &&& (names.no_duplicates() ==> grown.no_duplicates())
}

proof fn lemma_table_grew_trans(a: Seq<Seq<char>>, b: Seq<Seq<char>>, c: Seq<Seq<char>>)
    requires
        table_grew(a, b),
        table_grew(b, c),
    ensures
        table_grew(a, c),
{
    assert(c.take(a.len() as int) =~= c.take(b.len() as int).take(a.len() as int));
}

/// Where `index_of_name` finds a name, and that it finds every name that the table holds.
proof fn lemma_index_of_name(names: Seq<Seq<char>>, name: Seq<char>)
    ensures
        match index_of_name(names, name) {
            Some(j) => 0 <= j < names.len() && names[j] == name,
            None => !names.contains(name),
        },
    decreases names.len(),
{
    if names.len() > 0 {
        let init = names.drop_last();
        lemma_index_of_name(init, name);
        if index_of_name(init, name) is None && names.last() != name {
            assert forall|i: int| 0 <= i < names.len() implies names[i] != name by {
                if i < names.len() - 1 {
                    assert(names[i] == init[i]);
                }
            }
        }
    }
}

proof fn lemma_intern_grew(names: Seq<Seq<char>>, name: Seq<char>)
    ensures
        table_grew(names, intern(names, name).0),
{
    lemma_index_of_name(names, name);
    assert(names.take(names.len() as int) =~= names);
    if index_of_name(names, name) is None {
        let grown = names.push(name);
        assert(grown.take(names.len() as int) =~= names);
        if names.no_duplicates() {
            assert forall|i: int, j: int| 0 <= i < grown.len() && 0 <= j < grown.len() && i != j implies grown[i]
                != grown[j] by {
                if i < names.len() && j < names.len() {
                    assert(grown[i] == names[i] && grown[j] == names[j]);
                } else if i < names.len() {
                    assert(grown[i] == names[i]);
                } else if j < names.len() {
                    assert(grown[j] == names[j]);
                }
            }
        }
    }
}

proof fn lemma_intern_all_grew(names: Seq<Seq<char>>, list: Seq<Seq<char>>)
    ensures
        table_grew(names, intern_all(names, list).0),
    decreases list.len(),
{
    if list.len() == 0 {
        assert(names.take(names.len() as int) =~= names);
    } else {
        lemma_intern_all_grew(names, list.drop_last());
        let n1 = intern_all(names, list.drop_last()).0;
        lemma_intern_grew(n1, list.last());
        lemma_table_grew_trans(names, n1, intern(n1, list.last()).0);
    }
}

proof fn lemma_compile_types_grew(names: Seq<Seq<char>>, types: TokenTypes)
    ensures
        table_grew(names, compile_types(names, types).0),
{
    match types {
        TokenTypes::FullMatch(name) => lemma_intern_grew(names, name@),
        TokenTypes::Captures(types) => {
            lemma_intern_grew(names, types.default@);
            let n1 = intern(names, types.default@).0;
            lemma_intern_all_grew(n1, names_view(types.captures@));
            lemma_table_grew_trans(names, n1, intern_all(n1, names_view(types.captures@)).0);
        },
    }
}

proof fn lemma_compile_patterns_grew(names: Seq<Seq<char>>, pats: Seq<Pattern>)
    ensures
        table_grew(names, compile_patterns(names, pats).0),
    decreases pats.len(),
{
    if pats.len() == 0 {
        assert(names.take(names.len() as int) =~= names);
    } else {
        lemma_compile_patterns_grew(names, pats.drop_last());
        let n1 = compile_patterns(names, pats.drop_last()).0;
        lemma_compile_types_grew(n1, pats.last().is);
        lemma_table_grew_trans(names, n1, compile_types(n1, pats.last().is).0);
    }
}

proof fn lemma_compile_keywords_grew(names: Seq<Seq<char>>, kws: Seq<(String, Keyword)>)
    ensures
        table_grew(names, compile_keywords(names, kws).0),
    decreases kws.len(),
{
    if kws.len() == 0 {
        assert(names.take(names.len() as int) =~= names);
    } else {
        lemma_compile_keywords_grew(names, kws.drop_last());
        let n1 = compile_keywords(names, kws.drop_last()).0;
        let keyword = kws.last().1;
        lemma_intern_grew(n1, keyword.into@);
        let n2 = intern(n1, keyword.into@).0;
        lemma_table_grew_trans(names, n1, n2);
        if let Some(name) = keyword.only_replaces {
            lemma_intern_grew(n2, name@);
            lemma_table_grew_trans(names, n2, intern(n2, name@).0);
        }
    }
}

/// The token table of a compiled syntax maps ids to names one to one, and the default token
/// id, 0, names the type `default`: compiling only ever adds names that the table lacks.
pub proof fn law_token_table(syntax: &Syntax)
    ensures
        compiled(syntax).0.len() > 0,
        compiled(syntax).0[0] == "default"@,
        compiled(syntax).0.no_duplicates(),
{
    let start = seq!["default"@];
    lemma_compile_patterns_grew(start, syntax.patterns@);
    let n1 = compile_patterns(start, syntax.patterns@).0;
    lemma_compile_keywords_grew(n1, syntax.keywords@);
    lemma_table_grew_trans(start, n1, compile_keywords(n1, syntax.keywords@).0);
    assert(compiled(syntax).0.take(1)[0] == compiled(syntax).0[0]);
}

/// The number of capture types of token types.
pub open spec fn capture_count(types: TokenTypes) -> int {
    match types {
        TokenTypes::FullMatch(_) => 0int,
        TokenTypes::Captures(c) => c.captures@.len() as int,
    }
}

/// The types of a pattern, with their names interned.
fn compile_token_types(names: &mut Vec<String>, types: &TokenTypes) -> (r: CompiledTokenTypes)
    requires
        old(names)@.len() + 1 + capture_count(*types) < usize::MAX,
    ensures
        (names_view(final(names)@), types_view(r)) == compile_types(names_view(old(names)@), *types),
        types_within(r, final(names)@.len() as int),
        old(names)@.len() <= final(names)@.len() <= old(names)@.len() + 1 + capture_count(*types),
{
    match types {
        TokenTypes::FullMatch(name) => CompiledTokenTypes::FullMatch(get_token_id(names, name.as_str())),
        TokenTypes::Captures(types) => {
            let default = get_token_id(names, types.default.as_str());
            let ghost start = names_view(names@);
            let ghost list = names_view(types.captures@);
            let ghost base = names@.len();
            let mut captures: Vec<usize> = Vec::new();
            let mut j: usize = 0;
            proof {
                assert(list.take(0) =~= Seq::<Seq<char>>::empty());
            }
            while j < types.captures.len()
                invariant
                    j <= types.captures@.len(),
                    list == names_view(types.captures@),
                    base <= names@.len() <= base + j,
                    base + types.captures@.len() < usize::MAX,
                    default < names@.len(),
                    (names_view(names@), captures@) == intern_all(start, list.take(j as int)),
                    forall|m: int| 0 <= m < captures@.len() ==> #[trigger] captures@[m] < names@.len(),
                decreases types.captures@.len() - j,
            {
                proof {
                    assert(list.take(j + 1).drop_last() =~= list.take(j as int));
                }
                let id = get_token_id(names, types.captures[j].as_str());
                captures.push(id);
                j = j + 1;
            }
            proof {
                assert(list.take(j as int) =~= list);
            }
            CompiledTokenTypes::Captures(CompiledCaptureTokenTypes { default, captures })
        },
    }
}

/// The pattern given to the regex engine for `regex`.
fn anchor_pattern(regex: &str) -> (r: String)
    ensures
        r@ == anchored_pattern(regex@),
{
    let chars = chars_of(regex);
    let rest = if chars.len() > 0 && chars[0] == '^' {
        slice_chars(chars.as_slice(), 1, chars.len())
    } else {
        chars
    };
    proof {
        if regex@.len() > 0 && regex@[0] == '^' {
            assert(rest@ =~= regex@.drop_first());
        }
    }
    let mut r = String::new();
    r.push('^');
    let tail = string_of(rest.as_slice());
    r.push_str(tail.as_str());
    proof {
        assert(r@ =~= anchored_pattern(regex@));
    }
    r
}

/// Whether `.` should match line breaks.
fn has_dot_flag(flags: &Vec<RegexFlag>) -> (r: bool)
    ensures
        r == flags@.contains(RegexFlag::DotMatchesNewline),
{
    let mut j: usize = 0;
    while j < flags.len()
        invariant
            j <= flags@.len(),
            forall|m: int| 0 <= m < j ==> flags@[m] != RegexFlag::DotMatchesNewline,
        decreases flags@.len() - j,
    {
        if flags[j] == RegexFlag::DotMatchesNewline {
            return true;
        }
        j = j + 1;
    }
    false
}

/// The number of token names that a syntax can bring at most.
pub open spec fn name_bound(syntax: &Syntax) -> int {
    1 + syntax.patterns@.len() + syntax.keywords@.len() * 2 + pattern_capture_count(syntax.patterns@)
}

pub open spec fn pattern_capture_count(pats: Seq<Pattern>) -> int
    decreases pats.len(),
{
    if pats.len() == 0 {
        0
    } else {
        pattern_capture_count(pats.drop_last()) + capture_count(pats.last().is)
    }
}

/// Turns a syntax definition into the form that highlighting uses: token names become
/// indices into a name table that starts with `default`, each pattern is anchored to the
/// position where it is tried, and a pattern whose regular expression does not build is left
/// out.
pub fn compile_syntax(syntax: &Syntax) -> (r: CompiledSyntax)
    requires
        name_bound(syntax) < usize::MAX,
    ensures
        r.wf(),
        names_view(r.token_names@) == compiled(syntax).0,
        r.patterns@.map_values(|p: CompiledPattern| pattern_view(p)) == compiled(syntax).1,
        r.keywords@.map_values(|k: (String, CompiledKeyword)| (k.0@, k.1)) == compiled(syntax).2,
{
    let mut token_names: Vec<String> = Vec::new();
    token_names.push("default".to_owned());
    let ghost start = names_view(token_names@);
    proof {
        assert(start =~= seq!["default"@]);
    }
    let mut patterns: Vec<CompiledPattern> = Vec::new();
    let mut j: usize = 0;
    proof {
        assert(syntax.patterns@.take(0) =~= Seq::<Pattern>::empty());
        assert(patterns@.map_values(|p: CompiledPattern| pattern_view(p)) =~= Seq::<
            (Seq<char>, bool, (usize, Option<Seq<usize>>)),
        >::empty());
    }
    while j < syntax.patterns.len()
        invariant
            j <= syntax.patterns@.len(),
            name_bound(syntax) < usize::MAX,
            start == seq!["default"@],
            token_names@.len() > 0,
            token_names@.len() <= 1 + j + pattern_capture_count(syntax.patterns@.take(j as int)),
            (names_view(token_names@), patterns@.map_values(|p: CompiledPattern| pattern_view(p)))
                == compile_patterns(start, syntax.patterns@.take(j as int)),
            forall|k: int|
                0 <= k < patterns@.len() ==> types_within(
                    #[trigger] patterns@[k].is,
                    token_names@.len() as int,
                ),
        decreases syntax.patterns@.len() - j,
    {
        let pattern = &syntax.patterns[j];
        proof {
            assert(syntax.patterns@.take(j + 1).drop_last() =~= syntax.patterns@.take(j as int));
            lemma_capture_count_prefix(syntax.patterns@, j + 1);
        }
        let source = anchor_pattern(pattern.regex.as_str());
        let dot = has_dot_flag(&pattern.flags);
        match PatternRegex::new(source, dot) {
            Some(regex) => {
                let is = compile_token_types(&mut token_names, &pattern.is);
                let ghost before = patterns@;
                patterns.push(CompiledPattern { regex, is });
                proof {
                    assert(patterns@.map_values(|p: CompiledPattern| pattern_view(p)) =~= before.map_values(
                        |p: CompiledPattern| pattern_view(p),
                    ).push(pattern_view(patterns@.last())));
                }
            },
            None => {},
        }
        j = j + 1;
    }
    proof {
        assert(syntax.patterns@.take(j as int) =~= syntax.patterns@);
    }
    let ghost after_patterns = names_view(token_names@);
    let mut keywords: Vec<(String, CompiledKeyword)> = Vec::new();
    let mut j: usize = 0;
    proof {
        assert(syntax.keywords@.take(0) =~= Seq::<(String, Keyword)>::empty());
        assert(keywords@.map_values(|k: (String, CompiledKeyword)| (k.0@, k.1)) =~= Seq::<
            (Seq<char>, CompiledKeyword),
        >::empty());
    }
    while j < syntax.keywords.len()
        invariant
            j <= syntax.keywords@.len(),
            name_bound(syntax) < usize::MAX,
            token_names@.len() <= 1 + syntax.patterns@.len() + pattern_capture_count(syntax.patterns@)
                + 2 * j,
            (names_view(token_names@), keywords@.map_values(|k: (String, CompiledKeyword)| (k.0@, k.1)))
                == compile_keywords(after_patterns, syntax.keywords@.take(j as int)),
            forall|k: int|
                0 <= k < patterns@.len() ==> types_within(
                    #[trigger] patterns@[k].is,
                    token_names@.len() as int,
                ),
            forall|k: int| 0 <= k < keywords@.len() ==> (#[trigger] keywords@[k]).1.into < token_names@.len(),
            token_names@.len() > 0,
        decreases syntax.keywords@.len() - j,
    {
        proof {
            assert(syntax.keywords@.take(j + 1).drop_last() =~= syntax.keywords@.take(j as int));
        }
        let entry = &syntax.keywords[j];
        let into = get_token_id(&mut token_names, entry.1.into.as_str());
        let only_replaces = match &entry.1.only_replaces {
            Some(name) => Some(get_token_id(&mut token_names, name.as_str())),
            None => None,
        };
        let ghost before = keywords@;
        keywords.push((entry.0.clone(), CompiledKeyword { into, only_replaces }));
        proof {
            assert(keywords@.map_values(|k: (String, CompiledKeyword)| (k.0@, k.1)) =~= before.map_values(
                |k: (String, CompiledKeyword)| (k.0@, k.1),
            ).push((entry.0@, CompiledKeyword { into, only_replaces })));
        }
        j = j + 1;
    }
    proof {
        assert(syntax.keywords@.take(j as int) =~= syntax.keywords@);
    }
    CompiledSyntax { token_names, patterns, keywords }
}

proof fn lemma_capture_count_prefix(pats: Seq<Pattern>, j: int)
    requires
        0 < j <= pats.len(),
    ensures
        pattern_capture_count(pats.take(j)) == pattern_capture_count(pats.take(j - 1)) + capture_count(
            pats[j - 1].is,
        ),
        pattern_capture_count(pats.take(j)) <= pattern_capture_count(pats),
    decreases pats.len(),
{
    assert(pats.take(j).drop_last() =~= pats.take(j - 1));
    if j < pats.len() {
        assert(pats.drop_last().take(j) =~= pats.take(j));
        lemma_capture_count_prefix(pats.drop_last(), j);
    } else {
        assert(pats.take(j) =~= pats);
    }
}

proof fn lemma_step_from_view(
    syntax: &CompiledSyntax,
    t1: &str,
    t2: &str,
    toks: Seq<(usize, int, int)>,
    i: int,
    k: int,
)
    requires
        t1@ == t2@,
    ensures
        step_from(syntax, t1, toks, i, k) == step_from(syntax, t2, toks, i, k),
    decreases syntax.patterns@.len() - k,
{
    if 0 <= k < syntax.patterns@.len() {
        lemma_step_from_view(syntax, t1, t2, toks, i, k + 1);
    }
}

proof fn lemma_run_view(syntax: &CompiledSyntax, t1: &str, t2: &str, toks: Seq<(usize, int, int)>, i: int)
    requires
        t1@ == t2@,
    ensures
        run(syntax, t1, toks, i) == run(syntax, t2, toks, i),
    decreases t1.spec_bytes().len() - i,
{
    if 0 <= i < t1.spec_bytes().len() {
        lemma_step_from_view(syntax, t1, t2, toks, i, 0);
        let (t, next) = step_from(syntax, t1, toks, i, 0);
        if i < next <= t1.spec_bytes().len() {
            lemma_run_view(syntax, t1, t2, t, next);
        }
    }
}

/// Tokenizing depends on the text's characters alone.
pub proof fn lemma_tokenization_view(syntax: &CompiledSyntax, t1: &str, t2: &str)
    requires
        t1@ == t2@,
    ensures
        syntax.tokenization(t1) == syntax.tokenization(t2),
{
    lemma_run_view(syntax, t1, t2, Seq::empty(), 0);
    if let Some(toks) = run(syntax, t1, Seq::empty(), 0) {
        assert(spans_valid(t1, toks) == spans_valid(t2, toks));
        assert(toks.map_values(|t: (usize, int, int)| apply_keyword(syntax.keywords@, t1, t)) =~= toks.map_values(
            |t: (usize, int, int)| apply_keyword(syntax.keywords@, t2, t),
        ));
    }
}

/// The HTML of highlighted code depends on the code's characters alone.
pub proof fn lemma_highlight_html_view(names: Seq<String>, t1: &str, t2: &str, toks: Seq<(usize, int, int)>)
    requires
        t1@ == t2@,
    ensures
        highlight_html(names, t1, toks) == highlight_html(names, t2, toks),
    decreases toks.len(),
{
    if toks.len() > 0 {
        lemma_highlight_html_view(names, t1, t2, toks.drop_last());
    }
}

/// The HTML of one highlighted token: a span whose class is the token's type.
pub open spec fn span_html(name: Seq<char>, text: Seq<char>) -> Seq<char> {
    "<span class=\""@ + flat_map_chars(name, |c: char| cmark_entity(c)) + "\">"@ + flat_map_chars(
        text,
        |c: char| cmark_entity(c),
    ) + "</span>"@
}

/// The HTML of highlighted tokens of `code`.
pub open spec fn highlight_html(names: Seq<String>, code: &str, toks: Seq<(usize, int, int)>) -> Seq<char>
    decreases toks.len(),
{
    if toks.len() == 0 {
        Seq::empty()
    } else {
        highlight_html(names, code, toks.drop_last()) + span_html(
            names[toks.last().0 as int]@,
            text_of(code, toks.last().1, toks.last().2),
        )
    }
}

/// Appends the HTML of `code`, highlighted with `syntax`, to `out`. The code must be one that
/// tokenizes.
pub fn highlight(out: &mut String, syntax: &CompiledSyntax, code: &str)
    requires
        syntax.wf(),
        code.spec_bytes().len() <= usize::MAX,
        syntax.tokenization(code) is Some,
    ensures
        final(out)@ == old(out)@ + highlight_html(
            syntax.token_names@,
            code,
            syntax.tokenization(code)->Some_0,
        ),
{
    let tokens = syntax.tokenize(code);
    let ghost toks = token_views(tokens@);
    let mut j: usize = 0;
    proof {
        assert(toks.take(0) =~= Seq::<(usize, int, int)>::empty());
    }
    while j < tokens.len()
        invariant
            syntax.wf(),
            j <= tokens@.len(),
            toks == token_views(tokens@),
            spans_valid(code, toks),
            ids_below(tokens@, syntax.token_names@.len() as int),
            out@ == old(out)@ + highlight_html(syntax.token_names@, code, toks.take(j as int)),
        decreases tokens@.len() - j,
    {
        proof {
            assert(toks.take(j + 1).drop_last() =~= toks.take(j as int));
            assert(valid_range(code, toks[j as int].1, toks[j as int].2));
        }
        let token = &tokens[j];
        out.push_str("<span class=\"");
        escape_html(out, syntax.token_names[token.id].as_str());
        out.push_str("\">");
        escape_html(out, slice(code, token.range.start, token.range.end));
        out.push_str("</span>");
        j = j + 1;
    }
    proof {
        assert(toks.take(j as int) =~= toks);
    }
}

/// Appends the HTML of `code`, highlighted with `syntax`, to `out` when the code tokenizes,
/// and says whether it did; `out` is left as it was otherwise.
pub fn try_highlight(out: &mut String, syntax: &CompiledSyntax, code: &str) -> (done: bool)
    requires
        syntax.wf(),
        code.spec_bytes().len() <= usize::MAX,
    ensures
        done == syntax.tokenization(code) is Some,
        done ==> final(out)@ == old(out)@ + highlight_html(
            syntax.token_names@,
            code,
            syntax.tokenization(code)->Some_0,
        ),
        !done ==> final(out)@ == old(out)@,
{
    match syntax.try_tokenize(code) {
        Some(_) => {
            highlight(out, syntax, code);
            true
        },
        None => false,
    }
}

} // verus!
