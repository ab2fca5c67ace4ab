//! The pull parser for the `.tree` format: it reads one branch header and its content at a
//! time. It works on the bytes of the input, because every character that the format gives a
//! meaning to is ASCII; positions are byte offsets, as the ranges it reports.
use std::ops::Range;
use vstd::prelude::*;
use vstd::string::*;

use crate::error::{error_at, ParseError, ParseErrorKind};
use crate::text::anchored;

verus! {

pub const SPACE: u8 = 0x20;
pub const LF: u8 = 0x0a;
pub const CR: u8 = 0x0d;
pub const PERCENT: u8 = 0x25;
pub const DASH: u8 = 0x2d;
pub const PLUS: u8 = 0x2b;
pub const BACKTICK: u8 = 0x60;

/// Whether a branch is shown expanded or folded.
#[derive(Debug, Clone, Copy, PartialEq, Eq, Structural)]
pub enum BranchKind {
    /// Expanded by default.
    Expanded,
    /// Folded by default.
    Collapsed,
}

impl BranchKind {
    /// The character that introduces a branch of this kind.
    pub open spec fn spec_char(self) -> char {
        match self {
            BranchKind::Expanded => '-',
            BranchKind::Collapsed => '+',
        }
    }

    /// The character that introduces a branch of this kind.
    pub fn char(&self) -> (c: char)
        ensures
            c == self.spec_char(),
    {
        match self {
            BranchKind::Expanded => '-',
            BranchKind::Collapsed => '+',
        }
    }
}

/// One branch header, as the pull parser reports it.
#[derive(Debug, Clone, PartialEq, Eq)]
pub struct BranchEvent {
    pub indent_level: usize,
    pub kind: BranchKind,
    pub kind_span: Range<usize>,
    pub content: Range<usize>,
    pub attributes: Option<Attributes>,
}

/// The `%` attribute block of a branch.
#[derive(Debug, Clone, PartialEq, Eq)]
pub struct Attributes {
    pub percent: Range<usize>,
    pub data: Range<usize>,
}

/// A cursor over the input text.
#[derive(Debug, Clone, PartialEq, Eq)]
pub struct Parser<'a> {
    pub input: &'a str,
    pub position: usize,
}

/// Which characters end a run of indented lines when they start a line.
#[derive(Debug, Clone, Copy, PartialEq, Eq, Structural)]
pub enum StopAt {
    /// `-`, `+` or `%`.
    BranchOrAttributes,
    /// `-` or `+`.
    Branch,
}

/// Whether three backticks open a code block inside indented lines.
#[derive(Debug, Clone, Copy, PartialEq, Eq, Structural)]
pub enum AllowCodeBlocks {
    No,
    Yes,
}

pub open spec fn stops_at(stop: StopAt, c: u8) -> bool {
    match stop {
        StopAt::Branch => c == DASH || c == PLUS,
        _ => c == DASH || c == PLUS || c == PERCENT,
    }
}

pub open spec fn range(start: int, end: int) -> Range<usize> {
    Range { start: start as usize, end: end as usize }
}

/// The position after the run of bytes `c` that starts at `p`.
pub open spec fn run_end(b: Seq<u8>, p: int, c: u8) -> int
    decreases b.len() - p,
{
    if 0 <= p < b.len() && b[p] == c {
        run_end(b, p + 1, c)
    } else {
        p
    }
}

/// The position after the spaces that start at `p`.
pub open spec fn spaces_end(b: Seq<u8>, p: int) -> int {
    run_end(b, p, SPACE)
}

/// The position after the line break that ends the line containing `p` (or the end of the
/// input). A lone `\r` does not end a line.
pub open spec fn line_end(b: Seq<u8>, p: int) -> int
    decreases b.len() - p,
{
    if p < 0 || p >= b.len() {
        p
    } else if b[p] == LF {
        p + 1
    } else if b[p] == CR && p + 1 < b.len() && b[p + 1] == LF {
        p + 2
    } else {
        line_end(b, p + 1)
    }
}

/// Three backticks start at `p`.
pub open spec fn fence_at(b: Seq<u8>, p: int) -> bool {
    &&& 0 <= p
    &&& p + 3 <= b.len()
    &&& b[p] == BACKTICK
    &&& b[p + 1] == BACKTICK
    &&& b[p + 2] == BACKTICK
}

pub proof fn lemma_run_end(b: Seq<u8>, p: int, c: u8)
    requires
        0 <= p <= b.len(),
    ensures
        p <= run_end(b, p, c) <= b.len(),
        forall|i: int| p <= i < run_end(b, p, c) ==> b[i] == c,
        run_end(b, p, c) < b.len() ==> b[run_end(b, p, c)] != c,
        run_end(b, p, c) == p || b[run_end(b, p, c) - 1] == c,
    decreases b.len() - p,
{
    if p < b.len() && b[p] == c {
        lemma_run_end(b, p + 1, c);
    }
}

pub proof fn lemma_spaces_end(b: Seq<u8>, p: int)
    requires
        0 <= p <= b.len(),
    ensures
        p <= spaces_end(b, p) <= b.len(),
        forall|i: int| p <= i < spaces_end(b, p) ==> b[i] == SPACE,
        spaces_end(b, p) < b.len() ==> b[spaces_end(b, p)] != SPACE,
        spaces_end(b, p) == p || b[spaces_end(b, p) - 1] == SPACE,
{
    lemma_run_end(b, p, SPACE);
}

pub proof fn lemma_line_end(b: Seq<u8>, p: int)
    requires
        0 <= p <= b.len(),
    ensures
        p <= line_end(b, p) <= b.len(),
        p < b.len() ==> p < line_end(b, p),
        line_end(b, p) == b.len() || (line_end(b, p) > p && b[line_end(b, p) - 1] == LF),
    decreases b.len() - p,
{
    if p < b.len() && b[p] != LF && !(b[p] == CR && p + 1 < b.len() && b[p + 1] == LF) {
        lemma_line_end(b, p + 1);
    }
}

/// Where the indented lines that start at `p` end, as `Parser::eat_indented_lines_until`
/// finds it: the position of the first line that starts with a stop character (or the end of
/// the input), skipping over code blocks when they are allowed. `fence` is the start of the
/// code block that `p` is inside of, if any.
pub open spec fn spec_eat_indented(
    b: Seq<u8>,
    p: int,
    indent: int,
    stop: StopAt,
    allow: AllowCodeBlocks,
    fence: Option<int>,
) -> Result<int, ParseError>
    decreases b.len() - p,
{
    if p < 0 || p > b.len() {
        Ok(p)
    } else {
        proof {
            lemma_spaces_end(b, p);
        }
        let q = spaces_end(b, p);
        match fence {
            Some(start) => {
                if fence_at(b, q) {
                    proof {
                        lemma_line_end(b, q + 3);
                    }
                    spec_eat_indented(b, line_end(b, q + 3), indent, stop, allow, None)
                } else {
                    proof {
                        lemma_line_end(b, q);
                    }
                    let r = line_end(b, q);
                    if r >= b.len() {
                        Err(error_at(ParseErrorKind::UnterminatedCodeBlock, start, start + 3))
                    } else {
                        spec_eat_indented(b, r, indent, stop, allow, Some(start))
                    }
                }
            },
            None => {
                if allow == AllowCodeBlocks::Yes && fence_at(b, q) {
                    spec_eat_indented(b, q + 3, indent, stop, allow, Some(q))
                } else {
                    proof {
                        lemma_line_end(b, q);
                        lemma_spaces_end(b, line_end(b, q));
                    }
                    let r = line_end(b, q);
                    let s = spaces_end(b, r);
                    if s >= b.len() || stops_at(stop, b[s]) {
                        Ok(r)
                    } else if b[s] != LF && b[s] != CR && s - r < indent {
                        Err(
                            error_at(
                                ParseErrorKind::InconsistentIndentation {
                                    got: (s - r) as usize,
                                    expected: indent as usize,
                                },
                                r,
                                s,
                            ),
                        )
                    } else {
                        spec_eat_indented(b, s, indent, stop, allow, None)
                    }
                }
            },
        }
    }
}

/// An indentation error is only ever reported at a line with text on it: its range covers the
/// spaces that start the line, fewer than the indentation asked for, and the byte after them
/// is in the input and is not a line break. A blank line inside a branch's content is never
/// an indentation error.
pub proof fn law_indentation_errors_are_on_text_lines(
    b: Seq<u8>,
    p: int,
    indent: int,
    stop: StopAt,
    allow: AllowCodeBlocks,
    fence: Option<int>,
)
    requires
        b.len() < usize::MAX,
        0 <= indent < usize::MAX,
    ensures
        spec_eat_indented(b, p, indent, stop, allow, fence) matches Err(e) ==> (
        e.kind matches ParseErrorKind::InconsistentIndentation { got, expected } ==> {
            let r = e.range.start as int;
            let s = e.range.end as int;
            &&& 0 <= r <= s < b.len()
            &&& b[s] != LF && b[s] != CR
            &&& forall|k: int| r <= k < s ==> b[k] == SPACE
            &&& got == s - r
            &&& got < expected
            &&& expected == indent
        }),
    decreases b.len() - p,
{
    if 0 <= p <= b.len() {
        lemma_spaces_end(b, p);
        let q = spaces_end(b, p);
        match fence {
            Some(start) => {
                if fence_at(b, q) {
                    lemma_line_end(b, q + 3);
                    law_indentation_errors_are_on_text_lines(b, line_end(b, q + 3), indent, stop, allow, None);
                } else {
                    lemma_line_end(b, q);
                    let r = line_end(b, q);
                    if r < b.len() {
                        law_indentation_errors_are_on_text_lines(b, r, indent, stop, allow, Some(start));
                    }
                }
            },
            None => {
                if allow == AllowCodeBlocks::Yes && fence_at(b, q) {
                    law_indentation_errors_are_on_text_lines(b, q + 3, indent, stop, allow, Some(q));
                } else {
                    lemma_line_end(b, q);
                    let r = line_end(b, q);
                    lemma_spaces_end(b, r);
                    let s = spaces_end(b, r);
                    if !(s >= b.len() || stops_at(stop, b[s])) && !(b[s] != LF && b[s] != CR && s - r < indent) {
                        law_indentation_errors_are_on_text_lines(b, s, indent, stop, allow, None);
                    }
                }
            },
        }
    }
}

/// The result of `Parser::next_branch` at position `p`: the branch event and the position
/// after it, `None` at the end of the input, or an error.
pub open spec fn spec_next_branch(b: Seq<u8>, p: int) -> Result<Option<(BranchEvent, int)>, ParseError> {
    if p < 0 || p >= b.len() {
        Ok(None)
    } else {
        let q = spaces_end(b, p);
        let indent = q - p;
        let attributes: Result<(Option<Attributes>, int), ParseError> = if q < b.len() && b[q]
            == PERCENT {
            match spec_eat_indented(b, q + 1, indent, StopAt::Branch, AllowCodeBlocks::No, None) {
                Err(e) => Err(e),
                Ok(r) => Ok(
                    (
                        Some(
                            Attributes {
                                percent: range(q, q + 1),
                                data: range(q + 1, spaces_end(b, r)),
                            },
                        ),
                        spaces_end(b, r),
                    ),
                ),
            }
        } else {
            Ok((None, q))
        };
        match attributes {
            Err(e) => Err(e),
            Ok((attributes, k)) => {
                if 0 <= k < b.len() && (b[k] == DASH || b[k] == PLUS) {
                    let kind = if b[k] == DASH {
                        BranchKind::Expanded
                    } else {
                        BranchKind::Collapsed
                    };
                    match spec_eat_indented(
                        b,
                        k + 1,
                        indent,
                        StopAt::BranchOrAttributes,
                        AllowCodeBlocks::Yes,
                        None,
                    ) {
                        Err(e) => Err(e),
                        Ok(c) => Ok(
                            Some(
                                (
                                    BranchEvent {
                                        indent_level: indent as usize,
                                        kind,
                                        kind_span: range(k, k + 1),
                                        content: range(k + 1, c),
                                        attributes,
                                    },
                                    c,
                                ),
                            ),
                        ),
                    }
                } else {
                    Err(error_at(ParseErrorKind::BranchKindExpected, k, k + 1))
                }
            },
        }
    }
}

/// What `Parser::top_level_attributes` finds at `p`: a `%%` block and the position after it.
pub open spec fn spec_top_level_attributes(b: Seq<u8>, p: int) -> Result<(Option<Attributes>, int), ParseError> {
    if 0 <= p && p + 1 < b.len() && b[p] == PERCENT && b[p + 1] == PERCENT {
        match spec_eat_indented(b, p + 2, 0, StopAt::BranchOrAttributes, AllowCodeBlocks::No, None) {
            Err(e) => Err(e),
            Ok(r) => Ok((Some(Attributes { percent: range(p, p + 2), data: range(p + 2, r) }), r)),
        }
    } else {
        Ok((None, p))
    }
}

/// Where a run of indented lines ends: at the end of the input or just after a line feed.
pub proof fn lemma_eat_indented(
    b: Seq<u8>,
    p: int,
    indent: int,
    stop: StopAt,
    allow: AllowCodeBlocks,
    fence: Option<int>,
)
    requires
        0 <= p <= b.len(),
    ensures
        spec_eat_indented(b, p, indent, stop, allow, fence) matches Ok(r) ==> {
            &&& p <= r <= b.len()
            &&& (r == b.len() || (r > 0 && b[r - 1] == LF))
        },
    decreases b.len() - p,
{
    lemma_spaces_end(b, p);
    let q = spaces_end(b, p);
    match fence {
        Some(start) => {
            if fence_at(b, q) {
                lemma_line_end(b, q + 3);
                lemma_eat_indented(b, line_end(b, q + 3), indent, stop, allow, None);
            } else {
                lemma_line_end(b, q);
                if line_end(b, q) < b.len() {
                    lemma_eat_indented(b, line_end(b, q), indent, stop, allow, Some(start));
                }
            }
        },
        None => {
            if allow == AllowCodeBlocks::Yes && fence_at(b, q) {
                lemma_eat_indented(b, q + 3, indent, stop, allow, Some(q));
            } else {
                lemma_line_end(b, q);
                let r = line_end(b, q);
                lemma_spaces_end(b, r);
                let s = spaces_end(b, r);
                if s >= b.len() || stops_at(stop, b[s]) {
                } else if b[s] != LF && b[s] != CR && s - r < indent {
                } else {
                    lemma_eat_indented(b, s, indent, stop, allow, None);
                }
            }
        },
    }
}

/// The shape of a branch event: where its parts lie in the input and that they lie in order.
pub open spec fn event_shape(b: Seq<u8>, p: int, event: BranchEvent, end: int) -> bool {
    let k = event.kind_span.start as int;
    &&& p <= k
    &&& k < b.len()
    &&& event.kind_span.end == k + 1
    &&& b[k] == (if event.kind == BranchKind::Expanded { DASH } else { PLUS })
    &&& event.indent_level == spaces_end(b, p) - p
    &&& event.content.start == k + 1
    &&& event.content.start <= event.content.end
    &&& event.content.end == end
    &&& end <= b.len()
    &&& anchored(b, k)
    &&& anchored(b, k + 1)
    &&& anchored(b, end)
    &&& match event.attributes {
        Some(a) => {
            &&& a.percent.start == spaces_end(b, p)
            &&& b[a.percent.start as int] == PERCENT
            &&& a.percent.end == a.percent.start + 1
            &&& a.data.start == a.percent.end
            &&& a.data.start <= a.data.end
            &&& a.data.end == k
            &&& anchored(b, a.percent.start as int)
            &&& anchored(b, a.data.start as int)
        },
        None => k == spaces_end(b, p),
    }
}

/// What `spec_next_branch` reports lies within the input, after `p`, in order.
pub proof fn lemma_next_branch(b: Seq<u8>, p: int)
    requires
        0 <= p <= b.len(),
        b.len() < usize::MAX,
    ensures
        spec_next_branch(b, p) matches Ok(Some((event, end))) ==> p < end && event_shape(
            b,
            p,
            event,
            end,
        ),
        spec_next_branch(b, p) matches Ok(None) ==> p == b.len(),
{
    if p < b.len() {
        lemma_spaces_end(b, p);
        let q = spaces_end(b, p);
        let indent = q - p;
        if q < b.len() && b[q] == PERCENT {
            lemma_eat_indented(b, q + 1, indent, StopAt::Branch, AllowCodeBlocks::No, None);
            if let Ok(r) = spec_eat_indented(b, q + 1, indent, StopAt::Branch, AllowCodeBlocks::No, None) {
                lemma_spaces_end(b, r);
                let k = spaces_end(b, r);
                if 0 <= k < b.len() && (b[k] == DASH || b[k] == PLUS) {
                    lemma_eat_indented(b, k + 1, indent, StopAt::BranchOrAttributes, AllowCodeBlocks::Yes, None);
                }
            }
        } else {
            let k = q;
            if 0 <= k < b.len() && (b[k] == DASH || b[k] == PLUS) {
                lemma_eat_indented(b, k + 1, indent, StopAt::BranchOrAttributes, AllowCodeBlocks::Yes, None);
            }
        }
    }
}

fn stops(stop: StopAt, c: u8) -> (r: bool)
    ensures
        r == stops_at(stop, c),
{
    match stop {
        StopAt::Branch => c == DASH || c == PLUS,
        StopAt::BranchOrAttributes => c == DASH || c == PLUS || c == PERCENT,
    }
}

impl<'a> Parser<'a> {
    /// The bytes of the input.
    pub open spec fn bytes(&self) -> Seq<u8> {
        self.input.spec_bytes()
    }

    /// The cursor is within the input.
    pub open spec fn wf(&self) -> bool {
        &&& self.position <= self.bytes().len()
        &&& self.bytes().len() < usize::MAX
    }

    /// The byte under the cursor.
    fn current(&self) -> (c: Option<u8>)
        ensures
            c == (if self.position < self.bytes().len() {
                Some(self.bytes()[self.position as int])
            } else {
                None::<u8>
            }),
    {
        let b = self.input.as_bytes();
        if self.position < b.len() {
            Some(b[self.position])
        } else {
            None
        }
    }

    /// The input continues with `prefix` at the cursor.
    fn current_starts_with(&self, prefix: &[u8]) -> (r: bool)
        requires
            self.wf(),
        ensures
            r == (self.position + prefix@.len() <= self.bytes().len() && self.bytes().subrange(
                self.position as int,
                self.position + prefix@.len(),
            ) == prefix@),
    {
        let b = self.input.as_bytes();
        if prefix.len() > b.len() - self.position {
            return false;
        }
        let mut i: usize = 0;
        while i < prefix.len()
            invariant
                i <= prefix@.len(),
                self.position + prefix@.len() <= b.len(),
                self.position + prefix@.len() <= b@.len(),
                b@ == self.bytes(),
                forall|j: int| 0 <= j < i ==> b@[self.position + j] == prefix@[j],
            decreases prefix@.len() - i,
        {
            if b[self.position + i] != prefix[i] {
                assert(self.bytes().subrange(self.position as int, self.position + prefix@.len())[i as int]
                    != prefix@[i as int]);
                return false;
            }
            i = i + 1;
        }
        assert(self.bytes().subrange(self.position as int, self.position + prefix@.len()) =~= prefix@);
        true
    }

    /// The byte under the cursor is `c`.
    fn current_is(&self, c: u8) -> (r: bool)
        ensures
            r == (self.position < self.bytes().len() && self.bytes()[self.position as int] == c),
    {
        let b = self.input.as_bytes();
        self.position < b.len() && b[self.position] == c
    }

    /// The cursor is at three backticks.
    fn current_starts_with_fence(&self) -> (r: bool)
        requires
            self.wf(),
        ensures
            r == fence_at(self.bytes(), self.position as int),
    {
        let fence = [BACKTICK, BACKTICK, BACKTICK];
        let r = self.current_starts_with(fence.as_slice());
        proof {
            if r {
                let sub = self.bytes().subrange(self.position as int, self.position + 3);
                assert(sub[0] == fence@[0] && sub[1] == fence@[1] && sub[2] == fence@[2]);
            } else if fence_at(self.bytes(), self.position as int) {
                assert(self.bytes().subrange(self.position as int, self.position + 3) =~= fence@);
            }
        }
        r
    }

    /// Moves the cursor one byte forward, unless it is at the end.
    fn advance(&mut self)
        requires
            old(self).wf(),
        ensures
            final(self).input == old(self).input,
            final(self).position == (if old(self).position < old(self).bytes().len() {
                old(self).position + 1
            } else {
                old(self).position as int
            }),
    {
        if self.position < self.input.as_bytes().len() {
            self.position = self.position + 1;
        }
    }

    /// Skips the run of bytes `c` at the cursor and returns its length.
    fn eat_as_long_as(&mut self, c: u8) -> (count: usize)
        requires
            old(self).wf(),
        ensures
            final(self).input == old(self).input,
            final(self).wf(),
            final(self).position == run_end(old(self).bytes(), old(self).position as int, c),
            count == final(self).position - old(self).position,
    {
        let mut count: usize = 0;
        let ghost p0 = self.position as int;
        let n = self.input.as_bytes().len();
        proof {
            lemma_run_end(self.bytes(), p0, c);
        }
        while self.position < n && self.input.as_bytes()[self.position] == c
            invariant
                self.input == old(self).input,
                self.wf(),
                0 <= p0 <= self.position,
                run_end(self.bytes(), self.position as int, c) == run_end(self.bytes(), p0, c),
                count == self.position - p0,
                n == self.bytes().len(),
            decreases self.bytes().len() - self.position,
        {
            count = count + 1;
            self.advance();
        }
        count
    }

    /// Skips the run of bytes `c` at the cursor.
    fn eat_while(&mut self, c: u8)
        requires
            old(self).wf(),
        ensures
            final(self).input == old(self).input,
            final(self).wf(),
            final(self).position == run_end(old(self).bytes(), old(self).position as int, c),
    {
        let _ = self.eat_as_long_as(c);
    }

    /// Moves the cursor past the end of the current line.
    fn eat_until_line_break(&mut self)
        requires
            old(self).wf(),
        ensures
            final(self).input == old(self).input,
            final(self).position == line_end(old(self).bytes(), old(self).position as int),
    {
        let ghost p0 = self.position as int;
        loop
            invariant_except_break
                line_end(self.bytes(), self.position as int) == line_end(self.bytes(), p0),
            invariant
                self.input == old(self).input,
                self.wf(),
            ensures
                self.input == old(self).input,
                self.position == line_end(self.bytes(), p0),
            decreases self.bytes().len() - self.position,
        {
            match self.current() {
                Some(c) => {
                    if c == CR {
                        self.advance();
                        if self.current() == Some(LF) {
                            self.advance();
                            break;
                        }
                    } else if c == LF {
                        self.advance();
                        break;
                    } else {
                        self.advance();
                    }
                },
                None => break,
            }
        }
    }

    /// The indentation of the line at the cursor; the cursor stays where it is.
    pub fn peek_indent_level(&mut self) -> (indent_level: usize)
        requires
            old(self).wf(),
        ensures
            *final(self) == *old(self),
            indent_level == spaces_end(old(self).bytes(), old(self).position as int) - old(self).position,
    {
        let position = self.position;
        let indent_level = self.eat_as_long_as(SPACE);
        self.position = position;
        indent_level
    }

    /// Moves the cursor past the lines indented by at least `indent_level` spaces that follow
    /// it, up to the first line that starts with a stop character.
    fn eat_indented_lines_until(
        &mut self,
        indent_level: usize,
        stop: StopAt,
        allow_code_blocks: AllowCodeBlocks,
    ) -> (result: Result<(), ParseError>)
        requires
            old(self).wf(),
        ensures
            final(self).input == old(self).input,
            final(self).wf(),
            match spec_eat_indented(
                old(self).bytes(),
                old(self).position as int,
                indent_level as int,
                stop,
                allow_code_blocks,
                None,
            ) {
                Ok(end) => result is Ok && final(self).position == end,
                Err(e) => result == Err::<(), ParseError>(e),
            },
    {
        let ghost b = self.bytes();
        let ghost goal = spec_eat_indented(b, self.position as int, indent_level as int, stop, allow_code_blocks, None);
        let mut code_block: Option<usize> = None;
        let n = self.input.as_bytes().len();
        loop
            invariant_except_break
                spec_eat_indented(
                    b,
                    self.position as int,
                    indent_level as int,
                    stop,
                    allow_code_blocks,
                    match code_block {
                        Some(start) => Some(start as int),
                        None => None,
                    },
                ) == goal,
            invariant
                self.input == old(self).input,
                b == self.bytes(),
                n == b.len(),
                self.wf(),
                code_block matches Some(start) ==> start + 3 <= b.len(),
                goal == spec_eat_indented(
                    old(self).bytes(),
                    old(self).position as int,
                    indent_level as int,
                    stop,
                    allow_code_blocks,
                    None,
                ),
            ensures
                self.input == old(self).input,
                self.wf(),
                goal == Ok::<int, ParseError>(self.position as int),
            decreases b.len() - self.position,
        {
            let ghost p = self.position as int;
            proof {
                lemma_spaces_end(b, p);
            }
            if let Some(start) = code_block {
                self.eat_while(SPACE);
                if self.current_starts_with_fence() {
                    code_block = None;
                    self.position = self.position + 3;
                    self.eat_until_line_break();
                    proof {
                        lemma_line_end(b, spaces_end(b, p) + 3);
                    }
                    continue;
                }
                self.eat_until_line_break();
                proof {
                    lemma_line_end(b, spaces_end(b, p));
                }
                if self.current().is_none() {
                    return Err(ParseErrorKind::UnterminatedCodeBlock.at(Range { start: start, end: start + 3 }));
                }
            } else {
                self.eat_while(SPACE);
                if allow_code_blocks == AllowCodeBlocks::Yes && self.current_starts_with_fence() {
                    code_block = Some(self.position);
                    self.position = self.position + 3;
                    continue;
                }
                self.eat_until_line_break();
                proof {
                    lemma_line_end(b, spaces_end(b, p));
                    lemma_spaces_end(b, self.position as int);
                }
                let before_indentation = self.position;
                let line_indent_level = self.eat_as_long_as(SPACE);
                let after_indentation = self.position;
                match self.current() {
                    None => {
                        self.position = before_indentation;
                        break;
                    },
                    Some(c) => {
                        if stops(stop, c) {
                            self.position = before_indentation;
                            break;
                        } else if c != LF && c != CR && line_indent_level < indent_level {
                            return Err(
                                ParseErrorKind::InconsistentIndentation {
                                    got: line_indent_level,
                                    expected: indent_level,
                                }.at(Range { start: before_indentation, end: after_indentation }),
                            );
                        }
                    },
                }
            }
        }
        Ok(())
    }

    /// Reads a `%%` block of attributes for the whole file, if the cursor is at one.
    pub fn top_level_attributes(&mut self) -> (result: Result<Option<Attributes>, ParseError>)
        requires
            old(self).wf(),
        ensures
            final(self).input == old(self).input,
            final(self).wf(),
            match spec_top_level_attributes(old(self).bytes(), old(self).position as int) {
                Ok((attributes, end)) => result == Ok::<Option<Attributes>, ParseError>(attributes)
                    && final(self).position == end,
                Err(e) => result == Err::<Option<Attributes>, ParseError>(e),
            },
    {
        let start = self.position;
        match self.current() {
            Some(c) => {
                if c == PERCENT {
                    let after_one_percent = self.position;
                    self.advance();
                    if self.current() == Some(PERCENT) {
                        self.advance();
                        let after_two_percent = self.position;
                        self.eat_indented_lines_until(0, StopAt::BranchOrAttributes, AllowCodeBlocks::No)?;
                        let end = self.position;
                        Ok(Some(Attributes {
                            percent: Range { start: start, end: after_two_percent },
                            data: Range { start: after_two_percent, end: end },
                        }))
                    } else {
                        self.position = after_one_percent;
                        Ok(None)
                    }
                } else {
                    Ok(None)
                }
            },
            None => Ok(None),
        }
    }
}

impl<'a> Parser<'a> {
    /// Reads the next branch: its indentation, its optional `%` attributes, its kind and its
    /// content, which runs up to the next line that starts (after indentation) with `-`, `+` or
    /// `%`. Returns `None` at the end of the input.
    pub fn next_branch(&mut self) -> (result: Result<Option<BranchEvent>, ParseError>)
        requires
            old(self).wf(),
        ensures
            final(self).input == old(self).input,
            final(self).wf(),
            match spec_next_branch(old(self).bytes(), old(self).position as int) {
                Ok(None) => result == Ok::<Option<BranchEvent>, ParseError>(None)
                    && final(self).position == old(self).position,
                Ok(Some((event, end))) => result == Ok::<Option<BranchEvent>, ParseError>(Some(event))
                    && final(self).position == end,
                Err(e) => result == Err::<Option<BranchEvent>, ParseError>(e),
            },
    {
        let ghost b = self.bytes();
        let ghost p = self.position as int;
        let n = self.input.as_bytes().len();
        if self.position >= n {
            return Ok(None);
        }
        let indent_level = self.eat_as_long_as(SPACE);
        proof {
            lemma_spaces_end(b, p);
        }
        let attributes = if self.current_is(PERCENT) {
            let start = self.position;
            self.advance();
            let after_percent = self.position;
            self.eat_indented_lines_until(indent_level, StopAt::Branch, AllowCodeBlocks::No)?;
            self.eat_as_long_as(SPACE);
            let end = self.position;
            Some(Attributes {
                percent: Range { start: start, end: after_percent },
                data: Range { start: after_percent, end: end },
            })
        } else {
            None
        };

        let kind_start = self.position;
        let kind = if self.current_is(DASH) {
            BranchKind::Expanded
        } else if self.current_is(PLUS) {
            BranchKind::Collapsed
        } else {
            return Err(ParseErrorKind::BranchKindExpected.at(Range { start: kind_start, end: kind_start + 1 }));
        };
        self.advance();
        let kind_end = self.position;

        let content_start = self.position;
        self.eat_indented_lines_until(indent_level, StopAt::BranchOrAttributes, AllowCodeBlocks::Yes)?;
        let content_end = self.position;

        Ok(Some(BranchEvent {
            indent_level,
            attributes,
            kind,
            kind_span: Range { start: kind_start, end: kind_end },
            content: Range { start: content_start, end: content_end },
        }))
    }
}

} // verus!
