//! Fixing trees: every branch without an id gets a generated one, written into the source
//! so that it persists.
use std::ops::Range;
use vstd::prelude::*;
use vstd::string::*;
use vstd::utf8::*;
use toml_edit::Document;
use ulid::Generator;

use crate::ast::{
    forest_ok, lemma_forest_ok_index, lemma_parse_roots_ok, lemma_views_of, spec_parse_roots, tree_ok, views_of,
    Branch, BranchView, Roots,
};
use crate::fix_order::law_fixes_of_parsed_file_apply;
use crate::mini_template::trim_end;
use crate::sema::{
    diagnostic_view, diagnostics_view, is_ulid_text, parse_tree_with_diagnostics, same_context, toml_diagnostic,
    toml_error_to_diagnostic, ErrorsEmitted, TomlError, TomlParseError, Treehouse,
};
use crate::text::{anchored, chars_of, lemma_anchored_boundary, lemma_str_valid, slice, text_of, valid_range};
use crate::wc::is_whitespace;

verus! {

/// The number of spaces at the start of `s`.
pub open spec fn leading_spaces(s: Seq<char>) -> nat
    decreases s.len(),
{
    if s.len() > 0 && s[0] == ' ' {
        1 + leading_spaces(s.drop_first())
    } else {
        0
    }
}

/// `n` spaces.
pub open spec fn spaces(n: nat) -> Seq<char> {
    Seq::new(n, |i: int| ' ')
}

/// The position of the first line feed of `s`.
pub open spec fn first_lf(s: Seq<char>) -> Option<int>
    decreases s.len(),
{
    if s.len() == 0 {
        None
    } else if s[0] == '\n' {
        Some(0)
    } else {
        match first_lf(s.drop_first()) {
            Some(i) => Some(i + 1),
            None => None,
        }
    }
}

/// A line without the carriage return that ends it, if one does.
pub open spec fn strip_cr(line: Seq<char>) -> Seq<char> {
    if line.len() > 0 && line.last() == '\r' {
        line.drop_last()
    } else {
        line
    }
}

/// Line `i` of a generated TOML text, indented: the first by at least one space, the others
/// by at least `min_indent_level + 2`; an empty line stays empty.
pub open spec fn indent_line(line: Seq<char>, i: int, min_indent_level: nat) -> Seq<char> {
    if line.len() == 0 {
        seq!['\n']
    } else {
        let desired: nat = if i == 0 {
            1
        } else {
            min_indent_level + 2
        };
        let leading = leading_spaces(line);
        let needed: nat = if desired > leading {
            (desired - leading) as nat
        } else {
            0
        };
        spaces(needed) + line + seq!['\n']
    }
}

/// The lines of `rest`, the first of which is line `i`, each indented.
pub open spec fn indent_from(rest: Seq<char>, i: int, min_indent_level: nat) -> Seq<char>
    decreases rest.len(),
{
    if rest.len() == 0 {
        Seq::empty()
    } else {
        match first_lf(rest) {
            Some(j) => if 0 <= j < rest.len() {
                indent_line(strip_cr(rest.take(j)), i, min_indent_level) + indent_from(
                    rest.skip(j + 1),
                    i + 1,
                    min_indent_level,
                )
            } else {
                Seq::empty()
            },
            None => indent_line(rest, i, min_indent_level),
        }
    }
}

/// A generated TOML text, without trailing white space, with its lines indented to sit
/// under a branch indented by `min_indent_level`, and followed by that branch's indentation.
pub open spec fn fixed_indent(toml: Seq<char>, min_indent_level: nat) -> Seq<char> {
    indent_from(trim_end(toml), 0, min_indent_level) + spaces(min_indent_level)
}

proof fn lemma_first_lf(s: Seq<char>)
    ensures
        first_lf(s) matches Some(i) ==> 0 <= i < s.len() && s[i] == '\n' && forall|k: int|
            0 <= k < i ==> s[k] != '\n',
        first_lf(s) is None ==> forall|k: int| 0 <= k < s.len() ==> s[k] != '\n',
    decreases s.len(),
{
    if s.len() > 0 && s[0] != '\n' {
        lemma_first_lf(s.drop_first());
        assert forall|k: int| 1 <= k < s.len() implies s[k] == s.drop_first()[k - 1] by {}
    }
}

proof fn lemma_leading_spaces(s: Seq<char>, n: int)
    requires
        0 <= n <= s.len(),
        forall|k: int| 0 <= k < n ==> s[k] == ' ',
        n == s.len() || s[n] != ' ',
    ensures
        leading_spaces(s) == n,
    decreases n,
{
    if n > 0 {
        lemma_leading_spaces(s.drop_first(), n - 1);
    }
}

/// The number of spaces at the start of `s`.
fn count_leading_spaces(s: &[char]) -> (n: usize)
    ensures
        n == leading_spaces(s@),
        n <= s@.len(),
{
    let mut n: usize = 0;
    while n < s.len() && s[n] == ' '
        invariant
            n <= s@.len(),
            forall|k: int| 0 <= k < n ==> s@[k] == ' ',
        decreases s@.len() - n,
    {
        n = n + 1;
    }
    proof {
        lemma_leading_spaces(s@, n as int);
    }
    n
}

/// Appends `n` spaces to `out`.
fn push_spaces(out: &mut String, n: usize)
    ensures
        final(out)@ == old(out)@ + spaces(n as nat),
{
    let mut i: usize = 0;
    while i < n
        invariant
            i <= n,
            out@ == old(out)@ + spaces(i as nat),
        decreases n - i,
    {
        out.push(' ');
        proof {
            assert(old(out)@ + spaces((i + 1) as nat) =~= (old(out)@ + spaces(i as nat)).push(' '));
        }
        i = i + 1;
    }
}

/// `s` without white space at its end.
fn trim_end_chars(s: &[char]) -> (r: Vec<char>)
    ensures
        r@ == trim_end(s@),
{
    let mut end: usize = s.len();
    proof {
        assert(s@.subrange(0, s@.len() as int) =~= s@);
    }
    while end > 0 && is_whitespace(s[end - 1])
        invariant
            end <= s@.len(),
            trim_end(s@.subrange(0, end as int)) == trim_end(s@),
        decreases end,
    {
        proof {
            assert(s@.subrange(0, end as int).drop_last() =~= s@.subrange(0, end - 1));
        }
        end = end - 1;
    }
    let mut r: Vec<char> = Vec::new();
    let mut i: usize = 0;
    while i < end
        invariant
            i <= end,
            end <= s@.len(),
            r@ == s@.subrange(0, i as int),
        decreases end - i,
    {
        r.push(s[i]);
        proof {
            assert(s@.subrange(0, i + 1) =~= s@.subrange(0, i as int).push(s@[i as int]));
        }
        i = i + 1;
    }
    r
}

/// Appends line `i`, indented, to `out`.
fn push_indented_line(out: &mut String, line: &[char], i: usize, min_indent_level: usize)
    requires
        min_indent_level + 2 <= usize::MAX,
    ensures
        final(out)@ == old(out)@ + indent_line(line@, i as int, min_indent_level as nat),
{
    if line.len() == 0 {
        out.push('\n');
        proof {
            assert(out@ =~= old(out)@ + indent_line(line@, i as int, min_indent_level as nat));
        }
        return ;
    }
    let desired = if i == 0 {
        1
    } else {
        min_indent_level + 2
    };
    let leading = count_leading_spaces(line);
    let needed = if desired > leading {
        desired - leading
    } else {
        0
    };
    push_spaces(out, needed);
    let mut k: usize = 0;
    let ghost before = out@;
    while k < line.len()
        invariant
            k <= line@.len(),
            out@ == before + line@.subrange(0, k as int),
        decreases line@.len() - k,
    {
        out.push(line[k]);
        proof {
            assert(line@.subrange(0, k + 1) =~= line@.subrange(0, k as int).push(line@[k as int]));
        }
        k = k + 1;
    }
    out.push('\n');
    proof {
        assert(line@.subrange(0, line@.len() as int) =~= line@);
        assert(out@ =~= old(out)@ + indent_line(line@, i as int, min_indent_level as nat));
    }
}

/// Re-indents a TOML text that was generated for the attributes of a branch indented by
/// `min_indent_level` spaces: trailing white space goes, the first line is indented by at
/// least one space and the others by at least two more than the branch, and the branch's own
/// indentation follows, ready for the branch kind.
pub fn fix_indent_in_generated_toml(toml: &str, min_indent_level: usize) -> (r: String)
    requires
        min_indent_level + 2 <= usize::MAX,
    ensures
        r@ == fixed_indent(toml@, min_indent_level as nat),
{
    let all = chars_of(toml);
    let text = trim_end_chars(all.as_slice());
    let ghost t = text@;
    let mut result = String::new();
    let mut p: usize = 0;
    let mut i: usize = 0;
    proof {
        assert(t.skip(0) =~= t);
    }
    while p < text.len()
        invariant
            p <= t.len(),
            t == text@,
            min_indent_level + 2 <= usize::MAX,
            i <= p,
            result@ + indent_from(t.skip(p as int), i as int, min_indent_level as nat) == indent_from(
                t,
                0,
                min_indent_level as nat,
            ),
        decreases t.len() - p,
    {
        let ghost rest = t.skip(p as int);
        proof {
            lemma_first_lf(rest);
        }
        let mut j = p;
        while j < text.len() && text[j] != '\n'
            invariant
                p <= j <= t.len(),
                t == text@,
                rest == t.skip(p as int),
                forall|k: int| p <= k < j ==> t[k] != '\n',
            decreases t.len() - j,
        {
            j = j + 1;
        }
        let mut line_end = j;
        if line_end > p && text[line_end - 1] == '\r' && j < text.len() {
            line_end = line_end - 1;
        }
        let mut line: Vec<char> = Vec::new();
        let mut k = p;
        while k < line_end
            invariant
                p <= k <= line_end,
                line_end <= t.len(),
                t == text@,
                line@ == t.subrange(p as int, k as int),
            decreases line_end - k,
        {
            line.push(text[k]);
            proof {
                assert(t.subrange(p as int, k + 1) =~= t.subrange(p as int, k as int).push(t[k as int]));
            }
            k = k + 1;
        }
        let ghost before = result@;
        push_indented_line(&mut result, line.as_slice(), i, min_indent_level);
        proof {
            if j < t.len() {
                assert(rest[j - p] == t[j as int]);
                assert(forall|k: int| 0 <= k < j - p ==> rest[k] == t[p + k]);
                assert(first_lf(rest) == Some(j - p));
                assert(rest.take(j - p) =~= t.subrange(p as int, j as int));
                assert(strip_cr(rest.take(j - p)) =~= line@);
                assert(rest.skip(j - p + 1) =~= t.skip(j + 1));
            } else {
                assert(first_lf(rest) is None);
                assert(rest =~= line@);
                assert(t.skip(j as int) =~= Seq::<char>::empty());
            }
        }
        p = if j < text.len() {
            j + 1
        } else {
            j
        };
        i = i + 1;
    }
    proof {
        assert(t.skip(p as int) =~= Seq::<char>::empty());
        assert(result@ + Seq::<char>::empty() =~= result@);
    }
    push_spaces(&mut result, min_indent_level);
    result
}

/// The leading spaces of a generated TOML text brought to exactly one.
pub open spec fn one_leading_space(s: Seq<char>) -> Seq<char> {
    let n = leading_spaces(s);
    if n == 0 {
        seq![' '] + s
    } else if n == 1 {
        s
    } else {
        s.skip(n - 1)
    }
}

/// Brings the leading spaces of a generated TOML text to exactly one.
pub fn adjust_leading_spaces(s: &str) -> (r: String)
    ensures
        r@ == one_leading_space(s@),
{
    let chars = chars_of(s);
    let n = count_leading_spaces(chars.as_slice());
    let start = if n == 0 {
        0
    } else {
        n - 1
    };
    let mut r = String::new();
    if n == 0 {
        r.push(' ');
    }
    let mut k = start;
    let ghost before = r@;
    while k < chars.len()
        invariant
            start <= k <= chars@.len(),
            chars@ == s@,
            r@ == before + chars@.subrange(start as int, k as int),
        decreases chars@.len() - k,
    {
        r.push(chars[k]);
        proof {
            assert(chars@.subrange(start as int, k + 1) =~= chars@.subrange(start as int, k as int).push(
                chars@[k as int],
            ));
        }
        k = k + 1;
    }
    proof {
        assert(chars@.subrange(start as int, chars@.len() as int) =~= s@.skip(start as int));
        assert(s@.skip(0) =~= s@);
        assert(r@ =~= one_leading_space(s@));
    }
    r
}

// ---------------------------------------------------------------------------------------------
// Collecting the fixes

#[verifier::external_type_specification]
#[verifier::external_body]
pub struct ExDocument(Document);

/// Whether `Document::from_str` accepts `text` as a TOML document.
pub uninterp spec fn toml_parses(text: Seq<char>) -> bool;

/// `Document::from_str`: the editable TOML document of `text`, or the parser's message and
/// the range of the text that it is about. Whether it parses is a function of the text.
#[verifier::external_body]
fn parse_toml_document(text: &str) -> (r: Result<Document, TomlParseError>)
    ensures
        r is Ok == toml_parses(text@),
{
    match text.parse::<Document>() {
        Ok(document) => Ok(document),
        Err(error) => Err(TomlParseError { message: error.message().to_owned(), span: error.span() }),
    }
}

/// Whether the root table of the TOML document of `text` has `key`.
pub uninterp spec fn toml_has_key(text: Seq<char>, key: Seq<char>) -> bool;

/// The text that `Document`'s `Display` writes of the TOML document of `text`.
pub uninterp spec fn toml_reprinted(text: Seq<char>) -> Seq<char>;

/// The text that `Document`'s `Display` writes of the TOML document of `text` once `key` of its
/// root table is set to the string `value` and `prefix` is put before that key.
pub uninterp spec fn toml_with_string_key(text: Seq<char>, key: Seq<char>, value: Seq<char>, prefix: Seq<char>) -> Seq<
    char,
>;

/// `Document::from_str`, then `Table::contains_key` on the root table: whether the TOML
/// document of `text` has `key`, a function of the two.
#[verifier::external_body]
fn toml_contains_key(text: &str, key: &str) -> (r: bool)
    requires
        toml_parses(text@),
    ensures
        r == toml_has_key(text@, key@),
{
    match text.parse::<Document>() {
        Ok(document) => document.contains_key(key),
        Err(_) => false,
    }
}

/// `Document::from_str`, then `Document`'s `Display`: the TOML document of `text` written out
/// again, a function of the text. Whether that gives `text` back is not stated: toml_edit keeps
/// comments, spaces and the order of items, but its documentation lists what it does not keep.
#[verifier::external_body]
fn toml_reprint(text: &str) -> (s: String)
    requires
        toml_parses(text@),
    ensures
        s@ == toml_reprinted(text@),
{
    match text.parse::<Document>() {
        Ok(document) => document.to_string(),
        Err(_) => String::new(),
    }
}

/// `Document::from_str`; `toml_edit::value` stored at `key` of the root table; the key's
/// `Decor::set_prefix` through `Table::key_decor_mut`; then `Display`: the TOML document of
/// `text` with `key` set to the string `value` and `prefix` before the key, written out, a
/// function of the four.
#[verifier::external_body]
fn toml_reprint_with_string_key(text: &str, key: &str, value: &str, prefix: &str) -> (s: String)
    requires
        toml_parses(text@),
    ensures
        s@ == toml_with_string_key(text@, key@, value@, prefix@),
{
    match text.parse::<Document>() {
        Ok(mut document) => {
            document[key] = toml_edit::value(value);
            match document.key_decor_mut(key) {
                Some(decor) => decor.set_prefix(prefix),
                None => {},
            }
            document.to_string()
        },
        Err(_) => String::new(),
    }
}

/// `Generator::generate` on a new generator, and `Ulid::to_string`: the text of a ULID made
/// from the current time and randomness, written as 26 digits of Crockford's base 32. A
/// generator that has made no ULID yet cannot overflow, so there always is one. Which ULID it
/// is depends on the clock and on chance, and is not stated.
#[verifier::external_body]
fn fresh_ulid() -> (r: Option<String>)
    ensures
        r is Some,
        r matches Some(s) ==> is_ulid_text(s@),
{
    match Generator::new().generate() {
        Ok(ulid) => Some(ulid.to_string()),
        Err(_) => None,
    }
}

/// The text to put in place of a range of a source file.
#[derive(Debug, Clone)]
pub struct Fix {
    pub range: Range<usize>,
    pub replacement: String,
}

/// The fixes found so far.
#[derive(Debug, Clone)]
pub struct State {
    pub fixes: Vec<Fix>,
}

/// Whether a branch gets a fix: a branch without attributes does, and one whose attribute
/// text parses as TOML.
pub open spec fn gets_fix(b: Seq<u8>, v: BranchView) -> bool {
    match v.attributes {
        None => true,
        Some(a) => toml_parses(decode_utf8(b.subrange(a.data.start as int, a.data.end as int))),
    }
}

/// The branches of `v`, itself first, that get a fix, in the order of the source.
pub open spec fn fixed_branches(b: Seq<u8>, v: BranchView) -> Seq<BranchView>
    decreases v, 1nat,
{
    (if gets_fix(b, v) {
        seq![v]
    } else {
        Seq::empty()
    }) + fixed_forest(b, v.children)
}

pub open spec fn fixed_forest(b: Seq<u8>, s: Seq<BranchView>) -> Seq<BranchView>
    decreases s, 0nat,
{
    if s.len() == 0 {
        Seq::empty()
    } else {
        fixed_forest(b, s.drop_last()) + fixed_branches(b, s.last())
    }
}

/// The TOML text that the fix of a branch with attribute text `text` starts from: the
/// document written out again when it has an id, else with the id `ulid` added, its key
/// indented by the branch's indentation `n` and two more spaces.
pub open spec fn toml_with_id(text: Seq<char>, ulid: Seq<char>, n: nat) -> Seq<char> {
    if toml_has_key(text, "id"@) {
        toml_reprinted(text)
    } else {
        toml_with_string_key(text, "id"@, ulid, spaces(n + 2))
    }
}

/// Whether `fix` is the fix of branch `v` of the bytes `b`, with a generated ULID. For a
/// branch without attributes it puts an id attribute before the branch's kind, followed by a
/// line break and the branch's indentation; for a branch with attributes it replaces their
/// text by the text of their TOML document (with the id added when it had none), its leading
/// spaces brought to one and re-indented.
pub open spec fn is_fix_of(b: Seq<u8>, v: BranchView, fix: Fix) -> bool {
    let r = fix.replacement@;
    let n = v.indent_level as nat;
    exists|ulid: Seq<char>|
        #![trigger is_ulid_text(ulid)]
        is_ulid_text(ulid) && match v.attributes {
            None => {
                &&& fix.range.start == v.kind_span.start
                &&& fix.range.end == v.kind_span.start
                &&& r == "% id = \""@ + ulid + "\"\n"@ + spaces(n)
            },
            Some(a) => {
                &&& fix.range == a.data
                &&& r == fixed_indent(
                    one_leading_space(
                        toml_with_id(decode_utf8(b.subrange(a.data.start as int, a.data.end as int)), ulid, n),
                    ),
                    n,
                )
            },
        }
}

/// Fixes `fixes` are those of branches `vs` of the bytes `b`, in order.
pub open spec fn fixes_of(b: Seq<u8>, vs: Seq<BranchView>, fixes: Seq<Fix>) -> bool {
    &&& vs.len() == fixes.len()
    &&& forall|k: int| 0 <= k < vs.len() ==> is_fix_of(b, vs[k], #[trigger] fixes[k])
}

/// The bytes of file `file_id`.
pub open spec fn file_bytes(t: &Treehouse, file_id: int) -> Seq<u8> {
    encode_utf8(t.files_view()[file_id].1)
}

/// `start..end` lies in `b`, with character boundaries at both ends.
pub open spec fn boundary_range(b: Seq<u8>, start: int, end: int) -> bool {
    &&& 0 <= start <= end <= b.len()
    &&& is_char_boundary(b, start)
    &&& is_char_boundary(b, end)
}

/// The TOML document of `range` of file `file_id`; a TOML error is reported as a diagnostic.
fn parse_toml_with_diagnostics(treehouse: &mut Treehouse, file_id: usize, range: Range<usize>) -> (r: Result<
    Document,
    ErrorsEmitted,
>)
    requires
        file_id < old(treehouse).files_view().len(),
        boundary_range(file_bytes(old(treehouse), file_id as int), range.start as int, range.end as int),
    ensures
        same_context(final(treehouse), old(treehouse)),
        r is Ok == toml_parses(
            decode_utf8(file_bytes(old(treehouse), file_id as int).subrange(range.start as int, range.end as int)),
        ),
        r is Ok ==> final(treehouse).diagnostics == old(treehouse).diagnostics,
        diagnostics_view(old(treehouse).diagnostics@).is_prefix_of(diagnostics_view(final(treehouse).diagnostics@)),
{
    let parsed = {
        let source = treehouse.source(file_id);
        let input = slice(source, range.start, range.end);
        parse_toml_document(input)
    };
    match parsed {
        Ok(document) => Ok(document),
        Err(error) => {
            let fits = match &error.span {
                Some(span) => span.start <= usize::MAX - range.start && span.end <= usize::MAX - range.start,
                None => true,
            };
            let ghost before = treehouse.diagnostics@;
            if fits {
                let d = toml_error_to_diagnostic(
                    TomlError { message: error.message, span: error.span, file_id, input_range: range },
                );
                treehouse.diagnostics.push(d);
                proof {
                    assert(diagnostics_view(before).is_prefix_of(diagnostics_view(treehouse.diagnostics@))) by {
                        assert(diagnostics_view(treehouse.diagnostics@) =~= diagnostics_view(before).push(
                            diagnostic_view(d),
                        ));
                    }
                }
            }
            Err(ErrorsEmitted)
        },
    }
}


/// Fixes together are those of branches together.
proof fn lemma_fixes_of_concat(bytes: Seq<u8>, a: Seq<BranchView>, x: Seq<Fix>, b: Seq<BranchView>, y: Seq<Fix>)
    requires
        fixes_of(bytes, a, x),
        fixes_of(bytes, b, y),
    ensures
        fixes_of(bytes, a + b, x + y),
{
    assert forall|k: int| 0 <= k < (a + b).len() implies is_fix_of(bytes, (a + b)[k], #[trigger] (x + y)[k]) by {
        if k < a.len() {
            assert((a + b)[k] == a[k]);
            assert((x + y)[k] == x[k]);
        } else {
            assert((a + b)[k] == b[k - a.len()]);
            assert((x + y)[k] == y[k - x.len()]);
        }
    }
}

/// A string of `n` spaces.
fn spaces_string(n: usize) -> (s: String)
    ensures
        s@ == spaces(n as nat),
{
    let mut s = String::new();
    push_spaces(&mut s, n);
    proof {
        assert(Seq::<char>::empty() + spaces(n as nat) =~= spaces(n as nat));
    }
    s
}

/// Collects the fixes of `branch` and of the branches under it, in the order of the source:
/// a generated id for each branch that has none. Attributes whose text is not TOML are
/// reported as diagnostics and left as they are.
fn dfs_fix_branch(treehouse: &mut Treehouse, file_id: usize, state: &mut State, branch: &Branch)
    requires
        file_id < old(treehouse).files_view().len(),
        file_bytes(old(treehouse), file_id as int).len() < usize::MAX,
        tree_ok(file_bytes(old(treehouse), file_id as int), branch.view_tree()),
    ensures
        same_context(final(treehouse), old(treehouse)),
        diagnostics_view(old(treehouse).diagnostics@).is_prefix_of(diagnostics_view(final(treehouse).diagnostics@)),
        final(state).fixes@.len() >= old(state).fixes@.len(),
        final(state).fixes@.take(old(state).fixes@.len() as int) == old(state).fixes@,
        fixes_of(
            file_bytes(old(treehouse), file_id as int),
            fixed_branches(file_bytes(old(treehouse), file_id as int), branch.view_tree()),
            final(state).fixes@.skip(old(state).fixes@.len() as int),
        ),
    decreases branch.view_tree(), 1nat,
{
    let ghost b = file_bytes(treehouse, file_id as int);
    let ghost v = branch.view_tree();
    let ghost base = state.fixes@.len();
    let ghost start = *treehouse;
    proof {
        encode_utf8_valid_utf8(treehouse.files_view()[file_id as int].1);
        lemma_views_of(branch.children@);
        assert(diagnostics_view(treehouse.diagnostics@).is_prefix_of(diagnostics_view(treehouse.diagnostics@)));
    }
    let ulid = match fresh_ulid() {
        Some(u) => u,
        None => String::new(),
    };
    let n = branch.indent_level;
    let ghost own: Seq<BranchView> = if gets_fix(b, v) {
        seq![v]
    } else {
        Seq::empty()
    };
    match &branch.attributes {
        Some(attributes) => {
            proof {
                lemma_anchored_boundary(b, attributes.data.start as int);
                lemma_anchored_boundary(b, attributes.data.end as int);
            }
            let range = Range { start: attributes.data.start, end: attributes.data.end };
            match parse_toml_with_diagnostics(treehouse, file_id, range) {
                Ok(_) => {
                    let source = treehouse.source(file_id);
                    let text = slice(source, attributes.data.start, attributes.data.end);
                    let toml_string = if toml_contains_key(text, "id") {
                        toml_reprint(text)
                    } else {
                        let prefix = spaces_string(n + 2);
                        toml_reprint_with_string_key(text, "id", ulid.as_str(), prefix.as_str())
                    };
                    let adjusted = adjust_leading_spaces(toml_string.as_str());
                    let replacement = fix_indent_in_generated_toml(adjusted.as_str(), n);
                    let fix = Fix { range: Range { start: attributes.data.start, end: attributes.data.end }, replacement };
                    proof {
                        reveal_strlit("id");
                        let t = decode_utf8(b.subrange(attributes.data.start as int, attributes.data.end as int));
                        assert(text@ == t);
                        assert(toml_string@ == toml_with_id(t, ulid@, n as nat));
                        assert(fix.replacement@ == fixed_indent(one_leading_space(toml_string@), n as nat));
                        assert(is_fix_of(b, v, fix));
                    }
                    state.fixes.push(fix);
                },
                Err(_) => {},
            }
        },
        None => {
            let mut replacement = "% id = \"".to_owned();
            replacement.push_str(ulid.as_str());
            replacement.push_str("\"\n");
            push_spaces(&mut replacement, n);
            let fix = Fix { range: Range { start: branch.kind_span.start, end: branch.kind_span.start }, replacement };
            proof {
                reveal_strlit("% id = \"");
                reveal_strlit("\"\n");
                let r = fix.replacement@;
                assert(r =~= "% id = \""@ + ulid@ + "\"\n"@ + spaces(n as nat));
                assert(is_fix_of(b, v, fix));
            }
            state.fixes.push(fix);
        },
    }
    proof {
        assert(fixes_of(b, own, state.fixes@.skip(base as int))) by {
            if gets_fix(b, v) {
                assert(state.fixes@.skip(base as int) =~= seq![state.fixes@[base as int]]);
            } else {
                assert(state.fixes@.skip(base as int) =~= Seq::<Fix>::empty());
            }
        }
        assert(state.fixes@.take(base as int) =~= old(state).fixes@);
        assert(fixed_forest(b, v.children.take(0)) =~= Seq::<BranchView>::empty()) by {
            assert(v.children.take(0) =~= Seq::<BranchView>::empty());
        }
        assert(own + fixed_forest(b, v.children.take(0)) =~= own);
    }
    let ghost ci: int = if v.children.len() > 0 {
        v.children[0].indent_level as int
    } else {
        0
    };
    let mut i: usize = 0;
    while i < branch.children.len()
        invariant
            i <= branch.children@.len(),
            v == branch.view_tree(),
            v.children == views_of(branch.children@),
            v.children.len() == branch.children@.len(),
            forall|j: int| 0 <= j < v.children.len() ==> #[trigger] v.children[j] == branch.children@[j].view_tree(),
            tree_ok(b, v),
            ci == (if v.children.len() > 0 {
                v.children[0].indent_level as int
            } else {
                0
            }),
            b == file_bytes(treehouse, file_id as int),
            b.len() < usize::MAX,
            file_id < treehouse.files_view().len(),
            same_context(treehouse, &start),
            start == *old(treehouse),
            diagnostics_view(start.diagnostics@).is_prefix_of(diagnostics_view(treehouse.diagnostics@)),
            state.fixes@.len() >= base,
            base == old(state).fixes@.len(),
            state.fixes@.take(base as int) == old(state).fixes@,
            own == (if gets_fix(b, v) {
                seq![v]
            } else {
                Seq::<BranchView>::empty()
            }),
            fixes_of(b, own + fixed_forest(b, v.children.take(i as int)), state.fixes@.skip(base as int)),
        decreases branch.children@.len() - i,
    {
        let ghost before_fixes = state.fixes@;
        let ghost before = *treehouse;
        proof {
            lemma_forest_ok_index(b, v.children, ci, i as int);
            assert(decreases_to!(v => v.children));
            assert(decreases_to!(v.children => v.children[i as int]));
        }
        dfs_fix_branch(treehouse, file_id, state, &branch.children[i]);
        proof {
            let child = v.children[i as int];
            let appended = state.fixes@.skip(before_fixes.len() as int);
            assert(state.fixes@.skip(base as int) =~= before_fixes.skip(base as int) + appended) by {
                assert(state.fixes@.take(before_fixes.len() as int) == before_fixes);
            }
            lemma_fixes_of_concat(
                b,
                own + fixed_forest(b, v.children.take(i as int)),
                before_fixes.skip(base as int),
                fixed_branches(b, child),
                appended,
            );
            assert(v.children.take(i + 1).drop_last() =~= v.children.take(i as int));
            assert(v.children.take(i + 1).last() == child);
            assert(own + fixed_forest(b, v.children.take(i + 1)) =~= own + fixed_forest(b, v.children.take(i as int))
                + fixed_branches(b, child));
            assert(state.fixes@.take(base as int) =~= before_fixes.take(base as int)) by {
                assert(state.fixes@.take(before_fixes.len() as int) == before_fixes);
            }
            assert(diagnostics_view(start.diagnostics@).is_prefix_of(diagnostics_view(treehouse.diagnostics@))) by {
                let x = diagnostics_view(start.diagnostics@);
                let y = diagnostics_view(before.diagnostics@);
                let z = diagnostics_view(treehouse.diagnostics@);
                assert(x.len() <= z.len());
                assert forall|k: int| 0 <= k < x.len() implies x[k] == z[k] by {
                    assert(x[k] == y[k]);
                    assert(y[k] == z[k]);
                }
            }
        }
        i = i + 1;
    }
    proof {
        assert(v.children.take(i as int) =~= v.children);
    }
}

// ---------------------------------------------------------------------------------------------
// Applying the fixes

/// A fix as the contracts see it: the range that it replaces, and the bytes it puts there.
pub open spec fn fix_view(f: Fix) -> (int, int, Seq<u8>) {
    (f.range.start as int, f.range.end as int, encode_utf8(f.replacement@))
}

pub open spec fn fix_views(fixes: Seq<Fix>) -> Seq<(int, int, Seq<u8>)> {
    fixes.map_values(|f: Fix| fix_view(f))
}

/// The bytes `b` with the fixes applied from the last to the first, so that the ranges of
/// earlier fixes still hold; none when a fix's range does not lie between character
/// boundaries of the text that it applies to.
pub open spec fn apply_fixes(b: Seq<u8>, fixes: Seq<(int, int, Seq<u8>)>) -> Option<Seq<u8>>
    decreases fixes.len(),
{
    if fixes.len() == 0 {
        Some(b)
    } else {
        let (start, end, replacement) = fixes.last();
        if boundary_range(b, start, end) {
            apply_fixes(b.subrange(0, start) + replacement + b.subrange(end, b.len() as int), fixes.drop_last())
        } else {
            None
        }
    }
}

/// `String::from_utf8`: the string of `bytes`, when they are valid UTF-8.
#[verifier::external_body]
fn string_from_utf8(bytes: Vec<u8>) -> (r: Option<String>)
    ensures
        match r {
            Some(s) => encode_utf8(s@) == bytes@,
            None => !valid_utf8(bytes@),
        },
{
    String::from_utf8(bytes).ok()
}

/// Whether `i` is a character boundary of the valid UTF-8 bytes `b`.
fn byte_is_char_boundary(b: &Vec<u8>, i: usize) -> (r: bool)
    requires
        valid_utf8(b@),
    ensures
        r == is_char_boundary(b@, i as int),
{
    proof {
        is_char_boundary_start_end_of_seq(b@);
    }
    if i == 0 || i == b.len() {
        true
    } else if i > b.len() {
        false
    } else {
        proof {
            is_char_boundary_iff_not_is_continuation_byte(b@, i as int);
        }
        !(0x80 <= b[i] && b[i] <= 0xbf)
    }
}

/// Appends the bytes `start..end` of `from` to `to`.
fn push_bytes(to: &mut Vec<u8>, from: &[u8], start: usize, end: usize)
    requires
        start <= end <= from@.len(),
    ensures
        final(to)@ == old(to)@ + from@.subrange(start as int, end as int),
{
    let mut k = start;
    while k < end
        invariant
            start <= k <= end,
            end <= from@.len(),
            to@ == old(to)@ + from@.subrange(start as int, k as int),
        decreases end - k,
    {
        to.push(from[k]);
        proof {
            assert(from@.subrange(start as int, k + 1) =~= from@.subrange(start as int, k as int).push(from@[k as int]));
        }
        k = k + 1;
    }
}

/// `source` with `fixes` applied from the last to the first; none when a fix's range does not
/// lie between character boundaries.
fn apply_fixes_to(source: &str, fixes: &Vec<Fix>) -> (r: Option<String>)
    ensures
        match apply_fixes(source.spec_bytes(), fix_views(fixes@)) {
            Some(out) => r matches Some(s) && encode_utf8(s@) == out,
            None => r is None,
        },
{
    let ghost views = fix_views(fixes@);
    let mut bytes: Vec<u8> = Vec::new();
    push_bytes(&mut bytes, source.as_bytes(), 0, source.as_bytes().len());
    proof {
        lemma_str_valid(source);
        assert(bytes@ =~= source.spec_bytes());
        assert(views.take(fixes@.len() as int) =~= views);
    }
    let mut k = fixes.len();
    while k > 0
        invariant
            k <= fixes@.len(),
            views == fix_views(fixes@),
            views.len() == fixes@.len(),
            valid_utf8(bytes@),
            apply_fixes(bytes@, views.take(k as int)) == apply_fixes(source.spec_bytes(), views),
        decreases k,
    {
        let fix = &fixes[k - 1];
        let start = fix.range.start;
        let end = fix.range.end;
        proof {
            assert(views.take(k as int).drop_last() =~= views.take(k - 1));
            assert(views.take(k as int).last() == fix_view(*fix));
        }
        if !(start <= end && byte_is_char_boundary(&bytes, start) && byte_is_char_boundary(&bytes, end)) {
            return None;
        }
        let mut next: Vec<u8> = Vec::new();
        push_bytes(&mut next, bytes.as_slice(), 0, start);
        let replacement = fix.replacement.as_str().as_bytes();
        push_bytes(&mut next, replacement, 0, replacement.len());
        push_bytes(&mut next, bytes.as_slice(), end, bytes.len());
        proof {
            let r = encode_utf8(fix.replacement@);
            assert(replacement@.subrange(0, replacement@.len() as int) =~= r);
            valid_utf8_split(bytes@, start as int);
            valid_utf8_split(bytes@, end as int);
            encode_utf8_valid_utf8(fix.replacement@);
            let head = bytes@.subrange(0, start as int);
            let tail = bytes@.subrange(end as int, bytes@.len() as int);
            valid_utf8_concat(head, r);
            valid_utf8_concat(head + r, tail);
            assert(next@ =~= head + r + tail);
        }
        bytes = next;
        k = k - 1;
    }
    proof {
        assert(views.take(0) =~= Seq::<(int, int, Seq<u8>)>::empty());
    }
    string_from_utf8(bytes)
}

/// The fixed text of file `file_id`: every branch without an id gets a generated one. A tree
/// that does not parse, or attributes that are not TOML, are reported as diagnostics; the
/// error comes just when the tree does not parse (attributes that are not TOML are left as
/// they are).
pub fn fix_file(treehouse: &mut Treehouse, file_id: usize) -> (r: Result<String, ErrorsEmitted>)
    requires
        file_id < old(treehouse).files_view().len(),
        file_bytes(old(treehouse), file_id as int).len() < usize::MAX,
    ensures
        same_context(final(treehouse), old(treehouse)),
        match spec_parse_roots(file_bytes(old(treehouse), file_id as int), 0) {
            Err(_) => r is Err,
            Ok(trees) => r matches Ok(s) && exists|fixes: Seq<Fix>|
                #[trigger] fixes_of(
                    file_bytes(old(treehouse), file_id as int),
                    fixed_forest(file_bytes(old(treehouse), file_id as int), trees),
                    fixes,
                )
                    && apply_fixes(file_bytes(old(treehouse), file_id as int), fix_views(fixes)) == Some(
                    encode_utf8(s@),
                ),
        },
{
    let ghost b = file_bytes(treehouse, file_id as int);
    let ghost start = *treehouse;
    let roots = match parse_tree_with_diagnostics(treehouse, file_id) {
        Ok(roots) => roots,
        Err(e) => {
            return Err(e);
        },
    };
    let ghost trees = views_of(roots.branches@);
    proof {
        lemma_parse_roots_ok(b, 0);
        lemma_views_of(roots.branches@);
        assert(trees.take(0) =~= Seq::<BranchView>::empty());
        assert(fixes_of(b, fixed_forest(b, trees.take(0)), Seq::<Fix>::empty()));
    }
    let mut state = State { fixes: Vec::new() };
    let mut i: usize = 0;
    while i < roots.branches.len()
        invariant
            i <= roots.branches@.len(),
            trees == views_of(roots.branches@),
            trees.len() == roots.branches@.len(),
            forall|j: int| 0 <= j < trees.len() ==> #[trigger] trees[j] == roots.branches@[j].view_tree(),
            forest_ok(b, trees, 0),
            b == file_bytes(treehouse, file_id as int),
            b.len() < usize::MAX,
            file_id < treehouse.files_view().len(),
            same_context(treehouse, &start),
            start == *old(treehouse),
            fixes_of(b, fixed_forest(b, trees.take(i as int)), state.fixes@),
        decreases roots.branches@.len() - i,
    {
        let ghost before_fixes = state.fixes@;
        proof {
            lemma_forest_ok_index(b, trees, 0, i as int);
        }
        dfs_fix_branch(treehouse, file_id, &mut state, &roots.branches[i]);
        proof {
            let appended = state.fixes@.skip(before_fixes.len() as int);
            assert(state.fixes@ =~= before_fixes + appended) by {
                assert(state.fixes@.take(before_fixes.len() as int) == before_fixes);
            }
            lemma_fixes_of_concat(b, fixed_forest(b, trees.take(i as int)), before_fixes, fixed_branches(b, trees[i as int]), appended);
            assert(trees.take(i + 1).drop_last() =~= trees.take(i as int));
        }
        i = i + 1;
    }
    proof {
        assert(trees.take(i as int) =~= trees);
        encode_utf8_valid_utf8(treehouse.files_view()[file_id as int].1);
        law_fixes_of_parsed_file_apply(b, trees, state.fixes@);
    }
    let source = treehouse.source(file_id);
    match apply_fixes_to(source, &state.fixes) {
        Some(fixed) => Ok(fixed),
        None => Err(ErrorsEmitted),
    }
}

} // verus!
