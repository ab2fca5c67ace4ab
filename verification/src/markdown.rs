//! The HTML writer for Markdown branches: it turns the events of a Markdown parse into HTML,
//! as pulldown-cmark's own writer does, with the treehouse's additions: highlighted and
//! literate code blocks, pictures, and `:emoji:` names.
use vstd::prelude::*;
use vstd::string::*;
use vstd::utf8::*;

use crate::code_block::{mode_view, parse_mode, parse_mode_of, CodeBlockMode, LiterateCodeKind};
use crate::config::Config;
use crate::escape::{cmark_entity, escape_href, escape_html, flat_map_chars, href_escape};
use crate::highlight::{
    highlight_html, lemma_highlight_html_view, lemma_tokenization_view, try_highlight, CompiledSyntax,
};
use crate::name_map::NameMap;
use crate::sema::{named_ids_valid, Treehouse};
use crate::branch_markup::{reference_target, resolve_reference};
use crate::text::{
    chars_of, decimal, ends_with, push_decimal, push_decimal_u64, slice_chars, str_ends_with, str_equal, string_of,
};

verus! {

/// The alignment of a table column.
#[derive(Debug, Clone, Copy, PartialEq, Eq, Structural)]
pub enum ColumnAlignment {
    Unspecified,
    Left,
    Center,
    Right,
}

/// How a code block was written: indented, or fenced with an info string.
#[derive(Debug, Clone)]
pub enum MdCodeBlockKind {
    Indented,
    Fenced(String),
}

/// An element that Markdown opens and closes.
#[derive(Debug, Clone)]
pub enum MdTag {
    Paragraph,
    /// A heading of level 1 to 6, with its id and classes.
    Heading(u8, Option<String>, Vec<String>),
    BlockQuote,
    CodeBlock(MdCodeBlockKind),
    /// A list, numbered from the given number, or a bulleted one.
    List(Option<u64>),
    Item,
    FootnoteDefinition(String),
    Table(Vec<ColumnAlignment>),
    TableHead,
    TableRow,
    TableCell,
    Emphasis,
    Strong,
    Strikethrough,
    /// A link: how it was written, its destination and its title.
    Link(MdLinkType, String, String),
    /// A picture: its source and its title.
    Image(String, String),
}

/// How a Markdown link was written.
#[derive(Debug, Clone, Copy, PartialEq, Eq, Structural)]
pub enum MdLinkType {
    Inline,
    Reference,
    ReferenceUnknown,
    Collapsed,
    CollapsedUnknown,
    Shortcut,
    ShortcutUnknown,
    Autolink,
    Email,
}

/// An event of a Markdown parse.
#[derive(Debug, Clone)]
pub enum MdEvent {
    Start(MdTag),
    End(MdTag),
    Text(String),
    Code(String),
    Html(String),
    FootnoteReference(String),
    SoftBreak,
    HardBreak,
    Rule,
    TaskListMarker(bool),
}

/// What the writer reads besides the events: the configuration, the highlighting syntaxes
/// by language, the analysed trees, the page's id, and the addresses and sizes of the files
/// that the page shows.
#[derive(Clone, Copy)]
pub struct MdContext<'a> {
    pub config: &'a Config,
    pub syntaxes: &'a NameMap<CompiledSyntax>,
    pub treehouse: &'a Treehouse,
    pub page_id: &'a str,
    pub data: &'a RenderData,
}

/// Facts about the site's files, gathered before rendering: the address of each static file
/// by its path under the static directory, the size of each image by its path, and the size
/// of each picture by its id.
pub struct RenderData {
    pub static_urls: NameMap<String>,
    pub image_sizes: NameMap<(u32, u32)>,
    pub pic_sizes: NameMap<(u32, u32)>,
}

/// The writer's state as the contracts see it.
pub struct MdState {
    pub end_newline: bool,
    pub table_body: bool,
    pub alignments: Seq<ColumnAlignment>,
    pub cell: nat,
    pub footnotes: Seq<Seq<char>>,
    pub code_block: Option<Option<String>>,
}

/// `s` escaped as pulldown-cmark escapes HTML text.
pub open spec fn esc(s: Seq<char>) -> Seq<char> {
    flat_map_chars(s, |c: char| cmark_entity(c))
}

/// `s`, after a line break unless the output ends with one already.
pub open spec fn on_new_line(end_newline: bool, s: Seq<char>) -> Seq<char> {
    if end_newline {
        s
    } else {
        "\n"@ + s
    }
}

/// The number of the footnote `name`, counted from 1 in the order in which footnotes are
/// first mentioned, and the footnotes known afterwards.
pub open spec fn footnote_number(footnotes: Seq<Seq<char>>, name: Seq<char>) -> (nat, Seq<Seq<char>>) {
    if exists|k: int| 0 <= k < footnotes.len() && footnotes[k] == name {
        let k = choose|k: int|
            0 <= k < footnotes.len() && footnotes[k] == name && forall|j: int| 0 <= j < k ==> footnotes[j] != name;
        ((k + 1) as nat, footnotes)
    } else {
        ((footnotes.len() + 1) as nat, footnotes.push(name))
    }
}

/// The value of a name in a map, if it has one.
pub open spec fn size_of(m: &NameMap<(u32, u32)>, key: Seq<char>) -> Option<(u32, u32)> {
    m.get_spec(key)
}

/// ` width="W" height="H"` for a picture of known size.
pub open spec fn size_attrs(size: Option<(u32, u32)>) -> Seq<char> {
    match size {
        Some((w, h)) => " width=\""@ + decimal(w as nat) + "\" height=\""@ + decimal(h as nat) + "\""@,
        None => Seq::empty(),
    }
}

/// The placeholder picture of a literate program's output, if it names one.
pub open spec fn placeholder_img(ctx: MdContext, pic: Option<Seq<char>>) -> Seq<char> {
    match pic {
        Some(pic) => if pic.len() > 0 {
            "<img class=\"placeholder-image\" loading=\"lazy\" src=\""@ + esc(ctx.config.pic_url_spec(pic)) + "\""@
                + size_attrs(size_of(&ctx.data.pic_sizes, pic)) + ">"@
        } else {
            Seq::empty()
        },
        None => Seq::empty(),
    }
}

/// The opening of a literate program's block, for its mode `m`.
pub open spec fn literate_open(ctx: MdContext, m: (int, Seq<char>, Seq<char>, Option<Seq<char>>)) -> Seq<char> {
    (if m.3 is Some {
        "<th-literate-program data-mode=\"output\" "@
    } else {
        "<th-literate-program data-mode=\"input\" "@
    }) + "data-program=\""@ + href_escape(ctx.page_id.spec_bytes()) + ":"@ + esc(m.2) + "\" data-language=\""@
        + esc(m.1) + "\" role=\"code\">"@ + placeholder_img(ctx, m.3) + "<pre class=\"placeholder-console\">"@
}

/// The opening of a fenced code block whose info string asks for mode `m`.
pub open spec fn code_block_open(ctx: MdContext, m: (int, Seq<char>, Seq<char>, Option<Seq<char>>)) -> Seq<char> {
    if m.0 == 0 {
        "<pre><code>"@
    } else if m.0 == 1 {
        "<pre><code class=\"language-"@ + esc(m.1) + (if ctx.syntaxes.get_spec(m.1) is Some {
            " th-syntax-highlighting"@
        } else {
            Seq::empty()
        }) + "\">"@
    } else {
        literate_open(ctx, m)
    }
}

/// ` class="a b c"` for the classes of a heading, or nothing when it has none.
pub open spec fn class_list(classes: Seq<String>) -> Seq<char> {
    if classes.len() == 0 {
        Seq::empty()
    } else {
        " class=\""@ + esc(classes[0]@) + more_classes(classes.drop_first()) + "\""@
    }
}

pub open spec fn more_classes(classes: Seq<String>) -> Seq<char>
    decreases classes.len(),
{
    if classes.len() == 0 {
        Seq::empty()
    } else {
        more_classes(classes.drop_last()) + " "@ + esc(classes.last()@)
    }
}

/// The opening of a heading.
pub open spec fn heading_open(en: bool, level: u8, id: Option<String>, classes: Seq<String>) -> Seq<char> {
    on_new_line(en, "<"@) + "h"@ + decimal(level as nat) + match id {
        Some(id) => " id=\""@ + esc(id@) + "\""@,
        None => Seq::empty(),
    } + class_list(classes) + ">"@
}

/// The opening of a table cell.
pub open spec fn cell_open(st: MdState) -> Seq<char> {
    (if st.table_body {
        "<td"@
    } else {
        "<th"@
    }) + if st.cell < st.alignments.len() {
        match st.alignments[st.cell as int] {
            ColumnAlignment::Left => " style=\"text-align: left\">"@,
            ColumnAlignment::Center => " style=\"text-align: center\">"@,
            ColumnAlignment::Right => " style=\"text-align: right\">"@,
            ColumnAlignment::Unspecified => ">"@,
        }
    } else {
        ">"@
    }
}

/// The opening of a link.
pub open spec fn link_open(email: bool, dest: Seq<char>, title: Seq<char>) -> Seq<char> {
    "<a href=\""@ + (if email {
        "mailto:"@
    } else {
        Seq::empty()
    }) + href_escape(encode_utf8(dest)) + (if title.len() > 0 {
        "\" title=\""@ + esc(title)
    } else {
        Seq::empty()
    }) + "\">"@
}

/// The HTML that opens `tag` (a picture aside), and the state after it.
pub open spec fn start_out(ctx: MdContext, st: MdState, tag: MdTag) -> (Seq<char>, MdState) {
    let en = st.end_newline;
    match tag {
        MdTag::Paragraph => (on_new_line(en, "<p>"@), MdState { end_newline: false, ..st }),
        MdTag::Heading(level, id, classes) => (heading_open(en, level, id, classes@), MdState { end_newline: false, ..st }),
        MdTag::Table(alignments) => (
            "<table>"@,
            MdState { end_newline: false, alignments: alignments@, ..st },
        ),
        MdTag::TableHead => ("<thead><tr>"@, MdState { end_newline: false, table_body: false, cell: 0, ..st }),
        MdTag::TableRow => ("<tr>"@, MdState { end_newline: false, cell: 0, ..st }),
        MdTag::TableCell => (cell_open(st), MdState { end_newline: false, ..st }),
        MdTag::BlockQuote => (on_new_line(en, "<blockquote>\n"@), MdState { end_newline: true, ..st }),
        MdTag::CodeBlock(kind) => {
            let lead = if en {
                Seq::empty()
            } else {
                "\n"@
            };
            match kind {
                MdCodeBlockKind::Fenced(info) => (
                    lead + code_block_open(ctx, parse_mode_of(info@)),
                    MdState { end_newline: false, code_block: Some(Some(info)), ..st },
                ),
                MdCodeBlockKind::Indented => (
                    lead + "<pre><code>"@,
                    MdState { end_newline: false, code_block: Some(None), ..st },
                ),
            }
        },
        MdTag::List(Some(start)) => if start == 1 {
            (on_new_line(en, "<ol>\n"@), MdState { end_newline: true, ..st })
        } else {
            (
                on_new_line(en, "<ol start=\""@) + decimal(start as nat) + "\">\n"@,
                MdState { end_newline: true, ..st },
            )
        },
        MdTag::List(None) => (on_new_line(en, "<ul>\n"@), MdState { end_newline: true, ..st }),
        MdTag::Item => (on_new_line(en, "<li>"@), MdState { end_newline: false, ..st }),
        MdTag::Emphasis => ("<em>"@, MdState { end_newline: false, ..st }),
        MdTag::Strong => ("<strong>"@, MdState { end_newline: false, ..st }),
        MdTag::Strikethrough => ("<del>"@, MdState { end_newline: false, ..st }),
        MdTag::Link(ty, dest, title) => (
            link_open(ty == MdLinkType::Email, dest@, title@),
            MdState { end_newline: false, ..st },
        ),
        MdTag::Image(_, _) => (Seq::empty(), st),
        MdTag::FootnoteDefinition(name) => {
            let (n, footnotes) = footnote_number(st.footnotes, name@);
            (
                on_new_line(en, "<div class=\"footnote-definition\" id=\""@) + esc(name@)
                    + "\"><sup class=\"footnote-definition-label\">"@ + decimal(n) + "</sup>"@,
                MdState { end_newline: false, footnotes, ..st },
            )
        },
    }
}

/// The HTML that closes `tag`, and the state after it.
pub open spec fn end_out(st: MdState, tag: MdTag) -> (Seq<char>, MdState) {
    match tag {
        MdTag::Paragraph => ("</p>\n"@, MdState { end_newline: true, ..st }),
        MdTag::Heading(level, _, _) => (
            "</"@ + "h"@ + decimal(level as nat) + ">\n"@,
            MdState { end_newline: true, ..st },
        ),
        MdTag::Table(_) => ("</tbody></table>\n"@, MdState { end_newline: true, ..st }),
        MdTag::TableHead => ("</tr></thead><tbody>\n"@, MdState { end_newline: true, table_body: true, ..st }),
        MdTag::TableRow => ("</tr>\n"@, MdState { end_newline: true, ..st }),
        MdTag::TableCell => (
            if st.table_body {
                "</td>"@
            } else {
                "</th>"@
            },
            MdState { end_newline: false, cell: st.cell + 1, ..st },
        ),
        MdTag::BlockQuote => ("</blockquote>\n"@, MdState { end_newline: true, ..st }),
        MdTag::CodeBlock(kind) => match kind {
            MdCodeBlockKind::Fenced(info) => (
                if parse_mode_of(info@).0 == 2 {
                    "</pre></th-literate-program>"@
                } else {
                    "</code></pre>"@
                },
                MdState { end_newline: false, code_block: None, ..st },
            ),
            MdCodeBlockKind::Indented => ("</code></pre>\n"@, MdState { end_newline: true, code_block: None, ..st }),
        },
        MdTag::List(Some(_)) => ("</ol>\n"@, MdState { end_newline: true, ..st }),
        MdTag::List(None) => ("</ul>\n"@, MdState { end_newline: true, ..st }),
        MdTag::Item => ("</li>\n"@, MdState { end_newline: true, ..st }),
        MdTag::Emphasis => ("</em>"@, MdState { end_newline: false, ..st }),
        MdTag::Strong => ("</strong>"@, MdState { end_newline: false, ..st }),
        MdTag::Strikethrough => ("</del>"@, MdState { end_newline: false, ..st }),
        MdTag::Link(_, _, _) => ("</a>"@, MdState { end_newline: false, ..st }),
        MdTag::Image(_, _) => (Seq::empty(), st),
        MdTag::FootnoteDefinition(_) => ("</div>\n"@, MdState { end_newline: true, ..st }),
    }
}

/// `char::is_alphabetic`: whether `c` has the Unicode `Alphabetic` property.
pub uninterp spec fn alphabetic(c: char) -> bool;

/// `char::is_alphanumeric`: whether `c` is alphabetic or numeric in Unicode.
pub uninterp spec fn alphanumeric(c: char) -> bool;

#[verifier::external_body]
fn is_alphabetic(c: char) -> (r: bool)
    ensures
        r == alphabetic(c),
{
    c.is_alphabetic()
}

#[verifier::external_body]
fn is_alphanumeric(c: char) -> (r: bool)
    ensures
        r == alphanumeric(c),
{
    c.is_alphanumeric()
}

/// Where the emoji name that starts at `p` ends: at the first character that is neither
/// alphanumeric nor `_`.
pub open spec fn name_end(s: Seq<char>, p: int) -> int
    decreases s.len() - p,
{
    if p < 0 || p >= s.len() || !(alphanumeric(s[p]) || s[p] == '_') {
        p
    } else {
        name_end(s, p + 1)
    }
}

/// Where the text that starts at `p` ends: at the next `:`.
pub open spec fn colon_from(s: Seq<char>, p: int) -> int
    decreases s.len() - p,
{
    if p < 0 || p >= s.len() || s[p] == ':' {
        p
    } else {
        colon_from(s, p + 1)
    }
}

pub proof fn lemma_name_end(s: Seq<char>, p: int)
    requires
        0 <= p <= s.len(),
    ensures
        p <= name_end(s, p) <= s.len(),
        forall|k: int| p <= k < name_end(s, p) ==> alphanumeric(s[k]) || s[k] == '_',
        name_end(s, p) < s.len() ==> !(alphanumeric(s[name_end(s, p)]) || s[name_end(s, p)] == '_'),
    decreases s.len() - p,
{
    if p < s.len() && (alphanumeric(s[p]) || s[p] == '_') {
        lemma_name_end(s, p + 1);
    }
}

pub proof fn lemma_colon_from(s: Seq<char>, p: int)
    requires
        0 <= p <= s.len(),
    ensures
        p <= colon_from(s, p) <= s.len(),
        forall|k: int| p <= k < colon_from(s, p) ==> s[k] != ':',
        colon_from(s, p) < s.len() ==> s[colon_from(s, p)] == ':',
    decreases s.len() - p,
{
    if p < s.len() && s[p] != ':' {
        lemma_colon_from(s, p + 1);
    }
}

/// The branch that `emoji/NAME` names, if there is one.
pub open spec fn emoji_branch_id(ctx: MdContext, name: Seq<char>) -> Option<Seq<char>> {
    match ctx.treehouse.branches_by_named_id.get_spec("emoji/"@ + name) {
        Some(id) => Some(ctx.treehouse.tree.branches_spec()[id.0 as int].attributes.id@),
        None => None,
    }
}

/// The address of emoji file `file`, or nothing when it has none.
pub open spec fn emoji_url(ctx: MdContext, file: Seq<char>) -> Seq<char> {
    match ctx.data.static_urls.get_spec("emoji/"@ + file) {
        Some(u) => u@,
        None => Seq::empty(),
    }
}

/// The picture of emoji `name`, whose file is `file`.
pub open spec fn emoji_img(ctx: MdContext, name: Seq<char>, file: Seq<char>) -> Seq<char> {
    "<img data-cast=\"emoji\" title=\":"@ + esc(name) + ":\" src=\""@ + esc(emoji_url(ctx, file)) + "\" alt=\""@
        + esc(name) + match size_of(&ctx.data.image_sizes, "static/emoji/"@ + file) {
        Some((w, h)) => "\" width=\""@ + decimal(w as nat) + "\" height=\""@ + decimal(h as nat),
        None => Seq::empty(),
    } + "\">"@
}

/// The HTML of the emoji `name`: its picture, linked to its branch when it has one, or the
/// name between colons when there is no such emoji.
pub open spec fn emoji_out(ctx: MdContext, name: Seq<char>) -> Seq<char> {
    match ctx.config.emoji.get_spec(name) {
        None => ":"@ + esc(name) + ":"@,
        Some(file) => match emoji_branch_id(ctx, name) {
            Some(id) => "<a href=\""@ + esc(ctx.config.site@) + "/b?"@ + esc(id) + "\">"@ + emoji_img(ctx, name, file)
                + "</a>"@,
            None => emoji_img(ctx, name, file),
        },
    }
}

/// The HTML of text from `p` on, outside code blocks: escaped, with `:name:` emoji.
pub open spec fn emoji_text_from(ctx: MdContext, s: Seq<char>, p: int) -> Seq<char>
    decreases s.len() - p,
{
    if p < 0 || p >= s.len() {
        Seq::empty()
    } else if s[p] == ':' {
        if p + 1 < s.len() && alphabetic(s[p + 1]) {
            proof {
                lemma_name_end(s, p + 1);
            }
            let q = name_end(s, p + 1);
            if q < s.len() && s[q] == ':' {
                emoji_out(ctx, s.subrange(p + 1, q)) + emoji_text_from(ctx, s, q + 1)
            } else {
                esc(s.subrange(p, q)) + emoji_text_from(ctx, s, q)
            }
        } else {
            esc(seq![':']) + emoji_text_from(ctx, s, p + 1)
        }
    } else {
        proof {
            lemma_colon_from(s, p);
        }
        let q = colon_from(s, p);
        esc(s.subrange(p, q)) + emoji_text_from(ctx, s, q)
    }
}

/// The syntax that highlights a code block with info string `info`, if there is one.
pub open spec fn block_syntax(ctx: MdContext, info: Option<String>) -> Option<CompiledSyntax> {
    match info {
        Some(i) => {
            let m = parse_mode_of(i@);
            if m.0 == 0 {
                None
            } else {
                ctx.syntaxes.get_spec(m.1)
            }
        },
        None => None,
    }
}

/// The HTML of the text `text` of a `Text` event.
pub open spec fn text_out(ctx: MdContext, st: MdState, text: Seq<char>) -> Seq<char> {
    let t = choose|t: &str| t@ == text;
    match st.code_block {
        Some(info) => match block_syntax(ctx, info) {
            Some(syntax) => match syntax.tokenization(t) {
                Some(toks) => highlight_html(syntax.token_names@, t, toks),
                None => esc(text),
            },
            None => esc(text),
        },
        None => emoji_text_from(ctx, text, 0),
    }
}

/// The HTML of event `e` (a picture aside), and the state after it.
pub open spec fn event_out(ctx: MdContext, st: MdState, e: MdEvent) -> (Seq<char>, MdState) {
    match e {
        MdEvent::Start(tag) => start_out(ctx, st, tag),
        MdEvent::End(tag) => end_out(st, tag),
        MdEvent::Text(text) => (
            text_out(ctx, st, text@),
            MdState { end_newline: ends_with(text@, "\n"@), ..st },
        ),
        MdEvent::Code(text) => ("<code>"@ + esc(text@) + "</code>"@, MdState { end_newline: false, ..st }),
        MdEvent::Html(html) => (
            html@,
            if html@.len() > 0 {
                MdState { end_newline: ends_with(html@, "\n"@), ..st }
            } else {
                st
            },
        ),
        MdEvent::SoftBreak => ("\n"@, MdState { end_newline: true, ..st }),
        MdEvent::HardBreak => ("<br />\n"@, MdState { end_newline: true, ..st }),
        MdEvent::Rule => (on_new_line(st.end_newline, "<hr />\n"@), MdState { end_newline: true, ..st }),
        MdEvent::FootnoteReference(name) => {
            let (n, footnotes) = footnote_number(st.footnotes, name@);
            (
                "<sup class=\"footnote-reference\"><a href=\"#"@ + esc(name@) + "\">"@ + decimal(n) + "</a></sup>"@,
                MdState { end_newline: false, footnotes, ..st },
            )
        },
        MdEvent::TaskListMarker(checked) => (
            if checked {
                "<input disabled=\"\" type=\"checkbox\" checked=\"\"/>\n"@
            } else {
                "<input disabled=\"\" type=\"checkbox\"/>\n"@
            },
            MdState { end_newline: true, ..st },
        ),
    }
}

/// What an event other than a start or an end contributes to a picture's `alt` text: the
/// text escaped, breaks and rules as spaces, footnotes as `[n]` and task markers as `[x]` or
/// `[ ]`; and the state after it.
pub open spec fn raw_piece(st: MdState, e: MdEvent) -> (Seq<char>, MdState) {
    match e {
        MdEvent::Html(t) => (esc(t@), MdState { end_newline: ends_with(t@, "\n"@), ..st }),
        MdEvent::Code(t) => (esc(t@), MdState { end_newline: ends_with(t@, "\n"@), ..st }),
        MdEvent::Text(t) => (esc(t@), MdState { end_newline: ends_with(t@, "\n"@), ..st }),
        MdEvent::FootnoteReference(name) => {
            let (n, footnotes) = footnote_number(st.footnotes, name@);
            ("["@ + decimal(n) + "]"@, MdState { footnotes, ..st })
        },
        MdEvent::TaskListMarker(checked) => (
            if checked {
                "[x]"@
            } else {
                "[ ]"@
            },
            MdState { end_newline: false, ..st },
        ),
        _ => (" "@, MdState { end_newline: false, ..st }),
    }
}

/// The `alt` text of the events from `i` on, up to the end that closes the element open at
/// depth `nest`; also the state after it and where it stops, after the closing event.
pub open spec fn raw_from(st: MdState, evs: Seq<MdEvent>, i: int, nest: nat) -> (Seq<char>, MdState, int)
    decreases evs.len() - i,
{
    if i < 0 || i >= evs.len() {
        (Seq::empty(), st, i)
    } else {
        match evs[i] {
            MdEvent::Start(_) => raw_from(st, evs, i + 1, nest + 1),
            MdEvent::End(_) => if nest == 0 {
                (Seq::empty(), st, i + 1)
            } else {
                raw_from(st, evs, i + 1, (nest - 1) as nat)
            },
            e => {
                let (piece, next) = raw_piece(st, e);
                let (rest, st2, j) = raw_from(next, evs, i + 1, nest);
                (piece + rest, st2, j)
            },
        }
    }
}

pub proof fn lemma_raw_from_ahead(st: MdState, evs: Seq<MdEvent>, i: int, nest: nat)
    requires
        0 <= i,
    ensures
        i <= raw_from(st, evs, i, nest).2,
        raw_from(st, evs, i, nest).2 <= evs.len() || raw_from(st, evs, i, nest).2 == i,
    decreases evs.len() - i,
{
    if i < evs.len() {
        match evs[i] {
            MdEvent::Start(_) => lemma_raw_from_ahead(st, evs, i + 1, nest + 1),
            MdEvent::End(_) => if nest > 0 {
                lemma_raw_from_ahead(st, evs, i + 1, (nest - 1) as nat)
            },
            e => lemma_raw_from_ahead(raw_piece(st, e).1, evs, i + 1, nest),
        }
    }
}

/// The opening of a picture, up to its `alt` text.
pub open spec fn image_open(dest: String) -> Seq<char> {
    "<img class=\"pic\" src=\""@ + href_escape(encode_utf8(dest@)) + "\" alt=\""@
}

/// The end of a picture, after its `alt` text.
pub open spec fn image_close(title: String) -> Seq<char> {
    (if title@.len() > 0 {
        "\" title=\""@ + esc(title@)
    } else {
        Seq::empty()
    }) + "\" />"@
}

/// The HTML of the events from `i` on, written from state `st`.
pub open spec fn render_from(ctx: MdContext, st: MdState, evs: Seq<MdEvent>, i: int) -> Seq<char>
    decreases evs.len() - i,
{
    if i < 0 || i >= evs.len() {
        Seq::empty()
    } else {
        match evs[i] {
            MdEvent::Start(MdTag::Image(dest, title)) => {
                proof {
                    lemma_raw_from_ahead(st, evs, i + 1, 0);
                }
                let (alt, st2, j) = raw_from(st, evs, i + 1, 0);
                image_open(dest) + alt + image_close(title) + render_from(
                    ctx,
                    MdState { end_newline: false, ..st2 },
                    evs,
                    j,
                )
            },
            e => {
                let (out, st2) = event_out(ctx, st, e);
                out + render_from(ctx, st2, evs, i + 1)
            },
        }
    }
}

/// Strong emphasis is written as `<strong>` and `</strong>`, and emphasis as `<em>` and
/// `</em>`: wherever the writer meets the start or the end of one, it writes that tag and goes
/// on with the next event.
pub proof fn law_emphasis_tags(ctx: MdContext, st: MdState, evs: Seq<MdEvent>, i: int)
    requires
        0 <= i < evs.len(),
    ensures
        evs[i] == MdEvent::Start(MdTag::Strong) ==> render_from(ctx, st, evs, i) == "<strong>"@ + render_from(
            ctx,
            (MdState { end_newline: false, ..st }),
            evs,
            i + 1,
        ),
        evs[i] == MdEvent::End(MdTag::Strong) ==> render_from(ctx, st, evs, i) == "</strong>"@ + render_from(
            ctx,
            (MdState { end_newline: false, ..st }),
            evs,
            i + 1,
        ),
        evs[i] == MdEvent::Start(MdTag::Emphasis) ==> render_from(ctx, st, evs, i) == "<em>"@ + render_from(
            ctx,
            (MdState { end_newline: false, ..st }),
            evs,
            i + 1,
        ),
        evs[i] == MdEvent::End(MdTag::Emphasis) ==> render_from(ctx, st, evs, i) == "</em>"@ + render_from(
            ctx,
            (MdState { end_newline: false, ..st }),
            evs,
            i + 1,
        ),
{
}

/// The writer's state before the first event.
pub open spec fn initial_state() -> MdState {
    MdState {
        end_newline: true,
        table_body: false,
        alignments: Seq::empty(),
        cell: 0,
        footnotes: Seq::empty(),
        code_block: None,
    }
}

/// The strings of an event that the writer slices or parses fit in memory.
pub open spec fn event_fits(e: MdEvent) -> bool {
    match e {
        MdEvent::Text(t) => encode_utf8(t@).len() <= usize::MAX,
        MdEvent::Start(MdTag::CodeBlock(MdCodeBlockKind::Fenced(info))) => encode_utf8(info@).len() <= usize::MAX,
        MdEvent::End(MdTag::CodeBlock(MdCodeBlockKind::Fenced(info))) => encode_utf8(info@).len() <= usize::MAX,
        _ => true,
    }
}

/// The strings of every event fit in memory, as every string in memory does.
fn event_fits_check(e: &MdEvent)
    ensures
        event_fits(*e),
{
    match e {
        MdEvent::Text(t) => {
            let _ = t.as_str().as_bytes().len();
        },
        MdEvent::Start(MdTag::CodeBlock(MdCodeBlockKind::Fenced(info))) => {
            let _ = info.as_str().as_bytes().len();
        },
        MdEvent::End(MdTag::CodeBlock(MdCodeBlockKind::Fenced(info))) => {
            let _ = info.as_str().as_bytes().len();
        },
        _ => {},
    }
}

/// What the writer needs of its context: every syntax is well formed, and every branch id
/// that the trees index names a branch.
pub open spec fn context_ok(ctx: MdContext) -> bool {
    &&& forall|k: Seq<char>| #[trigger] ctx.syntaxes.get_spec(k) matches Some(s) ==> s.wf()
    &&& named_ids_valid(ctx.treehouse)
}

/// The writer of one Markdown text.
struct MdWriter {
    end_newline: bool,
    table_body: bool,
    alignments: Vec<ColumnAlignment>,
    cell: usize,
    footnotes: Vec<String>,
    code_block: Option<Option<String>>,
}

impl MdWriter {
    spec fn state(&self) -> MdState {
        MdState {
            end_newline: self.end_newline,
            table_body: self.table_body,
            alignments: self.alignments@,
            cell: self.cell as nat,
            footnotes: self.footnotes@.map_values(|f: String| f@),
            code_block: self.code_block,
        }
    }

    /// The code block's info string, if any, fits in memory.
    spec fn info_fits(&self) -> bool {
        self.code_block matches Some(Some(info)) ==> encode_utf8(info@).len() <= usize::MAX
    }

    /// The number of footnote `name`, which becomes known if it was not.
    fn footnote(&mut self, name: &String) -> (n: usize)
        requires
            old(self).footnotes@.len() < usize::MAX,
        ensures
            (n as nat, final(self).state().footnotes) == footnote_number(old(self).state().footnotes, name@),
            final(self).state() == (MdState { footnotes: final(self).state().footnotes, ..old(self).state() }),
            final(self).footnotes@.len() <= old(self).footnotes@.len() + 1,
            final(self).info_fits() == old(self).info_fits(),
    {
        let ghost names = self.state().footnotes;
        let mut k: usize = 0;
        while k < self.footnotes.len()
            invariant
                k <= self.footnotes@.len(),
                names == self.footnotes@.map_values(|f: String| f@),
                forall|j: int| 0 <= j < k ==> names[j] != name@,
            decreases self.footnotes@.len() - k,
        {
            if str_equal(self.footnotes[k].as_str(), name.as_str()) {
                proof {
                    assert(names[k as int] == name@);
                    let c = choose|c: int|
                        0 <= c < names.len() && names[c] == name@ && forall|j: int| 0 <= j < c ==> names[j] != name@;
                    assert(0 <= c < names.len() && names[c] == name@ && forall|j: int| 0 <= j < c ==> names[j] != name@);
                    if c < k {
                        assert(names[c] != name@);
                    }
                    if c > k {
                        assert(names[k as int] != name@);
                    }
                }
                return k + 1;
            }
            k = k + 1;
        }
        let n = self.footnotes.len() + 1;
        self.footnotes.push(name.clone());
        proof {
            assert(self.footnotes@.map_values(|f: String| f@) =~= names.push(name@));
        }
        n
    }
}

/// Appends the picture of emoji `name`, whose file is `file`.
#[verifier::rlimit(40)]
fn write_emoji_img(out: &mut String, ctx: MdContext, name: &str, file: &str)
    ensures
        final(out)@ == old(out)@ + emoji_img(ctx, name@, file@),
{
    out.push_str("<img data-cast=\"emoji\" title=\":");
    escape_html(out, name);
    out.push_str(":\" src=\"");
    let mut url_key = String::new();
    url_key.push_str("emoji/");
    url_key.push_str(file);
    let ghost before_url = out@;
    match ctx.data.static_urls.get(url_key.as_str()) {
        Some(url) => escape_html(out, url.as_str()),
        None => {
            assert(esc(Seq::<char>::empty()) =~= Seq::<char>::empty());
        },
    }
    assert(out@ == before_url + esc(emoji_url(ctx, file@)));
    out.push_str("\" alt=\"");
    escape_html(out, name);
    let mut size_key = String::new();
    size_key.push_str("static/emoji/");
    size_key.push_str(file);
    match ctx.data.image_sizes.get(size_key.as_str()) {
        Some(size) => {
            out.push_str("\" width=\"");
            push_decimal(out, size.0 as usize);
            out.push_str("\" height=\"");
            push_decimal(out, size.1 as usize);
        },
        None => {},
    }
    out.push_str("\">");
    assert(out@ =~= old(out)@ + emoji_img(ctx, name@, file@));
}

/// Appends the HTML of the emoji `name`.
fn write_emoji(out: &mut String, ctx: MdContext, name: &str)
    requires
        context_ok(ctx),
    ensures
        final(out)@ == old(out)@ + emoji_out(ctx, name@),
{
    match ctx.config.emoji.get(name) {
        None => {
            out.push_str(":");
            escape_html(out, name);
            out.push_str(":");
            assert(out@ =~= old(out)@ + emoji_out(ctx, name@));
        },
        Some(file) => {
            let mut key = String::new();
            key.push_str("emoji/");
            key.push_str(name);
            match ctx.treehouse.branches_by_named_id.get(key.as_str()) {
                Some(id) => {
                    let branch = ctx.treehouse.tree.branch(*id);
                    out.push_str("<a href=\"");
                    escape_html(out, ctx.config.site.as_str());
                    out.push_str("/b?");
                    escape_html(out, branch.attributes.id.as_str());
                    out.push_str("\">");
                    write_emoji_img(out, ctx, name, file.as_str());
                    out.push_str("</a>");
                    assert(out@ =~= old(out)@ + emoji_out(ctx, name@));
                },
                None => {
                    write_emoji_img(out, ctx, name, file.as_str());
                },
            }
        },
    }
}

/// Appends the HTML of `text` outside code blocks: escaped, with `:name:` emoji.
fn write_emoji_text(out: &mut String, ctx: MdContext, text: &str)
    requires
        context_ok(ctx),
    ensures
        final(out)@ == old(out)@ + emoji_text_from(ctx, text@, 0),
{
    let chars = chars_of(text);
    let ghost s = text@;
    let ghost start = out@;
    let n = chars.len();
    let mut p: usize = 0;
    proof {
        reveal_strlit(":");
    }
    while p < n
        invariant
            chars@ == s,
            n == s.len(),
            p <= n,
            context_ok(ctx),
            out@ + emoji_text_from(ctx, s, p as int) == start + emoji_text_from(ctx, s, 0),
        decreases n - p,
    {
        let ghost before = out@;
        let ghost p0 = p as int;
        if chars[p] == ':' {
            if p + 1 < n && is_alphabetic(chars[p + 1]) {
                proof {
                    lemma_name_end(s, p + 1);
                }
                let mut q = p + 1;
                while q < n && (is_alphanumeric(chars[q]) || chars[q] == '_')
                    invariant
                        chars@ == s,
                        n == s.len(),
                        p + 1 <= q <= n,
                        name_end(s, q as int) == name_end(s, p + 1),
                    decreases n - q,
                {
                    q = q + 1;
                }
                if q < n && chars[q] == ':' {
                    let name = string_of(slice_chars(chars.as_slice(), p + 1, q).as_slice());
                    write_emoji(out, ctx, name.as_str());
                    proof {
                        assert(emoji_text_from(ctx, s, p0) == emoji_out(ctx, s.subrange(p0 + 1, q as int))
                            + emoji_text_from(ctx, s, q + 1));
                        assert(out@ + emoji_text_from(ctx, s, q + 1) =~= before + emoji_text_from(ctx, s, p0));
                    }
                    p = q + 1;
                } else {
                    let piece = string_of(slice_chars(chars.as_slice(), p, q).as_slice());
                    escape_html(out, piece.as_str());
                    proof {
                        assert(emoji_text_from(ctx, s, p0) == esc(s.subrange(p0, q as int)) + emoji_text_from(
                            ctx,
                            s,
                            q as int,
                        ));
                        assert(out@ + emoji_text_from(ctx, s, q as int) =~= before + emoji_text_from(ctx, s, p0));
                    }
                    p = q;
                }
            } else {
                escape_html(out, ":");
                proof {
                    reveal_strlit(":");
                    assert(":"@ =~= seq![':']);
                    assert(emoji_text_from(ctx, s, p0) == esc(seq![':']) + emoji_text_from(ctx, s, p0 + 1));
                    assert(out@ + emoji_text_from(ctx, s, p0 + 1) =~= before + emoji_text_from(ctx, s, p0));
                }
                p = p + 1;
            }
        } else {
            proof {
                lemma_colon_from(s, p as int);
            }
            let mut q = p;
            while q < n && chars[q] != ':'
                invariant
                    chars@ == s,
                    n == s.len(),
                    p <= q <= n,
                    colon_from(s, q as int) == colon_from(s, p as int),
                decreases n - q,
            {
                q = q + 1;
            }
            let piece = string_of(slice_chars(chars.as_slice(), p, q).as_slice());
            escape_html(out, piece.as_str());
            proof {
                assert(emoji_text_from(ctx, s, p0) == esc(s.subrange(p0, q as int)) + emoji_text_from(ctx, s, q as int));
                assert(out@ + emoji_text_from(ctx, s, q as int) =~= before + emoji_text_from(ctx, s, p0));
            }
            p = q;
        }
    }
    proof {
        assert(out@ + Seq::<char>::empty() =~= out@);
    }
}

/// Appends the placeholder picture of a literate program's output.
fn write_placeholder(out: &mut String, ctx: MdContext, pic: &str)
    ensures
        final(out)@ == old(out)@ + placeholder_img(ctx, Some(pic@)),
{
    if !pic.is_empty() {
        out.push_str("<img class=\"placeholder-image\" loading=\"lazy\" src=\"");
        let url = ctx.config.pic_url(pic);
        escape_html(out, url.as_str());
        out.push_str("\"");
        let ghost before_size = out@;
        match ctx.data.pic_sizes.get(pic) {
            Some(size) => {
                out.push_str(" width=\"");
                push_decimal(out, size.0 as usize);
                out.push_str("\" height=\"");
                push_decimal(out, size.1 as usize);
                out.push_str("\"");
            },
            None => {},
        }
        assert(out@ =~= before_size + size_attrs(size_of(&ctx.data.pic_sizes, pic@)));
        out.push_str(">");
        assert(out@ =~= old(out)@ + placeholder_img(ctx, Some(pic@)));
    }
}

/// Appends the opening of a fenced code block in mode `mode`.
fn write_code_block_open(out: &mut String, ctx: MdContext, mode: CodeBlockMode)
    ensures
        final(out)@ == old(out)@ + code_block_open(ctx, mode_view(mode)),
{
    match mode {
        CodeBlockMode::PlainText => {
            out.push_str("<pre><code>");
        },
        CodeBlockMode::SyntaxHighlightOnly { language } => {
            out.push_str("<pre><code class=\"language-");
            escape_html(out, language);
            if ctx.syntaxes.contains_key(language) {
                out.push_str(" th-syntax-highlighting");
            }
            out.push_str("\">");
            assert(out@ =~= old(out)@ + code_block_open(ctx, mode_view(mode)));
        },
        CodeBlockMode::LiterateProgram { language, kind, program_name } => {
            match kind {
                LiterateCodeKind::Input => out.push_str("<th-literate-program data-mode=\"input\" "),
                LiterateCodeKind::Output { .. } => out.push_str("<th-literate-program data-mode=\"output\" "),
            }
            out.push_str("data-program=\"");
            escape_href(out, ctx.page_id);
            out.push_str(":");
            escape_html(out, program_name);
            out.push_str("\" data-language=\"");
            escape_html(out, language);
            out.push_str("\" role=\"code\">");
            match kind {
                LiterateCodeKind::Output { placeholder_pic_id } => write_placeholder(out, ctx, placeholder_pic_id),
                LiterateCodeKind::Input => {},
            }
            out.push_str("<pre class=\"placeholder-console\">");
            assert(out@ =~= old(out)@ + literate_open(ctx, mode_view(mode)));
        },
    }
}

/// Appends ` class="..."` for the classes of a heading.
fn write_class_list(out: &mut String, classes: &Vec<String>)
    ensures
        final(out)@ == old(out)@ + class_list(classes@),
{
    if classes.len() > 0 {
        out.push_str(" class=\"");
        escape_html(out, classes[0].as_str());
        let ghost head = out@;
        let mut k: usize = 1;
        proof {
            assert(classes@.subrange(1, 1) =~= Seq::<String>::empty());
            assert(head + more_classes(classes@.subrange(1, 1)) =~= head);
        }
        while k < classes.len()
            invariant
                1 <= k <= classes@.len(),
                out@ == head + more_classes(classes@.subrange(1, k as int)),
            decreases classes@.len() - k,
        {
            out.push_str(" ");
            escape_html(out, classes[k].as_str());
            proof {
                assert(classes@.subrange(1, k + 1).drop_last() =~= classes@.subrange(1, k as int));
                assert(classes@.subrange(1, k + 1).last() == classes@[k as int]);
            }
            k = k + 1;
        }
        out.push_str("\"");
        proof {
            assert(classes@.subrange(1, classes@.len() as int) =~= classes@.drop_first());
        }
        assert(out@ =~= old(out)@ + class_list(classes@));
    } else {
        assert(out@ =~= old(out)@ + class_list(classes@));
    }
}

/// Appends the opening of a heading.
#[verifier::rlimit(40)]
fn write_heading_open(out: &mut String, en: bool, level: u8, id: &Option<String>, classes: &Vec<String>)
    ensures
        final(out)@ == old(out)@ + heading_open(en, level, *id, classes@),
{
    if !en {
        out.push_str("\n");
    }
    out.push_str("<");
    let ghost opened = out@;
    assert(opened == old(out)@ + on_new_line(en, "<"@));
    out.push_str("h");
    push_decimal(out, level as usize);
    let ghost before_id = out@;
    match id {
        Some(id) => {
            out.push_str(" id=\"");
            escape_html(out, id.as_str());
            out.push_str("\"");
        },
        None => {},
    }
    let ghost before_classes = out@;
    write_class_list(out, classes);
    out.push_str(">");
    assert(out@ =~= old(out)@ + heading_open(en, level, *id, classes@));
}

impl MdWriter {
    /// Appends the HTML of the text of a `Text` event.
    fn run_text(&self, out: &mut String, ctx: MdContext, text: &str)
        requires
            context_ok(ctx),
            self.info_fits(),
            text.spec_bytes().len() <= usize::MAX,
        ensures
            final(out)@ == old(out)@ + text_out(ctx, self.state(), text@),
    {
        match &self.code_block {
            Some(info) => {
                let syntax: Option<&CompiledSyntax> = match info {
                    Some(i) => {
                        let mode = CodeBlockMode::parse(i.as_str());
                        match mode.highlighting_language() {
                            Some(language) => ctx.syntaxes.get(language),
                            None => None,
                        }
                    },
                    None => None,
                };
                proof {
                    let t = choose|t: &str| t@ == text@;
                    assert(exists|t: &str| t@ == text@);
                    assert(t@ == text@);
                    if let Some(sx) = syntax {
                        lemma_tokenization_view(sx, t, text);
                        if let Some(toks) = sx.tokenization(text) {
                            lemma_highlight_html_view(sx.token_names@, t, text, toks);
                        }
                    }
                }
                match syntax {
                    Some(sx) => {
                        if !try_highlight(out, sx, text) {
                            escape_html(out, text);
                        }
                    },
                    None => escape_html(out, text),
                }
            },
            None => write_emoji_text(out, ctx, text),
        }
    }
}

/// A copy of the alignments.
fn copy_alignments(v: &Vec<ColumnAlignment>) -> (r: Vec<ColumnAlignment>)
    ensures
        r@ == v@,
{
    let mut r: Vec<ColumnAlignment> = Vec::new();
    let mut k: usize = 0;
    while k < v.len()
        invariant
            k <= v@.len(),
            r@ == v@.take(k as int),
        decreases v@.len() - k,
    {
        r.push(v[k]);
        proof {
            assert(v@.take(k + 1) =~= v@.take(k as int).push(v@[k as int]));
        }
        k = k + 1;
    }
    assert(v@.take(k as int) =~= v@);
    r
}

impl MdWriter {
    /// Appends the opening of `tag`, which is not a picture.
    #[verifier::rlimit(80)]
    fn start_tag(&mut self, out: &mut String, ctx: MdContext, tag: &MdTag)
        requires
            !(tag is Image),
            old(self).info_fits(),
            old(self).footnotes@.len() < usize::MAX,
            event_fits(MdEvent::Start(*tag)),
        ensures
            final(out)@ == old(out)@ + start_out(ctx, old(self).state(), *tag).0,
            final(self).state() == start_out(ctx, old(self).state(), *tag).1,
            final(self).info_fits(),
            final(self).cell <= old(self).cell,
            final(self).footnotes@.len() <= old(self).footnotes@.len() + 1,
    {
        let en = self.end_newline;
        match tag {
            MdTag::Paragraph => {
                if !en {
                    out.push_str("\n");
                }
                out.push_str("<p>");
                self.end_newline = false;
            },
            MdTag::Heading(level, id, classes) => {
                write_heading_open(out, en, *level, id, classes);
                self.end_newline = false;
            },
            MdTag::Table(alignments) => {
                self.alignments = copy_alignments(alignments);
                out.push_str("<table>");
                self.end_newline = false;
            },
            MdTag::TableHead => {
                self.table_body = false;
                self.cell = 0;
                out.push_str("<thead><tr>");
                self.end_newline = false;
            },
            MdTag::TableRow => {
                self.cell = 0;
                out.push_str("<tr>");
                self.end_newline = false;
            },
            MdTag::TableCell => {
                if self.table_body {
                    out.push_str("<td");
                } else {
                    out.push_str("<th");
                }
                if self.cell < self.alignments.len() {
                    match self.alignments[self.cell] {
                        ColumnAlignment::Left => out.push_str(" style=\"text-align: left\">"),
                        ColumnAlignment::Center => out.push_str(" style=\"text-align: center\">"),
                        ColumnAlignment::Right => out.push_str(" style=\"text-align: right\">"),
                        ColumnAlignment::Unspecified => out.push_str(">"),
                    }
                } else {
                    out.push_str(">");
                }
                self.end_newline = false;
            },
            MdTag::BlockQuote => {
                if !en {
                    out.push_str("\n");
                }
                out.push_str("<blockquote>\n");
                self.end_newline = true;
            },
            MdTag::CodeBlock(kind) => {
                if !en {
                    out.push_str("\n");
                }
                match kind {
                    MdCodeBlockKind::Fenced(info) => {
                        let mode = CodeBlockMode::parse(info.as_str());
                        write_code_block_open(out, ctx, mode);
                        self.code_block = Some(Some(info.clone()));
                    },
                    MdCodeBlockKind::Indented => {
                        out.push_str("<pre><code>");
                        self.code_block = Some(None);
                    },
                }
                self.end_newline = false;
            },
            MdTag::List(Some(start)) => {
                if !en {
                    out.push_str("\n");
                }
                if *start == 1 {
                    out.push_str("<ol>\n");
                } else {
                    out.push_str("<ol start=\"");
                    push_decimal_u64(out, *start);
                    out.push_str("\">\n");
                }
                self.end_newline = true;
            },
            MdTag::List(None) => {
                if !en {
                    out.push_str("\n");
                }
                out.push_str("<ul>\n");
                self.end_newline = true;
            },
            MdTag::Item => {
                if !en {
                    out.push_str("\n");
                }
                out.push_str("<li>");
                self.end_newline = false;
            },
            MdTag::Emphasis => {
                out.push_str("<em>");
                self.end_newline = false;
            },
            MdTag::Strong => {
                out.push_str("<strong>");
                self.end_newline = false;
            },
            MdTag::Strikethrough => {
                out.push_str("<del>");
                self.end_newline = false;
            },
            MdTag::Link(ty, dest, title) => {
                out.push_str("<a href=\"");
                if *ty == MdLinkType::Email {
                    out.push_str("mailto:");
                }
                escape_href(out, dest.as_str());
                if !title.as_str().is_empty() {
                    out.push_str("\" title=\"");
                    escape_html(out, title.as_str());
                }
                out.push_str("\">");
                self.end_newline = false;
            },
            MdTag::Image(_, _) => {},
            MdTag::FootnoteDefinition(name) => {
                if !en {
                    out.push_str("\n");
                }
                out.push_str("<div class=\"footnote-definition\" id=\"");
                escape_html(out, name.as_str());
                out.push_str("\"><sup class=\"footnote-definition-label\">");
                let n = self.footnote(name);
                push_decimal(out, n);
                out.push_str("</sup>");
                self.end_newline = false;
            },
        }
        proof {
            assert(out@ =~= old(out)@ + start_out(ctx, old(self).state(), *tag).0);
            assert(self.state().footnotes =~= start_out(ctx, old(self).state(), *tag).1.footnotes);
            assert(self.state().alignments =~= start_out(ctx, old(self).state(), *tag).1.alignments);
        }
    }
}

impl MdWriter {
    /// Appends the closing of `tag`.
    #[verifier::rlimit(60)]
    fn end_tag(&mut self, out: &mut String, tag: &MdTag)
        requires
            old(self).cell < usize::MAX,
            event_fits(MdEvent::End(*tag)),
        ensures
            final(out)@ == old(out)@ + end_out(old(self).state(), *tag).0,
            final(self).state() == end_out(old(self).state(), *tag).1,
            final(self).footnotes == old(self).footnotes,
            final(self).cell <= old(self).cell + 1,
            old(self).info_fits() ==> final(self).info_fits(),
    {
        match tag {
            MdTag::Paragraph => {
                out.push_str("</p>\n");
                self.end_newline = true;
            },
            MdTag::Heading(level, _, _) => {
                out.push_str("</");
                out.push_str("h");
                push_decimal(out, *level as usize);
                out.push_str(">\n");
                self.end_newline = true;
            },
            MdTag::Table(_) => {
                out.push_str("</tbody></table>\n");
                self.end_newline = true;
            },
            MdTag::TableHead => {
                out.push_str("</tr></thead><tbody>\n");
                self.table_body = true;
                self.end_newline = true;
            },
            MdTag::TableRow => {
                out.push_str("</tr>\n");
                self.end_newline = true;
            },
            MdTag::TableCell => {
                if self.table_body {
                    out.push_str("</td>");
                } else {
                    out.push_str("</th>");
                }
                self.cell = self.cell + 1;
                self.end_newline = false;
            },
            MdTag::BlockQuote => {
                out.push_str("</blockquote>\n");
                self.end_newline = true;
            },
            MdTag::CodeBlock(kind) => {
                match kind {
                    MdCodeBlockKind::Fenced(info) => {
                        let mode = CodeBlockMode::parse(info.as_str());
                        match mode {
                            CodeBlockMode::LiterateProgram { .. } => out.push_str("</pre></th-literate-program>"),
                            _ => out.push_str("</code></pre>"),
                        }
                        self.end_newline = false;
                    },
                    MdCodeBlockKind::Indented => {
                        out.push_str("</code></pre>\n");
                        self.end_newline = true;
                    },
                }
                self.code_block = None;
            },
            MdTag::List(Some(_)) => {
                out.push_str("</ol>\n");
                self.end_newline = true;
            },
            MdTag::List(None) => {
                out.push_str("</ul>\n");
                self.end_newline = true;
            },
            MdTag::Item => {
                out.push_str("</li>\n");
                self.end_newline = true;
            },
            MdTag::Emphasis => {
                out.push_str("</em>");
                self.end_newline = false;
            },
            MdTag::Strong => {
                out.push_str("</strong>");
                self.end_newline = false;
            },
            MdTag::Strikethrough => {
                out.push_str("</del>");
                self.end_newline = false;
            },
            MdTag::Link(_, _, _) => {
                out.push_str("</a>");
                self.end_newline = false;
            },
            MdTag::Image(_, _) => {},
            MdTag::FootnoteDefinition(_) => {
                out.push_str("</div>\n");
                self.end_newline = true;
            },
        }
        proof {
            assert(out@ =~= old(out)@ + end_out(old(self).state(), *tag).0);
        }
    }

    /// Appends the `alt` text of the events from `start` on, up to the end of the element
    /// that is open, and returns where it stopped: after that end.
    fn raw_text(&mut self, out: &mut String, evs: &Vec<MdEvent>, start: usize) -> (j: usize)
        requires
            old(self).footnotes@.len() <= start,
            start <= evs@.len(),
        ensures
            final(out)@ == old(out)@ + raw_from(old(self).state(), evs@, start as int, 0).0,
            final(self).state() == raw_from(old(self).state(), evs@, start as int, 0).1,
            j == raw_from(old(self).state(), evs@, start as int, 0).2,
            start <= j <= evs@.len(),
            final(self).footnotes@.len() <= j,
            final(self).cell == old(self).cell,
            final(self).code_block == old(self).code_block,
    {
        let ghost st0 = self.state();
        let ghost out0 = out@;
        let mut i = start;
        let mut nest: usize = 0;
        while i < evs.len()
            invariant
                start <= i <= evs@.len(),
                nest <= i - start,
                out0 == old(out)@,
                st0 == old(self).state(),
                self.footnotes@.len() <= i,
                self.cell == old(self).cell,
                self.code_block == old(self).code_block,
                ({
                    let r = raw_from(self.state(), evs@, i as int, nest as nat);
                    let r0 = raw_from(st0, evs@, start as int, 0);
                    out@ + r.0 == out0 + r0.0 && r.1 == r0.1 && r.2 == r0.2
                }),
            decreases evs@.len() - i,
        {
            let ghost before = out@;
            let ghost st = self.state();
            match &evs[i] {
                MdEvent::Start(_) => {
                    nest = nest + 1;
                },
                MdEvent::End(_) => {
                    if nest == 0 {
                        proof {
                            assert(raw_from(st, evs@, i as int, 0) == (Seq::<char>::empty(), st, i + 1));
                            assert(out@ + Seq::<char>::empty() =~= out@);
                        }
                        return i + 1;
                    }
                    nest = nest - 1;
                },
                MdEvent::Html(t) | MdEvent::Code(t) | MdEvent::Text(t) => {
                    escape_html(out, t.as_str());
                    self.end_newline = str_ends_with(t.as_str(), "\n");
                },
                MdEvent::SoftBreak | MdEvent::HardBreak | MdEvent::Rule => {
                    out.push_str(" ");
                    self.end_newline = false;
                },
                MdEvent::FootnoteReference(name) => {
                    let n = self.footnote(name);
                    out.push_str("[");
                    push_decimal(out, n);
                    out.push_str("]");
                },
                MdEvent::TaskListMarker(checked) => {
                    if *checked {
                        out.push_str("[x]");
                    } else {
                        out.push_str("[ ]");
                    }
                    self.end_newline = false;
                },
            }
            proof {
                match evs@[i as int] {
                    MdEvent::Start(_) => {},
                    MdEvent::End(_) => {},
                    e => {
                        let (piece, next) = raw_piece(st, e);
                        assert(out@ == before + piece);
                        assert(self.state() == next);
                        let r = raw_from(next, evs@, i + 1, nest as nat);
                        assert(raw_from(st, evs@, i as int, nest as nat) == (piece + r.0, r.1, r.2));
                        assert(out@ + r.0 =~= before + (piece + r.0));
                    },
                }
            }
            i = i + 1;
        }
        proof {
            assert(out@ + Seq::<char>::empty() =~= out@);
        }
        i
    }
}

impl MdWriter {
    /// Appends the HTML of an event that neither opens nor closes an element.
    #[verifier::rlimit(40)]
    fn simple_event(&mut self, out: &mut String, ctx: MdContext, e: &MdEvent)
        requires
            !(e is Start),
            !(e is End),
            context_ok(ctx),
            event_fits(*e),
            old(self).info_fits(),
            old(self).footnotes@.len() < usize::MAX,
        ensures
            final(out)@ == old(out)@ + event_out(ctx, old(self).state(), *e).0,
            final(self).state() == event_out(ctx, old(self).state(), *e).1,
            final(self).info_fits(),
            final(self).cell == old(self).cell,
            final(self).footnotes@.len() <= old(self).footnotes@.len() + 1,
    {
        match e {
            MdEvent::Text(text) => {
                self.run_text(out, ctx, text.as_str());
                self.end_newline = str_ends_with(text.as_str(), "\n");
            },
            MdEvent::Code(text) => {
                out.push_str("<code>");
                escape_html(out, text.as_str());
                out.push_str("</code>");
                self.end_newline = false;
            },
            MdEvent::Html(html) => {
                out.push_str(html.as_str());
                if !html.as_str().is_empty() {
                    self.end_newline = str_ends_with(html.as_str(), "\n");
                }
            },
            MdEvent::SoftBreak => {
                out.push_str("\n");
                self.end_newline = true;
            },
            MdEvent::HardBreak => {
                out.push_str("<br />\n");
                self.end_newline = true;
            },
            MdEvent::Rule => {
                if !self.end_newline {
                    out.push_str("\n");
                }
                out.push_str("<hr />\n");
                self.end_newline = true;
            },
            MdEvent::FootnoteReference(name) => {
                out.push_str("<sup class=\"footnote-reference\"><a href=\"#");
                escape_html(out, name.as_str());
                out.push_str("\">");
                let n = self.footnote(name);
                push_decimal(out, n);
                out.push_str("</a></sup>");
                self.end_newline = false;
            },
            MdEvent::TaskListMarker(checked) => {
                if *checked {
                    out.push_str("<input disabled=\"\" type=\"checkbox\" checked=\"\"/>\n");
                } else {
                    out.push_str("<input disabled=\"\" type=\"checkbox\"/>\n");
                }
                self.end_newline = true;
            },
            _ => {},
        }
        proof {
            assert(out@ =~= old(out)@ + event_out(ctx, old(self).state(), *e).0);
        }
    }

    /// Appends a picture whose start is event `i`, with its `alt` text from the events after
    /// it, and returns where the events go on after the picture.
    fn image(&mut self, out: &mut String, evs: &Vec<MdEvent>, i: usize, dest: &String, title: &String) -> (j: usize)
        requires
            i < evs@.len(),
            old(self).footnotes@.len() <= i,
        ensures
            final(out)@ == old(out)@ + image_open(*dest) + raw_from(old(self).state(), evs@, i + 1, 0).0
                + image_close(*title),
            final(self).state() == (MdState { end_newline: false, ..raw_from(old(self).state(), evs@, i + 1, 0).1 }),
            j == raw_from(old(self).state(), evs@, i + 1, 0).2,
            i < j <= evs@.len(),
            final(self).footnotes@.len() <= j,
            final(self).cell == old(self).cell,
            final(self).code_block == old(self).code_block,
    {
        out.push_str("<img class=\"pic\" src=\"");
        escape_href(out, dest.as_str());
        out.push_str("\" alt=\"");
        let ghost opened = out@;
        let n = evs.len();
        assert(i + 1 <= n);
        let j = self.raw_text(out, evs, i + 1);
        let ghost after_alt = out@;
        if !title.as_str().is_empty() {
            out.push_str("\" title=\"");
            escape_html(out, title.as_str());
        }
        out.push_str("\" />");
        self.end_newline = false;
        proof {
            assert(out@ =~= after_alt + image_close(*title));
            assert(opened =~= old(out)@ + image_open(*dest));
        }
        j
    }
}

/// Appends the HTML of the Markdown events `evs` to `out`.
#[verifier::rlimit(60)]
pub fn push_html(out: &mut String, ctx: MdContext, evs: &Vec<MdEvent>)
    requires
        context_ok(ctx),
    ensures
        final(out)@ == old(out)@ + render_from(ctx, initial_state(), evs@, 0),
{
    let mut w = MdWriter {
        end_newline: true,
        table_body: false,
        alignments: Vec::new(),
        cell: 0,
        footnotes: Vec::new(),
        code_block: None,
    };
    proof {
        assert(w.state().footnotes =~= Seq::<Seq<char>>::empty());
        assert(w.state().alignments =~= Seq::<ColumnAlignment>::empty());
    }
    let ghost out0 = out@;
    let mut i: usize = 0;
    while i < evs.len()
        invariant
            i <= evs@.len(),
            context_ok(ctx),
            w.footnotes@.len() <= i,
            w.cell <= i,
            w.info_fits(),
            out0 == old(out)@,
            out@ + render_from(ctx, w.state(), evs@, i as int) == out0 + render_from(ctx, initial_state(), evs@, 0),
        decreases evs@.len() - i,
    {
        let ghost before = out@;
        let ghost st = w.state();
        let ghost e = evs@[i as int];
        event_fits_check(&evs[i]);
        let next = match &evs[i] {
            MdEvent::Start(MdTag::Image(dest, title)) => {
                let j = w.image(out, evs, i, dest, title);
                proof {
                    let r = raw_from(st, evs@, i + 1, 0);
                    assert(render_from(ctx, st, evs@, i as int) == image_open(*dest) + r.0 + image_close(*title)
                        + render_from(ctx, w.state(), evs@, j as int));
                    assert(out@ + render_from(ctx, w.state(), evs@, j as int) =~= before + render_from(
                        ctx,
                        st,
                        evs@,
                        i as int,
                    ));
                }
                j
            },
            MdEvent::Start(tag) => {
                w.start_tag(out, ctx, tag);
                proof {
                    assert(render_from(ctx, st, evs@, i as int) == event_out(ctx, st, e).0 + render_from(
                        ctx,
                        w.state(),
                        evs@,
                        i + 1,
                    ));
                    assert(out@ + render_from(ctx, w.state(), evs@, i + 1) =~= before + render_from(
                        ctx,
                        st,
                        evs@,
                        i as int,
                    ));
                }
                i + 1
            },
            MdEvent::End(tag) => {
                w.end_tag(out, tag);
                proof {
                    assert(render_from(ctx, st, evs@, i as int) == event_out(ctx, st, e).0 + render_from(
                        ctx,
                        w.state(),
                        evs@,
                        i + 1,
                    ));
                    assert(out@ + render_from(ctx, w.state(), evs@, i + 1) =~= before + render_from(
                        ctx,
                        st,
                        evs@,
                        i as int,
                    ));
                }
                i + 1
            },
            other => {
                w.simple_event(out, ctx, other);
                proof {
                    assert(render_from(ctx, st, evs@, i as int) == event_out(ctx, st, e).0 + render_from(
                        ctx,
                        w.state(),
                        evs@,
                        i + 1,
                    ));
                    assert(out@ + render_from(ctx, w.state(), evs@, i + 1) =~= before + render_from(
                        ctx,
                        st,
                        evs@,
                        i as int,
                    ));
                }
                i + 1
            },
        };
        i = next;
    }
    proof {
        assert(out@ + Seq::<char>::empty() =~= out@);
    }
}

/// Where a broken link of a Markdown text, written as `link_type`, points: a reference or
/// shortcut link whose reference is `kind:name` points where `reference_target` says; other
/// links stay broken.
pub fn broken_link_target(config: &Config, treehouse: &Treehouse, link_type: MdLinkType, reference: &str) -> (target:
    Option<String>)
    ensures
        match (if link_type == MdLinkType::Reference || link_type == MdLinkType::Shortcut {
            reference_target(*config, treehouse, reference@)
        } else {
            None
        }) {
            Some(t) => target matches Some(s) && s@ == t,
            None => target is None,
        },
{
    if link_type == MdLinkType::Reference || link_type == MdLinkType::Shortcut {
        resolve_reference(config, treehouse, reference)
    } else {
        None
    }
}

#[verifier::external_type_specification]
#[verifier::external_body]
pub struct ExCmarkEvent<'a>(pulldown_cmark::Event<'a>);

#[verifier::external_type_specification]
#[verifier::external_body]
pub struct ExCmarkTag<'a>(pulldown_cmark::Tag<'a>);

#[verifier::external_type_specification]
#[verifier::external_body]
pub struct ExCmarkCodeBlockKind<'a>(pulldown_cmark::CodeBlockKind<'a>);

#[verifier::external_type_specification]
#[verifier::external_body]
pub struct ExCmarkAlignment(pulldown_cmark::Alignment);

#[verifier::external_type_specification]
#[verifier::external_body]
pub struct ExCmarkLinkType(pulldown_cmark::LinkType);

/// `pulldown_cmark::Alignment` as the library's alignment, variant for variant.
#[verifier::external_body]
fn cmark_alignment(a: pulldown_cmark::Alignment) -> ColumnAlignment {
    match a {
        pulldown_cmark::Alignment::None => ColumnAlignment::Unspecified,
        pulldown_cmark::Alignment::Left => ColumnAlignment::Left,
        pulldown_cmark::Alignment::Center => ColumnAlignment::Center,
        pulldown_cmark::Alignment::Right => ColumnAlignment::Right,
    }
}

/// `pulldown_cmark::CodeBlockKind` as the library's, with the info string copied.
#[verifier::external_body]
fn cmark_code_block_kind(kind: pulldown_cmark::CodeBlockKind<'_>) -> MdCodeBlockKind {
    match kind {
        pulldown_cmark::CodeBlockKind::Indented => MdCodeBlockKind::Indented,
        pulldown_cmark::CodeBlockKind::Fenced(info) => MdCodeBlockKind::Fenced(info.to_string()),
    }
}

/// `pulldown_cmark::LinkType` as the library's, variant for variant.
#[verifier::external_body]
fn cmark_link_type(t: pulldown_cmark::LinkType) -> MdLinkType {
    match t {
        pulldown_cmark::LinkType::Inline => MdLinkType::Inline,
        pulldown_cmark::LinkType::Reference => MdLinkType::Reference,
        pulldown_cmark::LinkType::ReferenceUnknown => MdLinkType::ReferenceUnknown,
        pulldown_cmark::LinkType::Collapsed => MdLinkType::Collapsed,
        pulldown_cmark::LinkType::CollapsedUnknown => MdLinkType::CollapsedUnknown,
        pulldown_cmark::LinkType::Shortcut => MdLinkType::Shortcut,
        pulldown_cmark::LinkType::ShortcutUnknown => MdLinkType::ShortcutUnknown,
        pulldown_cmark::LinkType::Autolink => MdLinkType::Autolink,
        pulldown_cmark::LinkType::Email => MdLinkType::Email,
    }
}

/// The inline and table tags of `pulldown_cmark::Tag` as the library's, fields copied.
/// `cmark_tag` hands no other tag here; the last arm stands for the block tags that it
/// converts itself.
#[verifier::external_body]
fn cmark_inline_tag(tag: pulldown_cmark::Tag<'_>) -> MdTag {
    match tag {
        pulldown_cmark::Tag::TableHead => MdTag::TableHead,
        pulldown_cmark::Tag::TableRow => MdTag::TableRow,
        pulldown_cmark::Tag::TableCell => MdTag::TableCell,
        pulldown_cmark::Tag::Emphasis => MdTag::Emphasis,
        pulldown_cmark::Tag::Strong => MdTag::Strong,
        pulldown_cmark::Tag::Strikethrough => MdTag::Strikethrough,
        pulldown_cmark::Tag::Link(ty, d, t) => MdTag::Link(cmark_link_type(ty), d.to_string(), t.to_string()),
        pulldown_cmark::Tag::Image(_, d, t) => MdTag::Image(d.to_string(), t.to_string()),
        _ => MdTag::Paragraph,
    }
}

/// `pulldown_cmark::Tag` as the library's tag, fields copied; a heading's level becomes its
/// number.
#[verifier::external_body]
fn cmark_tag(tag: pulldown_cmark::Tag<'_>) -> MdTag {
    match tag {
        pulldown_cmark::Tag::Paragraph => MdTag::Paragraph,
        pulldown_cmark::Tag::Heading(l, id, cs) => MdTag::Heading(l as u8, id.map(String::from), cs.into_iter().map(String::from).collect()),
        pulldown_cmark::Tag::BlockQuote => MdTag::BlockQuote,
        pulldown_cmark::Tag::CodeBlock(k) => MdTag::CodeBlock(cmark_code_block_kind(k)),
        pulldown_cmark::Tag::List(start) => MdTag::List(start),
        pulldown_cmark::Tag::Item => MdTag::Item,
        pulldown_cmark::Tag::FootnoteDefinition(n) => MdTag::FootnoteDefinition(n.to_string()),
        pulldown_cmark::Tag::Table(a) => MdTag::Table(a.into_iter().map(cmark_alignment).collect()),
        other => cmark_inline_tag(other),
    }
}

/// `pulldown_cmark::Event` as the library's event, fields copied.
#[verifier::external_body]
fn cmark_event(event: pulldown_cmark::Event<'_>) -> MdEvent {
    match event {
        pulldown_cmark::Event::Start(tag) => MdEvent::Start(cmark_tag(tag)),
        pulldown_cmark::Event::End(tag) => MdEvent::End(cmark_tag(tag)),
        pulldown_cmark::Event::Text(t) => MdEvent::Text(t.to_string()),
        pulldown_cmark::Event::Code(t) => MdEvent::Code(t.to_string()),
        pulldown_cmark::Event::Html(t) => MdEvent::Html(t.to_string()),
        pulldown_cmark::Event::FootnoteReference(t) => MdEvent::FootnoteReference(t.to_string()),
        pulldown_cmark::Event::SoftBreak => MdEvent::SoftBreak,
        pulldown_cmark::Event::HardBreak => MdEvent::HardBreak,
        pulldown_cmark::Event::Rule => MdEvent::Rule,
        pulldown_cmark::Event::TaskListMarker(c) => MdEvent::TaskListMarker(c),
    }
}

/// The targets that broken reference and shortcut links get, by their reference; other broken
/// links get none.
pub open spec fn link_targets(config: Config, treehouse: &Treehouse) -> Map<Seq<char>, Seq<char>> {
    Map::new(
        |r: Seq<char>| reference_target(config, treehouse, r) is Some,
        |r: Seq<char>| reference_target(config, treehouse, r)->Some_0,
    )
}

/// What pulldown-cmark, with strikethrough and tables on, reads in the Markdown text `markup`
/// when a broken reference or shortcut link gets the target that `targets` holds for its
/// reference, and other broken links none: its events, as the library's events.
pub uninterp spec fn cmark_parse(markup: Seq<char>, targets: Map<Seq<char>, Seq<char>>) -> Seq<MdEvent>;

/// `pulldown_cmark::Parser::new_with_broken_link_callback` with strikethrough and tables on:
/// the events of the Markdown text `markup`, converted to the library's, where a broken link
/// gets the target that `broken_link_target` gives it. The events are named, not stated: they
/// are pulldown-cmark's reading of the text, which depends on the text and on the targets of
/// its broken links alone.
#[verifier::external_body]
fn markdown_events(markup: &str, config: &Config, treehouse: &Treehouse) -> (evs: Vec<MdEvent>)
    ensures
        evs@ == cmark_parse(markup@, link_targets(*config, treehouse)),
{
    let mut callback = |link: pulldown_cmark::BrokenLink<'_>| {
        broken_link_target(config, treehouse, cmark_link_type(link.link_type), &link.reference).map(|t| (t.into(), "".into()))
    };
    let options = pulldown_cmark::Options::ENABLE_STRIKETHROUGH | pulldown_cmark::Options::ENABLE_TABLES;
    pulldown_cmark::Parser::new_with_broken_link_callback(markup, options, Some(&mut callback)).map(cmark_event).collect()
}

/// Appends the HTML of the Markdown text `markup`: the events that pulldown-cmark reads in it,
/// with broken reference links resolved by the context, are written as `push_html` writes
/// them.
pub fn markdown_to_html(out: &mut String, ctx: MdContext, markup: &str)
    requires
        context_ok(ctx),
    ensures
        final(out)@ == old(out)@ + render_from(
            ctx,
            initial_state(),
            cmark_parse(markup@, link_targets(*ctx.config, ctx.treehouse)),
            0,
        ),
{
    let evs = markdown_events(markup, ctx.config, ctx.treehouse);
    push_html(out, ctx, &evs);
}

} // verus!
