//! The HTML writer for Djot branches: it turns the events of a Djot parse into HTML, as
//! jotdown's own writer does, with the treehouse's additions: highlighted and literate code
//! blocks, `:emoji:` symbols and `kind:name` links. Djot footnotes are reported, not written.
use std::ops::Range;
use vstd::prelude::*;
use vstd::string::*;

use crate::branch_markup::{first_colon, lemma_first_colon_found, lemma_first_colon_none};
use crate::escape::{djot_entity, flat_map_chars, write_attr, write_text};
use crate::highlight::{
    highlight_html, lemma_highlight_html_view, lemma_tokenization_view, try_highlight, CompiledSyntax,
};
use crate::markdown::{context_ok, size_of, ColumnAlignment, MdContext};
use crate::text::{chars_of, decimal, push_decimal, push_decimal_u64, slice_chars, str_equal, string_of};

verus! {

/// How an ordered list numbers its items.
#[derive(Debug, Clone, Copy, PartialEq, Eq, Structural)]
pub enum DjNumbering {
    Decimal,
    AlphaLower,
    AlphaUpper,
    RomanLower,
    RomanUpper,
}

/// The kind of a list: bulleted, of tasks, or numbered from a number.
#[derive(Debug, Clone, Copy, PartialEq, Eq, Structural)]
pub enum DjListKind {
    Unordered,
    Task,
    Ordered(DjNumbering, u64),
}

/// How a link or picture in brackets was written: with its address inline, as a reference
/// that the document defines, or as a reference that it does not.
#[derive(Debug, Clone, Copy, PartialEq, Eq, Structural)]
pub enum DjSpanLinkType {
    Inline,
    Reference,
    Unresolved,
}

/// How a link was written: in brackets, as an address in angle brackets, or as an e-mail
/// address in angle brackets.
#[derive(Debug, Clone, Copy, PartialEq, Eq, Structural)]
pub enum DjLinkType {
    Span(DjSpanLinkType),
    AutoLink,
    Email,
}

/// An element that Djot opens and closes, with what the writer reads of it.
#[derive(Debug, Clone)]
pub enum DjContainer {
    Blockquote,
    List(DjListKind, bool),
    ListItem,
    TaskListItem(bool),
    DescriptionList,
    DescriptionDetails,
    Footnote,
    Table,
    TableRow,
    Section,
    Div(String),
    Paragraph,
    Heading(u16),
    /// A table cell: its alignment and whether it is a heading cell.
    TableCell(ColumnAlignment, bool),
    Caption,
    DescriptionTerm,
    LinkDefinition,
    RawBlock(String),
    CodeBlock(String),
    Span,
    Link(String, DjLinkType),
    /// A picture: its source, and whether that is a reference the document does not define.
    Image(String, DjSpanLinkType),
    Verbatim,
    Math(bool),
    RawInline(String),
    Subscript,
    Superscript,
    Insert,
    Delete,
    Strong,
    Emphasis,
    Mark,
}

/// An event of a Djot parse. Attributes are pairs of a key and a value.
#[derive(Debug, Clone)]
pub enum DjEvent {
    Start(DjContainer, Vec<(String, String)>),
    End(DjContainer),
    Str(String),
    FootnoteReference,
    Symbol(String),
    LeftSingleQuote,
    RightSingleQuote,
    LeftDoubleQuote,
    RightDoubleQuote,
    Ellipsis,
    EnDash,
    EmDash,
    NonBreakingSpace,
    Softbreak,
    Hardbreak,
    Escape,
    Blankline,
    ThematicBreak(Vec<(String, String)>),
}

/// Whether raw text is being written, and in which format.
#[derive(Debug, Clone, Copy, PartialEq, Eq, Structural)]
pub enum Raw {
    Plain,
    Html,
    Other,
}

/// What kind of code block is open, as the contracts see it.
pub enum CodeKindView {
    PlainText,
    SyntaxHighlight,
    /// A literate program's block: the program's name and its placeholder picture.
    Literate(Seq<char>, Option<Seq<char>>),
}

/// The writer's state as the contracts see it.
pub struct DjState {
    pub raw: Raw,
    pub code_block: Option<(CodeKindView, Seq<char>)>,
    pub img_alt: nat,
    pub tight: Seq<bool>,
    pub not_first_line: bool,
    pub ignore: bool,
}

/// `s` escaped for an attribute value.
pub open spec fn attr(s: Seq<char>) -> Seq<char> {
    flat_map_chars(s, |c: char| djot_entity(true, c))
}

/// `s` escaped for an element's content.
pub open spec fn text(s: Seq<char>) -> Seq<char> {
    flat_map_chars(s, |c: char| djot_entity(false, c))
}

/// The value of the first attribute named `key`.
pub open spec fn attr_value(attrs: Seq<(String, String)>, key: Seq<char>) -> Option<Seq<char>>
    decreases attrs.len(),
{
    if attrs.len() == 0 {
        None
    } else if attrs[0].0@ == key {
        Some(attrs[0].1@)
    } else {
        attr_value(attrs.drop_first(), key)
    }
}

/// Block elements, before which a line break goes when the output has a line already.
pub open spec fn is_block(c: DjContainer) -> bool {
    match c {
        DjContainer::Blockquote | DjContainer::List(_, _) | DjContainer::ListItem | DjContainer::TaskListItem(_)
        | DjContainer::DescriptionList | DjContainer::DescriptionDetails | DjContainer::Footnote
        | DjContainer::Table | DjContainer::TableRow | DjContainer::Section | DjContainer::Div(_)
        | DjContainer::Paragraph | DjContainer::Heading(_) | DjContainer::TableCell(_, _) | DjContainer::Caption
        | DjContainer::DescriptionTerm | DjContainer::LinkDefinition | DjContainer::RawBlock(_)
        | DjContainer::CodeBlock(_) => true,
        _ => false,
    }
}

/// Block elements that hold blocks, after which a line break goes.
pub open spec fn is_block_container(c: DjContainer) -> bool {
    match c {
        DjContainer::Blockquote | DjContainer::List(_, _) | DjContainer::ListItem | DjContainer::TaskListItem(_)
        | DjContainer::DescriptionList | DjContainer::DescriptionDetails | DjContainer::Footnote
        | DjContainer::Table | DjContainer::TableRow | DjContainer::Section | DjContainer::Div(_) => true,
        _ => false,
    }
}

/// Where a Djot link `kind:name` points: a definition, a branch by its id, a page, or the
/// address of a picture's file.
pub open spec fn dj_link_target(ctx: MdContext, link: Seq<char>) -> Option<Seq<char>> {
    match first_colon(link) {
        None => None,
        Some(i) => {
            let kind = link.take(i);
            let name = link.skip(i + 1);
            if kind == "def"@ {
                ctx.config.defs.get_spec(name)
            } else if kind == "branch"@ {
                match ctx.treehouse.branches_by_named_id.get_spec(name) {
                    Some(id) => Some(
                        ctx.config.site@ + "/b?"@ + ctx.treehouse.tree.branches_spec()[id.0 as int].attributes.id@,
                    ),
                    None => None,
                }
            } else if kind == "page"@ {
                Some(ctx.config.page_url_spec(name))
            } else if kind == "pic"@ {
                match ctx.config.pics.get_spec(name) {
                    Some(file) => match ctx.data.static_urls.get_spec("pic/"@ + file) {
                        Some(url) => Some(url@),
                        None => None,
                    },
                    None => None,
                }
            } else {
                None
            }
        },
    }
}

/// The opening of a start tag for `c`, the state after it, and whether the tag goes on
/// (with attributes and its end); none where the element cannot be written.
pub open spec fn start_head(ctx: MdContext, st: DjState, c: DjContainer, attrs: Seq<(String, String)>) -> Option<
    (Seq<char>, DjState, bool),
> {
    match c {
        DjContainer::Blockquote => Some(("<blockquote"@, st, true)),
        DjContainer::List(kind, tight) => {
            let st2 = DjState { tight: st.tight.push(tight), ..st };
            match kind {
                DjListKind::Ordered(numbering, start) => Some((
                    "<ol"@ + (if start > 1 {
                        " start=\""@ + decimal(start as nat) + "\""@
                    } else {
                        Seq::empty()
                    }) + match numbering {
                        DjNumbering::Decimal => Seq::empty(),
                        DjNumbering::AlphaLower => " type=\"a\""@,
                        DjNumbering::AlphaUpper => " type=\"A\""@,
                        DjNumbering::RomanLower => " type=\"i\""@,
                        DjNumbering::RomanUpper => " type=\"I\""@,
                    },
                    st2,
                    true,
                )),
                _ => Some(("<ul"@, st2, true)),
            }
        },
        DjContainer::ListItem | DjContainer::TaskListItem(_) => Some(("<li"@, st, true)),
        DjContainer::DescriptionList => Some(("<dl"@, st, true)),
        DjContainer::DescriptionDetails => Some(("<dd"@, st, true)),
        DjContainer::Footnote => None,
        DjContainer::Table => Some(("<table"@, st, true)),
        DjContainer::TableRow => Some(("<tr"@, st, true)),
        DjContainer::Section => Some((Seq::empty(), st, true)),
        DjContainer::Div(_) => Some(("<div"@, st, true)),
        DjContainer::Paragraph => if st.tight.len() > 0 && st.tight.last() {
            Some((Seq::empty(), st, false))
        } else {
            Some(("<p"@, st, true))
        },
        DjContainer::Heading(level) => Some(("<h"@ + decimal(level as nat), st, true)),
        DjContainer::TableCell(_, head) => Some((if head {
            "<th"@
        } else {
            "<td"@
        }, st, true)),
        DjContainer::Caption => Some(("<caption"@, st, true)),
        DjContainer::DescriptionTerm => Some(("<dt"@, st, true)),
        DjContainer::CodeBlock(language) => match attr_value(attrs, ":program"@) {
            Some(program) => Some((
                "<th-literate-program"@,
                DjState {
                    code_block: Some((CodeKindView::Literate(program, attr_value(attrs, ":placeholder"@)), language@)),
                    ..st
                },
                true,
            )),
            None => Some((
                "<pre"@,
                DjState {
                    code_block: Some((
                        if ctx.syntaxes.get_spec(language@) is Some {
                            CodeKindView::SyntaxHighlight
                        } else {
                            CodeKindView::PlainText
                        },
                        language@,
                    )),
                    ..st
                },
                true,
            )),
        },
        DjContainer::Span | DjContainer::Math(_) => Some(("<span"@, st, true)),
        DjContainer::Link(dst, ty) => Some((
            match ty {
                DjLinkType::Span(DjSpanLinkType::Unresolved) => "<a"@ + match dj_link_target(ctx, dst@) {
                    Some(r) => " href=\""@ + attr(r) + "\""@,
                    None => Seq::empty(),
                },
                DjLinkType::Email => "<a href=\""@ + "mailto:"@ + attr(dst@) + "\""@,
                DjLinkType::Span(_) | DjLinkType::AutoLink => "<a href=\""@ + attr(dst@) + "\""@,
            },
            st,
            true,
        )),
        DjContainer::Image(_, _) => {
            let st2 = DjState { img_alt: st.img_alt + 1, ..st };
            if st2.img_alt == 1 {
                Some(("<img class=\"pic\""@, st2, true))
            } else {
                Some((Seq::empty(), st2, false))
            }
        },
        DjContainer::Verbatim => Some(("<code"@, st, true)),
        DjContainer::RawBlock(format) | DjContainer::RawInline(format) => Some((
            Seq::empty(),
            DjState {
                raw: if format@ == "html"@ {
                    Raw::Html
                } else {
                    Raw::Other
                },
                ..st
            },
            false,
        )),
        DjContainer::Subscript => Some(("<sub"@, st, true)),
        DjContainer::Superscript => Some(("<sup"@, st, true)),
        DjContainer::Insert => Some(("<ins"@, st, true)),
        DjContainer::Delete => Some(("<del"@, st, true)),
        DjContainer::Strong => Some(("<strong"@, st, true)),
        DjContainer::Emphasis => Some(("<em"@, st, true)),
        DjContainer::Mark => Some(("<mark"@, st, true)),
        DjContainer::LinkDefinition => Some((Seq::empty(), st, false)),
    }
}

/// Whether the attribute key `k` is written as an attribute of its own: not `class`, and not
/// one of the writer's own keys, which start with `:`.
pub open spec fn plain_key(k: Seq<char>) -> bool {
    !(k == "class"@ || (k.len() > 0 && k[0] == ':'))
}

/// ` key="value"` for each attribute that passes `keep`, in order.
pub open spec fn attrs_html(attrs: Seq<(String, String)>, all: bool) -> Seq<char>
    decreases attrs.len(),
{
    if attrs.len() == 0 {
        Seq::empty()
    } else {
        attrs_html(attrs.drop_last(), all) + if all || plain_key(attrs.last().0@) {
            " "@ + attrs.last().0@ + "=\""@ + attr(attrs.last().1@) + "\""@
        } else {
            Seq::empty()
        }
    }
}

/// Keeps the attributes whose keys are written as attributes of their own.
pub open spec fn plain_attributes() -> spec_fn((String, String)) -> bool {
    |a: (String, String)| plain_key(a.0@)
}

/// A start tag writes only the attributes with plain keys: one whose key starts with `:`,
/// which the writer keeps for itself, or is `class`, never stands as an attribute of its own;
/// the others stand in their order.
pub proof fn law_reserved_keys_not_written(attrs: Seq<(String, String)>)
    ensures
        attrs_html(attrs, false) == attrs_html(attrs.filter(plain_attributes()), true),
    decreases attrs.len(),
{
    reveal(Seq::filter);
    if attrs.len() > 0 {
        law_reserved_keys_not_written(attrs.drop_last());
        let kept = attrs.filter(plain_attributes());
        if plain_key(attrs.last().0@) {
            assert(kept == attrs.drop_last().filter(plain_attributes()).push(attrs.last()));
            assert(kept.drop_last() =~= attrs.drop_last().filter(plain_attributes()));
        } else {
            assert(kept == attrs.drop_last().filter(plain_attributes()));
        }
    }
}

/// The class that the element itself brings.
pub open spec fn own_class(c: DjContainer) -> Option<Seq<char>> {
    match c {
        DjContainer::List(DjListKind::Task, _) => Some("task-list"@),
        DjContainer::TaskListItem(checked) => Some(if checked {
            "checked"@
        } else {
            "unchecked"@
        }),
        DjContainer::Math(display) => Some(if display {
            "math display"@
        } else {
            "math inline"@
        }),
        _ => None,
    }
}

/// Whether some attribute is a class.
pub open spec fn has_class_attr(attrs: Seq<(String, String)>) -> bool {
    exists|k: int| 0 <= k < attrs.len() && attrs[k].0@ == "class"@
}

/// The class attributes' values, escaped, each after a space unless nothing came before.
pub open spec fn class_values(attrs: Seq<(String, String)>, first: bool) -> (Seq<char>, bool)
    decreases attrs.len(),
{
    if attrs.len() == 0 {
        (Seq::empty(), first)
    } else {
        let (before, written) = class_values(attrs.drop_last(), first);
        if attrs.last().0@ == "class"@ {
            (before + (if written {
                " "@
            } else {
                Seq::empty()
            }) + attr(attrs.last().1@), true)
        } else {
            (before, written)
        }
    }
}

/// The `class` attribute of a start tag, when it has one: the element's own class, then the
/// class attributes, then a `div`'s class.
pub open spec fn class_html(c: DjContainer, attrs: Seq<(String, String)>) -> Seq<char> {
    let div_class = match c {
        DjContainer::Div(class) => class@,
        _ => Seq::empty(),
    };
    if has_class_attr(attrs) || div_class.len() > 0 || own_class(c) is Some {
        let own = match own_class(c) {
            Some(cls) => cls,
            None => Seq::empty(),
        };
        let (values, written) = class_values(attrs, own_class(c) is Some);
        " class=\""@ + own + values + (if div_class.len() > 0 {
            (if written {
                " "@
            } else {
                Seq::empty()
            }) + div_class
        } else {
            Seq::empty()
        }) + "\""@
    } else {
        Seq::empty()
    }
}

/// The address of picture `id` for a placeholder: that of its file, or nothing.
pub open spec fn dj_pic_url(ctx: MdContext, id: Seq<char>) -> Seq<char> {
    match ctx.config.pics.get_spec(id) {
        Some(file) => match ctx.data.static_urls.get_spec("pic/"@ + file) {
            Some(url) => url@,
            None => Seq::empty(),
        },
        None => Seq::empty(),
    }
}

/// ` width="W" height="H"` for a placeholder picture whose size is known.
pub open spec fn dj_pic_size(ctx: MdContext, id: Seq<char>) -> Seq<char> {
    match ctx.config.pics.get_spec(id) {
        Some(file) => match size_of(&ctx.data.image_sizes, "static/pic/"@ + file) {
            Some((w, h)) => " width=\""@ + decimal(w as nat) + "\" height=\""@ + decimal(h as nat) + "\""@,
            None => Seq::empty(),
        },
        None => Seq::empty(),
    }
}

/// The attributes that name a literate program's block.
pub open spec fn literate_attrs(ctx: MdContext, kind: CodeKindView, language: Seq<char>) -> Seq<char> {
    match kind {
        CodeKindView::Literate(program, _) => " data-program=\""@ + attr(ctx.page_id@) + ":"@ + attr(program) + "\""@
            + " data-language=\""@ + attr(language) + "\""@ + if language == "output"@ {
            " data-mode=\"output\""@
        } else {
            " data-mode=\"input\""@
        },
        _ => Seq::empty(),
    }
}

/// The placeholder picture of a literate program's output, when it names one.
pub open spec fn placeholder_html(ctx: MdContext, kind: CodeKindView) -> Seq<char> {
    match kind {
        CodeKindView::Literate(_, Some(pic)) => "<img class=\"placeholder-image\" loading=\"lazy\" src=\""@ + attr(
            dj_pic_url(ctx, pic),
        ) + "\""@ + dj_pic_size(ctx, pic) + ">"@,
        _ => Seq::empty(),
    }
}

/// The element that holds the code: a console for a program's output, else a `code`.
pub open spec fn code_open(ctx: MdContext, kind: CodeKindView, language: Seq<char>) -> Seq<char> {
    if kind is Literate && language == "output"@ {
        "<pre class=\"placeholder-console\">"@
    } else {
        "<code class=\"language-"@ + attr(language) + (if ctx.syntaxes.get_spec(language) is Some {
            " th-syntax-highlighting"@
        } else {
            Seq::empty()
        }) + "\">"@
    }
}

/// The rest of the start tag of a code block in `language`, whose kind is `kind`.
pub open spec fn code_block_rest(ctx: MdContext, kind: CodeKindView, language: Seq<char>) -> Seq<char> {
    if language.len() == 0 {
        "><code>"@
    } else {
        literate_attrs(ctx, kind, language) + ">"@ + placeholder_html(ctx, kind) + code_open(ctx, kind, language)
    }
}

/// The end of a start tag for `c`, after its attributes.
pub open spec fn start_tail(ctx: MdContext, st: DjState, c: DjContainer) -> Seq<char> {
    match c {
        DjContainer::TableCell(alignment, _) => match alignment {
            ColumnAlignment::Left => " style=\"text-align: left;\">"@,
            ColumnAlignment::Center => " style=\"text-align: center;\">"@,
            ColumnAlignment::Right => " style=\"text-align: right;\">"@,
            ColumnAlignment::Unspecified => ">"@,
        },
        DjContainer::CodeBlock(language) => match st.code_block {
            Some((kind, _)) => code_block_rest(ctx, kind, language@),
            None => Seq::empty(),
        },
        DjContainer::Image(_, _) => if st.img_alt == 1 {
            " alt=\""@
        } else {
            Seq::empty()
        },
        DjContainer::Math(display) => if display {
            ">\\["@
        } else {
            ">\\("@
        },
        _ => ">"@,
    }
}

/// The end tag for `c`, the state after it, and whether the end is written in full; none
/// where the element cannot be closed.
pub open spec fn end_tag(ctx: MdContext, st: DjState, c: DjContainer) -> Option<(Seq<char>, DjState, bool)> {
    match c {
        DjContainer::Blockquote => Some(("</blockquote>"@, st, true)),
        DjContainer::List(kind, _) => {
            let st2 = DjState {
                tight: if st.tight.len() > 0 {
                    st.tight.drop_last()
                } else {
                    st.tight
                },
                ..st
            };
            match kind {
                DjListKind::Ordered(_, _) => Some(("</ol>"@, st2, true)),
                _ => Some(("</ul>"@, st2, true)),
            }
        },
        DjContainer::ListItem | DjContainer::TaskListItem(_) => Some(("</li>"@, st, true)),
        DjContainer::DescriptionList => Some(("</dl>"@, st, true)),
        DjContainer::DescriptionDetails => Some(("</dd>"@, st, true)),
        DjContainer::Footnote => None,
        DjContainer::Table => Some(("</table>"@, st, true)),
        DjContainer::TableRow => Some(("</tr>"@, st, true)),
        DjContainer::Section => Some((Seq::empty(), st, true)),
        DjContainer::Div(_) => Some(("</div>"@, st, true)),
        DjContainer::Paragraph => if st.tight.len() > 0 && st.tight.last() {
            Some((Seq::empty(), st, false))
        } else {
            Some(("</p>"@, st, true))
        },
        DjContainer::Heading(level) => Some(("</h"@ + decimal(level as nat) + ">"@, st, true)),
        DjContainer::TableCell(_, head) => Some((if head {
            "</th>"@
        } else {
            "</td>"@
        }, st, true)),
        DjContainer::Caption => Some(("</caption>"@, st, true)),
        DjContainer::DescriptionTerm => Some(("</dt>"@, st, true)),
        DjContainer::CodeBlock(language) => match st.code_block {
            None => None,
            Some((kind, _)) => Some((
                match kind {
                    CodeKindView::Literate(_, _) => if language@ == "output"@ {
                        "</pre></th-literate-program>"@
                    } else {
                        "</code></th-literate-program>"@
                    },
                    _ => "</code></pre>"@,
                },
                DjState { code_block: None, ..st },
                true,
            )),
        },
        DjContainer::Span => Some(("</span>"@, st, true)),
        DjContainer::Link(_, _) => Some(("</a>"@, st, true)),
        DjContainer::Image(src, ty) => if st.img_alt == 0 {
            None
        } else {
            let shown = if ty == DjSpanLinkType::Unresolved {
                match dj_link_target(ctx, src@) {
                    Some(r) => r,
                    None => src@,
                }
            } else {
                src@
            };
            Some((
                if st.img_alt == 1 {
                    (if src@.len() > 0 {
                        "\" src=\""@ + attr(shown)
                    } else {
                        Seq::empty()
                    }) + "\">"@
                } else {
                    Seq::empty()
                },
                DjState { img_alt: (st.img_alt - 1) as nat, ..st },
                true,
            ))
        },
        DjContainer::Verbatim => Some(("</code>"@, st, true)),
        DjContainer::Math(display) => Some((if display {
            "\\]</span>"@
        } else {
            "\\)</span>"@
        }, st, true)),
        DjContainer::RawBlock(_) | DjContainer::RawInline(_) => Some((Seq::empty(), DjState { raw: Raw::Plain, ..st }, true)),
        DjContainer::Subscript => Some(("</sub>"@, st, true)),
        DjContainer::Superscript => Some(("</sup>"@, st, true)),
        DjContainer::Insert => Some(("</ins>"@, st, true)),
        DjContainer::Delete => Some(("</del>"@, st, true)),
        DjContainer::Strong => Some(("</strong>"@, st, true)),
        DjContainer::Emphasis => Some(("</em>"@, st, true)),
        DjContainer::Mark => Some(("</mark>"@, st, true)),
        DjContainer::LinkDefinition => None,
    }
}

/// The HTML of the text `s` of a `Str` event; none where highlighting it would fail.
pub open spec fn str_html(ctx: MdContext, st: DjState, s: Seq<char>) -> Option<Seq<char>> {
    let t = choose|t: &str| t@ == s;
    match st.raw {
        Raw::Plain => if st.img_alt > 0 {
            Some(attr(s))
        } else {
            match st.code_block {
                Some((_, language)) => match ctx.syntaxes.get_spec(language) {
                    Some(syntax) => match syntax.tokenization(t) {
                        Some(toks) => Some(highlight_html(syntax.token_names@, t, toks)),
                        None => None,
                    },
                    None => Some(text(s)),
                },
                None => Some(text(s)),
            }
        },
        Raw::Html => Some(s),
        Raw::Other => Some(Seq::empty()),
    }
}

/// The branch that `emoji/NAME` names, if there is one.
pub open spec fn dj_emoji_branch(ctx: MdContext, name: Seq<char>) -> Option<Seq<char>> {
    match ctx.treehouse.branches_by_named_id.get_spec("emoji/"@ + name) {
        Some(id) => Some(ctx.treehouse.tree.branches_spec()[id.0 as int].attributes.id@),
        None => None,
    }
}

/// The picture of the emoji `sym`, whose file is `file`.
pub open spec fn dj_emoji_img(ctx: MdContext, sym: Seq<char>, file: Seq<char>) -> Seq<char> {
    "<img data-cast=\"emoji\" title=\":"@ + sym + ":\" alt=\""@ + sym + "\" src=\""@ + attr(
        match ctx.data.static_urls.get_spec("emoji/"@ + file) {
            Some(u) => u@,
            None => Seq::empty(),
        },
    ) + "\""@ + match size_of(&ctx.data.image_sizes, "static/emoji/"@ + file) {
        Some((w, h)) => " width=\""@ + decimal(w as nat) + "\" height=\""@ + decimal(h as nat) + "\""@,
        None => Seq::empty(),
    } + ">"@
}

/// The HTML of the symbol `:sym:`: its emoji, linked to the emoji's branch when it has one,
/// or a note that there is no such emoji.
pub open spec fn symbol_html(ctx: MdContext, sym: Seq<char>) -> Seq<char> {
    match ctx.config.emoji.get_spec(sym) {
        Some(file) => match dj_emoji_branch(ctx, sym) {
            Some(id) => "<a href=\""@ + attr(ctx.config.site@) + "/b?"@ + attr(id) + "\">"@ + dj_emoji_img(ctx, sym, file)
                + "</a>"@,
            None => dj_emoji_img(ctx, sym, file),
        },
        None => "<span class=\"th-emoji-unknown\" title=\"this emoji does not exist\u{2026} yet!\">:"@ + sym
            + ":</span>"@,
    }
}

/// The HTML of an event that neither opens nor closes an element, before the state notes a
/// first line; none where it cannot be written.
pub open spec fn leaf_html(ctx: MdContext, st: DjState, e: DjEvent) -> Option<Seq<char>> {
    match e {
        DjEvent::Str(s) => str_html(ctx, st, s@),
        DjEvent::Symbol(sym) => Some(symbol_html(ctx, sym@)),
        DjEvent::LeftSingleQuote => Some(seq!['\u{2018}']),
        DjEvent::RightSingleQuote => Some(seq!['\u{2019}']),
        DjEvent::LeftDoubleQuote => Some(seq!['\u{201c}']),
        DjEvent::RightDoubleQuote => Some(seq!['\u{201d}']),
        DjEvent::Ellipsis => Some(seq!['\u{2026}']),
        DjEvent::EnDash => Some(seq!['\u{2013}']),
        DjEvent::EmDash => Some(seq!['\u{2014}']),
        DjEvent::NonBreakingSpace => Some("&nbsp;"@),
        DjEvent::Hardbreak => Some("<br>\n"@),
        DjEvent::Softbreak => Some("\n"@),
        DjEvent::ThematicBreak(attrs) => Some(
            (if st.not_first_line {
                "\n"@
            } else {
                Seq::empty()
            }) + "<hr"@ + attrs_html(attrs@, true) + ">"@,
        ),
        _ => Some(Seq::empty()),
    }
}

/// What an event writes, the diagnostics it raises (whether each is about a reference, and
/// its range), and the state after it; none where the event cannot be written.
pub open spec fn dj_step(ctx: MdContext, st: DjState, e: DjEvent, range: (int, int)) -> Option<
    (Seq<char>, Seq<(bool, int, int)>, DjState),
> {
    let notes = if e matches DjEvent::Start(DjContainer::Footnote, _) {
        seq![(false, range.0, range.1)]
    } else {
        Seq::empty()
    };
    if e matches DjEvent::Start(DjContainer::LinkDefinition, _) {
        Some((Seq::empty(), notes, DjState { ignore: true, ..st }))
    } else if e matches DjEvent::End(DjContainer::LinkDefinition) {
        Some((Seq::empty(), notes, DjState { ignore: false, ..st }))
    } else if e matches DjEvent::Start(DjContainer::Section, _) || e matches DjEvent::End(DjContainer::Section) {
        Some((Seq::empty(), notes, st))
    } else if st.ignore {
        Some((Seq::empty(), notes, st))
    } else {
        match e {
            DjEvent::Start(c, attrs) => {
                let nl = if is_block(c) && st.not_first_line {
                    "\n"@
                } else {
                    Seq::empty()
                };
                if st.img_alt > 0 && !(c is Image) {
                    Some((nl, notes, st))
                } else {
                    match start_head(ctx, st, c, attrs@) {
                        None => None,
                        Some((head, st2, go_on)) => if go_on {
                            Some((
                                nl + head + attrs_html(attrs@, false) + class_html(c, attrs@) + start_tail(ctx, st2, c),
                                notes,
                                DjState { not_first_line: true, ..st2 },
                            ))
                        } else {
                            Some((nl + head, notes, st2))
                        },
                    }
                }
            },
            DjEvent::End(c) => {
                let nl = if is_block_container(c) {
                    "\n"@
                } else {
                    Seq::empty()
                };
                if st.img_alt > 0 && !(c is Image) {
                    Some((nl, notes, st))
                } else {
                    match end_tag(ctx, st, c) {
                        None => None,
                        Some((tail, st2, go_on)) => Some((
                            nl + tail,
                            notes,
                            if go_on {
                                DjState { not_first_line: true, ..st2 }
                            } else {
                                st2
                            },
                        )),
                    }
                }
            },
            DjEvent::FootnoteReference => Some((
                Seq::empty(),
                seq![(true, range.0, range.1)],
                DjState { not_first_line: true, ..st },
            )),
            _ => match leaf_html(ctx, st, e) {
                Some(out) => Some((out, notes, DjState { not_first_line: true, ..st })),
                None => None,
            },
        }
    }
}

/// The writer's state before the first event.
pub open spec fn dj_initial() -> DjState {
    DjState { raw: Raw::Plain, code_block: None, img_alt: 0, tight: Seq::empty(), not_first_line: false, ignore: false }
}

/// What the events from `i` on write, and the diagnostics they raise; none where one of them
/// cannot be written.
pub open spec fn dj_render(ctx: MdContext, st: DjState, evs: Seq<(DjEvent, Range<usize>)>, i: int) -> Option<
    (Seq<char>, Seq<(bool, int, int)>),
>
    decreases evs.len() - i,
{
    if i < 0 || i >= evs.len() {
        Some((Seq::empty(), Seq::empty()))
    } else {
        match dj_step(ctx, st, evs[i].0, (evs[i].1.start as int, evs[i].1.end as int)) {
            None => None,
            Some((out, notes, st2)) => match dj_render(ctx, st2, evs, i + 1) {
                None => None,
                Some((rest, more)) => Some((out + rest, notes + more)),
            },
        }
    }
}

/// Where the Djot link `link` points.
fn resolve_link(ctx: MdContext, link: &str) -> (target: Option<String>)
    requires
        context_ok(ctx),
    ensures
        match dj_link_target(ctx, link@) {
            Some(t) => target matches Some(s) && s@ == t,
            None => target is None,
        },
{
    let chars = chars_of(link);
    let mut i: usize = 0;
    while i < chars.len() && chars[i] != ':'
        invariant
            i <= chars@.len(),
            chars@ == link@,
            forall|k: int| 0 <= k < i ==> chars@[k] != ':',
        decreases chars@.len() - i,
    {
        i = i + 1;
    }
    if i >= chars.len() {
        proof {
            lemma_first_colon_none(link@);
        }
        return None;
    }
    proof {
        lemma_first_colon_found(link@, i as int);
    }
    let kind = string_of(slice_chars(chars.as_slice(), 0, i).as_slice());
    let name = string_of(slice_chars(chars.as_slice(), i + 1, chars.len()).as_slice());
    proof {
        assert(kind@ =~= link@.take(i as int));
        assert(name@ =~= link@.skip(i + 1));
    }
    if str_equal(kind.as_str(), "def") {
        match ctx.config.defs.get(name.as_str()) {
            Some(target) => Some(target.clone()),
            None => None,
        }
    } else if str_equal(kind.as_str(), "branch") {
        match ctx.treehouse.branches_by_named_id.get(name.as_str()) {
            Some(id) => {
                let branch = ctx.treehouse.tree.branch(*id);
                let mut url = ctx.config.site.clone();
                url.push_str("/b?");
                url.push_str(branch.attributes.id.as_str());
                Some(url)
            },
            None => None,
        }
    } else if str_equal(kind.as_str(), "page") {
        Some(ctx.config.page_url(name.as_str()))
    } else if str_equal(kind.as_str(), "pic") {
        match ctx.config.pics.get(name.as_str()) {
            Some(file) => {
                let mut key = String::new();
                key.push_str("pic/");
                key.push_str(file.as_str());
                match ctx.data.static_urls.get(key.as_str()) {
                    Some(url) => Some(url.clone()),
                    None => None,
                }
            },
            None => None,
        }
    } else {
        None
    }
}

/// The value of the first attribute named `key`.
fn attr_value_of<'a>(attrs: &'a Vec<(String, String)>, key: &str) -> (r: Option<&'a String>)
    ensures
        match attr_value(attrs@, key@) {
            Some(v) => r matches Some(s) && s@ == v,
            None => r is None,
        },
{
    let mut k: usize = 0;
    proof {
        assert(attrs@.skip(0) =~= attrs@);
    }
    while k < attrs.len()
        invariant
            k <= attrs@.len(),
            attr_value(attrs@.skip(k as int), key@) == attr_value(attrs@, key@),
        decreases attrs@.len() - k,
    {
        proof {
            assert(attrs@.skip(k as int).drop_first() =~= attrs@.skip(k + 1));
        }
        if str_equal(attrs[k].0.as_str(), key) {
            return Some(&attrs[k].1);
        }
        k = k + 1;
    }
    None
}

/// Whether the attribute key `k` is written as an attribute of its own.
fn is_plain_key(k: &str) -> (r: bool)
    ensures
        r == plain_key(k@),
{
    if str_equal(k, "class") {
        return false;
    }
    let chars = chars_of(k);
    !(chars.len() > 0 && chars[0] == ':')
}

/// Appends ` key="value"` for each attribute, or each that `plain_key` keeps.
fn write_attrs(out: &mut String, attrs: &Vec<(String, String)>, all: bool)
    ensures
        final(out)@ == old(out)@ + attrs_html(attrs@, all),
{
    let mut k: usize = 0;
    proof {
        assert(attrs@.take(0) =~= Seq::<(String, String)>::empty());
        assert(old(out)@ + attrs_html(attrs@.take(0), all) =~= old(out)@);
    }
    while k < attrs.len()
        invariant
            k <= attrs@.len(),
            out@ == old(out)@ + attrs_html(attrs@.take(k as int), all),
        decreases attrs@.len() - k,
    {
        let ghost before = out@;
        if all || is_plain_key(attrs[k].0.as_str()) {
            out.push_str(" ");
            out.push_str(attrs[k].0.as_str());
            out.push_str("=\"");
            write_attr(attrs[k].1.as_str(), out);
            out.push_str("\"");
        }
        proof {
            assert(attrs@.take(k + 1).drop_last() =~= attrs@.take(k as int));
            assert(attrs@.take(k + 1).last() == attrs@[k as int]);
            assert(out@ =~= old(out)@ + attrs_html(attrs@.take(k + 1), all));
        }
        k = k + 1;
    }
    proof {
        assert(attrs@.take(k as int) =~= attrs@);
    }
}

/// Whether some attribute is a class.
fn any_class_attr(attrs: &Vec<(String, String)>) -> (r: bool)
    ensures
        r == has_class_attr(attrs@),
{
    let mut k: usize = 0;
    while k < attrs.len()
        invariant
            k <= attrs@.len(),
            forall|j: int| 0 <= j < k ==> attrs@[j].0@ != "class"@,
        decreases attrs@.len() - k,
    {
        if str_equal(attrs[k].0.as_str(), "class") {
            return true;
        }
        k = k + 1;
    }
    false
}

/// Appends the class attributes' values, each after a space unless nothing came before, and
/// says whether anything has been written.
fn write_class_values(out: &mut String, attrs: &Vec<(String, String)>, first: bool) -> (written: bool)
    ensures
        (final(out)@, written) == ({
            let (v, w) = class_values(attrs@, first);
            (old(out)@ + v, w)
        }),
{
    let mut written = first;
    let mut k: usize = 0;
    proof {
        assert(attrs@.take(0) =~= Seq::<(String, String)>::empty());
        assert(old(out)@ + class_values(attrs@.take(0), first).0 =~= old(out)@);
    }
    while k < attrs.len()
        invariant
            k <= attrs@.len(),
            out@ == old(out)@ + class_values(attrs@.take(k as int), first).0,
            written == class_values(attrs@.take(k as int), first).1,
        decreases attrs@.len() - k,
    {
        if str_equal(attrs[k].0.as_str(), "class") {
            if written {
                out.push_str(" ");
            }
            written = true;
            write_attr(attrs[k].1.as_str(), out);
        }
        proof {
            assert(attrs@.take(k + 1).drop_last() =~= attrs@.take(k as int));
            assert(attrs@.take(k + 1).last() == attrs@[k as int]);
            assert(out@ =~= old(out)@ + class_values(attrs@.take(k + 1), first).0);
        }
        k = k + 1;
    }
    proof {
        assert(attrs@.take(k as int) =~= attrs@);
    }
    written
}

/// Appends the `class` attribute of a start tag for `c`, when it has one.
fn write_class(out: &mut String, c: &DjContainer, attrs: &Vec<(String, String)>)
    ensures
        final(out)@ == old(out)@ + class_html(*c, attrs@),
{
    let own: Option<&str> = match c {
        DjContainer::List(DjListKind::Task, _) => Some("task-list"),
        DjContainer::TaskListItem(checked) => Some(if *checked { "checked" } else { "unchecked" }),
        DjContainer::Math(display) => Some(if *display { "math display" } else { "math inline" }),
        _ => None,
    };
    let div_class: &str = match c {
        DjContainer::Div(class) => class.as_str(),
        _ => "",
    };
    proof {
        reveal_strlit("");
        assert(match own {
            Some(o) => own_class(*c) == Some(o@),
            None => own_class(*c) is None,
        });
    }
    if any_class_attr(attrs) || !div_class.is_empty() || own.is_some() {
        out.push_str(" class=\"");
        if let Some(o) = own {
            out.push_str(o);
        }
        let ghost after_own = out@;
        let written = write_class_values(out, attrs, own.is_some());
        if !div_class.is_empty() {
            if written {
                out.push_str(" ");
            }
            out.push_str(div_class);
        }
        out.push_str("\"");
        proof {
            let own_text = match own_class(*c) {
                Some(cls) => cls,
                None => Seq::<char>::empty(),
            };
            assert(after_own == old(out)@ + " class=\""@ + own_text);
            assert(out@ =~= old(out)@ + class_html(*c, attrs@));
        }
    }
}

/// Appends ` width="W" height="H"` for a placeholder picture whose size is known.
fn write_dj_pic_size(out: &mut String, ctx: MdContext, id: &str)
    ensures
        final(out)@ == old(out)@ + dj_pic_size(ctx, id@),
{
    match ctx.config.pics.get(id) {
        Some(file) => {
            let mut key = String::new();
            key.push_str("static/pic/");
            key.push_str(file.as_str());
            match ctx.data.image_sizes.get(key.as_str()) {
                Some(size) => {
                    out.push_str(" width=\"");
                    push_decimal(out, size.0 as usize);
                    out.push_str("\" height=\"");
                    push_decimal(out, size.1 as usize);
                    out.push_str("\"");
                    assert(out@ =~= old(out)@ + dj_pic_size(ctx, id@));
                },
                None => {},
            }
        },
        None => {},
    }
}

/// The address of picture `id` for a placeholder.
fn dj_pic_url_of(ctx: MdContext, id: &str) -> (url: String)
    ensures
        url@ == dj_pic_url(ctx, id@),
{
    match ctx.config.pics.get(id) {
        Some(file) => {
            let mut key = String::new();
            key.push_str("pic/");
            key.push_str(file.as_str());
            match ctx.data.static_urls.get(key.as_str()) {
                Some(url) => url.clone(),
                None => String::new(),
            }
        },
        None => String::new(),
    }
}

/// What kind of code block is open.
enum CodeKind {
    PlainText,
    SyntaxHighlight,
    Literate(String, Option<String>),
}

spec fn code_kind_view(k: CodeKind) -> CodeKindView {
    match k {
        CodeKind::PlainText => CodeKindView::PlainText,
        CodeKind::SyntaxHighlight => CodeKindView::SyntaxHighlight,
        CodeKind::Literate(p, ph) => CodeKindView::Literate(p@, match ph {
            Some(x) => Some(x@),
            None => None,
        }),
    }
}

fn write_literate_attrs(out: &mut String, ctx: MdContext, kind: &CodeKind, language: &str)
    ensures
        final(out)@ == old(out)@ + literate_attrs(ctx, code_kind_view(*kind), language@),
{
    match kind {
        CodeKind::Literate(program, _) => {
            out.push_str(" data-program=\"");
            write_attr(ctx.page_id, out);
            out.push_str(":");
            write_attr(program.as_str(), out);
            out.push_str("\"");
            out.push_str(" data-language=\"");
            write_attr(language, out);
            out.push_str("\"");
            if str_equal(language, "output") {
                out.push_str(" data-mode=\"output\"");
            } else {
                out.push_str(" data-mode=\"input\"");
            }
            assert(out@ =~= old(out)@ + literate_attrs(ctx, code_kind_view(*kind), language@));
        },
        _ => {},
    }
}

fn write_placeholder_html(out: &mut String, ctx: MdContext, kind: &CodeKind)
    ensures
        final(out)@ == old(out)@ + placeholder_html(ctx, code_kind_view(*kind)),
{
    match kind {
        CodeKind::Literate(_, Some(pic)) => {
            out.push_str("<img class=\"placeholder-image\" loading=\"lazy\" src=\"");
            let url = dj_pic_url_of(ctx, pic.as_str());
            write_attr(url.as_str(), out);
            out.push_str("\"");
            write_dj_pic_size(out, ctx, pic.as_str());
            out.push_str(">");
            assert(out@ =~= old(out)@ + placeholder_html(ctx, code_kind_view(*kind)));
        },
        _ => {},
    }
}

fn write_code_open(out: &mut String, ctx: MdContext, kind: &CodeKind, language: &str)
    ensures
        final(out)@ == old(out)@ + code_open(ctx, code_kind_view(*kind), language@),
{
    let literate = match kind {
        CodeKind::Literate(_, _) => true,
        _ => false,
    };
    if literate && str_equal(language, "output") {
        out.push_str("<pre class=\"placeholder-console\">");
    } else {
        out.push_str("<code class=\"language-");
        write_attr(language, out);
        if ctx.syntaxes.contains_key(language) {
            out.push_str(" th-syntax-highlighting");
        }
        out.push_str("\">");
        assert(out@ =~= old(out)@ + code_open(ctx, code_kind_view(*kind), language@));
    }
}

/// Appends the rest of the start tag of a code block in `language`, whose kind is `kind`.
fn write_code_block_rest(out: &mut String, ctx: MdContext, kind: &CodeKind, language: &str)
    ensures
        final(out)@ == old(out)@ + code_block_rest(ctx, code_kind_view(*kind), language@),
{
    if language.is_empty() {
        out.push_str("><code>");
        return;
    }
    write_literate_attrs(out, ctx, kind, language);
    out.push_str(">");
    write_placeholder_html(out, ctx, kind);
    write_code_open(out, ctx, kind, language);
    assert(out@ =~= old(out)@ + code_block_rest(ctx, code_kind_view(*kind), language@));
}

/// The Djot writer's state.
struct DjWriter {
    raw: Raw,
    code_block: Option<(CodeKind, String)>,
    img_alt: usize,
    tight: Vec<bool>,
    not_first_line: bool,
    ignore: bool,
}

impl DjWriter {
    spec fn state(&self) -> DjState {
        DjState {
            raw: self.raw,
            code_block: match self.code_block {
                Some((k, l)) => Some((code_kind_view(k), l@)),
                None => None,
            },
            img_alt: self.img_alt as nat,
            tight: self.tight@,
            not_first_line: self.not_first_line,
            ignore: self.ignore,
        }
    }
}

impl DjWriter {
    /// Appends the opening of a start tag for `c`, and says whether the tag goes on; none
    /// where the element cannot be written.
    #[verifier::rlimit(80)]
    fn start_head(&mut self, out: &mut String, ctx: MdContext, c: &DjContainer, attrs: &Vec<(String, String)>) -> (r:
        Option<bool>)
        requires
            context_ok(ctx),
            old(self).img_alt < usize::MAX,
        ensures
            match start_head(ctx, old(self).state(), *c, attrs@) {
                None => r is None,
                Some((head, st2, go_on)) => r == Some(go_on) && final(out)@ == old(out)@ + head
                    && final(self).state() == st2,
            },
            final(self).img_alt <= old(self).img_alt + 1,
    {
        match c {
            DjContainer::Blockquote => out.push_str("<blockquote"),
            DjContainer::List(kind, tight) => {
                self.tight.push(*tight);
                match kind {
                    DjListKind::Ordered(numbering, start) => {
                        out.push_str("<ol");
                        if *start > 1 {
                            out.push_str(" start=\"");
                            push_decimal_u64(out, *start);
                            out.push_str("\"");
                        }
                        match numbering {
                            DjNumbering::Decimal => {},
                            DjNumbering::AlphaLower => out.push_str(" type=\"a\""),
                            DjNumbering::AlphaUpper => out.push_str(" type=\"A\""),
                            DjNumbering::RomanLower => out.push_str(" type=\"i\""),
                            DjNumbering::RomanUpper => out.push_str(" type=\"I\""),
                        }
                    },
                    _ => out.push_str("<ul"),
                }
            },
            DjContainer::ListItem | DjContainer::TaskListItem(_) => out.push_str("<li"),
            DjContainer::DescriptionList => out.push_str("<dl"),
            DjContainer::DescriptionDetails => out.push_str("<dd"),
            DjContainer::Footnote => {
                return None;
            },
            DjContainer::Table => out.push_str("<table"),
            DjContainer::TableRow => out.push_str("<tr"),
            DjContainer::Section => {},
            DjContainer::Div(_) => out.push_str("<div"),
            DjContainer::Paragraph => {
                if self.tight.len() > 0 && self.tight[self.tight.len() - 1] {
                    return Some(false);
                }
                out.push_str("<p");
            },
            DjContainer::Heading(level) => {
                out.push_str("<h");
                push_decimal(out, *level as usize);
            },
            DjContainer::TableCell(_, head) => {
                if *head {
                    out.push_str("<th");
                } else {
                    out.push_str("<td");
                }
            },
            DjContainer::Caption => out.push_str("<caption"),
            DjContainer::DescriptionTerm => out.push_str("<dt"),
            DjContainer::CodeBlock(language) => {
                match attr_value_of(attrs, ":program") {
                    Some(program) => {
                        let placeholder = match attr_value_of(attrs, ":placeholder") {
                            Some(p) => Some(p.clone()),
                            None => None,
                        };
                        self.code_block = Some((CodeKind::Literate(program.clone(), placeholder), language.clone()));
                        out.push_str("<th-literate-program");
                    },
                    None => {
                        let kind = if ctx.syntaxes.contains_key(language.as_str()) {
                            CodeKind::SyntaxHighlight
                        } else {
                            CodeKind::PlainText
                        };
                        self.code_block = Some((kind, language.clone()));
                        out.push_str("<pre");
                    },
                }
            },
            DjContainer::Span | DjContainer::Math(_) => out.push_str("<span"),
            DjContainer::Link(dst, ty) => {
                match ty {
                    DjLinkType::Span(DjSpanLinkType::Unresolved) => {
                        out.push_str("<a");
                        match resolve_link(ctx, dst.as_str()) {
                            Some(resolved) => {
                                out.push_str(" href=\"");
                                write_attr(resolved.as_str(), out);
                                out.push_str("\"");
                            },
                            None => {},
                        }
                    },
                    DjLinkType::Email => {
                        out.push_str("<a href=\"");
                        out.push_str("mailto:");
                        write_attr(dst.as_str(), out);
                        out.push_str("\"");
                    },
                    DjLinkType::Span(_) | DjLinkType::AutoLink => {
                        out.push_str("<a href=\"");
                        write_attr(dst.as_str(), out);
                        out.push_str("\"");
                    },
                }
            },
            DjContainer::Image(_, _) => {
                self.img_alt = self.img_alt + 1;
                if self.img_alt == 1 {
                    out.push_str("<img class=\"pic\"");
                } else {
                    return Some(false);
                }
            },
            DjContainer::Verbatim => out.push_str("<code"),
            DjContainer::RawBlock(format) | DjContainer::RawInline(format) => {
                self.raw = if str_equal(format.as_str(), "html") {
                    Raw::Html
                } else {
                    Raw::Other
                };
                return Some(false);
            },
            DjContainer::Subscript => out.push_str("<sub"),
            DjContainer::Superscript => out.push_str("<sup"),
            DjContainer::Insert => out.push_str("<ins"),
            DjContainer::Delete => out.push_str("<del"),
            DjContainer::Strong => out.push_str("<strong"),
            DjContainer::Emphasis => out.push_str("<em"),
            DjContainer::Mark => out.push_str("<mark"),
            DjContainer::LinkDefinition => {
                return Some(false);
            },
        }
        proof {
            assert(out@ =~= old(out)@ + start_head(ctx, old(self).state(), *c, attrs@)->Some_0.0);
        }
        Some(true)
    }

    /// Appends the end of a start tag for `c`, after its attributes.
    fn start_tail(&self, out: &mut String, ctx: MdContext, c: &DjContainer)
        ensures
            final(out)@ == old(out)@ + start_tail(ctx, self.state(), *c),
    {
        match c {
            DjContainer::TableCell(alignment, _) => match alignment {
                ColumnAlignment::Left => out.push_str(" style=\"text-align: left;\">"),
                ColumnAlignment::Center => out.push_str(" style=\"text-align: center;\">"),
                ColumnAlignment::Right => out.push_str(" style=\"text-align: right;\">"),
                ColumnAlignment::Unspecified => out.push_str(">"),
            },
            DjContainer::CodeBlock(language) => match &self.code_block {
                Some((kind, _)) => write_code_block_rest(out, ctx, kind, language.as_str()),
                None => {},
            },
            DjContainer::Image(_, _) => {
                if self.img_alt == 1 {
                    out.push_str(" alt=\"");
                }
            },
            DjContainer::Math(display) => {
                if *display {
                    out.push_str(">\\[");
                } else {
                    out.push_str(">\\(");
                }
            },
            _ => out.push_str(">"),
        }
    }
}

impl DjWriter {
    /// Appends the end tag for `c`, and says whether it was written in full; none where the
    /// element cannot be closed.
    #[verifier::rlimit(60)]
    fn end_tag(&mut self, out: &mut String, ctx: MdContext, c: &DjContainer) -> (r: Option<bool>)
        requires
            context_ok(ctx),
        ensures
            match end_tag(ctx, old(self).state(), *c) {
                None => r is None,
                Some((tail, st2, go_on)) => r == Some(go_on) && final(out)@ == old(out)@ + tail
                    && final(self).state() == st2,
            },
            final(self).img_alt <= old(self).img_alt,
    {
        match c {
            DjContainer::Blockquote => out.push_str("</blockquote>"),
            DjContainer::List(kind, _) => {
                let _ = self.tight.pop();
                match kind {
                    DjListKind::Ordered(_, _) => out.push_str("</ol>"),
                    _ => out.push_str("</ul>"),
                }
            },
            DjContainer::ListItem | DjContainer::TaskListItem(_) => out.push_str("</li>"),
            DjContainer::DescriptionList => out.push_str("</dl>"),
            DjContainer::DescriptionDetails => out.push_str("</dd>"),
            DjContainer::Footnote => {
                return None;
            },
            DjContainer::Table => out.push_str("</table>"),
            DjContainer::TableRow => out.push_str("</tr>"),
            DjContainer::Section => {},
            DjContainer::Div(_) => out.push_str("</div>"),
            DjContainer::Paragraph => {
                if self.tight.len() > 0 && self.tight[self.tight.len() - 1] {
                    return Some(false);
                }
                out.push_str("</p>");
            },
            DjContainer::Heading(level) => {
                out.push_str("</h");
                push_decimal(out, *level as usize);
                out.push_str(">");
            },
            DjContainer::TableCell(_, head) => {
                if *head {
                    out.push_str("</th>");
                } else {
                    out.push_str("</td>");
                }
            },
            DjContainer::Caption => out.push_str("</caption>"),
            DjContainer::DescriptionTerm => out.push_str("</dt>"),
            DjContainer::CodeBlock(language) => {
                let literate = match &self.code_block {
                    None => {
                        return None;
                    },
                    Some((CodeKind::Literate(_, _), _)) => true,
                    Some(_) => false,
                };
                if literate {
                    if str_equal(language.as_str(), "output") {
                        out.push_str("</pre></th-literate-program>");
                    } else {
                        out.push_str("</code></th-literate-program>");
                    }
                } else {
                    out.push_str("</code></pre>");
                }
                self.code_block = None;
            },
            DjContainer::Span => out.push_str("</span>"),
            DjContainer::Link(_, _) => out.push_str("</a>"),
            DjContainer::Image(src, ty) => {
                if self.img_alt == 0 {
                    return None;
                }
                if self.img_alt == 1 {
                    if !src.as_str().is_empty() {
                        out.push_str("\" src=\"");
                        if *ty == DjSpanLinkType::Unresolved {
                            match resolve_link(ctx, src.as_str()) {
                                Some(resolved) => write_attr(resolved.as_str(), out),
                                None => write_attr(src.as_str(), out),
                            }
                        } else {
                            write_attr(src.as_str(), out);
                        }
                    }
                    out.push_str("\">");
                }
                self.img_alt = self.img_alt - 1;
            },
            DjContainer::Verbatim => out.push_str("</code>"),
            DjContainer::Math(display) => {
                if *display {
                    out.push_str("\\]</span>");
                } else {
                    out.push_str("\\)</span>");
                }
            },
            DjContainer::RawBlock(_) | DjContainer::RawInline(_) => {
                self.raw = Raw::Plain;
            },
            DjContainer::Subscript => out.push_str("</sub>"),
            DjContainer::Superscript => out.push_str("</sup>"),
            DjContainer::Insert => out.push_str("</ins>"),
            DjContainer::Delete => out.push_str("</del>"),
            DjContainer::Strong => out.push_str("</strong>"),
            DjContainer::Emphasis => out.push_str("</em>"),
            DjContainer::Mark => out.push_str("</mark>"),
            DjContainer::LinkDefinition => {
                return None;
            },
        }
        proof {
            assert(out@ =~= old(out)@ + end_tag(ctx, old(self).state(), *c)->Some_0.0);
            assert(self.state().tight =~= end_tag(ctx, old(self).state(), *c)->Some_0.1.tight);
        }
        Some(true)
    }
}

/// Appends the picture of the emoji `sym`, whose file is `file`.
#[verifier::spinoff_prover]
#[verifier::rlimit(80)]
fn write_dj_emoji_img(out: &mut String, ctx: MdContext, sym: &str, file: &str)
    ensures
        final(out)@ == old(out)@ + dj_emoji_img(ctx, sym@, file@),
{
    out.push_str("<img data-cast=\"emoji\" title=\":");
    out.push_str(sym);
    out.push_str(":\" alt=\"");
    out.push_str(sym);
    out.push_str("\" src=\"");
    let mut url_key = String::new();
    url_key.push_str("emoji/");
    url_key.push_str(file);
    let ghost before_url = out@;
    match ctx.data.static_urls.get(url_key.as_str()) {
        Some(url) => write_attr(url.as_str(), out),
        None => {
            assert(attr(Seq::<char>::empty()) =~= Seq::<char>::empty());
        },
    }
    out.push_str("\"");
    let mut size_key = String::new();
    size_key.push_str("static/emoji/");
    size_key.push_str(file);
    let ghost before_size = out@;
    match ctx.data.image_sizes.get(size_key.as_str()) {
        Some(size) => {
            out.push_str(" width=\"");
            push_decimal(out, size.0 as usize);
            out.push_str("\" height=\"");
            push_decimal(out, size.1 as usize);
            out.push_str("\"");
        },
        None => {},
    }
    out.push_str(">");
    assert(out@ =~= old(out)@ + dj_emoji_img(ctx, sym@, file@));
}

/// Appends the HTML of the symbol `:sym:`.
fn write_symbol(out: &mut String, ctx: MdContext, sym: &str)
    requires
        context_ok(ctx),
    ensures
        final(out)@ == old(out)@ + symbol_html(ctx, sym@),
{
    match ctx.config.emoji.get(sym) {
        Some(file) => {
            let mut key = String::new();
            key.push_str("emoji/");
            key.push_str(sym);
            match ctx.treehouse.branches_by_named_id.get(key.as_str()) {
                Some(id) => {
                    let branch = ctx.treehouse.tree.branch(*id);
                    out.push_str("<a href=\"");
                    write_attr(ctx.config.site.as_str(), out);
                    out.push_str("/b?");
                    write_attr(branch.attributes.id.as_str(), out);
                    out.push_str("\">");
                    write_dj_emoji_img(out, ctx, sym, file.as_str());
                    out.push_str("</a>");
                    assert(out@ =~= old(out)@ + symbol_html(ctx, sym@));
                },
                None => write_dj_emoji_img(out, ctx, sym, file.as_str()),
            }
        },
        None => {
            out.push_str("<span class=\"th-emoji-unknown\" title=\"this emoji does not exist\u{2026} yet!\">:");
            out.push_str(sym);
            out.push_str(":</span>");
            assert(out@ =~= old(out)@ + symbol_html(ctx, sym@));
        },
    }
}

impl DjWriter {
    /// Appends the HTML of the text of a `Str` event; false where highlighting it fails.
    fn write_str(&self, out: &mut String, ctx: MdContext, s: &str) -> (ok: bool)
        requires
            context_ok(ctx),
        ensures
            match str_html(ctx, self.state(), s@) {
                Some(h) => ok && final(out)@ == old(out)@ + h,
                None => !ok,
            },
    {
        proof {
            let t = choose|t: &str| t@ == s@;
            assert(exists|t: &str| t@ == s@);
            assert(t@ == s@);
        }
        match self.raw {
            Raw::Plain => {
                if self.img_alt > 0 {
                    write_attr(s, out);
                    return true;
                }
                match &self.code_block {
                    Some((_, language)) => match ctx.syntaxes.get(language.as_str()) {
                        Some(syntax) => {
                            let _ = s.as_bytes().len();
                            proof {
                                let t = choose|t: &str| t@ == s@;
                                lemma_tokenization_view(syntax, t, s);
                                if let Some(toks) = syntax.tokenization(s) {
                                    lemma_highlight_html_view(syntax.token_names@, t, s, toks);
                                }
                            }
                            try_highlight(out, syntax, s)
                        },
                        None => {
                            write_text(s, out);
                            true
                        },
                    },
                    None => {
                        write_text(s, out);
                        true
                    },
                }
            },
            Raw::Html => {
                out.push_str(s);
                true
            },
            Raw::Other => true,
        }
    }

    /// Appends the HTML of an event that neither opens nor closes an element; false where it
    /// cannot be written.
    #[verifier::rlimit(40)]
    fn write_leaf(&self, out: &mut String, ctx: MdContext, e: &DjEvent) -> (ok: bool)
        requires
            context_ok(ctx),
        ensures
            match leaf_html(ctx, self.state(), *e) {
                Some(h) => ok && final(out)@ == old(out)@ + h,
                None => !ok,
            },
    {
        match e {
            DjEvent::Str(s) => self.write_str(out, ctx, s.as_str()),
            DjEvent::Symbol(sym) => {
                write_symbol(out, ctx, sym.as_str());
                true
            },
            DjEvent::LeftSingleQuote => {
                out.push('\u{2018}');
                true
            },
            DjEvent::RightSingleQuote => {
                out.push('\u{2019}');
                true
            },
            DjEvent::LeftDoubleQuote => {
                out.push('\u{201c}');
                true
            },
            DjEvent::RightDoubleQuote => {
                out.push('\u{201d}');
                true
            },
            DjEvent::Ellipsis => {
                out.push('\u{2026}');
                true
            },
            DjEvent::EnDash => {
                out.push('\u{2013}');
                true
            },
            DjEvent::EmDash => {
                out.push('\u{2014}');
                true
            },
            DjEvent::NonBreakingSpace => {
                out.push_str("&nbsp;");
                true
            },
            DjEvent::Hardbreak => {
                out.push_str("<br>\n");
                true
            },
            DjEvent::Softbreak => {
                out.push_str("\n");
                true
            },
            DjEvent::ThematicBreak(attrs) => {
                if self.not_first_line {
                    out.push_str("\n");
                }
                out.push_str("<hr");
                write_attrs(out, attrs, true);
                out.push_str(">");
                assert(out@ =~= old(out)@ + leaf_html(ctx, self.state(), *e)->Some_0);
                true
            },
            _ => {
                assert(out@ =~= old(out)@ + Seq::<char>::empty());
                true
            },
        }
    }
}

/// Diagnostics as the contracts see them: whether each is about a reference, and its range.
pub open spec fn notes_view(v: Seq<(bool, Range<usize>)>) -> Seq<(bool, int, int)> {
    v.map_values(|n: (bool, Range<usize>)| (n.0, n.1.start as int, n.1.end as int))
}

fn block_container(c: &DjContainer) -> (r: bool)
    ensures
        r == is_block(*c),
{
    match c {
        DjContainer::Blockquote | DjContainer::List(_, _) | DjContainer::ListItem | DjContainer::TaskListItem(_)
        | DjContainer::DescriptionList | DjContainer::DescriptionDetails | DjContainer::Footnote
        | DjContainer::Table | DjContainer::TableRow | DjContainer::Section | DjContainer::Div(_)
        | DjContainer::Paragraph | DjContainer::Heading(_) | DjContainer::TableCell(_, _) | DjContainer::Caption
        | DjContainer::DescriptionTerm | DjContainer::LinkDefinition | DjContainer::RawBlock(_)
        | DjContainer::CodeBlock(_) => true,
        _ => false,
    }
}

fn container_of_blocks(c: &DjContainer) -> (r: bool)
    ensures
        r == is_block_container(*c),
{
    match c {
        DjContainer::Blockquote | DjContainer::List(_, _) | DjContainer::ListItem | DjContainer::TaskListItem(_)
        | DjContainer::DescriptionList | DjContainer::DescriptionDetails | DjContainer::Footnote
        | DjContainer::Table | DjContainer::TableRow | DjContainer::Section | DjContainer::Div(_) => true,
        _ => false,
    }
}

fn push_note(notes: &mut Vec<(bool, Range<usize>)>, reference: bool, range: &Range<usize>)
    ensures
        notes_view(final(notes)@) == notes_view(old(notes)@).push((reference, range.start as int, range.end as int)),
{
    notes.push((reference, Range { start: range.start, end: range.end }));
    proof {
        assert(notes_view(notes@) =~= notes_view(old(notes)@).push((reference, range.start as int, range.end as int)));
    }
}

impl DjWriter {
    /// Appends what event `e` writes and notes the diagnostics it raises; false where it
    /// cannot be written.
    #[verifier::rlimit(60)]
    fn render_event(
        &mut self,
        out: &mut String,
        notes: &mut Vec<(bool, Range<usize>)>,
        ctx: MdContext,
        e: &DjEvent,
        range: &Range<usize>,
    ) -> (ok: bool)
        requires
            context_ok(ctx),
            old(self).img_alt < usize::MAX,
        ensures
            match dj_step(ctx, old(self).state(), *e, (range.start as int, range.end as int)) {
                None => !ok,
                Some((o, n, st2)) => ok && final(out)@ == old(out)@ + o && notes_view(final(notes)@) == notes_view(
                    old(notes)@,
                ) + n && final(self).state() == st2,
            },
            final(self).img_alt <= old(self).img_alt + 1,
    {
        let ghost r = (range.start as int, range.end as int);
        let ghost st = self.state();
        let footnote_start = match e {
            DjEvent::Start(DjContainer::Footnote, _) => true,
            _ => false,
        };
        if footnote_start {
            push_note(notes, false, range);
        }
        let ghost noted = notes_view(notes@);
        proof {
            let n = if footnote_start {
                seq![(false, r.0, r.1)]
            } else {
                Seq::<(bool, int, int)>::empty()
            };
            assert(noted =~= notes_view(old(notes)@) + n);
        }
        match e {
            DjEvent::Start(DjContainer::LinkDefinition, _) => {
                self.ignore = true;
                return true;
            },
            DjEvent::End(DjContainer::LinkDefinition) => {
                self.ignore = false;
                return true;
            },
            DjEvent::Start(DjContainer::Section, _) | DjEvent::End(DjContainer::Section) => {
                return true;
            },
            _ => {},
        }
        if self.ignore {
            return true;
        }
        match e {
            DjEvent::Start(c, attrs) => {
                if block_container(c) && self.not_first_line {
                    out.push_str("\n");
                }
                let is_image = match c {
                    DjContainer::Image(_, _) => true,
                    _ => false,
                };
                if self.img_alt > 0 && !is_image {
                    return true;
                }
                let ghost before_head = out@;
                match self.start_head(out, ctx, c, attrs) {
                    None => false,
                    Some(go_on) => {
                        if go_on {
                            write_attrs(out, attrs, false);
                            write_class(out, c, attrs);
                            self.start_tail(out, ctx, c);
                            self.not_first_line = true;
                        }
                        proof {
                            assert(out@ =~= old(out)@ + dj_step(ctx, st, *e, r)->Some_0.0);
                        }
                        true
                    },
                }
            },
            DjEvent::End(c) => {
                if container_of_blocks(c) {
                    out.push_str("\n");
                }
                let is_image = match c {
                    DjContainer::Image(_, _) => true,
                    _ => false,
                };
                if self.img_alt > 0 && !is_image {
                    return true;
                }
                match self.end_tag(out, ctx, c) {
                    None => false,
                    Some(go_on) => {
                        if go_on {
                            self.not_first_line = true;
                        }
                        proof {
                            assert(out@ =~= old(out)@ + dj_step(ctx, st, *e, r)->Some_0.0);
                        }
                        true
                    },
                }
            },
            DjEvent::FootnoteReference => {
                push_note(notes, true, range);
                self.not_first_line = true;
                proof {
                    assert(notes_view(notes@) =~= notes_view(old(notes)@) + seq![(true, r.0, r.1)]);
                    assert(out@ =~= old(out)@ + Seq::<char>::empty());
                }
                true
            },
            _ => {
                if self.write_leaf(out, ctx, e) {
                    self.not_first_line = true;
                    true
                } else {
                    false
                }
            },
        }
    }
}

/// Where rendering is, as the contracts see it: what has been written and noted before it,
/// followed by what the rest writes and notes.
pub open spec fn after_done(
    done: (Seq<char>, Seq<(bool, int, int)>),
    rest: Option<(Seq<char>, Seq<(bool, int, int)>)>,
) -> Option<(Seq<char>, Seq<(bool, int, int)>)> {
    match rest {
        Some((o, n)) => Some((done.0 + o, done.1 + n)),
        None => None,
    }
}

/// Appends the HTML of the Djot events `evs` (each with its range in the source) to `out`,
/// and notes the diagnostics they raise (whether each is about a footnote reference, and
/// its range); false where an event cannot be written, where what was written stops.
pub fn render_djot(
    out: &mut String,
    notes: &mut Vec<(bool, Range<usize>)>,
    ctx: MdContext,
    evs: &Vec<(DjEvent, Range<usize>)>,
) -> (ok: bool)
    requires
        context_ok(ctx),
    ensures
        match dj_render(ctx, dj_initial(), evs@, 0) {
            Some((o, n)) => ok && final(out)@ == old(out)@ + o && notes_view(final(notes)@) == notes_view(
                old(notes)@,
            ) + n,
            None => !ok,
        },
{
    let mut w = DjWriter {
        raw: Raw::Plain,
        code_block: None,
        img_alt: 0,
        tight: Vec::new(),
        not_first_line: false,
        ignore: false,
    };
    proof {
        assert(w.state().tight =~= Seq::<bool>::empty());
        assert(after_done((Seq::empty(), Seq::empty()), dj_render(ctx, w.state(), evs@, 0)) =~~= dj_render(
            ctx,
            dj_initial(),
            evs@,
            0,
        ));
    }
    let ghost out0 = out@;
    let ghost notes0 = notes_view(notes@);
    let ghost mut done: (Seq<char>, Seq<(bool, int, int)>) = (Seq::empty(), Seq::empty());
    let mut i: usize = 0;
    while i < evs.len()
        invariant
            i <= evs@.len(),
            context_ok(ctx),
            w.img_alt <= i,
            out0 == old(out)@,
            notes0 == notes_view(old(notes)@),
            out@ == out0 + done.0,
            notes_view(notes@) == notes0 + done.1,
            dj_render(ctx, dj_initial(), evs@, 0) == after_done(done, dj_render(ctx, w.state(), evs@, i as int)),
        decreases evs@.len() - i,
    {
        let ghost st = w.state();
        let ghost before_out = out@;
        let ghost before_notes = notes_view(notes@);
        let (e, range) = &evs[i];
        let ok = w.render_event(out, notes, ctx, e, range);
        if !ok {
            return false;
        }
        proof {
            let (o, n, st2) = dj_step(ctx, st, *e, (range.start as int, range.end as int))->Some_0;
            let next_done = (done.0 + o, done.1 + n);
            assert(after_done(done, dj_render(ctx, st, evs@, i as int)) =~~= after_done(
                next_done,
                dj_render(ctx, st2, evs@, i + 1),
            ));
            done = next_done;
        }
        i = i + 1;
    }
    proof {
        assert(done.0 + Seq::<char>::empty() =~= done.0);
        assert(done.1 + Seq::<(bool, int, int)>::empty() =~= done.1);
    }
    true
}

#[verifier::external_type_specification]
#[verifier::external_body]
pub struct ExJotEvent<'s>(jotdown::Event<'s>);

#[verifier::external_type_specification]
#[verifier::external_body]
pub struct ExJotContainer<'s>(jotdown::Container<'s>);

#[verifier::external_type_specification]
#[verifier::external_body]
pub struct ExJotAlignment(jotdown::Alignment);

#[verifier::external_type_specification]
#[verifier::external_body]
pub struct ExJotListKind(jotdown::ListKind);

#[verifier::external_type_specification]
#[verifier::external_body]
pub struct ExJotNumbering(jotdown::OrderedListNumbering);

#[verifier::external_type_specification]
#[verifier::external_body]
pub struct ExJotLinkType(jotdown::LinkType);

#[verifier::external_type_specification]
#[verifier::external_body]
pub struct ExJotSpanLinkType(jotdown::SpanLinkType);

/// `jotdown::Alignment` as the library's alignment, variant for variant.
#[verifier::external_body]
fn jot_alignment(a: jotdown::Alignment) -> ColumnAlignment {
    match a {
        jotdown::Alignment::Unspecified => ColumnAlignment::Unspecified,
        jotdown::Alignment::Left => ColumnAlignment::Left,
        jotdown::Alignment::Center => ColumnAlignment::Center,
        jotdown::Alignment::Right => ColumnAlignment::Right,
    }
}

/// `jotdown::OrderedListNumbering` as the library's, variant for variant.
#[verifier::external_body]
fn jot_numbering(n: jotdown::OrderedListNumbering) -> DjNumbering {
    match n {
        jotdown::OrderedListNumbering::Decimal => DjNumbering::Decimal,
        jotdown::OrderedListNumbering::AlphaLower => DjNumbering::AlphaLower,
        jotdown::OrderedListNumbering::AlphaUpper => DjNumbering::AlphaUpper,
        jotdown::OrderedListNumbering::RomanLower => DjNumbering::RomanLower,
        jotdown::OrderedListNumbering::RomanUpper => DjNumbering::RomanUpper,
    }
}

/// `jotdown::ListKind` as the library's: an ordered list keeps its numbering and start.
#[verifier::external_body]
fn jot_list_kind(k: jotdown::ListKind) -> DjListKind {
    match k {
        jotdown::ListKind::Unordered => DjListKind::Unordered,
        jotdown::ListKind::Task => DjListKind::Task,
        jotdown::ListKind::Ordered { numbering, start, .. } => DjListKind::Ordered(jot_numbering(numbering), start),
    }
}

/// `jotdown::SpanLinkType` as the library's, variant for variant.
#[verifier::external_body]
fn jot_span_link_type(t: jotdown::SpanLinkType) -> DjSpanLinkType {
    match t {
        jotdown::SpanLinkType::Inline => DjSpanLinkType::Inline,
        jotdown::SpanLinkType::Reference => DjSpanLinkType::Reference,
        jotdown::SpanLinkType::Unresolved => DjSpanLinkType::Unresolved,
    }
}

/// `jotdown::LinkType` as the library's, variant for variant.
#[verifier::external_body]
fn jot_link_type(t: jotdown::LinkType) -> DjLinkType {
    match t {
        jotdown::LinkType::Span(s) => DjLinkType::Span(jot_span_link_type(s)),
        jotdown::LinkType::AutoLink => DjLinkType::AutoLink,
        jotdown::LinkType::Email => DjLinkType::Email,
    }
}

/// The inline containers of `jotdown::Container` from `Link` on, but `Span`, as the
/// library's, fields copied. `jot_container` hands no other container here.
#[verifier::external_body]
fn jot_inline_container(c: &jotdown::Container<'_>) -> DjContainer {
    match c {
        jotdown::Container::Link(dst, ty) => DjContainer::Link(dst.to_string(), jot_link_type(*ty)),
        jotdown::Container::Image(src, ty) => DjContainer::Image(src.to_string(), jot_span_link_type(*ty)),
        jotdown::Container::Verbatim => DjContainer::Verbatim,
        jotdown::Container::Math { display } => DjContainer::Math(*display),
        jotdown::Container::RawInline { format } => DjContainer::RawInline(format.to_string()),
        jotdown::Container::Subscript => DjContainer::Subscript,
        jotdown::Container::Superscript => DjContainer::Superscript,
        jotdown::Container::Insert => DjContainer::Insert,
        jotdown::Container::Delete => DjContainer::Delete,
        jotdown::Container::Strong => DjContainer::Strong,
        jotdown::Container::Emphasis => DjContainer::Emphasis,
        jotdown::Container::Mark => DjContainer::Mark,
        _ => DjContainer::Span,
    }
}

/// The containers of `jotdown::Container` from `Paragraph` to `Span` as the library's,
/// fields copied; `jot_inline_container` takes the rest.
#[verifier::external_body]
fn jot_leaf_container(c: &jotdown::Container<'_>) -> DjContainer {
    match c {
        jotdown::Container::Paragraph => DjContainer::Paragraph,
        jotdown::Container::Heading { level, .. } => DjContainer::Heading(*level),
        jotdown::Container::TableCell { alignment, head } => DjContainer::TableCell(jot_alignment(*alignment), *head),
        jotdown::Container::Caption => DjContainer::Caption,
        jotdown::Container::DescriptionTerm => DjContainer::DescriptionTerm,
        jotdown::Container::LinkDefinition { .. } => DjContainer::LinkDefinition,
        jotdown::Container::RawBlock { format } => DjContainer::RawBlock(format.to_string()),
        jotdown::Container::CodeBlock { language } => DjContainer::CodeBlock(language.to_string()),
        jotdown::Container::Span => DjContainer::Span,
        other => jot_inline_container(other),
    }
}

/// `jotdown::Container` as the library's container, fields copied; the block containers
/// here, `jot_leaf_container` takes the rest.
#[verifier::external_body]
fn jot_container(c: &jotdown::Container<'_>) -> DjContainer {
    match c {
        jotdown::Container::Blockquote => DjContainer::Blockquote,
        jotdown::Container::List { kind, tight } => DjContainer::List(jot_list_kind(*kind), *tight),
        jotdown::Container::ListItem => DjContainer::ListItem,
        jotdown::Container::TaskListItem { checked } => DjContainer::TaskListItem(*checked),
        jotdown::Container::DescriptionList => DjContainer::DescriptionList,
        jotdown::Container::DescriptionDetails => DjContainer::DescriptionDetails,
        jotdown::Container::Footnote { .. } => DjContainer::Footnote,
        jotdown::Container::Table => DjContainer::Table,
        jotdown::Container::TableRow { .. } => DjContainer::TableRow,
        jotdown::Container::Section { .. } => DjContainer::Section,
        jotdown::Container::Div { class } => DjContainer::Div(class.to_string()),
        other => jot_leaf_container(other),
    }
}

/// The events of `jotdown::Event` without containers as the library's, fields copied;
/// `jot_event` hands no other event here.
#[verifier::external_body]
fn jot_leaf_event(e: &jotdown::Event<'_>) -> DjEvent {
    match e {
        jotdown::Event::LeftSingleQuote => DjEvent::LeftSingleQuote,
        jotdown::Event::RightSingleQuote => DjEvent::RightSingleQuote,
        jotdown::Event::LeftDoubleQuote => DjEvent::LeftDoubleQuote,
        jotdown::Event::RightDoubleQuote => DjEvent::RightDoubleQuote,
        jotdown::Event::Ellipsis => DjEvent::Ellipsis,
        jotdown::Event::EnDash => DjEvent::EnDash,
        jotdown::Event::EmDash => DjEvent::EmDash,
        jotdown::Event::NonBreakingSpace => DjEvent::NonBreakingSpace,
        jotdown::Event::Softbreak => DjEvent::Softbreak,
        jotdown::Event::Hardbreak => DjEvent::Hardbreak,
        jotdown::Event::Escape => DjEvent::Escape,
        _ => DjEvent::Blankline,
    }
}

/// `jotdown::Event` as the library's event, fields copied; attributes become pairs of a key
/// and a value, in their order, each value's parts joined.
#[verifier::external_body]
fn jot_event(e: &jotdown::Event<'_>) -> DjEvent {
    let pairs = |a: &jotdown::Attributes<'_>| a.iter().map(|(k, v)| (k.to_string(), v.parts().collect())).collect();
    match e {
        jotdown::Event::Start(c, attrs) => DjEvent::Start(jot_container(c), pairs(attrs)),
        jotdown::Event::End(c) => DjEvent::End(jot_container(c)),
        jotdown::Event::Str(s) => DjEvent::Str(s.to_string()),
        jotdown::Event::FootnoteReference(_) => DjEvent::FootnoteReference,
        jotdown::Event::Symbol(s) => DjEvent::Symbol(s.to_string()),
        jotdown::Event::ThematicBreak(attrs) => DjEvent::ThematicBreak(pairs(attrs)),
        other => jot_leaf_event(other),
    }
}

/// What jotdown reads in the Djot text `markup`: its events, each with its range in the text,
/// as the library's events.
pub uninterp spec fn djot_parse(markup: Seq<char>) -> Seq<(DjEvent, Range<usize>)>;

/// `jotdown::Parser::new(..).into_offset_iter()`: the events of the Djot text `markup`, each
/// with its range in the text, converted to the library's. The events are named, not stated:
/// they are jotdown's reading of the text, which depends on the text alone.
#[verifier::external_body]
fn djot_events(markup: &str) -> (evs: Vec<(DjEvent, Range<usize>)>)
    ensures
        evs@ == djot_parse(markup@),
{
    jotdown::Parser::new(markup).into_offset_iter().map(|(e, range)| (jot_event(&e), range)).collect()
}

/// Appends the HTML of the Djot text `markup` and notes the diagnostics it raises: the events
/// that jotdown reads in it are written as `render_djot` writes them. False where an event
/// cannot be written.
pub fn djot_to_html(out: &mut String, notes: &mut Vec<(bool, Range<usize>)>, ctx: MdContext, markup: &str) -> (ok:
    bool)
    requires
        context_ok(ctx),
    ensures
        match dj_render(ctx, dj_initial(), djot_parse(markup@), 0) {
            Some((o, n)) => ok && final(out)@ == old(out)@ + o && notes_view(final(notes)@) == notes_view(
                old(notes)@,
            ) + n,
            None => !ok,
        },
{
    let evs = djot_events(markup);
    render_djot(out, notes, ctx, &evs)
}

} // verus!
