//! The HTML of the branches of a tree: each branch is a list item holding its markup, its
//! buttons and, when it has children or links to another tree, a foldable list of them.
use vstd::prelude::*;
use vstd::string::*;

use vstd::utf8::*;

use crate::branch_markup::{branch_markup, dedented_lines};
use crate::config::{Config, Markup};
use crate::djot::{dj_initial, dj_render, djot_parse, djot_to_html, notes_view};
use crate::escape::{attribute_entity, flat_map_chars, html_entity, EscapeAttribute, EscapeHtml};
use crate::fix::boundary_range;
use crate::markdown::{
    cmark_parse, context_ok, initial_state, link_targets, markdown_to_html, render_from as render_from_md, MdContext,
};
use crate::mini_template::{lemma_render_view, render, render_from};
use crate::pull::BranchKind;
use crate::sema::{
    diagnostic_view, diagnostics_view, labelled, labelled_diagnostic, Content, LabelStyle, SemaBranch, SemaBranchId,
    Severity, Stage, Treehouse,
};
use crate::text::{slice, str_is_char_boundary};

verus! {

/// `s` escaped for HTML text.
pub open spec fn esc_html(s: Seq<char>) -> Seq<char> {
    flat_map_chars(s, |c: char| html_entity(c))
}

/// `s` escaped for an attribute value.
pub open spec fn esc_attr(s: Seq<char>) -> Seq<char> {
    flat_map_chars(s, |c: char| attribute_entity(c))
}

/// The tree that a branch links to, if it is a link.
pub open spec fn link_of(b: SemaBranch) -> Option<Seq<char>> {
    match b.attributes.content {
        Content::Link(l) => Some(l@),
        Content::Inline => None,
    }
}

/// Whether a branch unfolds: it has children, or links to a tree.
pub open spec fn unfolds(b: SemaBranch) -> bool {
    b.children@.len() > 0 || link_of(b) is Some
}

/// The classes of a branch's list item.
pub open spec fn branch_classes(b: SemaBranch) -> Seq<char> {
    (if unfolds(b) {
        "branch"@
    } else {
        "leaf"@
    }) + (if b.attributes.classes.branch@.len() > 0 {
        " "@ + b.attributes.classes.branch@
    } else {
        Seq::empty()
    }) + (if b.attributes.stage == Stage::Draft {
        " draft"@
    } else {
        Seq::empty()
    })
}

/// The list item's start tag.
pub open spec fn li_tag(b: SemaBranch) -> Seq<char> {
    "<li data-cast=\""@ + (if link_of(b) is Some {
        "b-linked"@
    } else {
        "b"@
    }) + "\" class=\""@ + branch_classes(b) + "\" id=\""@ + esc_attr(b.html_id@) + "\""@ + (match link_of(b) {
        Some(l) => " data-th-link=\""@ + esc_html(l) + "\""@,
        None => Seq::empty(),
    }) + (if b.attributes.do_not_persist {
        " data-th-do-not-persist=\"\""@
    } else {
        Seq::empty()
    }) + ">"@
}

/// The container that folds a branch that unfolds, or holds one that does not.
pub open spec fn container_open(b: SemaBranch) -> Seq<char> {
    if unfolds(b) {
        (if b.kind == BranchKind::Expanded {
            "<details open>"@
        } else {
            "<details>"@
        }) + "<summary class=\"branch-container\">"@
    } else {
        "<div class=\"branch-container\">"@
    }
}

/// The HTML of a branch up to its markup: the list item with its classes and data, the
/// container that folds it, and the start of its content.
pub open spec fn branch_open(b: SemaBranch) -> Seq<char> {
    li_tag(b) + container_open(b) + "<th-bp></th-bp>"@ + "<th-bc>"@
}

/// The link to a linked tree for readers without scripts.
pub open spec fn noscript_link(config: Config, b: SemaBranch) -> Seq<char> {
    match link_of(b) {
        Some(l) => "<noscript><a class=\"navigate icon-go\" href=\""@ + esc_attr(config.site@) + "/"@ + esc_attr(l)
            + "\">Go to linked tree: <code>"@ + esc_html(l) + "</code></a></noscript>"@,
        None => Seq::empty(),
    }
}

/// The buttons of a branch: to its linked tree, if any, and its permalink.
pub open spec fn buttons(config: Config, b: SemaBranch) -> Seq<char> {
    (match link_of(b) {
        Some(l) => "<a class=\"icon icon-go\" href=\""@ + esc_attr(config.site@) + "/"@ + esc_attr(l)
            + "\" title=\"linked tree\"></a>"@,
        None => Seq::empty(),
    }) + "<a class=\"icon icon-permalink\" href=\"/b?"@ + esc_attr(b.attributes.id@) + "\" title=\"permalink\"></a>"@
}

/// The start of the list of a branch's children, for a branch that unfolds.
pub open spec fn children_open(b: SemaBranch) -> Seq<char> {
    if unfolds(b) {
        "</summary>"@ + "<ul"@ + (if b.attributes.classes.branch_children@.len() > 0 {
            " class=\""@ + esc_attr(b.attributes.classes.branch_children@) + "\""@
        } else {
            Seq::empty()
        }) + ">"@
    } else {
        Seq::empty()
    }
}

/// The HTML of a branch after its markup, up to its children: the link to a linked tree
/// for readers without scripts, the buttons, and the start of the list of children.
pub open spec fn branch_after_markup(config: Config, b: SemaBranch) -> Seq<char> {
    noscript_link(config, b) + "</th-bc>"@ + "<th-bb>"@ + buttons(config, b) + "</th-bb>"@ + children_open(b)
}

/// The end of a branch's HTML, after its children.
pub open spec fn branch_close(b: SemaBranch) -> Seq<char> {
    (if unfolds(b) {
        "</ul>"@ + "</details>"@
    } else {
        "</div>"@
    }) + "</li>"@
}

/// Whether branch `b` is shown: drafts only when drafts are.
pub open spec fn shown(b: SemaBranch, include_drafts: bool) -> bool {
    include_drafts || b.attributes.stage != Stage::Draft
}

/// The HTML of branch `id` and the branches under it, with `markups` the HTML of each
/// branch's markup.
pub open spec fn branch_html(t: &Treehouse, config: Config, include_drafts: bool, markups: Seq<Seq<char>>, id: int) -> Seq<
    char,
>
    decreases id, 1nat, 0nat,
{
    if 0 <= id < t.tree.branches_spec().len() {
        let b = t.tree.branches_spec()[id];
        if !shown(b, include_drafts) {
            Seq::empty()
        } else {
            branch_open(b) + markups[id] + branch_after_markup(config, b) + children_html(
                t,
                config,
                include_drafts,
                markups,
                b.children@,
                id,
            ) + branch_close(b)
        }
    } else {
        Seq::empty()
    }
}

/// The HTML of the branches `kids`, each of which comes before `bound` in the tree.
pub open spec fn children_html(
    t: &Treehouse,
    config: Config,
    include_drafts: bool,
    markups: Seq<Seq<char>>,
    kids: Seq<SemaBranchId>,
    bound: int,
) -> Seq<char>
    decreases bound, 0nat, kids.len(),
{
    if kids.len() == 0 {
        Seq::empty()
    } else {
        children_html(t, config, include_drafts, markups, kids.drop_last(), bound) + if 0 <= kids.last().0 < bound {
            branch_html(t, config, include_drafts, markups, kids.last().0 as int)
        } else {
            Seq::empty()
        }
    }
}

/// The HTML of a list of branches holds each branch's HTML in the order of the list: that of a
/// list followed by another is the first list's HTML then the second's, and a single branch
/// before `bound` gives its own HTML.
pub proof fn law_children_in_order(
    t: &Treehouse,
    config: Config,
    include_drafts: bool,
    markups: Seq<Seq<char>>,
    a: Seq<SemaBranchId>,
    b: Seq<SemaBranchId>,
    id: SemaBranchId,
    bound: int,
)
    ensures
        children_html(t, config, include_drafts, markups, a + b, bound) == children_html(
            t,
            config,
            include_drafts,
            markups,
            a,
            bound,
        ) + children_html(t, config, include_drafts, markups, b, bound),
        0 <= id.0 < bound ==> children_html(t, config, include_drafts, markups, seq![id], bound) == branch_html(
            t,
            config,
            include_drafts,
            markups,
            id.0 as int,
        ),
    decreases b.len(),
{
    assert(seq![id].drop_last() =~= Seq::<SemaBranchId>::empty());
    if 0 <= id.0 < bound {
        assert(children_html(t, config, include_drafts, markups, seq![id], bound) =~= children_html(
            t,
            config,
            include_drafts,
            markups,
            Seq::<SemaBranchId>::empty(),
            bound,
        ) + branch_html(t, config, include_drafts, markups, id.0 as int));
    }
    if b.len() == 0 {
        assert(a + b =~= a);
    } else {
        law_children_in_order(t, config, include_drafts, markups, a, b.drop_last(), id, bound);
        assert((a + b).drop_last() =~= a + b.drop_last());
        assert((a + b).last() == b.last());
    }
}

/// The HTML of each branch's markup, as the contracts see it.
pub open spec fn markup_views(markups: Seq<String>) -> Seq<Seq<char>> {
    markups.map_values(|m: String| m@)
}

fn write_branch_classes(s: &mut String, b: &SemaBranch)
    ensures
        final(s)@ == old(s)@ + branch_classes(*b),
{
    let link = match &b.attributes.content {
        Content::Link(_) => true,
        Content::Inline => false,
    };
    if b.children.len() > 0 || link {
        s.push_str("branch");
    } else {
        s.push_str("leaf");
    }
    if !b.attributes.classes.branch.as_str().is_empty() {
        s.push_str(" ");
        s.push_str(b.attributes.classes.branch.as_str());
    }
    if b.attributes.stage == Stage::Draft {
        s.push_str(" draft");
    }
    assert(s@ =~= old(s)@ + branch_classes(*b));
}

/// The data attributes of a list item: its linked tree and whether it is not persisted.
pub open spec fn li_data(b: SemaBranch) -> Seq<char> {
    (match link_of(b) {
        Some(l) => " data-th-link=\""@ + esc_html(l) + "\""@,
        None => Seq::empty(),
    }) + (if b.attributes.do_not_persist {
        " data-th-do-not-persist=\"\""@
    } else {
        Seq::empty()
    })
}

fn write_li_data(s: &mut String, b: &SemaBranch)
    ensures
        final(s)@ == old(s)@ + li_data(*b),
{
    match &b.attributes.content {
        Content::Link(l) => {
            s.push_str(" data-th-link=\"");
            EscapeHtml(l.as_str()).write_to(s);
            s.push_str("\"");
        },
        Content::Inline => {},
    }
    let ghost after_link = s@;
    if b.attributes.do_not_persist {
        s.push_str(" data-th-do-not-persist=\"\"");
    }
    assert(s@ =~= old(s)@ + li_data(*b));
}

fn write_li_tag(s: &mut String, b: &SemaBranch)
    ensures
        final(s)@ == old(s)@ + li_tag(*b),
{
    s.push_str("<li data-cast=\"");
    match &b.attributes.content {
        Content::Link(_) => s.push_str("b-linked"),
        Content::Inline => s.push_str("b"),
    }
    s.push_str("\" class=\"");
    write_branch_classes(s, b);
    s.push_str("\" id=\"");
    EscapeAttribute(b.html_id.as_str()).write_to(s);
    s.push_str("\"");
    write_li_data(s, b);
    s.push_str(">");
    proof {
        assert(li_tag(*b) =~= "<li data-cast=\""@ + (if link_of(*b) is Some {
            "b-linked"@
        } else {
            "b"@
        }) + "\" class=\""@ + branch_classes(*b) + "\" id=\""@ + esc_attr(b.html_id@) + "\""@ + li_data(*b) + ">"@);
        assert(s@ =~= old(s)@ + li_tag(*b));
    }
}

fn write_branch_open(s: &mut String, b: &SemaBranch)
    ensures
        final(s)@ == old(s)@ + branch_open(*b),
{
    write_li_tag(s, b);
    let unfolds = b.children.len() > 0 || match &b.attributes.content {
        Content::Link(_) => true,
        Content::Inline => false,
    };
    let ghost before_container = s@;
    if unfolds {
        match b.kind {
            BranchKind::Expanded => s.push_str("<details open>"),
            BranchKind::Collapsed => s.push_str("<details>"),
        }
        s.push_str("<summary class=\"branch-container\">");
    } else {
        s.push_str("<div class=\"branch-container\">");
    }
    assert(s@ =~= before_container + container_open(*b));
    s.push_str("<th-bp></th-bp>");
    s.push_str("<th-bc>");
    proof {
        assert(s@ =~= old(s)@ + branch_open(*b));
    }
}

fn write_noscript_link(s: &mut String, config: &Config, b: &SemaBranch)
    ensures
        final(s)@ == old(s)@ + noscript_link(*config, *b),
{
    match &b.attributes.content {
        Content::Link(l) => {
            s.push_str("<noscript><a class=\"navigate icon-go\" href=\"");
            EscapeAttribute(config.site.as_str()).write_to(s);
            s.push_str("/");
            EscapeAttribute(l.as_str()).write_to(s);
            s.push_str("\">Go to linked tree: <code>");
            EscapeHtml(l.as_str()).write_to(s);
            s.push_str("</code></a></noscript>");
            assert(s@ =~= old(s)@ + noscript_link(*config, *b));
        },
        Content::Inline => {},
    }
}

fn write_buttons(s: &mut String, config: &Config, b: &SemaBranch)
    ensures
        final(s)@ == old(s)@ + buttons(*config, *b),
{
    match &b.attributes.content {
        Content::Link(l) => {
            s.push_str("<a class=\"icon icon-go\" href=\"");
            EscapeAttribute(config.site.as_str()).write_to(s);
            s.push_str("/");
            EscapeAttribute(l.as_str()).write_to(s);
            s.push_str("\" title=\"linked tree\"></a>");
        },
        Content::Inline => {},
    }
    let ghost before_permalink = s@;
    s.push_str("<a class=\"icon icon-permalink\" href=\"/b?");
    EscapeAttribute(b.attributes.id.as_str()).write_to(s);
    s.push_str("\" title=\"permalink\"></a>");
    proof {
        assert(s@ =~= old(s)@ + buttons(*config, *b));
    }
}

fn write_children_open(s: &mut String, b: &SemaBranch)
    ensures
        final(s)@ == old(s)@ + children_open(*b),
{
    let unfolds = b.children.len() > 0 || match &b.attributes.content {
        Content::Link(_) => true,
        Content::Inline => false,
    };
    if unfolds {
        s.push_str("</summary>");
        s.push_str("<ul");
        if !b.attributes.classes.branch_children.as_str().is_empty() {
            s.push_str(" class=\"");
            EscapeAttribute(b.attributes.classes.branch_children.as_str()).write_to(s);
            s.push_str("\"");
        }
        s.push_str(">");
        assert(s@ =~= old(s)@ + children_open(*b));
    }
}

fn write_branch_after_markup(s: &mut String, config: &Config, b: &SemaBranch)
    ensures
        final(s)@ == old(s)@ + branch_after_markup(*config, *b),
{
    write_noscript_link(s, config, b);
    s.push_str("</th-bc>");
    s.push_str("<th-bb>");
    write_buttons(s, config, b);
    s.push_str("</th-bb>");
    write_children_open(s, b);
    proof {
        assert(s@ =~= old(s)@ + branch_after_markup(*config, *b));
    }
}

fn write_branch_close(s: &mut String, b: &SemaBranch)
    ensures
        final(s)@ == old(s)@ + branch_close(*b),
{
    let link = match &b.attributes.content {
        Content::Link(_) => true,
        Content::Inline => false,
    };
    if b.children.len() > 0 || link {
        s.push_str("</ul>");
        s.push_str("</details>");
    } else {
        s.push_str("</div>");
    }
    s.push_str("</li>");
    proof {
        assert(s@ =~= old(s)@ + branch_close(*b));
    }
}

/// Appends the HTML of branch `id` and the branches under it, with `markups` the HTML of
/// each branch's markup, by the branch's index. Drafts are left out unless
/// `include_drafts`.
pub fn branch_to_html(
    s: &mut String,
    treehouse: &Treehouse,
    config: &Config,
    include_drafts: bool,
    markups: &Vec<String>,
    id: SemaBranchId,
)
    requires
        treehouse.tree.wf(),
        id.0 < treehouse.tree.branches_spec().len(),
        markups@.len() == treehouse.tree.branches_spec().len(),
    ensures
        final(s)@ == old(s)@ + branch_html(treehouse, *config, include_drafts, markup_views(markups@), id.0 as int),
    decreases id.0,
{
    let ghost ms = markup_views(markups@);
    let branch = treehouse.tree.branch(id);
    if !include_drafts && branch.attributes.stage == Stage::Draft {
        proof {
            assert(old(s)@ + Seq::<char>::empty() =~= old(s)@);
        }
        return;
    }
    write_branch_open(s, branch);
    s.push_str(markups[id.0].as_str());
    write_branch_after_markup(s, config, branch);
    let ghost before_kids = s@;
    let mut k: usize = 0;
    proof {
        assert(branch.children@.take(0) =~= Seq::<SemaBranchId>::empty());
        assert(before_kids + children_html(treehouse, *config, include_drafts, ms, branch.children@.take(0), id.0 as int)
            =~= before_kids);
    }
    while k < branch.children.len()
        invariant
            k <= branch.children@.len(),
            treehouse.tree.wf(),
            id.0 < treehouse.tree.branches_spec().len(),
            *branch == treehouse.tree.branches_spec()[id.0 as int],
            markups@.len() == treehouse.tree.branches_spec().len(),
            ms == markup_views(markups@),
            s@ == before_kids + children_html(
                treehouse,
                *config,
                include_drafts,
                ms,
                branch.children@.take(k as int),
                id.0 as int,
            ),
        decreases branch.children@.len() - k,
    {
        let child = branch.children[k];
        proof {
            assert(treehouse.tree.branches_spec()[id.0 as int].children@[k as int] == child);
            assert(child.0 < id.0);
            assert(branch.children@.take(k + 1).drop_last() =~= branch.children@.take(k as int));
            assert(branch.children@.take(k + 1).last() == child);
        }
        branch_to_html(s, treehouse, config, include_drafts, markups, child);
        k = k + 1;
    }
    proof {
        assert(branch.children@.take(k as int) =~= branch.children@);
        assert(ms[id.0 as int] == markups@[id.0 as int]@);
    }
    write_branch_close(s, branch);
    proof {
        assert(s@ =~= old(s)@ + branch_html(treehouse, *config, include_drafts, ms, id.0 as int));
    }
}

/// Appends a list of the HTML of the branches `ids`.
pub fn branches_to_html(
    s: &mut String,
    treehouse: &Treehouse,
    config: &Config,
    include_drafts: bool,
    markups: &Vec<String>,
    ids: &Vec<SemaBranchId>,
)
    requires
        treehouse.tree.wf(),
        forall|k: int| 0 <= k < ids@.len() ==> (#[trigger] ids@[k]).0 < treehouse.tree.branches_spec().len(),
        markups@.len() == treehouse.tree.branches_spec().len(),
    ensures
        final(s)@ == old(s)@ + "<ul>"@ + children_html(
            treehouse,
            *config,
            include_drafts,
            markup_views(markups@),
            ids@,
            treehouse.tree.branches_spec().len() as int,
        ) + "</ul>"@,
{
    let ghost ms = markup_views(markups@);
    let ghost n = treehouse.tree.branches_spec().len() as int;
    s.push_str("<ul>");
    let ghost start = s@;
    let mut k: usize = 0;
    proof {
        assert(ids@.take(0) =~= Seq::<SemaBranchId>::empty());
        assert(start + children_html(treehouse, *config, include_drafts, ms, ids@.take(0), n) =~= start);
    }
    while k < ids.len()
        invariant
            k <= ids@.len(),
            treehouse.tree.wf(),
            forall|j: int| 0 <= j < ids@.len() ==> (#[trigger] ids@[j]).0 < treehouse.tree.branches_spec().len(),
            markups@.len() == treehouse.tree.branches_spec().len(),
            n == treehouse.tree.branches_spec().len(),
            ms == markup_views(markups@),
            s@ == start + children_html(treehouse, *config, include_drafts, ms, ids@.take(k as int), n),
        decreases ids@.len() - k,
    {
        let id = ids[k];
        proof {
            assert(ids@.take(k + 1).drop_last() =~= ids@.take(k as int));
            assert(ids@.take(k + 1).last() == id);
        }
        branch_to_html(s, treehouse, config, include_drafts, markups, id);
        k = k + 1;
    }
    proof {
        assert(ids@.take(k as int) =~= ids@);
    }
    s.push_str("</ul>");
    proof {
        assert(s@ =~= old(s)@ + "<ul>"@ + children_html(treehouse, *config, include_drafts, ms, ids@, n) + "</ul>"@);
    }
}

/// A branch's content lies in file `file_id`, between character boundaries.
pub open spec fn content_ok(t: &Treehouse, file_id: int, b: SemaBranch) -> bool {
    &&& 0 <= file_id < t.files_view().len()
    &&& boundary_range(encode_utf8(t.files_view()[file_id].1), b.content.start as int, b.content.end as int)
}

/// The text `d` with its templates rendered.
pub open spec fn rendered_text(config: Config, d: Seq<char>) -> Seq<char> {
    render_from(config, choose|t: &str| t@ == d, 0)
}

/// The markup of branch `b` of file `file_id`: the lines of its content with its
/// indentation taken off, and its templates rendered when it asks for them (and the text
/// leaves room to do so).
pub open spec fn markup_text(t: &Treehouse, config: Config, file_id: int, b: SemaBranch) -> Seq<char> {
    let bytes = encode_utf8(t.files_view()[file_id].1);
    let raw = decode_utf8(bytes.subrange(b.content.start as int, b.content.end as int));
    let d = dedented_lines(raw, b.indent_level as nat);
    if b.attributes.template && encode_utf8(d).len() < usize::MAX {
        rendered_text(config, d)
    } else {
        d
    }
}

/// The markup of branch `id` of file `file_id`; none when its content does not lie in the
/// file between character boundaries.
pub fn markup_text_of(treehouse: &Treehouse, config: &Config, file_id: usize, id: SemaBranchId) -> (r: Option<String>)
    requires
        file_id < treehouse.files_view().len(),
        id.0 < treehouse.tree.branches_spec().len(),
    ensures
        match r {
            Some(m) => content_ok(treehouse, file_id as int, treehouse.tree.branches_spec()[id.0 as int]) && m@
                == markup_text(treehouse, *config, file_id as int, treehouse.tree.branches_spec()[id.0 as int]),
            None => !content_ok(treehouse, file_id as int, treehouse.tree.branches_spec()[id.0 as int]),
        },
{
    let source = treehouse.source(file_id);
    let branch = treehouse.tree.branch(id);
    let start = branch.content.start;
    let end = branch.content.end;
    let len = source.as_bytes().len();
    if !(start <= end && end <= len && str_is_char_boundary(source, start) && str_is_char_boundary(source, end)) {
        return None;
    }
    let raw = slice(source, start, end);
    let dedented = branch_markup(raw, branch.indent_level);
    if branch.attributes.template && dedented.as_str().as_bytes().len() < usize::MAX {
        let text = dedented.as_str();
        let rendered = render(config, text);
        proof {
            let t = choose|t: &str| t@ == dedented@;
            assert(exists|t: &str| t@ == dedented@);
            lemma_render_view(*config, t, text, 0);
        }
        Some(rendered)
    } else {
        Some(dedented)
    }
}

/// `h` is the HTML of the markup text `markup` in the configured language, as the writers
/// write it: of the events that jotdown reads in it, or those that pulldown-cmark reads in it
/// with broken reference links resolved by the context.
pub open spec fn rendered_as(ctx: MdContext, markup: Seq<char>, h: Seq<char>) -> bool {
    match ctx.config.markup {
        Markup::Markdown => h == render_from_md(
            ctx,
            initial_state(),
            cmark_parse(markup, link_targets(*ctx.config, ctx.treehouse)),
            0,
        ),
        Markup::Djot => dj_render(ctx, dj_initial(), djot_parse(markup), 0) matches Some((o, _)) && o == h,
    }
}

/// Branch `i` is one of file `file_id` that is shown.
pub open spec fn shown_in(t: &Treehouse, include_drafts: bool, file_id: int, i: int) -> bool {
    &&& t.tree.branches_spec()[i].file_id == file_id
    &&& shown(t.tree.branches_spec()[i], include_drafts)
}

/// The Djot diagnostics noted while rendering the first `n` branches: for each shown branch of
/// file `file_id`, in order, those its Djot markup raises; none for Markdown.
pub open spec fn markup_notes(ctx: MdContext, include_drafts: bool, file_id: int, n: int) -> Seq<(bool, int, int)>
    decreases n,
{
    if n <= 0 {
        Seq::empty()
    } else {
        markup_notes(ctx, include_drafts, file_id, n - 1) + if ctx.config.markup == Markup::Djot && shown_in(
            ctx.treehouse,
            include_drafts,
            file_id,
            n - 1,
        ) {
            match dj_render(
                ctx,
                dj_initial(),
                djot_parse(markup_text(ctx.treehouse, *ctx.config, file_id, ctx.treehouse.tree.branches_spec()[n - 1])),
                0,
            ) {
                Some((_, notes)) => notes,
                None => Seq::empty(),
            }
        } else {
            Seq::empty()
        }
    }
}

/// The HTML of the markup of every branch, by index: that of each shown branch of file
/// `file_id` rendered in the configured language, and nothing for the others. The Djot
/// diagnostics are noted. None when a shown branch's content does not lie in the file
/// between character boundaries, or a Djot event cannot be written.
pub fn branch_markups(
    ctx: MdContext,
    include_drafts: bool,
    file_id: usize,
    notes: &mut Vec<(bool, std::ops::Range<usize>)>,
) -> (r: Option<Vec<String>>)
    requires
        context_ok(ctx),
        file_id < ctx.treehouse.files_view().len(),
    ensures
        r matches Some(ms) ==> {
            &&& ms@.len() == ctx.treehouse.tree.branches_spec().len()
            &&& notes_view(final(notes)@) == notes_view(old(notes)@) + markup_notes(
                ctx,
                include_drafts,
                file_id as int,
                ms@.len() as int,
            )
            &&& forall|i: int|
                0 <= i < ms@.len() ==> if shown_in(ctx.treehouse, include_drafts, file_id as int, i) {
                    rendered_as(
                        ctx,
                        markup_text(ctx.treehouse, *ctx.config, file_id as int, ctx.treehouse.tree.branches_spec()[i]),
                        (#[trigger] ms@[i])@,
                    )
                } else {
                    ms@[i]@ == Seq::<char>::empty()
                }
        },
        r is None ==> exists|i: int|
            0 <= i < ctx.treehouse.tree.branches_spec().len() && #[trigger] shown_in(
                ctx.treehouse,
                include_drafts,
                file_id as int,
                i,
            ) && (!content_ok(ctx.treehouse, file_id as int, ctx.treehouse.tree.branches_spec()[i]) || (
            ctx.config.markup == Markup::Djot && dj_render(
                ctx,
                dj_initial(),
                djot_parse(
                    markup_text(ctx.treehouse, *ctx.config, file_id as int, ctx.treehouse.tree.branches_spec()[i]),
                ),
                0,
            ) is None)),
{
    let n = ctx.treehouse.tree.len();
    let mut ms: Vec<String> = Vec::new();
    let mut i: usize = 0;
    while i < n
        invariant
            i <= n,
            n == ctx.treehouse.tree.branches_spec().len(),
            context_ok(ctx),
            file_id < ctx.treehouse.files_view().len(),
            ms@.len() == i,
            notes_view(notes@) == notes_view(old(notes)@) + markup_notes(ctx, include_drafts, file_id as int, i as int),
            forall|j: int|
                0 <= j < i ==> if shown_in(ctx.treehouse, include_drafts, file_id as int, j) {
                    rendered_as(
                        ctx,
                        markup_text(ctx.treehouse, *ctx.config, file_id as int, ctx.treehouse.tree.branches_spec()[j]),
                        (#[trigger] ms@[j])@,
                    )
                } else {
                    ms@[j]@ == Seq::<char>::empty()
                },
        decreases n - i,
    {
        let branch = ctx.treehouse.tree.branch(SemaBranchId(i));
        let ghost prev = ms@;
        let ghost noted = notes_view(notes@);
        if branch.file_id == file_id && (include_drafts || branch.attributes.stage != Stage::Draft) {
            assert(shown_in(ctx.treehouse, include_drafts, file_id as int, i as int));
            let markup = match markup_text_of(ctx.treehouse, ctx.config, file_id, SemaBranchId(i)) {
                Some(m) => m,
                None => {
                    return None;
                },
            };
            let mut h = String::new();
            match ctx.config.markup {
                Markup::Markdown => {
                    markdown_to_html(&mut h, ctx, markup.as_str());
                    proof {
                        assert(h@ =~= render_from_md(
                            ctx,
                            initial_state(),
                            cmark_parse(markup@, link_targets(*ctx.config, ctx.treehouse)),
                            0,
                        ));
                    }
                },
                Markup::Djot => {
                    let ghost notes_before = notes@;
                    if !djot_to_html(&mut h, notes, ctx, markup.as_str()) {
                        return None;
                    }
                    proof {
                        assert(h@ =~= dj_render(ctx, dj_initial(), djot_parse(markup@), 0)->Some_0.0);
                    }
                },
            }
            ms.push(h);
            assert(ms@ == prev.push(h));
            assert(notes_view(notes@) =~= notes_view(old(notes)@) + markup_notes(
                ctx,
                include_drafts,
                file_id as int,
                i + 1,
            ));
        } else {
            ms.push(String::new());
            assert(notes_view(notes@) =~= notes_view(old(notes)@) + markup_notes(
                ctx,
                include_drafts,
                file_id as int,
                i + 1,
            ));
        }
        i = i + 1;
    }
    Some(ms)
}

/// The diagnostic of a Djot footnote, as the contracts see it.
pub open spec fn djot_note_view(file_id: usize, note: (bool, int, int)) -> (
    Severity,
    Option<Seq<char>>,
    Seq<char>,
    Seq<(LabelStyle, usize, int, int, Seq<char>)>,
    Seq<Seq<char>>,
) {
    labelled(
        Severity::Error,
        "djot"@,
        if note.0 {
            "Djot footnotes are unsupported"@
        } else {
            "Djot footnotes are not supported"@
        },
        file_id,
        note.1,
        note.2,
        Seq::empty(),
    )
}

/// Reports the noted Djot footnotes of file `file_id`, in order.
pub fn report_djot_notes(treehouse: &mut Treehouse, file_id: usize, notes: &Vec<(bool, std::ops::Range<usize>)>)
    ensures
        diagnostics_view(final(treehouse).diagnostics@) == diagnostics_view(old(treehouse).diagnostics@)
            + notes_view(notes@).map_values(|n: (bool, int, int)| djot_note_view(file_id, n)),
        final(treehouse).files == old(treehouse).files,
        final(treehouse).tree == old(treehouse).tree,
        final(treehouse).branches_by_named_id == old(treehouse).branches_by_named_id,
        final(treehouse).roots == old(treehouse).roots,
        final(treehouse).tree_paths == old(treehouse).tree_paths,
{
    let mut k: usize = 0;
    while k < notes.len()
        invariant
            k <= notes@.len(),
            diagnostics_view(treehouse.diagnostics@) == diagnostics_view(old(treehouse).diagnostics@) + notes_view(
                notes@,
            ).take(k as int).map_values(|n: (bool, int, int)| djot_note_view(file_id, n)),
            treehouse.files == old(treehouse).files,
            treehouse.tree == old(treehouse).tree,
            treehouse.branches_by_named_id == old(treehouse).branches_by_named_id,
            treehouse.roots == old(treehouse).roots,
            treehouse.tree_paths == old(treehouse).tree_paths,
        decreases notes@.len() - k,
    {
        let (reference, range) = &notes[k];
        let message = if *reference {
            "Djot footnotes are unsupported".to_owned()
        } else {
            "Djot footnotes are not supported".to_owned()
        };
        let d = labelled_diagnostic(
            Severity::Error,
            "djot",
            message,
            file_id,
            std::ops::Range { start: range.start, end: range.end },
            Vec::new(),
        );
        let ghost before = treehouse.diagnostics@;
        treehouse.diagnostics.push(d);
        proof {
            assert(Seq::<String>::empty().map_values(|n: String| n@) =~= Seq::<Seq<char>>::empty());
            assert(notes_view(notes@).take(k + 1) =~= notes_view(notes@).take(k as int).push(notes_view(notes@)[k as int]));
            assert(diagnostics_view(treehouse.diagnostics@) =~= diagnostics_view(before).push(diagnostic_view(d)));
            assert(diagnostics_view(treehouse.diagnostics@) =~= diagnostics_view(old(treehouse).diagnostics@)
                + notes_view(notes@).take(k + 1).map_values(|n: (bool, int, int)| djot_note_view(file_id, n)));
        }
        k = k + 1;
    }
    proof {
        assert(notes_view(notes@).take(k as int) =~= notes_view(notes@));
    }
}

} // verus!
