//! Plain HTML for a parsed tree: nested lists, with `<details>` around branches that have
//! children.
use vstd::prelude::*;
use vstd::string::*;

use crate::ast::{forest_ok, lemma_forest_ok_index, lemma_views_of, tree_ok, views_of, Branch, BranchView};
use crate::pull::BranchKind;
use crate::text::{lemma_anchored_boundary, lemma_str_valid, slice, text_of};

verus! {

/// The HTML of one branch.
pub open spec fn branch_html(source: &str, v: BranchView) -> Seq<char>
    decreases v, 1nat,
{
    let content = text_of(source, v.content.start as int, v.content.end as int);
    if v.children.len() == 0 {
        "<li>"@ + content + "</li>"@
    } else {
        "<li>"@ + (if v.kind == BranchKind::Expanded {
            "<details open>"@
        } else {
            "<details>"@
        }) + "<summary>"@ + content + "</summary>"@ + branches_html(source, v.children)
            + "</details>"@ + "</li>"@
    }
}

/// The HTML of the branches in `s`, one after the other.
pub open spec fn branch_list_html(source: &str, s: Seq<BranchView>) -> Seq<char>
    decreases s, 0nat,
{
    if s.len() == 0 {
        Seq::empty()
    } else {
        branch_list_html(source, s.drop_last()) + branch_html(source, s.last())
    }
}

/// The HTML of branches one after the other holds each branch's HTML in the order of the
/// branches: that of a run of branches followed by another run is the first run's HTML then
/// the second's, and a single branch gives its own HTML.
pub proof fn law_branch_list_in_order(source: &str, a: Seq<BranchView>, b: Seq<BranchView>, v: BranchView)
    ensures
        branch_list_html(source, a + b) == branch_list_html(source, a) + branch_list_html(source, b),
        branch_list_html(source, seq![v]) == branch_html(source, v),
    decreases b.len(),
{
    assert(seq![v].drop_last() =~= Seq::<BranchView>::empty());
    assert(branch_list_html(source, seq![v]) =~= branch_list_html(source, Seq::<BranchView>::empty()) + branch_html(
        source,
        v,
    ));
    if b.len() == 0 {
        assert(a + b =~= a);
    } else {
        law_branch_list_in_order(source, a, b.drop_last(), v);
        assert((a + b).drop_last() =~= a + b.drop_last());
        assert((a + b).last() == b.last());
    }
}

/// The HTML of a list of branches.
pub open spec fn branches_html(source: &str, s: Seq<BranchView>) -> Seq<char>
    decreases s, 1nat,
{
    "<ul>"@ + branch_list_html(source, s) + "</ul>"@
}

/// Appends the HTML of `branch` to `s`.
pub fn branch_to_html(s: &mut String, branch: &Branch, source: &str)
    requires
        tree_ok(source.spec_bytes(), branch.view_tree()),
    ensures
        final(s)@ == old(s)@ + branch_html(source, branch.view_tree()),
    decreases branch.view_tree(), 1nat,
{
    let ghost v = branch.view_tree();
    proof {
        lemma_str_valid(source);
        lemma_anchored_boundary(source.spec_bytes(), v.content.start as int);
        lemma_anchored_boundary(source.spec_bytes(), v.content.end as int);
        lemma_views_of(branch.children@);
    }
    let has_children = branch.children.len() != 0;
    s.push_str("<li>");
    if has_children {
        s.push_str(match branch.kind {
            BranchKind::Expanded => "<details open>",
            BranchKind::Collapsed => "<details>",
        });
        s.push_str("<summary>");
    }
    s.push_str(slice(source, branch.content.start, branch.content.end));
    if has_children {
        s.push_str("</summary>");
        proof {
            let ci = if v.children.len() > 0 { v.children[0].indent_level as int } else { 0 };
            assert(forest_ok(source.spec_bytes(), views_of(branch.children@), ci));
        }
        branches_to_html(s, branch.children.as_slice(), source);
        s.push_str("</details>");
    }
    s.push_str("</li>");
    proof {
        if has_children {
            assert(final(s)@ =~= old(s)@ + branch_html(source, v));
        } else {
            assert(final(s)@ =~= old(s)@ + branch_html(source, v));
        }
    }
}

/// Appends the HTML of the list of `branches` to `s`.
pub fn branches_to_html(s: &mut String, branches: &[Branch], source: &str)
    requires
        exists|indent: int| forest_ok(source.spec_bytes(), views_of(branches@), indent),
    ensures
        final(s)@ == old(s)@ + branches_html(source, views_of(branches@)),
    decreases views_of(branches@), 0nat,
{
    let ghost vs = views_of(branches@);
    let ghost indent = choose|indent: int| forest_ok(source.spec_bytes(), views_of(branches@), indent);
    let ghost start = old(s)@;
    proof {
        lemma_views_of(branches@);
    }
    s.push_str("<ul>");
    let mut i: usize = 0;
    while i < branches.len()
        invariant
            i <= branches@.len(),
            vs == views_of(branches@),
            vs.len() == branches@.len(),
            forall|j: int| 0 <= j < branches@.len() ==> #[trigger] vs[j] == branches@[j].view_tree(),
            forest_ok(source.spec_bytes(), vs, indent),
            s@ == start + "<ul>"@ + branch_list_html(source, vs.take(i as int)),
        decreases branches@.len() - i,
    {
        proof {
            lemma_forest_ok_index(source.spec_bytes(), vs, indent, i as int);
            assert(decreases_to!(vs => vs[i as int]));
        }
        branch_to_html(s, &branches[i], source);
        proof {
            assert(vs.take(i + 1).drop_last() =~= vs.take(i as int));
        }
        i = i + 1;
    }
    s.push_str("</ul>");
    proof {
        assert(vs.take(i as int) =~= vs);
    }
}

} // verus!
