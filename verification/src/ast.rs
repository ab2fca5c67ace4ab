//! The tree of branches of a `.tree` file, built from the events of the pull parser by
//! indentation: a branch owns the branches that follow it indented deeper than itself.
use std::ops::Range;
use vstd::prelude::*;
use vstd::string::*;

use crate::error::{error_at, ParseError, ParseErrorKind};
use crate::text::anchored;
use crate::pull::{
    DASH, PLUS, event_shape, lemma_next_branch, lemma_spaces_end, spaces_end, spec_next_branch, Attributes,
    BranchEvent, BranchKind, Parser,
};

verus! {

/// The branches at the top level of a file.
#[derive(Debug)]
pub struct Roots {
    pub branches: Vec<Branch>,
}

/// A branch and the branches nested under it.
#[derive(Debug)]
pub struct Branch {
    pub indent_level: usize,
    pub attributes: Option<Attributes>,
    pub kind: BranchKind,
    pub kind_span: Range<usize>,
    pub content: Range<usize>,
    pub children: Vec<Branch>,
}

/// A branch as a mathematical tree.
pub struct BranchView {
    pub indent_level: usize,
    pub attributes: Option<Attributes>,
    pub kind: BranchKind,
    pub kind_span: Range<usize>,
    pub content: Range<usize>,
    pub children: Seq<BranchView>,
}

impl Branch {
    pub open spec fn view_tree(&self) -> BranchView
        decreases self,
    {
        BranchView {
            indent_level: self.indent_level,
            attributes: self.attributes,
            kind: self.kind,
            kind_span: self.kind_span,
            content: self.content,
            children: views_of(self.children@),
        }
    }
}

/// The trees of a sequence of branches.
pub open spec fn views_of(s: Seq<Branch>) -> Seq<BranchView>
    decreases s,
{
    if s.len() == 0 {
        Seq::empty()
    } else {
        views_of(s.drop_last()).push(s.last().view_tree())
    }
}

pub proof fn lemma_views_of(s: Seq<Branch>)
    ensures
        views_of(s).len() == s.len(),
        forall|i: int| 0 <= i < s.len() ==> #[trigger] views_of(s)[i] == s[i].view_tree(),
    decreases s.len(),
{
    if s.len() > 0 {
        lemma_views_of(s.drop_last());
    }
}

pub proof fn lemma_views_of_push(s: Seq<Branch>, b: Branch)
    ensures
        views_of(s.push(b)) == views_of(s).push(b.view_tree()),
{
    assert(s.push(b).drop_last() =~= s);
}

/// The tree of a branch event with the given children.
pub open spec fn branch_of(event: BranchEvent, children: Seq<BranchView>) -> BranchView {
    BranchView {
        indent_level: event.indent_level,
        attributes: event.attributes,
        kind: event.kind,
        kind_span: event.kind_span,
        content: event.content,
        children,
    }
}

/// How much recursion the parse of a branch at `p` can need at most.
pub open spec fn branch_fuel(b: Seq<u8>, p: int) -> nat {
    (2 * (b.len() - p) + 1) as nat
}

/// How much recursion the parse of a run of children at `p` can need at most.
pub open spec fn children_fuel(b: Seq<u8>, p: int) -> nat {
    (2 * (b.len() - p) + 2) as nat
}

/// The branch at `p` with all of its children: the tree, its own indentation, and the
/// position after it. A branch's children are the branches that follow it, all at the
/// indentation of the first one, when that is deeper than the branch's own.
pub open spec fn spec_parse_branch(b: Seq<u8>, p: int, fuel: nat) -> Result<
    Option<(BranchView, int, int)>,
    ParseError,
>
    decreases fuel,
{
    if fuel == 0 {
        Ok(None)
    } else {
        match spec_next_branch(b, p) {
            Err(e) => Err(e),
            Ok(None) => Ok(None),
            Ok(Some((event, q))) => {
                let children_indent = spaces_end(b, q) - q;
                if children_indent > event.indent_level {
                    match spec_parse_children(b, q, children_indent, (fuel - 1) as nat) {
                        Err(e) => Err(e),
                        Ok((children, r)) => Ok(
                            Some((branch_of(event, children), event.indent_level as int, r)),
                        ),
                    }
                } else {
                    Ok(Some((branch_of(event, Seq::empty()), event.indent_level as int, q)))
                }
            },
        }
    }
}

/// The run of branches at `p` indented by exactly `indent` spaces, and the position after it.
pub open spec fn spec_parse_children(b: Seq<u8>, p: int, indent: int, fuel: nat) -> Result<
    (Seq<BranchView>, int),
    ParseError,
>
    decreases fuel,
{
    if fuel == 0 {
        Ok((Seq::empty(), p))
    } else if spaces_end(b, p) - p == indent {
        match spec_parse_branch(b, p, (fuel - 1) as nat) {
            Err(e) => Err(e),
            Ok(None) => Ok((Seq::empty(), p)),
            Ok(Some((branch, _, q))) => match spec_parse_children(b, q, indent, (fuel - 1) as nat) {
                Err(e) => Err(e),
                Ok((rest, r)) => Ok((seq![branch] + rest, r)),
            },
        }
    } else {
        Ok((Seq::empty(), p))
    }
}

/// Enough fuel gives the same parse, whatever its amount, and the parse moves forward.
pub proof fn lemma_parse_branch_fuel(b: Seq<u8>, p: int, f1: nat, f2: nat)
    requires
        0 <= p <= b.len(),
        b.len() < usize::MAX,
        f1 >= branch_fuel(b, p),
        f2 >= branch_fuel(b, p),
    ensures
        spec_parse_branch(b, p, f1) == spec_parse_branch(b, p, f2),
        spec_parse_branch(b, p, f1) matches Ok(Some((_, _, r))) ==> p < r <= b.len(),
        spec_parse_branch(b, p, f1) matches Ok(None) ==> p == b.len(),
    decreases f1 + f2, 1nat,
{
    lemma_next_branch(b, p);
    if let Ok(Some((event, q))) = spec_next_branch(b, p) {
        lemma_spaces_end(b, q);
        let ci = spaces_end(b, q) - q;
        if ci > event.indent_level {
            lemma_parse_children_fuel(b, q, ci, (f1 - 1) as nat, (f2 - 1) as nat);
        }
    }
}

pub proof fn lemma_parse_children_fuel(b: Seq<u8>, p: int, indent: int, f1: nat, f2: nat)
    requires
        0 <= p <= b.len(),
        b.len() < usize::MAX,
        f1 >= children_fuel(b, p),
        f2 >= children_fuel(b, p),
    ensures
        spec_parse_children(b, p, indent, f1) == spec_parse_children(b, p, indent, f2),
        spec_parse_children(b, p, indent, f1) matches Ok((_, r)) ==> p <= r <= b.len(),
    decreases f1 + f2, 0nat,
{
    if spaces_end(b, p) - p == indent {
        lemma_parse_branch_fuel(b, p, (f1 - 1) as nat, (f2 - 1) as nat);
        if let Ok(Some((_, _, q))) = spec_parse_branch(b, p, (f1 - 1) as nat) {
            lemma_parse_children_fuel(b, q, indent, (f1 - 1) as nat, (f2 - 1) as nat);
        }
    }
}

/// The trees of the root branches from `p` to the end of the input. Every root branch must
/// be unindented.
pub open spec fn spec_parse_roots(b: Seq<u8>, p: int) -> Result<Seq<BranchView>, ParseError>
    decreases b.len() - p,
{
    if p < 0 || p > b.len() || b.len() >= usize::MAX {
        Ok(Seq::empty())
    } else {
        proof {
            lemma_parse_branch_fuel(b, p, branch_fuel(b, p), branch_fuel(b, p));
        }
        match spec_parse_branch(b, p, branch_fuel(b, p)) {
            Err(e) => Err(e),
            Ok(None) => Ok(Seq::empty()),
            Ok(Some((tree, indent, r))) => {
                if indent != 0 {
                    Err(
                        error_at(
                            ParseErrorKind::RootIndentLevel,
                            tree.kind_span.start as int,
                            tree.kind_span.end as int,
                        ),
                    )
                } else {
                    match spec_parse_roots(b, r) {
                        Err(e) => Err(e),
                        Ok(rest) => Ok(seq![tree] + rest),
                    }
                }
            },
        }
    }
}

/// The byte that introduces a branch of kind `kind`.
pub open spec fn kind_byte(kind: BranchKind) -> u8 {
    if kind == BranchKind::Expanded {
        DASH
    } else {
        PLUS
    }
}

/// A branch of a parse of `b` and everything under it are well formed: its kind character
/// starts its header, its content follows the kind character and lies within the input with
/// both ends at character starts, and its children all share one indentation deeper than its
/// own.
pub open spec fn tree_ok(b: Seq<u8>, v: BranchView) -> bool
    decreases v, 1nat,
{
    let k = v.kind_span.start as int;
    &&& 0 <= k < b.len()
    &&& v.kind_span.end == k + 1
    &&& b[k] == kind_byte(v.kind)
    &&& v.content.start == k + 1
    &&& v.content.start <= v.content.end <= b.len()
    &&& anchored(b, k)
    &&& anchored(b, v.content.start as int)
    &&& anchored(b, v.content.end as int)
    &&& attributes_ok(b, v)
    &&& v.indent_level <= k
    &&& v.children.len() > 0 ==> v.children[0].indent_level > v.indent_level
    &&& forest_ok(b, v.children, if v.children.len() > 0 { v.children[0].indent_level as int } else { 0 })
}

/// A branch's attribute text starts right after its `%` and ends right before its kind.
pub open spec fn attributes_ok(b: Seq<u8>, v: BranchView) -> bool {
    match v.attributes {
        Some(a) => {
            &&& a.percent.end == a.data.start
            &&& a.percent.start + 1 == a.percent.end
            &&& a.data.start <= a.data.end
            &&& a.data.end == v.kind_span.start
            &&& anchored(b, a.data.start as int)
        },
        None => true,
    }
}

/// Every branch of `s` is well formed and indented by `indent` spaces.
pub open spec fn forest_ok(b: Seq<u8>, s: Seq<BranchView>, indent: int) -> bool
    decreases s, 0nat,
{
    if s.len() == 0 {
        true
    } else {
        &&& forest_ok(b, s.drop_last(), indent)
        &&& s.last().indent_level == indent
        &&& tree_ok(b, s.last())
    }
}

pub proof fn lemma_forest_ok_concat(b: Seq<u8>, s1: Seq<BranchView>, s2: Seq<BranchView>, indent: int)
    requires
        forest_ok(b, s1, indent),
        forest_ok(b, s2, indent),
    ensures
        forest_ok(b, s1 + s2, indent),
    decreases s2.len(),
{
    if s2.len() == 0 {
        assert(s1 + s2 =~= s1);
    } else {
        lemma_forest_ok_concat(b, s1, s2.drop_last(), indent);
        assert((s1 + s2).drop_last() =~= s1 + s2.drop_last());
    }
}

pub proof fn lemma_forest_ok_index(b: Seq<u8>, s: Seq<BranchView>, indent: int, i: int)
    requires
        forest_ok(b, s, indent),
        0 <= i < s.len(),
    ensures
        s[i].indent_level == indent,
        tree_ok(b, s[i]),
    decreases s.len(),
{
    if i < s.len() - 1 {
        lemma_forest_ok_index(b, s.drop_last(), indent, i);
    }
}

/// Every branch that the parser builds is well formed.
pub proof fn lemma_parse_branch_ok(b: Seq<u8>, p: int, fuel: nat)
    requires
        0 <= p <= b.len(),
        b.len() < usize::MAX,
    ensures
        spec_parse_branch(b, p, fuel) matches Ok(Some((tree, indent, r))) ==> {
            &&& tree_ok(b, tree)
            &&& tree.indent_level == indent
            &&& indent == spaces_end(b, p) - p
            &&& p <= tree.kind_span.start
            &&& tree.content.end <= r <= b.len()
        },
    decreases fuel, 1nat,
{
    if fuel > 0 {
        lemma_next_branch(b, p);
        if let Ok(Some((event, q))) = spec_next_branch(b, p) {
            lemma_spaces_end(b, q);
            let ci = spaces_end(b, q) - q;
            if ci > event.indent_level {
                lemma_parse_children_ok(b, q, ci, (fuel - 1) as nat);
                if let Ok((children, r)) = spec_parse_children(b, q, ci, (fuel - 1) as nat) {
                    if children.len() > 0 {
                        lemma_forest_ok_index(b, children, ci, 0);
                    }
                }
            } else {
                assert(forest_ok(b, Seq::<BranchView>::empty(), 0));
            }
        }
    }
}

pub proof fn lemma_parse_children_ok(b: Seq<u8>, p: int, indent: int, fuel: nat)
    requires
        0 <= p <= b.len(),
        b.len() < usize::MAX,
    ensures
        spec_parse_children(b, p, indent, fuel) matches Ok((s, r)) ==> forest_ok(b, s, indent) && p <= r
            <= b.len(),
    decreases fuel, 0nat,
{
    if fuel > 0 && spaces_end(b, p) - p == indent {
        lemma_parse_branch_ok(b, p, (fuel - 1) as nat);
        lemma_spaces_end(b, p);
        if let Ok(Some((tree, i, q))) = spec_parse_branch(b, p, (fuel - 1) as nat) {
            lemma_next_branch(b, p);
            lemma_parse_children_ok(b, q, indent, (fuel - 1) as nat);
            if let Ok((rest, r)) = spec_parse_children(b, q, indent, (fuel - 1) as nat) {
                assert(seq![tree].drop_last() =~= Seq::<BranchView>::empty());
                assert(forest_ok(b, Seq::<BranchView>::empty(), indent));
                assert(seq![tree].last() == tree);
                assert(tree.indent_level == indent);
                assert(tree_ok(b, tree));
                assert(forest_ok(b, seq![tree], indent));
                lemma_forest_ok_concat(b, seq![tree], rest, indent);
            }
        }
    }
}

/// Every root tree that the parser builds is unindented and well formed.
pub proof fn lemma_parse_roots_ok(b: Seq<u8>, p: int)
    requires
        0 <= p <= b.len(),
        b.len() < usize::MAX,
    ensures
        spec_parse_roots(b, p) matches Ok(trees) ==> forest_ok(b, trees, 0),
    decreases b.len() - p,
{
    lemma_parse_branch_fuel(b, p, branch_fuel(b, p), branch_fuel(b, p));
    lemma_parse_branch_ok(b, p, branch_fuel(b, p));
    if let Ok(Some((tree, indent, r))) = spec_parse_branch(b, p, branch_fuel(b, p)) {
        if indent == 0 {
            lemma_parse_roots_ok(b, r);
            if let Ok(rest) = spec_parse_roots(b, r) {
                assert(seq![tree].drop_last() =~= Seq::<BranchView>::empty());
                assert(forest_ok(b, Seq::<BranchView>::empty(), 0));
                assert(seq![tree].last() == tree);
                assert(forest_ok(b, seq![tree], 0));
                lemma_forest_ok_concat(b, seq![tree], rest, 0);
            }
        }
    }
}

/// Parsing the roots from `p`, where it succeeds, finds no branch exactly when nothing is
/// left of the input.
pub proof fn law_roots_empty_only_at_end(b: Seq<u8>, p: int)
    requires
        0 <= p <= b.len(),
        b.len() < usize::MAX,
    ensures
        spec_parse_roots(b, p) matches Ok(trees) ==> (trees.len() == 0 <==> p == b.len()),
{
    let fuel = branch_fuel(b, p);
    assert(fuel > 0);
    lemma_parse_branch_fuel(b, p, fuel, fuel);
    if p < b.len() {
        assert(!(spec_next_branch(b, p) matches Ok(None)));
    }
}

/// The root branches that a parse from `p` finds lie after `p`, within the input, and one
/// after the other: each one's content ends before the next one's kind.
pub proof fn law_root_branches_in_order(b: Seq<u8>, p: int)
    requires
        0 <= p <= b.len(),
        b.len() < usize::MAX,
    ensures
        spec_parse_roots(b, p) matches Ok(trees) ==> {
            &&& forall|k: int|
                0 <= k < trees.len() ==> p <= (#[trigger] trees[k]).kind_span.start && trees[k].kind_span.start
                    < trees[k].content.start <= trees[k].content.end <= b.len()
            &&& forall|i: int, j: int|
                0 <= i < j < trees.len() ==> (#[trigger] trees[i]).content.end <= (#[trigger] trees[j]).kind_span.start
        },
    decreases b.len() - p,
{
    let fuel = branch_fuel(b, p);
    lemma_parse_branch_fuel(b, p, fuel, fuel);
    lemma_parse_branch_ok(b, p, fuel);
    if let Ok(Some((tree, indent, r))) = spec_parse_branch(b, p, fuel) {
        if indent == 0 {
            law_root_branches_in_order(b, r);
            if let Ok(rest) = spec_parse_roots(b, r) {
                let trees = seq![tree] + rest;
                assert forall|k: int| 0 <= k < trees.len() implies p <= (#[trigger] trees[k]).kind_span.start
                    && trees[k].kind_span.start < trees[k].content.start <= trees[k].content.end <= b.len() by {
                    if k > 0 {
                        assert(trees[k] == rest[k - 1]);
                    }
                }
                assert forall|i: int, j: int| 0 <= i < j < trees.len() implies (#[trigger] trees[i]).content.end
                    <= (#[trigger] trees[j]).kind_span.start by {
                    assert(trees[j] == rest[j - 1]);
                    if i > 0 {
                        assert(trees[i] == rest[i - 1]);
                    }
                }
            }
        }
    }
}

impl Roots {
    /// Parses the rest of the input as a list of unindented root branches with their children.
    pub fn parse(parser: &mut Parser) -> (result: Result<Self, ParseError>)
        requires
            old(parser).wf(),
        ensures
            final(parser).input == old(parser).input,
            final(parser).wf(),
            match spec_parse_roots(old(parser).bytes(), old(parser).position as int) {
                Ok(trees) => result matches Ok(roots) && views_of(roots.branches@) == trees
                    && final(parser).position == old(parser).bytes().len()
                    && forest_ok(old(parser).bytes(), trees, 0),
                Err(e) => result matches Err(e2) && e2 == e,
            },
    {
        let ghost b = parser.bytes();
        let ghost goal = spec_parse_roots(b, parser.position as int);
        proof {
            lemma_parse_roots_ok(b, parser.position as int);
        }
        let mut branches: Vec<Branch> = Vec::new();
        loop
            invariant_except_break
                match spec_parse_roots(b, parser.position as int) {
                    Ok(rest) => goal == Ok::<Seq<BranchView>, ParseError>(views_of(branches@) + rest),
                    Err(e) => goal == Err::<Seq<BranchView>, ParseError>(e),
                },
            invariant
                parser.input == old(parser).input,
                b == parser.bytes(),
                parser.wf(),
                goal == spec_parse_roots(old(parser).bytes(), old(parser).position as int),
            ensures
                goal == Ok::<Seq<BranchView>, ParseError>(views_of(branches@)),
                parser.position == b.len(),
            decreases b.len() - parser.position,
        {
            let ghost t = parser.position as int;
            proof {
                lemma_parse_branch_fuel(b, t, branch_fuel(b, t), branch_fuel(b, t));
            }
            match Branch::parse_with_indent_level(parser) {
                Err(e) => return Err(e),
                Ok(None) => {
                    proof {
                        assert(views_of(branches@) + Seq::<BranchView>::empty() =~= views_of(branches@));
                    }
                    break;
                },
                Ok(Some((branch, indent_level))) => {
                    if indent_level != 0 {
                        return Err(ParseErrorKind::RootIndentLevel.at(
                            Range { start: branch.kind_span.start, end: branch.kind_span.end },
                        ));
                    }
                    proof {
                        lemma_views_of_push(branches@, branch);
                        let rest = spec_parse_roots(b, parser.position as int);
                        if let Ok(rest) = rest {
                            assert(views_of(branches@) + (seq![branch.view_tree()] + rest)
                                =~= views_of(branches@).push(branch.view_tree()) + rest);
                        }
                    }
                    branches.push(branch);
                },
            }
        }
        Ok(Roots { branches })
    }
}

impl Branch {
    /// The branch that an event starts, without children yet.
    pub fn from_event(event: BranchEvent) -> (branch: Branch)
        ensures
            branch.view_tree() == branch_of(event, Seq::empty()),
            branch.children@.len() == 0,
    {
        let branch = Branch {
            indent_level: event.indent_level,
            attributes: event.attributes,
            kind: event.kind,
            kind_span: event.kind_span,
            content: event.content,
            children: Vec::new(),
        };
        assert(views_of(branch.children@) =~= Seq::<BranchView>::empty());
        branch
    }

    /// Parses the branch at the cursor with its children, and returns it with its own
    /// indentation.
    pub fn parse_with_indent_level(parser: &mut Parser) -> (result: Result<Option<(Self, usize)>, ParseError>)
        requires
            old(parser).wf(),
        ensures
            final(parser).input == old(parser).input,
            final(parser).wf(),
            match spec_parse_branch(
                old(parser).bytes(),
                old(parser).position as int,
                branch_fuel(old(parser).bytes(), old(parser).position as int),
            ) {
                Ok(None) => result matches Ok(None) && final(parser).position == old(parser).position,
                Ok(Some((tree, indent, end))) => result matches Ok(Some((branch, i)))
                    && branch.view_tree() == tree && i == indent && final(parser).position == end,
                Err(e) => result matches Err(e2) && e2 == e,
            },
        decreases old(parser).bytes().len() - old(parser).position,
    {
        let ghost b = parser.bytes();
        let ghost p = parser.position as int;
        proof {
            lemma_next_branch(b, p);
        }
        let event = match parser.next_branch() {
            Err(e) => return Err(e),
            Ok(None) => return Ok(None),
            Ok(Some(event)) => event,
        };
        let ghost ev = event;
        let own_indent_level = event.indent_level;
        let mut branch = Branch::from_event(event);
        let children_indent_level = parser.peek_indent_level();
        if children_indent_level > own_indent_level {
            let ghost q = parser.position as int;
            let ghost ci = children_indent_level as int;
            let ghost goal = spec_parse_children(b, q, ci, children_fuel(b, q));
            proof {
                assert(q == spec_next_branch(b, p)->Ok_0->Some_0.1);
                lemma_parse_children_fuel(b, q, ci, (branch_fuel(b, p) - 1) as nat, children_fuel(b, q));
                assert(views_of(branch.children@) =~= Seq::<BranchView>::empty());
            }
            loop
                invariant_except_break
                    match spec_parse_children(b, parser.position as int, ci, children_fuel(b, parser.position as int)) {
                        Ok((rest, r)) => goal == Ok::<(Seq<BranchView>, int), ParseError>(
                            (views_of(branch.children@) + rest, r),
                        ),
                        Err(e) => goal == Err::<(Seq<BranchView>, int), ParseError>(e),
                    },
                invariant
                    parser.input == old(parser).input,
                    b == parser.bytes(),
                    parser.wf(),
                    p < q <= parser.position,
                    old(parser).bytes() == b,
                    old(parser).position == p,
                    ci == children_indent_level,
                    ci > ev.indent_level,
                    ci == spaces_end(b, q) - q,
                    spec_next_branch(b, p) == Ok::<Option<(BranchEvent, int)>, ParseError>(Some((ev, q))),
                    own_indent_level == ev.indent_level,
                    spec_parse_branch(b, p, branch_fuel(b, p)) == match goal {
                        Err(e) => Err::<Option<(BranchView, int, int)>, ParseError>(e),
                        Ok((children, r)) => Ok(Some((branch_of(ev, children), ev.indent_level as int, r))),
                    },
                    goal == spec_parse_children(b, q, ci, children_fuel(b, q)),
                    branch.view_tree() == branch_of(ev, views_of(branch.children@)),
                ensures
                    goal == Ok::<(Seq<BranchView>, int), ParseError>(
                        (views_of(branch.children@), parser.position as int),
                    ),
                decreases b.len() - parser.position,
            {
                let ghost t = parser.position as int;
                if parser.peek_indent_level() != children_indent_level {
                    proof {
                        assert(views_of(branch.children@) + Seq::<BranchView>::empty() =~= views_of(branch.children@));
                    }
                    break;
                }
                proof {
                    lemma_parse_branch_fuel(b, t, branch_fuel(b, t), branch_fuel(b, t));
                }
                match Branch::parse_with_indent_level(parser) {
                    Err(e) => return Err(e),
                    Ok(None) => {
                        proof {
                            assert(views_of(branch.children@) + Seq::<BranchView>::empty() =~= views_of(branch.children@));
                        }
                        break;
                    },
                    Ok(Some((child, _))) => {
                        proof {
                            let r1 = parser.position as int;
                            lemma_parse_children_fuel(b, r1, ci, (children_fuel(b, t) - 1) as nat, children_fuel(b, r1));
                            lemma_views_of_push(branch.children@, child);
                            if let Ok((rest, r)) = spec_parse_children(b, r1, ci, children_fuel(b, r1)) {
                                assert(views_of(branch.children@) + (seq![child.view_tree()] + rest)
                                    =~= views_of(branch.children@).push(child.view_tree()) + rest);
                            }
                        }
                        branch.children.push(child);
                        proof {
                            assert(branch.view_tree() == branch_of(ev, views_of(branch.children@)));
                        }
                    },
                }
            }
        }
        Ok(Some((branch, own_indent_level)))
    }

    /// Parses the branch at the cursor with its children.
    pub fn parse(parser: &mut Parser) -> (result: Result<Option<Self>, ParseError>)
        requires
            old(parser).wf(),
        ensures
            final(parser).input == old(parser).input,
            final(parser).wf(),
            match spec_parse_branch(
                old(parser).bytes(),
                old(parser).position as int,
                branch_fuel(old(parser).bytes(), old(parser).position as int),
            ) {
                Ok(None) => result matches Ok(None) && final(parser).position == old(parser).position,
                Ok(Some((tree, _, end))) => result matches Ok(Some(branch))
                    && branch.view_tree() == tree && final(parser).position == end,
                Err(e) => result matches Err(e2) && e2 == e,
            },
    {
        match Self::parse_with_indent_level(parser) {
            Err(e) => Err(e),
            Ok(None) => Ok(None),
            Ok(Some((branch, _))) => Ok(Some(branch)),
        }
    }
}

} // verus!
