//! Why the fixes of a parsed file always apply: the ranges that they replace come in the
//! order of the source, one after the other, and start and end at character boundaries.
use vstd::prelude::*;
use vstd::utf8::*;

use crate::ast::{
    branch_fuel, branch_of, lemma_parse_branch_fuel, lemma_parse_branch_ok, lemma_parse_children_ok,
    spec_parse_branch, spec_parse_children, spec_parse_roots, BranchView,
};
use crate::fix::{apply_fixes, boundary_range, fix_view, fix_views, fixed_branches, fixed_forest, fixes_of, is_fix_of, Fix};
use crate::pull::{event_shape, lemma_next_branch, lemma_spaces_end, spaces_end, spec_next_branch};
use crate::text::{anchored, lemma_anchored_boundary};

verus! {

/// The range of the source that the fix of branch `v` replaces: its attribute text, or the
/// empty range before its kind character when it has no attributes.
pub open spec fn fix_range(v: BranchView) -> (int, int) {
    match v.attributes {
        Some(a) => (a.data.start as int, a.data.end as int),
        None => (v.kind_span.start as int, v.kind_span.start as int),
    }
}

/// The fix ranges of `vs` lie within `lo..hi`, start and end at anchored positions of `b`,
/// and follow one another in order.
pub open spec fn ranges_in_order(b: Seq<u8>, vs: Seq<BranchView>, lo: int, hi: int) -> bool {
    &&& lo <= hi
    &&& forall|k: int|
        0 <= k < vs.len() ==> {
            let r = #[trigger] fix_range(vs[k]);
            &&& lo <= r.0 <= r.1 <= hi
            &&& anchored(b, r.0)
            &&& anchored(b, r.1)
        }
    &&& forall|i: int, j: int| 0 <= i < j < vs.len() ==> fix_range(#[trigger] vs[i]).1 <= fix_range(#[trigger] vs[j]).0
}

proof fn lemma_ranges_concat(b: Seq<u8>, x: Seq<BranchView>, y: Seq<BranchView>, lo: int, mid: int, hi: int)
    requires
        ranges_in_order(b, x, lo, mid),
        ranges_in_order(b, y, mid, hi),
    ensures
        ranges_in_order(b, x + y, lo, hi),
{
    let z = x + y;
    assert forall|k: int| 0 <= k < z.len() implies {
        let r = #[trigger] fix_range(z[k]);
        &&& lo <= r.0 <= r.1 <= hi
        &&& anchored(b, r.0)
        &&& anchored(b, r.1)
    } by {
        if k < x.len() {
            assert(z[k] == x[k]);
            let _ = fix_range(x[k]);
        } else {
            assert(z[k] == y[k - x.len()]);
            let _ = fix_range(y[k - x.len()]);
        }
    }
    assert forall|i: int, j: int| 0 <= i < j < z.len() implies fix_range(#[trigger] z[i]).1 <= fix_range(
        #[trigger] z[j],
    ).0 by {
        if j < x.len() {
            assert(z[i] == x[i] && z[j] == x[j]);
        } else if i >= x.len() {
            assert(z[i] == y[i - x.len()] && z[j] == y[j - x.len()]);
        } else {
            assert(z[i] == x[i] && z[j] == y[j - x.len()]);
            let _ = fix_range(x[i]);
            let _ = fix_range(y[j - x.len()]);
        }
    }
}

proof fn lemma_fixed_forest_concat(b: Seq<u8>, s1: Seq<BranchView>, s2: Seq<BranchView>)
    ensures
        fixed_forest(b, s1 + s2) == fixed_forest(b, s1) + fixed_forest(b, s2),
    decreases s2.len(),
{
    if s2.len() == 0 {
        assert(s1 + s2 =~= s1);
        assert(fixed_forest(b, s1) + fixed_forest(b, s2) =~= fixed_forest(b, s1));
    } else {
        lemma_fixed_forest_concat(b, s1, s2.drop_last());
        assert((s1 + s2).drop_last() =~= s1 + s2.drop_last());
        assert((s1 + s2).last() == s2.last());
        assert(fixed_forest(b, s1 + s2) =~= fixed_forest(b, s1) + fixed_forest(b, s2.drop_last()) + fixed_branches(
            b,
            s2.last(),
        ));
    }
}

proof fn lemma_fixed_forest_single(b: Seq<u8>, t: BranchView)
    ensures
        fixed_forest(b, seq![t]) == fixed_branches(b, t),
{
    assert(seq![t].drop_last() =~= Seq::<BranchView>::empty());
    assert(seq![t].last() == t);
    assert(fixed_forest(b, Seq::<BranchView>::empty()) == Seq::<BranchView>::empty());
    assert(Seq::<BranchView>::empty() + fixed_branches(b, t) =~= fixed_branches(b, t));
}

/// The fixes of a branch that the parser builds from `p` to `r` lie in order within `p..r`.
proof fn lemma_parse_branch_in_order(b: Seq<u8>, p: int, fuel: nat)
    requires
        0 <= p <= b.len(),
        b.len() < usize::MAX,
    ensures
        spec_parse_branch(b, p, fuel) matches Ok(Some((tree, _, r))) ==> ranges_in_order(
            b,
            fixed_branches(b, tree),
            p,
            r,
        ),
    decreases fuel, 1nat,
{
    if fuel > 0 {
        lemma_next_branch(b, p);
        lemma_spaces_end(b, p);
        if let Ok(Some((event, q))) = spec_next_branch(b, p) {
            assert(event_shape(b, p, event, q));
            lemma_spaces_end(b, q);
            let ci = spaces_end(b, q) - q;
            let own = fix_range(branch_of(event, Seq::empty()));
            assert(p <= own.0 <= own.1 <= event.kind_span.start < q);
            if ci > event.indent_level {
                lemma_parse_children_in_order(b, q, ci, (fuel - 1) as nat);
                lemma_parse_children_ok(b, q, ci, (fuel - 1) as nat);
                if let Ok((children, r)) = spec_parse_children(b, q, ci, (fuel - 1) as nat) {
                    let tree = branch_of(event, children);
                    assert(fix_range(tree) == own);
                    let head: Seq<BranchView> = if crate::fix::gets_fix(b, tree) {
                        seq![tree]
                    } else {
                        Seq::empty()
                    };
                    assert(ranges_in_order(b, head, p, q));
                    lemma_ranges_concat(b, head, fixed_forest(b, children), p, q, r);
                    assert(fixed_branches(b, tree) == head + fixed_forest(b, tree.children));
                }
            } else {
                let tree = branch_of(event, Seq::empty());
                let head: Seq<BranchView> = if crate::fix::gets_fix(b, tree) {
                    seq![tree]
                } else {
                    Seq::empty()
                };
                assert(ranges_in_order(b, head, p, q));
                assert(fixed_forest(b, tree.children) == Seq::<BranchView>::empty());
                assert(fixed_branches(b, tree) =~= head);
            }
        }
    }
}

/// The fixes of the run of branches that the parser builds from `p` to `r` lie in order
/// within `p..r`.
proof fn lemma_parse_children_in_order(b: Seq<u8>, p: int, indent: int, fuel: nat)
    requires
        0 <= p <= b.len(),
        b.len() < usize::MAX,
    ensures
        spec_parse_children(b, p, indent, fuel) matches Ok((s, r)) ==> ranges_in_order(
            b,
            fixed_forest(b, s),
            p,
            r,
        ),
    decreases fuel, 0nat,
{
    lemma_parse_children_ok(b, p, indent, fuel);
    if fuel > 0 && spaces_end(b, p) - p == indent {
        lemma_parse_branch_in_order(b, p, (fuel - 1) as nat);
        lemma_parse_branch_ok(b, p, (fuel - 1) as nat);
        if let Ok(Some((tree, _, q))) = spec_parse_branch(b, p, (fuel - 1) as nat) {
            lemma_parse_children_in_order(b, q, indent, (fuel - 1) as nat);
            lemma_parse_children_ok(b, q, indent, (fuel - 1) as nat);
            if let Ok((rest, r)) = spec_parse_children(b, q, indent, (fuel - 1) as nat) {
                lemma_fixed_forest_concat(b, seq![tree], rest);
                lemma_fixed_forest_single(b, tree);
                lemma_ranges_concat(b, fixed_branches(b, tree), fixed_forest(b, rest), p, q, r);
            }
        } else {
            assert(fixed_forest(b, Seq::<BranchView>::empty()) == Seq::<BranchView>::empty());
        }
    } else {
        assert(fixed_forest(b, Seq::<BranchView>::empty()) == Seq::<BranchView>::empty());
    }
}

/// The fixes of the root branches that the parser builds from `p` lie in order within the
/// rest of the input.
proof fn lemma_parse_roots_in_order(b: Seq<u8>, p: int)
    requires
        0 <= p <= b.len(),
        b.len() < usize::MAX,
    ensures
        spec_parse_roots(b, p) matches Ok(trees) ==> ranges_in_order(b, fixed_forest(b, trees), p, b.len() as int),
    decreases b.len() - p,
{
    lemma_parse_branch_fuel(b, p, branch_fuel(b, p), branch_fuel(b, p));
    lemma_parse_branch_ok(b, p, branch_fuel(b, p));
    lemma_parse_branch_in_order(b, p, branch_fuel(b, p));
    assert(fixed_forest(b, Seq::<BranchView>::empty()) == Seq::<BranchView>::empty());
    if let Ok(Some((tree, indent, r))) = spec_parse_branch(b, p, branch_fuel(b, p)) {
        if indent == 0 {
            lemma_next_branch(b, p);
            assert(p < r);
            lemma_parse_roots_in_order(b, r);
            if let Ok(rest) = spec_parse_roots(b, r) {
                lemma_fixed_forest_concat(b, seq![tree], rest);
                lemma_fixed_forest_single(b, tree);
                lemma_ranges_concat(b, fixed_branches(b, tree), fixed_forest(b, rest), p, r, b.len() as int);
            }
        }
    }
}

/// A position of `head + tail` up to the end of `head`, where both are valid UTF-8, is a
/// character boundary of it just when it is one of `head`.
proof fn lemma_boundary_in_head(head: Seq<u8>, tail: Seq<u8>, x: int)
    requires
        valid_utf8(head),
        valid_utf8(tail),
        0 <= x <= head.len(),
        is_char_boundary(head, x),
    ensures
        valid_utf8(head + tail),
        is_char_boundary(head + tail, x),
{
    let whole = head + tail;
    valid_utf8_concat(head, tail);
    is_char_boundary_start_end_of_seq(whole);
    is_char_boundary_start_end_of_seq(tail);
    if 0 < x < whole.len() {
        is_char_boundary_iff_not_is_continuation_byte(whole, x);
        if x < head.len() {
            is_char_boundary_iff_not_is_continuation_byte(head, x);
            assert(whole[x] == head[x]);
        } else {
            is_char_boundary_iff_not_is_continuation_byte(tail, 0);
            assert(whole[x] == tail[0]);
        }
    }
}

/// Fixes that follow one another, each over a range between character boundaries of valid
/// UTF-8 and each putting valid UTF-8 in its place, all apply.
proof fn lemma_apply_fixes_some(b: Seq<u8>, fs: Seq<(int, int, Seq<u8>)>)
    requires
        valid_utf8(b),
        forall|k: int| 0 <= k < fs.len() ==> boundary_range(b, #[trigger] fs[k].0, fs[k].1),
        forall|k: int| 0 <= k < fs.len() ==> valid_utf8(#[trigger] fs[k].2),
        forall|i: int, j: int| 0 <= i < j < fs.len() ==> (#[trigger] fs[i]).1 <= (#[trigger] fs[j]).0,
    ensures
        apply_fixes(b, fs) is Some,
    decreases fs.len(),
{
    if fs.len() > 0 {
        let (start, end, replacement) = fs.last();
        assert(boundary_range(b, fs[fs.len() - 1].0, fs[fs.len() - 1].1));
        let head = b.subrange(0, start);
        let tail = b.subrange(end, b.len() as int);
        valid_utf8_split(b, start);
        valid_utf8_split(b, end);
        valid_utf8_concat(replacement, tail);
        let rest = replacement + tail;
        let next = b.subrange(0, start) + replacement + b.subrange(end, b.len() as int);
        assert(next =~= head + rest);
        let gs = fs.drop_last();
        is_char_boundary_start_end_of_seq(head);
        lemma_boundary_in_head(head, rest, start);
        assert forall|k: int| 0 <= k < gs.len() implies boundary_range(next, #[trigger] gs[k].0, gs[k].1) by {
            assert(gs[k] == fs[k]);
            assert(fs[k].1 <= fs[fs.len() - 1].0);
            let (x, y) = (fs[k].0, fs[k].1);
            assert(boundary_range(b, x, y));
            assert forall|z: int| 0 <= z <= start && is_char_boundary(b, z) implies is_char_boundary(head, z) by {
                is_char_boundary_start_end_of_seq(head);
                if 0 < z < start {
                    is_char_boundary_iff_not_is_continuation_byte(b, z);
                    is_char_boundary_iff_not_is_continuation_byte(head, z);
                }
            }
            lemma_boundary_in_head(head, rest, x);
            lemma_boundary_in_head(head, rest, y);
        }
        assert forall|i: int, j: int| 0 <= i < j < gs.len() implies (#[trigger] gs[i]).1 <= (#[trigger] gs[j]).0 by {
            assert(gs[i] == fs[i] && gs[j] == fs[j]);
        }
        assert forall|k: int| 0 <= k < gs.len() implies valid_utf8(#[trigger] gs[k].2) by {
            assert(gs[k] == fs[k]);
        }
        valid_utf8_concat(head, rest);
        lemma_apply_fixes_some(next, gs);
    }
}

/// Every fix of a file that parses applies: however the fixes' texts come out, their ranges
/// follow one another in the order of the source and lie between character boundaries, so
/// applying them from the last to the first never fails.
pub proof fn law_fixes_of_parsed_file_apply(b: Seq<u8>, trees: Seq<BranchView>, fixes: Seq<Fix>)
    requires
        valid_utf8(b),
        b.len() < usize::MAX,
        spec_parse_roots(b, 0) == Ok::<Seq<BranchView>, crate::error::ParseError>(trees),
        fixes_of(b, fixed_forest(b, trees), fixes),
    ensures
        apply_fixes(b, fix_views(fixes)) is Some,
{
    lemma_parse_roots_in_order(b, 0);
    let vs = fixed_forest(b, trees);
    let fs = fix_views(fixes);
    assert forall|k: int| 0 <= k < fs.len() implies fs[k].0 == fix_range(vs[k]).0 && fs[k].1 == fix_range(
        vs[k],
    ).1 && valid_utf8(fs[k].2) by {
        assert(is_fix_of(b, vs[k], fixes[k]));
        encode_utf8_valid_utf8(fixes[k].replacement@);
    }
    assert forall|k: int| 0 <= k < fs.len() implies boundary_range(b, #[trigger] fs[k].0, fs[k].1) by {
        let r = fix_range(vs[k]);
        lemma_anchored_boundary(b, r.0);
        lemma_anchored_boundary(b, r.1);
    }
    assert forall|k: int| 0 <= k < fs.len() implies valid_utf8(#[trigger] fs[k].2) by {
        assert(is_fix_of(b, vs[k], fixes[k]));
        encode_utf8_valid_utf8(fixes[k].replacement@);
    }
    assert forall|i: int, j: int| 0 <= i < j < fs.len() implies (#[trigger] fs[i]).1 <= (#[trigger] fs[j]).0 by {
        assert(is_fix_of(b, vs[i], fixes[i]));
        assert(is_fix_of(b, vs[j], fixes[j]));
        assert(fix_range(vs[i]).1 <= fix_range(vs[j]).0);
    }
    lemma_apply_fixes_some(b, fs);
}

} // verus!
