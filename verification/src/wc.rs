//! Word counts of trees: words are the maximal runs of characters that are not white space.
use vstd::prelude::*;
use vstd::string::*;

use crate::ast::{forest_ok, lemma_forest_ok_index, lemma_views_of, tree_ok, views_of, Branch, BranchView, Roots};
use crate::text::{chars_of, lemma_anchored_boundary, lemma_str_valid, slice, text_of};

verus! {

/// White space as Unicode's `White_Space` property defines it (what `char::is_whitespace`
/// tests).
pub open spec fn spec_is_whitespace(c: char) -> bool {
    ||| ('\u{9}' <= c <= '\u{d}')
    ||| c == ' '
    ||| c == '\u{85}'
    ||| c == '\u{a0}'
    ||| c == '\u{1680}'
    ||| ('\u{2000}' <= c <= '\u{200a}')
    ||| c == '\u{2028}'
    ||| c == '\u{2029}'
    ||| c == '\u{202f}'
    ||| c == '\u{205f}'
    ||| c == '\u{3000}'
}

pub fn is_whitespace(c: char) -> (r: bool)
    ensures
        r == spec_is_whitespace(c),
{
    ('\u{9}' <= c && c <= '\u{d}') || c == ' ' || c == '\u{85}' || c == '\u{a0}' || c == '\u{1680}'
        || ('\u{2000}' <= c && c <= '\u{200a}') || c == '\u{2028}' || c == '\u{2029}' || c
        == '\u{202f}' || c == '\u{205f}' || c == '\u{3000}'
}

/// The number of words in `s`: the positions where a word starts.
pub open spec fn word_count(s: Seq<char>) -> nat
    decreases s.len(),
{
    if s.len() == 0 {
        0
    } else {
        word_count(s.drop_last()) + if !spec_is_whitespace(s.last()) && (s.len() == 1
            || spec_is_whitespace(s[s.len() - 2])) {
            1nat
        } else {
            0nat
        }
    }
}

/// The words in the content of a branch and of all the branches under it.
pub open spec fn tree_words(source: &str, v: BranchView) -> nat
    decreases v, 1nat,
{
    word_count(text_of(source, v.content.start as int, v.content.end as int)) + forest_words(
        source,
        v.children,
    )
}

/// The words in the branches of `s` and under them.
pub open spec fn forest_words(source: &str, s: Seq<BranchView>) -> nat
    decreases s, 0nat,
{
    if s.len() == 0 {
        0
    } else {
        forest_words(source, s.drop_last()) + tree_words(source, s.last())
    }
}

/// The number of words in `text`.
pub fn count_words(text: &str) -> (n: usize)
    ensures
        n == word_count(text@),
{
    let chars = chars_of(text);
    let mut n: usize = 0;
    let mut i: usize = 0;
    while i < chars.len()
        invariant
            chars@ == text@,
            i <= chars@.len(),
            n == word_count(chars@.take(i as int)),
            n <= i,
        decreases chars@.len() - i,
    {
        proof {
            assert(chars@.take(i + 1).drop_last() =~= chars@.take(i as int));
        }
        if !is_whitespace(chars[i]) && (i == 0 || is_whitespace(chars[i - 1])) {
            n = n + 1;
        }
        i = i + 1;
    }
    proof {
        assert(chars@.take(i as int) =~= chars@);
    }
    n
}

/// The number of words in the content of `branch` and of all the branches under it.
pub fn wc_branch(source: &str, branch: &Branch) -> (n: usize)
    requires
        tree_ok(source.spec_bytes(), branch.view_tree()),
        tree_words(source, branch.view_tree()) <= usize::MAX,
    ensures
        n == tree_words(source, branch.view_tree()),
    decreases branch.view_tree(), 1nat,
{
    let ghost v = branch.view_tree();
    proof {
        lemma_str_valid(source);
        lemma_anchored_boundary(source.spec_bytes(), v.content.start as int);
        lemma_anchored_boundary(source.spec_bytes(), v.content.end as int);
        lemma_views_of(branch.children@);
    }
    let word_count = count_words(slice(source, branch.content.start, branch.content.end));
    let ghost ci = if v.children.len() > 0 { v.children[0].indent_level as int } else { 0 };
    assert(forest_ok(source.spec_bytes(), views_of(branch.children@), ci));
    word_count + wc_forest(source, branch.children.as_slice(), Ghost(ci))
}

/// The number of words in the branches of `branches` and under them.
fn wc_forest(source: &str, branches: &[Branch], Ghost(indent): Ghost<int>) -> (n: usize)
    requires
        forest_ok(source.spec_bytes(), views_of(branches@), indent),
        forest_words(source, views_of(branches@)) <= usize::MAX,
    ensures
        n == forest_words(source, views_of(branches@)),
    decreases views_of(branches@), 0nat,
{
    let ghost vs = views_of(branches@);
    proof {
        lemma_views_of(branches@);
    }
    let mut total: usize = 0;
    let mut i: usize = 0;
    while i < branches.len()
        invariant
            i <= branches@.len(),
            vs == views_of(branches@),
            vs.len() == branches@.len(),
            forall|j: int| 0 <= j < vs.len() ==> #[trigger] vs[j] == branches@[j].view_tree(),
            forest_ok(source.spec_bytes(), vs, indent),
            forest_words(source, vs) <= usize::MAX,
            total == forest_words(source, vs.take(i as int)),
        decreases branches@.len() - i,
    {
        proof {
            lemma_forest_ok_index(source.spec_bytes(), vs, indent, i as int);
            assert(vs.take(i + 1).drop_last() =~= vs.take(i as int));
            lemma_forest_words_prefix(source, vs, i + 1);
            assert(decreases_to!(vs => vs[i as int]));
        }
        let w = wc_branch(source, &branches[i]);
        total = total + w;
        i = i + 1;
    }
    proof {
        assert(vs.take(i as int) =~= vs);
    }
    total
}

/// A prefix holds at most the words of the whole.
pub proof fn lemma_forest_words_prefix(source: &str, s: Seq<BranchView>, k: int)
    requires
        0 <= k <= s.len(),
    ensures
        forest_words(source, s.take(k)) <= forest_words(source, s),
    decreases s.len(),
{
    if k < s.len() {
        assert(s.drop_last().take(k) =~= s.take(k));
        lemma_forest_words_prefix(source, s.drop_last(), k);
    } else {
        assert(s.take(k) =~= s);
    }
}

/// The number of words in all the branches of `roots`.
pub fn wc_roots(source: &str, roots: &Roots) -> (n: usize)
    requires
        forest_ok(source.spec_bytes(), views_of(roots.branches@), 0),
        forest_words(source, views_of(roots.branches@)) <= usize::MAX,
    ensures
        n == forest_words(source, views_of(roots.branches@)),
{
    wc_forest(source, roots.branches.as_slice(), Ghost(0))
}

} // verus!
