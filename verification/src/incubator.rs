//! A flat HTML generator that nests `<ul>` lists by the indentation of branch events.
use vstd::prelude::*;
use vstd::string::*;

use crate::pull::BranchEvent;
use crate::text::{lemma_str_valid, slice, text_of, valid_range};

verus! {

/// Collects HTML for branch events in document order.
#[derive(Debug)]
pub struct HtmlGenerator {
    buffer: String,
    indent_level_stack: Vec<usize>,
}

/// The stack with the levels deeper than `indent` popped off its end.
pub open spec fn kept_levels(s: Seq<usize>, indent: usize) -> Seq<usize>
    decreases s.len(),
{
    if s.len() > 0 && indent < s.last() {
        kept_levels(s.drop_last(), indent)
    } else {
        s
    }
}

/// `</ul>` repeated `n` times.
pub open spec fn closings(n: nat) -> Seq<char>
    decreases n,
{
    if n == 0 {
        Seq::empty()
    } else {
        closings((n - 1) as nat) + "</ul>"@
    }
}

/// The levels strictly increase from the bottom of the stack.
pub open spec fn increasing(s: Seq<usize>) -> bool {
    forall|i: int, j: int| 0 <= i < j < s.len() ==> s[i] < s[j]
}

proof fn lemma_kept_levels(s: Seq<usize>, indent: usize)
    requires
        increasing(s),
    ensures
        kept_levels(s, indent).len() <= s.len(),
        kept_levels(s, indent) == s.subrange(0, kept_levels(s, indent).len() as int),
        increasing(kept_levels(s, indent)),
    decreases s.len(),
{
    if s.len() > 0 && indent < s.last() {
        lemma_kept_levels(s.drop_last(), indent);
    } else {
        assert(s.subrange(0, s.len() as int) =~= s);
    }
}

/// Levels deeper than `indent`.
pub open spec fn deeper_than(indent: usize) -> spec_fn(usize) -> bool {
    |t: usize| t > indent
}

/// A branch that is not deeper than the open levels closes one list for each open level
/// deeper than it: those levels are all at the end of the stack, and what stays is the stack
/// without them.
pub proof fn law_closes_deeper_levels(s: Seq<usize>, indent: usize)
    requires
        increasing(s),
    ensures
        s.len() - kept_levels(s, indent).len() == s.filter(deeper_than(indent)).len(),
        kept_levels(s, indent) == s.subrange(0, s.len() - s.filter(deeper_than(indent)).len()),
    decreases s.len(),
{
    reveal(Seq::filter);
    lemma_kept_levels(s, indent);
    if s.len() > 0 {
        if indent < s.last() {
            let d = s.drop_last();
            assert(increasing(d));
            law_closes_deeper_levels(d, indent);
            assert(s.filter(deeper_than(indent)) == d.filter(deeper_than(indent)).push(s.last()));
            assert(d.subrange(0, d.len() - d.filter(deeper_than(indent)).len()) =~= s.subrange(
                0,
                s.len() - s.filter(deeper_than(indent)).len(),
            ));
        } else {
            assert forall|i: int| 0 <= i < s.len() implies !deeper_than(indent)(s[i]) by {
                if i < s.len() - 1 {
                    assert(s[i] < s[s.len() - 1]);
                }
            }
            s.lemma_all_neg_filter_empty(deeper_than(indent));
            assert(s.subrange(0, s.len() as int) =~= s);
        }
    } else {
        assert(s.subrange(0, 0) =~= s);
    }
}

impl HtmlGenerator {
    pub closed spec fn html(&self) -> Seq<char> {
        self.buffer@
    }

    pub closed spec fn levels(&self) -> Seq<usize> {
        self.indent_level_stack@
    }

    #[verifier::type_invariant]
    spec fn inv(&self) -> bool {
        increasing(self.indent_level_stack@)
    }

    /// A generator with no output yet.
    pub fn new() -> (g: Self)
        ensures
            g.html() == Seq::<char>::empty(),
            g.levels() == Seq::<usize>::empty(),
    {
        HtmlGenerator { buffer: String::new(), indent_level_stack: Vec::new() }
    }

    /// Adds the branch as a list item: a deeper branch opens a new `<ul>`, a shallower one
    /// first closes the lists deeper than itself. The open levels keep increasing.
    pub fn add(&mut self, source: &str, branch: &BranchEvent)
        requires
            valid_range(source, branch.content.start as int, branch.content.end as int),
        ensures
            ({
                let s = old(self).levels();
                let indent = branch.indent_level;
                let deeper = s.len() == 0 || indent > s.last();
                let kept = kept_levels(s, indent);
                &&& final(self).levels() == (if deeper {
                    s.push(indent)
                } else {
                    kept
                })
                &&& increasing(final(self).levels())
                &&& final(self).html() == old(self).html() + (if deeper {
                    "<ul>"@
                } else {
                    closings((s.len() - kept.len()) as nat)
                }) + "<li>"@ + text_of(source, branch.content.start as int, branch.content.end as int)
                    + "</li>"@
            }),
    {
        proof {
            use_type_invariant(&*self);
            lemma_str_valid(source);
        }
        let ghost s = self.indent_level_stack@;
        let indent = branch.indent_level;
        let n = self.indent_level_stack.len();
        let deeper = n == 0 || indent > self.indent_level_stack[n - 1];
        let mut buffer = String::new();
        std::mem::swap(&mut buffer, &mut self.buffer);
        let mut stack: Vec<usize> = Vec::new();
        std::mem::swap(&mut stack, &mut self.indent_level_stack);
        if deeper {
            stack.push(indent);
            buffer.push_str("<ul>");
        } else {
            proof {
                lemma_kept_levels(s, indent);
            }
            while stack.len() > 0 && indent < stack[stack.len() - 1]
                invariant
                    increasing(stack@),
                    kept_levels(stack@, indent) == kept_levels(s, indent),
                    buffer@ == old(self).html() + closings((s.len() - stack@.len()) as nat),
                    stack@.len() <= s.len(),
                decreases stack@.len(),
            {
                stack.pop();
                buffer.push_str("</ul>");
            }
        }
        proof {
            if deeper {
                assert forall|i: int, j: int| 0 <= i < j < stack@.len() implies stack@[i] < stack@[j] by {
                    if j == stack@.len() - 1 && s.len() > 0 {
                        assert(s[i] <= s.last());
                    }
                }
            }
        }
        buffer.push_str("<li>");
        buffer.push_str(slice(source, branch.content.start, branch.content.end));
        buffer.push_str("</li>");
        self.buffer = buffer;
        self.indent_level_stack = stack;
    }

    /// The HTML collected so far, with every list that is still open closed.
    pub fn finish(self) -> (html: String)
        ensures
            html@ == self.html() + closings(self.levels().len()),
    {
        let HtmlGenerator { buffer, indent_level_stack } = self;
        let mut buffer = buffer;
        let mut i: usize = 0;
        while i < indent_level_stack.len()
            invariant
                i <= indent_level_stack@.len(),
                buffer@ == self.html() + closings(i as nat),
            decreases indent_level_stack@.len() - i,
        {
            buffer.push_str("</ul>");
            i = i + 1;
        }
        buffer
    }
}

impl Default for HtmlGenerator {
    fn default() -> (g: Self)
        ensures
            g.html() == Seq::<char>::empty(),
            g.levels() == Seq::<usize>::empty(),
    {
        HtmlGenerator::new()
    }
}

} // verus!
