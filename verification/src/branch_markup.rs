//! The markup of a branch as its renderer gets it: the branch's lines with its indentation
//! taken off, and what reference links in it point to.
use vstd::prelude::*;
use vstd::string::*;

use crate::config::Config;
use crate::fix::{first_lf, strip_cr};
use crate::sema::Treehouse;
use crate::text::{chars_of, slice_chars, str_equal, string_of};

verus! {

/// A line with at most `n` of its leading spaces taken off.
pub open spec fn dedent(line: Seq<char>, n: nat) -> Seq<char>
    decreases n,
{
    if n > 0 && line.len() > 0 && line[0] == ' ' {
        dedent(line.drop_first(), (n - 1) as nat)
    } else {
        line
    }
}

/// The lines of `rest`, each dedented by `n` and ended by a line feed.
pub open spec fn dedented_lines(rest: Seq<char>, n: nat) -> Seq<char>
    decreases rest.len(),
{
    if rest.len() == 0 {
        Seq::empty()
    } else {
        match first_lf(rest) {
            Some(j) => if 0 <= j < rest.len() {
                dedent(strip_cr(rest.take(j)), n) + seq!['\n'] + dedented_lines(rest.skip(j + 1), n)
            } else {
                Seq::empty()
            },
            None => dedent(rest, n) + seq!['\n'],
        }
    }
}

proof fn lemma_dedent(line: Seq<char>, n: nat, k: int)
    requires
        0 <= k <= n,
        k <= line.len(),
        forall|i: int| 0 <= i < k ==> line[i] == ' ',
        k == n || k == line.len() || line[k] != ' ',
    ensures
        dedent(line, n) == line.skip(k),
    decreases k,
{
    if k > 0 {
        lemma_dedent(line.drop_first(), (n - 1) as nat, k - 1);
        assert(line.drop_first().skip(k - 1) =~= line.skip(k));
    } else {
        assert(line.skip(0) =~= line);
    }
}

proof fn lemma_first_lf_found(s: Seq<char>, j: int)
    requires
        0 <= j < s.len(),
        s[j] == '\n',
        forall|k: int| 0 <= k < j ==> s[k] != '\n',
    ensures
        first_lf(s) == Some(j),
    decreases j,
{
    if j > 0 {
        lemma_first_lf_found(s.drop_first(), j - 1);
    }
}

proof fn lemma_first_lf_none(s: Seq<char>)
    requires
        forall|k: int| 0 <= k < s.len() ==> s[k] != '\n',
    ensures
        first_lf(s) is None,
    decreases s.len(),
{
    if s.len() > 0 {
        lemma_first_lf_none(s.drop_first());
    }
}

/// The markup of a branch whose content is `content` and which is indented by
/// `indent_level`: each line of the content with at most that many leading spaces taken
/// off, and ended by a line feed.
pub fn branch_markup(content: &str, indent_level: usize) -> (markup: String)
    ensures
        markup@ == dedented_lines(content@, indent_level as nat),
{
    let text = chars_of(content);
    let ghost t = text@;
    let mut out = String::new();
    let mut p: usize = 0;
    proof {
        assert(t.skip(0) =~= t);
    }
    while p < text.len()
        invariant
            p <= t.len(),
            t == text@,
            t == content@,
            out@ + dedented_lines(t.skip(p as int), indent_level as nat) == dedented_lines(t, indent_level as nat),
        decreases t.len() - p,
    {
        let ghost rest = t.skip(p as int);
        let mut j = p;
        while j < text.len() && text[j] != '\n'
            invariant
                p <= j <= t.len(),
                t == text@,
                forall|k: int| p <= k < j ==> t[k] != '\n',
            decreases t.len() - j,
        {
            j = j + 1;
        }
        let mut line_end = j;
        if j < text.len() && line_end > p && text[line_end - 1] == '\r' {
            line_end = line_end - 1;
        }
        let mut start = p;
        while start < line_end && start - p < indent_level && text[start] == ' '
            invariant
                p <= start <= line_end,
                line_end <= t.len(),
                t == text@,
                start - p <= indent_level,
                forall|k: int| p <= k < start ==> t[k] == ' ',
            decreases line_end - start,
        {
            start = start + 1;
        }
        let kept = slice_chars(text.as_slice(), start, line_end);
        let ghost before = out@;
        out.push_str(string_of(kept.as_slice()).as_str());
        out.push('\n');
        proof {
            let line = if j < t.len() {
                strip_cr(rest.take(j - p))
            } else {
                rest
            };
            assert(line =~= t.subrange(p as int, line_end as int)) by {
                if j < t.len() {
                    assert(rest.take(j - p) =~= t.subrange(p as int, j as int));
                }
            }
            lemma_dedent(line, indent_level as nat, start - p);
            assert(line.skip(start - p) =~= kept@);
            if j < t.len() {
                assert(rest[j - p] == t[j as int]);
                assert(forall|k: int| 0 <= k < j - p ==> rest[k] == t[p + k]);
                lemma_first_lf_found(rest, j - p);
                assert(rest.skip(j - p + 1) =~= t.skip(j + 1));
            } else {
                assert(forall|k: int| 0 <= k < rest.len() ==> rest[k] == t[p + k]);
                lemma_first_lf_none(rest);
                assert(t.skip(j as int) =~= Seq::<char>::empty());
            }
            assert(out@ =~= before + (dedent(line, indent_level as nat) + seq!['\n']));
        }
        p = if j < text.len() {
            j + 1
        } else {
            j
        };
    }
    proof {
        assert(t.skip(p as int) =~= Seq::<char>::empty());
        assert(out@ + Seq::<char>::empty() =~= out@);
    }
    out
}

/// The position of the first `:` of `s`.
pub open spec fn first_colon(s: Seq<char>) -> Option<int>
    decreases s.len(),
{
    if s.len() == 0 {
        None
    } else if s[0] == ':' {
        Some(0)
    } else {
        match first_colon(s.drop_first()) {
            Some(i) => Some(i + 1),
            None => None,
        }
    }
}

pub proof fn lemma_first_colon_found(s: Seq<char>, j: int)
    requires
        0 <= j < s.len(),
        s[j] == ':',
        forall|k: int| 0 <= k < j ==> s[k] != ':',
    ensures
        first_colon(s) == Some(j),
    decreases j,
{
    if j > 0 {
        lemma_first_colon_found(s.drop_first(), j - 1);
    }
}

pub proof fn lemma_first_colon_none(s: Seq<char>)
    requires
        forall|k: int| 0 <= k < s.len() ==> s[k] != ':',
    ensures
        first_colon(s) is None,
    decreases s.len(),
{
    if s.len() > 0 {
        lemma_first_colon_none(s.drop_first());
    }
}

/// Where a reference link `kind:name` points: a definition from the configuration, a branch
/// by its id, a page, or a picture; nothing for other kinds or unknown names.
pub open spec fn reference_target(config: Config, treehouse: &Treehouse, reference: Seq<char>) -> Option<Seq<char>> {
    match first_colon(reference) {
        None => None,
        Some(i) => {
            let kind = reference.take(i);
            let name = reference.skip(i + 1);
            if kind == "def"@ {
                config.defs.get_spec(name)
            } else if kind == "branch"@ {
                match treehouse.branches_by_named_id.get_spec(name) {
                    Some(id) => if id.0 < treehouse.tree.branches_spec().len() {
                        Some(config.site@ + "/b?"@ + treehouse.tree.branches_spec()[id.0 as int].attributes.id@)
                    } else {
                        None
                    },
                    None => None,
                }
            } else if kind == "page"@ {
                Some(config.page_url_spec(name))
            } else if kind == "pic"@ {
                match config.pics.get_spec(name) {
                    Some(file) => Some(config.site@ + "/static/pic/"@ + file),
                    None => None,
                }
            } else {
                None
            }
        },
    }
}

/// Where the reference link `reference` points, for the Markdown renderer.
pub fn resolve_reference(config: &Config, treehouse: &Treehouse, reference: &str) -> (target: Option<String>)
    ensures
        match reference_target(*config, treehouse, reference@) {
            Some(t) => target matches Some(s) && s@ == t,
            None => target is None,
        },
{
    let chars = chars_of(reference);
    let mut i: usize = 0;
    while i < chars.len() && chars[i] != ':'
        invariant
            i <= chars@.len(),
            chars@ == reference@,
            forall|k: int| 0 <= k < i ==> chars@[k] != ':',
        decreases chars@.len() - i,
    {
        i = i + 1;
    }
    if i >= chars.len() {
        proof {
            lemma_first_colon_none(reference@);
        }
        return None;
    }
    proof {
        lemma_first_colon_found(reference@, i as int);
    }
    let kind = string_of(slice_chars(chars.as_slice(), 0, i).as_slice());
    let name = string_of(slice_chars(chars.as_slice(), i + 1, chars.len()).as_slice());
    proof {
        assert(kind@ =~= reference@.take(i as int));
        assert(name@ =~= reference@.skip(i + 1));
    }
    if str_equal(kind.as_str(), "def") {
        match config.defs.get(name.as_str()) {
            Some(link) => Some(link.clone()),
            None => None,
        }
    } else if str_equal(kind.as_str(), "branch") {
        match treehouse.branches_by_named_id.get(name.as_str()) {
            Some(id) => {
                if id.0 < treehouse.tree.len() {
                    let branch = treehouse.tree.branch(*id);
                    let mut url = config.site.clone();
                    url.push_str("/b?");
                    url.push_str(branch.attributes.id.as_str());
                    Some(url)
                } else {
                    None
                }
            },
            None => None,
        }
    } else if str_equal(kind.as_str(), "page") {
        Some(config.page_url(name.as_str()))
    } else if str_equal(kind.as_str(), "pic") {
        match config.pics.get(name.as_str()) {
            Some(file) => {
                let mut url = config.site.clone();
                url.push_str("/static/pic/");
                url.push_str(file.as_str());
                Some(url)
            },
            None => None,
        }
    } else {
        None
    }
}

} // verus!
