//! What the development server decides on its own: the content type of a served file,
//! where a page request leads, and the description that a branch's permalink page carries.
use vstd::prelude::*;
use vstd::string::*;
use vstd::utf8::*;

use crate::branch_html::content_ok;
use crate::config::Config;
use crate::escape::{cmark_entity, escape_html, flat_map_chars};
use crate::mini_template::{trim, trim_chars};
use crate::sema::{named_ids_valid, Treehouse};
use crate::text::{chars_equal, chars_of, ends_with, slice, slice_chars, str_ends_with, str_is_char_boundary, string_of};

verus! {

/// The content type of a file, by the end of its path.
pub open spec fn content_type(path: Seq<char>) -> Option<Seq<char>> {
    if ends_with(path, ".html"@) {
        Some("text/html"@)
    } else if ends_with(path, ".js"@) {
        Some("text/javascript"@)
    } else if ends_with(path, ".woff2"@) {
        Some("font/woff2"@)
    } else if ends_with(path, ".svg"@) {
        Some("image/svg+xml"@)
    } else {
        None
    }
}

/// The content type of the file at `path`, for the kinds of files that need one given.
pub fn get_content_type(path: &str) -> (r: Option<&'static str>)
    ensures
        match r {
            Some(t) => content_type(path@) == Some(t@),
            None => content_type(path@) is None,
        },
{
    if str_ends_with(path, ".html") {
        Some("text/html")
    } else if str_ends_with(path, ".js") {
        Some("text/javascript")
    } else if str_ends_with(path, ".woff2") {
        Some("font/woff2")
    } else if str_ends_with(path, ".svg") {
        Some("image/svg+xml")
    } else {
        None
    }
}

/// What the server answers a request for a page: a permanent redirect to the address of the
/// page that replaced it, or the page's HTML file.
#[derive(Debug, Clone, PartialEq, Eq)]
pub enum PageResponse {
    Redirect(String),
    File(String),
}

/// The page that `path` asks for: `path` without a `.html` at its end.
pub open spec fn bare_page(path: Seq<char>) -> Seq<char> {
    if ends_with(path, ".html"@) {
        path.subrange(0, path.len() - ".html"@.len())
    } else {
        path
    }
}

/// Where a request for the page at `path` leads: to the page that replaced it, when it has
/// been redirected, else to its HTML file.
pub fn page_response(config: &Config, path: &str) -> (r: PageResponse)
    ensures
        match config.redirects.get_spec(bare_page(path@)) {
            Some(to) => r matches PageResponse::Redirect(url) && url@ == config.site@ + "/"@ + to,
            None => r matches PageResponse::File(file) && file@ == bare_page(path@) + ".html"@,
        },
{
    let chars = chars_of(path);
    let bare = if str_ends_with(path, ".html") {
        proof {
            reveal_strlit(".html");
        }
        string_of(slice_chars(chars.as_slice(), 0, chars.len() - 5).as_slice())
    } else {
        string_of(chars.as_slice())
    };
    match config.redirects.get(bare.as_str()) {
        Some(to) => {
            let mut url = config.site.clone();
            url.push_str("/");
            url.push_str(to.as_str());
            PageResponse::Redirect(url)
        },
        None => {
            let mut file = bare;
            file.push_str(".html");
            PageResponse::File(file)
        },
    }
}

/// The marker in a page where the description of a branch goes.
pub const PER_BRANCH_METADATA_MARKER: &'static str =
    "<!-- treehouse-ca37057a-cff5-45b3-8415-3b02dbf6c799-per-branch-metadata -->";

/// The description of a branch whose content is `content`: its text without white space at
/// either end, escaped.
pub open spec fn description_meta(content: Seq<char>) -> Seq<char> {
    "<meta property=\"og:description\" content=\""@ + flat_map_chars(trim(content), |c: char| cmark_entity(c))
        + "\">"@
}

/// Every branch's content lies in its file between character boundaries.
pub open spec fn contents_ok(t: &Treehouse) -> bool {
    forall|i: int|
        0 <= i < t.tree.branches_spec().len() ==> content_ok(
            t,
            (#[trigger] t.tree.branches_spec()[i]).file_id as int,
            t.tree.branches_spec()[i],
        )
}

/// Whether every branch's content lies in its file between character boundaries.
pub fn contents_are_ok(t: &Treehouse) -> (r: bool)
    ensures
        r == contents_ok(t),
{
    let n = t.tree.len();
    let mut i: usize = 0;
    while i < n
        invariant
            i <= n,
            n == t.tree.branches_spec().len(),
            forall|j: int|
                0 <= j < i ==> content_ok(
                    t,
                    (#[trigger] t.tree.branches_spec()[j]).file_id as int,
                    t.tree.branches_spec()[j],
                ),
        decreases n - i,
    {
        let b = t.tree.branch(crate::sema::SemaBranchId(i));
        if !crate::sema::has_file(&t.files, b.file_id) {
            return false;
        }
        let source = t.source(b.file_id);
        let len = source.as_bytes().len();
        if !(b.content.start <= b.content.end && b.content.end <= len && str_is_char_boundary(source, b.content.start)
            && str_is_char_boundary(source, b.content.end)) {
            return false;
        }
        i = i + 1;
    }
    true
}

/// The page of the branch named `named_id` and the description that its permalink page
/// carries: none when no branch has that name, or its file is not a tree.
pub fn branch_page(t: &Treehouse, named_id: &str) -> (r: Option<(String, String)>)
    requires
        t.wf(),
        named_ids_valid(t),
        contents_ok(t),
    ensures
        match t.branches_by_named_id.get_spec(named_id@) {
            None => r is None,
            Some(id) => {
                let b = t.tree.branches_spec()[id.0 as int];
                match t.tree_path_spec(b.file_id as int) {
                    None => r is None,
                    Some(tree_path) => r matches Some((p, m)) && p@ == tree_path && m@ == description_meta(
                        decode_utf8(
                            encode_utf8(t.files_view()[b.file_id as int].1).subrange(
                                b.content.start as int,
                                b.content.end as int,
                            ),
                        ),
                    ),
                }
            },
        },
{
    let id = match t.branches_by_named_id.get(named_id) {
        Some(id) => *id,
        None => {
            return None;
        },
    };
    let b = t.tree.branch(id);
    assert(content_ok(t, b.file_id as int, *b));
    let tree_path = match t.tree_path(b.file_id) {
        Some(p) => p.to_owned(),
        None => {
            return None;
        },
    };
    let source = t.source(b.file_id);
    let content = slice(source, b.content.start, b.content.end);
    let trimmed = trim_chars(chars_of(content).as_slice());
    let mut meta = "<meta property=\"og:description\" content=\"".to_owned();
    let text = string_of(trimmed.as_slice());
    escape_html(&mut meta, text.as_str());
    meta.push_str("\">");
    Some((tree_path, meta))
}

/// `pattern` occurs in `s` at `i`.
pub open spec fn occurs_at(s: Seq<char>, pattern: Seq<char>, i: int) -> bool {
    0 <= i <= s.len() - pattern.len() && s.subrange(i, i + pattern.len()) == pattern
}

/// The first position where `pattern` occurs in `s`.
pub open spec fn first_occurrence(s: Seq<char>, pattern: Seq<char>) -> Option<int> {
    if exists|i: int| #[trigger] occurs_at(s, pattern, i) {
        Some(choose|i: int| #[trigger] occurs_at(s, pattern, i) && forall|j: int| 0 <= j < i ==> !occurs_at(s, pattern, j))
    } else {
        None
    }
}

/// `s` with the first occurrence of `pattern` replaced by `with`, or as it is when `pattern`
/// does not occur in it.
pub fn replace_first(s: &str, pattern: &str, with: &str) -> (r: String)
    ensures
        match first_occurrence(s@, pattern@) {
            Some(i) => r@ == s@.subrange(0, i) + with@ + s@.subrange(i + pattern@.len(), s@.len() as int),
            None => r@ == s@,
        },
{
    let chars = chars_of(s);
    let pat = chars_of(pattern);
    if pat.len() > chars.len() {
        proof {
            assert forall|k: int| !(#[trigger] occurs_at(s@, pattern@, k)) by {}
        }
        return string_of(chars.as_slice());
    }
    if pat.len() == 0 {
        proof {
            assert(s@.subrange(0, 0) =~= pattern@);
            assert(occurs_at(s@, pattern@, 0));
            let c = choose|c: int|
                #[trigger] occurs_at(s@, pattern@, c) && forall|j: int| 0 <= j < c ==> !occurs_at(s@, pattern@, j);
            if c > 0 {
                assert(!occurs_at(s@, pattern@, 0));
            }
        }
        let mut r = with.to_owned();
        r.push_str(s);
        proof {
            assert(s@.subrange(0, s@.len() as int) =~= s@);
        }
        return r;
    }
    let n = chars.len();
    let last = n - pat.len();
    let mut i: usize = 0;
    while i <= last
        invariant
            chars@ == s@,
            pat@ == pattern@,
            n == chars@.len(),
            pat@.len() >= 1,
            last == n - pat@.len(),
            i <= last + 1,
            forall|j: int| 0 <= j < i ==> !occurs_at(s@, pattern@, j),
        decreases last + 1 - i,
    {
        let window = slice_chars(chars.as_slice(), i, i + pat.len());
        if chars_equal(window.as_slice(), pat.as_slice()) {
            proof {
                assert(occurs_at(s@, pattern@, i as int));
                let c = choose|c: int|
                    #[trigger] occurs_at(s@, pattern@, c) && forall|j: int| 0 <= j < c ==> !occurs_at(s@, pattern@, j);
                if c < i {
                    assert(!occurs_at(s@, pattern@, c));
                }
                if c > i {
                    assert(!occurs_at(s@, pattern@, i as int));
                }
            }
            let mut r = string_of(slice_chars(chars.as_slice(), 0, i).as_slice());
            r.push_str(with);
            let rest = string_of(slice_chars(chars.as_slice(), i + pat.len(), chars.len()).as_slice());
            r.push_str(rest.as_str());
            return r;
        }
        proof {
            assert(!occurs_at(s@, pattern@, i as int));
        }
        i = i + 1;
    }
    proof {
        assert forall|k: int| !(#[trigger] occurs_at(s@, pattern@, k)) by {
            if 0 <= k <= last {
                assert(!occurs_at(s@, pattern@, k));
            }
        }
    }
    string_of(chars.as_slice())
}

/// A generated page with the description of a branch put in place of its marker.
pub fn with_branch_metadata(page: &str, meta: &str) -> (r: String)
    ensures
        match first_occurrence(page@, PER_BRANCH_METADATA_MARKER@) {
            Some(i) => r@ == page@.subrange(0, i) + meta@ + page@.subrange(
                i + PER_BRANCH_METADATA_MARKER@.len(),
                page@.len() as int,
            ),
            None => r@ == page@,
        },
{
    replace_first(page, PER_BRANCH_METADATA_MARKER, meta)
}

} // verus!
