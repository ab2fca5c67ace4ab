//! Breadcrumbs: links to the trees that lead to a page, from its navigation path.
use vstd::prelude::*;

use crate::config::Config;
use crate::escape::{attribute_entity, flat_map_chars, EscapeAttribute};
use crate::navmap::{strings_view, NavigationMap};
use crate::text::{chars_equal, chars_of, slice_chars, str_equal, string_of};

verus! {

/// How a breadcrumb names its tree: relative to the tree before it when it lies under that
/// one, and from the root otherwise.
pub open spec fn short_element(previous: Option<Seq<char>>, element: Seq<char>) -> Seq<char> {
    match previous {
        Some(p) => if (p + "/"@).is_prefix_of(element) {
            element.skip(p.len() + 1int)
        } else {
            "/"@ + element
        },
        None => "/"@ + element,
    }
}

/// The breadcrumb of `path[i]`; the index tree has none, as the logo stands for it.
pub open spec fn crumb_html(site: Seq<char>, path: Seq<Seq<char>>, i: int) -> Seq<char> {
    let element = path[i];
    if element == "index"@ {
        Seq::empty()
    } else {
        "<li class=\"breadcrumb\"><a href=\""@ + flat_map_chars(site, |c: char| attribute_entity(c))
            + "/"@ + flat_map_chars(element, |c: char| attribute_entity(c)) + ".html\">"@
            + short_element(if i > 0 { Some(path[i - 1]) } else { None }, element) + "</a></li>"@
    }
}

/// The breadcrumbs of the first `n` trees of `path`.
pub open spec fn crumbs_html(site: Seq<char>, path: Seq<Seq<char>>, n: int) -> Seq<char>
    decreases n,
{
    if n <= 0 {
        Seq::empty()
    } else {
        crumbs_html(site, path, n - 1) + crumb_html(site, path, n - 1)
    }
}

/// The link of a breadcrumb to the tree at `element`.
pub open spec fn crumb_link(site: Seq<char>, element: Seq<char>) -> Seq<char> {
    "<li class=\"breadcrumb\"><a href=\""@ + flat_map_chars(site, |c: char| attribute_entity(c)) + "/"@
        + flat_map_chars(element, |c: char| attribute_entity(c)) + ".html\">"@
}

/// A tree that lies under the tree just before it on the path is named, in its breadcrumb,
/// by the rest of its path after that tree's path and a `/`; the breadcrumbs come in the order
/// of the path.
pub proof fn law_crumb_under_previous(site: Seq<char>, path: Seq<Seq<char>>, i: int, rest: Seq<char>)
    requires
        0 < i < path.len(),
        path[i] != "index"@,
        path[i] == path[i - 1] + "/"@ + rest,
    ensures
        crumbs_html(site, path, i + 1) == crumbs_html(site, path, i) + crumb_link(site, path[i]) + rest
            + "</a></li>"@,
{
    reveal_strlit("/");
    let p = path[i - 1] + "/"@;
    assert(p.is_prefix_of(path[i])) by {
        assert(path[i].subrange(0, p.len() as int) =~= p);
    }
    assert(path[i].skip(path[i - 1].len() + 1int) =~= rest);
    assert(crumbs_html(site, path, i + 1) =~= crumbs_html(site, path, i) + crumb_link(site, path[i]) + rest
        + "</a></li>"@);
}

/// A tree that does not lie under the tree just before it on the path, or that comes first,
/// is named in its breadcrumb by `/` and its whole path.
pub proof fn law_crumb_from_root(site: Seq<char>, path: Seq<Seq<char>>, i: int)
    requires
        0 <= i < path.len(),
        path[i] != "index"@,
        i == 0 || !(path[i - 1] + "/"@).is_prefix_of(path[i]),
    ensures
        crumbs_html(site, path, i + 1) == crumbs_html(site, path, i) + crumb_link(site, path[i]) + "/"@ + path[i]
            + "</a></li>"@,
{
    assert(crumbs_html(site, path, i + 1) =~= crumbs_html(site, path, i) + crumb_link(site, path[i]) + "/"@
        + path[i] + "</a></li>"@);
}

/// The breadcrumbs of the page at `tree_path`: nothing when it has no navigation path.
pub open spec fn breadcrumbs_spec(config: Config, map: NavigationMap, tree_path: Seq<char>) -> Seq<char> {
    match map.paths.get_spec(tree_path) {
        Some(path) => crumbs_html(config.site@, strings_view(path@), path@.len() as int),
        None => Seq::empty(),
    }
}

/// How a breadcrumb names `element`, after `previous`.
fn short_element_of(previous: Option<&String>, element: &String) -> (r: String)
    ensures
        r@ == short_element(
            match previous {
                Some(p) => Some(p@),
                None => None,
            },
            element@,
        ),
{
    proof {
        reveal_strlit("/");
    }
    let chars = chars_of(element.as_str());
    match previous {
        Some(p) => {
            let mut prefix = chars_of(p.as_str());
            prefix.push('/');
            if prefix.len() <= chars.len() {
                let head = slice_chars(chars.as_slice(), 0, prefix.len());
                if chars_equal(head.as_slice(), prefix.as_slice()) {
                    let rest = slice_chars(chars.as_slice(), prefix.len(), chars.len());
                    proof {
                        assert((p@ + "/"@) =~= prefix@);
                        assert(prefix@.is_prefix_of(element@)) by {
                            assert(element@.subrange(0, prefix@.len() as int) =~= head@);
                        }
                        assert(rest@ =~= element@.skip(p@.len() + 1int));
                    }
                    return string_of(rest.as_slice());
                }
                proof {
                    assert((p@ + "/"@) =~= prefix@);
                    assert(!prefix@.is_prefix_of(element@)) by {
                        assert(element@.subrange(0, prefix@.len() as int) =~= head@);
                    }
                }
            } else {
                proof {
                    assert((p@ + "/"@) =~= prefix@);
                }
            }
        },
        None => {},
    }
    let mut r = String::new();
    r.push('/');
    r.push_str(element.as_str());
    proof {
        assert(r@ =~= "/"@ + element@);
    }
    r
}

/// The breadcrumbs of the page at `tree_path`, as `<li>` elements.
pub fn breadcrumbs_to_html(config: &Config, navigation_map: &NavigationMap, tree_path: &str) -> (s: String)
    ensures
        s@ == breadcrumbs_spec(*config, *navigation_map, tree_path@),
{
    let mut s = String::new();
    match navigation_map.paths.get(tree_path) {
        Some(path) => {
            let ghost p = strings_view(path@);
            let mut i: usize = 0;
            while i < path.len()
                invariant
                    i <= path@.len(),
                    p == strings_view(path@),
                    s@ == crumbs_html(config.site@, p, i as int),
                decreases path@.len() - i,
            {
                let element = &path[i];
                let ghost before = s@;
                if !str_equal(element.as_str(), "index") {
                    s.push_str("<li class=\"breadcrumb\"><a href=\"");
                    EscapeAttribute(config.site.as_str()).write_to(&mut s);
                    s.push_str("/");
                    EscapeAttribute(element.as_str()).write_to(&mut s);
                    s.push_str(".html\">");
                    let previous = if i > 0 {
                        Some(&path[i - 1])
                    } else {
                        None
                    };
                    let short = short_element_of(previous, element);
                    s.push_str(short.as_str());
                    s.push_str("</a></li>");
                    proof {
                        assert(p[i as int] == element@);
                        if i > 0 {
                            assert(p[i - 1] == path@[i - 1]@);
                        }
                        assert(s@ =~= before + crumb_html(config.site@, p, i as int));
                    }
                } else {
                    proof {
                        assert(p[i as int] == element@);
                        assert(element@ == "index"@);
                        assert(s@ =~= before + crumb_html(config.site@, p, i as int));
                    }
                }
                i = i + 1;
            }
        },
        None => {},
    }
    s
}

} // verus!
