//! What generating the site decides on its own: which templates become pages of their own, what
//! a page and a feed are made of, and where in a template a template error points.
use vstd::prelude::*;
use vstd::string::*;
use vstd::utf8::*;

use crate::config::Config;
use crate::navmap::{copy_strings, strings_view};
use crate::sema::{
    diagnostics_view, diagnostic_view, labelled, labelled_diagnostic, lemma_line_start_bounds, line_range, line_start_in, Picture,
    RootAttributes, SemaBranch, SemaBranchId, SemaRoots, Severity, Treehouse,
};
use crate::text::chars_of;

verus! {

/// The error of a template without a position: it names the template's file.
pub open spec fn template_error_text(filename: Seq<char>, message: Seq<char>) -> Seq<char> {
    "template error in "@ + filename + ": "@ + message
}

/// Reports a template error of file `file_id`: one with a line (counted from 0) and a column
/// becomes a diagnostic of the character there; one without is an error of its own, which
/// names the file.
pub fn wrangle_handlebars_error_into_diagnostic(
    treehouse: &mut Treehouse,
    file_id: usize,
    line: Option<usize>,
    column: Option<usize>,
    message: String,
) -> (r: Result<(), String>)
    requires
        file_id < old(treehouse).files_view().len(),
        (line, column) matches (Some(l), Some(c)) ==> {
            let b = encode_utf8(old(treehouse).files_view()[file_id as int].1);
            &&& line_range(b, l as int) is Some
            &&& line_range(b, l as int)->Some_0.0 + c + 1 <= usize::MAX
        },
    ensures
        final(treehouse).files == old(treehouse).files,
        final(treehouse).tree == old(treehouse).tree,
        final(treehouse).branches_by_named_id == old(treehouse).branches_by_named_id,
        final(treehouse).roots == old(treehouse).roots,
        final(treehouse).tree_paths == old(treehouse).tree_paths,
        match (line, column) {
            (Some(l), Some(c)) => {
                let b = encode_utf8(old(treehouse).files_view()[file_id as int].1);
                let start = line_range(b, l as int)->Some_0.0;
                &&& r is Ok
                &&& diagnostics_view(final(treehouse).diagnostics@) == diagnostics_view(old(treehouse).diagnostics@).push(
                    labelled(Severity::Error, "template"@, message@, file_id, start + c, start + c + 1, Seq::empty()),
                )
            },
            _ => {
                &&& r matches Err(e) && e@ == template_error_text(old(treehouse).files_view()[file_id as int].0, message@)
                &&& final(treehouse).diagnostics == old(treehouse).diagnostics
            },
        },
{
    match (line, column) {
        (Some(l), Some(c)) => {
            let start = line_start_in(&treehouse.files, file_id, l).unwrap();
            proof {
                let b = encode_utf8(treehouse.files_view()[file_id as int].1);
                let s = line_range(b, l as int)->Some_0.0;
                lemma_line_start_bounds(b, l as int);
                assert(0 <= s + c + 1 <= usize::MAX);
                assert(start == s as usize);
                assert(start as int == s);
            }
            let d = labelled_diagnostic(
                Severity::Error,
                "template",
                message,
                file_id,
                std::ops::Range { start: start + c, end: start + c + 1 },
                Vec::new(),
            );
            let ghost before = treehouse.diagnostics@;
            treehouse.diagnostics.push(d);
            proof {
                assert(Seq::<String>::empty().map_values(|n: String| n@) =~= Seq::<Seq<char>>::empty());
                assert(diagnostics_view(treehouse.diagnostics@) =~= diagnostics_view(before).push(diagnostic_view(d)));
            }
            Ok(())
        },
        _ => {
            let mut e = "template error in ".to_owned();
            e.push_str(treehouse.filename(file_id));
            e.push_str(": ");
            e.push_str(message.as_str());
            Err(e)
        },
    }
}

// ---------------------------------------------------------------------------------------------
// Templates, pages and feeds

/// The file name of a path: what follows its last `/`.
pub open spec fn file_name(path: Seq<char>) -> Seq<char>
    decreases path.len(),
{
    if path.len() == 0 {
        path
    } else if path.last() == '/' {
        Seq::empty()
    } else {
        file_name(path.drop_last()).push(path.last())
    }
}

/// A template is rendered to a page of its own unless its file name starts with `_`.
pub open spec fn is_standalone(name: Seq<char>) -> bool {
    let f = file_name(name);
    !(f.len() > 0 && f[0] == '_')
}

/// Whether the template `name` (its path relative to the template directory) is rendered to a
/// page of its own; those whose file name starts with `_` are only used by other templates and
/// by trees.
pub fn is_standalone_template(name: &str) -> (r: bool)
    ensures
        r == is_standalone(name@),
{
    let chars = chars_of(name);
    let mut start: usize = 0;
    let mut i: usize = 0;
    proof {
        assert(chars@.take(0) =~= Seq::<char>::empty());
        assert(chars@.subrange(0, 0) =~= Seq::<char>::empty());
    }
    while i < chars.len()
        invariant
            chars@ == name@,
            start <= i <= chars@.len(),
            file_name(chars@.take(i as int)) == chars@.subrange(start as int, i as int),
        decreases chars@.len() - i,
    {
        proof {
            assert(chars@.take(i + 1).drop_last() =~= chars@.take(i as int));
            assert(chars@.take(i + 1).last() == chars@[i as int]);
        }
        if chars[i] == '/' {
            start = i + 1;
            proof {
                assert(chars@.subrange(start as int, start as int) =~= Seq::<char>::empty());
            }
        } else {
            proof {
                assert(chars@.subrange(start as int, i + 1) =~= chars@.subrange(start as int, i as int).push(
                    chars@[i as int],
                ));
            }
        }
        i = i + 1;
    }
    proof {
        assert(chars@.take(i as int) =~= chars@);
    }
    !(start < chars.len() && chars[start] == '_')
}

/// The template that a tree's page is made with: the one its attributes name, else `_tree.hbs`.
pub open spec fn page_template(attributes: RootAttributes) -> Seq<char> {
    match attributes.template {
        Some(t) => t@,
        None => "_tree.hbs"@,
    }
}

/// The template that a tree's page is made with.
pub fn template_name(attributes: &RootAttributes) -> (name: String)
    ensures
        name@ == page_template(*attributes),
{
    match &attributes.template {
        Some(t) => t.clone(),
        None => "_tree.hbs".to_string(),
    }
}

/// A page's thumbnail: the picture's URL and its alt text.
#[derive(Debug, Clone)]
pub struct Thumbnail {
    pub url: String,
    pub alt: Option<String>,
}

/// What a tree's page template is given.
#[derive(Debug, Clone)]
pub struct Page {
    pub title: String,
    pub thumbnail: Option<Thumbnail>,
    pub scripts: Vec<String>,
    pub styles: Vec<String>,
    pub breadcrumbs: String,
    pub tree_path: Option<String>,
    pub tree: String,
}

/// The thumbnail of a page whose attributes name picture `thumbnail`.
pub open spec fn thumbnail_view(config: Config, thumbnail: Option<Picture>) -> Option<(Seq<char>, Option<Seq<char>>)> {
    match thumbnail {
        Some(p) => Some((config.pic_url_spec(p.id@), crate::sema::text_opt(p.alt))),
        None => None,
    }
}

/// The data of the page of the tree in file `file_id`, whose attributes are `attributes`, with
/// its breadcrumbs and its tree already rendered.
pub fn page_of(
    config: &Config,
    treehouse: &Treehouse,
    file_id: usize,
    attributes: &RootAttributes,
    breadcrumbs: String,
    tree: String,
) -> (page: Page)
    requires
        treehouse.wf(),
        file_id < treehouse.files_view().len(),
    ensures
        page.title@ == attributes.title@,
        match page.thumbnail {
            Some(t) => thumbnail_view(*config, attributes.thumbnail) == Some((t.url@, crate::sema::text_opt(t.alt))),
            None => attributes.thumbnail is None,
        },
        strings_view(page.scripts@) == strings_view(attributes.scripts@),
        strings_view(page.styles@) == strings_view(attributes.styles@),
        page.breadcrumbs == breadcrumbs,
        crate::sema::text_opt(page.tree_path) == treehouse.tree_path_spec(file_id as int),
        page.tree == tree,
{
    let thumbnail = match &attributes.thumbnail {
        Some(t) => Some(Thumbnail { url: config.pic_url(t.id.as_str()), alt: t.alt.clone() }),
        None => None,
    };
    let tree_path = match treehouse.tree_path(file_id) {
        Some(p) => Some(p.to_string()),
        None => None,
    };
    Page {
        title: attributes.title.clone(),
        thumbnail,
        scripts: copy_strings(&attributes.scripts),
        styles: copy_strings(&attributes.styles),
        breadcrumbs,
        tree_path,
        tree,
    }
}

/// A feed: the ids of the top-level branches of the page that it is made of.
#[derive(Debug, Clone)]
pub struct Feed {
    pub branches: Vec<String>,
}

/// The ids of the branches `roots`.
pub open spec fn branch_ids(branches: Seq<SemaBranch>, roots: Seq<SemaBranchId>) -> Seq<Seq<char>> {
    roots.map_values(|r: SemaBranchId| branches[r.0 as int].attributes.id@)
}

/// Every branch of `roots` is one of the tree's.
pub open spec fn roots_in_tree(treehouse: &Treehouse, roots: &SemaRoots) -> bool {
    forall|i: int|
        0 <= i < roots.branches@.len() ==> (#[trigger] roots.branches@[i]).0 < treehouse.tree.branches_spec().len()
}

/// The feed that a tree adds to, with its name: none for a tree whose attributes name no feed.
pub fn feed_of(treehouse: &Treehouse, roots: &SemaRoots) -> (r: Option<(String, Feed)>)
    requires
        roots_in_tree(treehouse, roots),
    ensures
        match roots.attributes.feed {
            None => r is None,
            Some(name) => r matches Some((n, f)) && n@ == name@ && strings_view(f.branches@) == branch_ids(
                treehouse.tree.branches_spec(),
                roots.branches@,
            ),
        },
{
    match &roots.attributes.feed {
        None => None,
        Some(name) => {
            let ghost all = treehouse.tree.branches_spec();
            let mut ids: Vec<String> = Vec::new();
            let mut i: usize = 0;
            while i < roots.branches.len()
                invariant
                    i <= roots.branches@.len(),
                    all == treehouse.tree.branches_spec(),
                    roots_in_tree(treehouse, roots),
                    strings_view(ids@) == branch_ids(all, roots.branches@.take(i as int)),
                decreases roots.branches@.len() - i,
            {
                let root = roots.branches[i];
                let branch = treehouse.tree.branch(root);
                ids.push(branch.attributes.id.clone());
                proof {
                    assert(roots.branches@.take(i + 1) =~= roots.branches@.take(i as int).push(root));
                    assert(branch_ids(all, roots.branches@.take(i + 1)) =~= branch_ids(
                        all,
                        roots.branches@.take(i as int),
                    ).push(all[root.0 as int].attributes.id@));
                    assert(strings_view(ids@) =~= branch_ids(all, roots.branches@.take(i as int)).push(
                        all[root.0 as int].attributes.id@,
                    ));
                }
                i = i + 1;
            }
            proof {
                assert(roots.branches@.take(i as int) =~= roots.branches@);
            }
            Some((name.clone(), Feed { branches: ids }))
        },
    }
}

} // verus!
