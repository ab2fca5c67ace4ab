//! The navigation map: for each tree that can be reached from the root tree through branches
//! that link to other trees, the trees that have to be opened, in order, to get to it.
use vstd::prelude::*;

use crate::name_map::{lemma_get_has_entry, NameMap};
use crate::sema::{Content, SemaBranchId, SemaRoots, Treehouse};

verus! {

/// The texts of a list of strings.
pub open spec fn strings_view(v: Seq<String>) -> Seq<Seq<char>> {
    v.map_values(|s: String| s@)
}

/// A copy of a list of strings.
pub(crate) fn copy_strings(v: &Vec<String>) -> (r: Vec<String>)
    ensures
        strings_view(r@) == strings_view(v@),
{
    let mut r: Vec<String> = Vec::new();
    let mut i: usize = 0;
    while i < v.len()
        invariant
            i <= v@.len(),
            strings_view(r@) == strings_view(v@.take(i as int)),
        decreases v@.len() - i,
    {
        r.push(v[i].clone());
        proof {
            assert(strings_view(v@.take(i + 1)) =~= strings_view(v@.take(i as int)).push(v@[i as int]@));
            assert(strings_view(r@) =~= strings_view(v@.take(i as int)).push(v@[i as int]@));
        }
        i = i + 1;
    }
    proof {
        assert(v@.take(i as int) =~= v@);
    }
    r
}

/// For each tree, the trees that have to be opened to get to it, itself last.
#[derive(Debug, Clone)]
pub struct NavigationMap {
    pub paths: NameMap<Vec<String>>,
}

/// Builds a navigation map while walking the trees: the stack holds the trees that are open.
#[derive(Debug, Clone)]
pub struct NavigationMapBuilder {
    pub stack: Vec<String>,
    pub navigation_map: NavigationMap,
}

impl NavigationMapBuilder {
    /// A builder with no tree open and no path.
    pub fn new() -> (b: Self)
        ensures
            b.stack@.len() == 0,
            forall|k: Seq<char>| b.navigation_map.paths.get_spec(k) is None,
    {
        NavigationMapBuilder { stack: Vec::new(), navigation_map: NavigationMap { paths: NameMap::new() } }
    }

    /// Opens `tree`, whose path is then the open trees.
    pub fn enter_tree(&mut self, tree: String)
        ensures
            strings_view(final(self).stack@) == strings_view(old(self).stack@).push(tree@),
            final(self).navigation_map.paths.get_spec(tree@) matches Some(p) && strings_view(p@)
                == strings_view(final(self).stack@),
            forall|k: Seq<char>|
                k != tree@ ==> final(self).navigation_map.paths.get_spec(k)
                    == old(self).navigation_map.paths.get_spec(k),
    {
        let key = tree.clone();
        self.stack.push(tree);
        proof {
            assert(strings_view(self.stack@) =~= strings_view(old(self).stack@).push(key@));
        }
        let path = copy_strings(&self.stack);
        self.navigation_map.paths.insert(key, path);
    }

    /// Closes the last tree that was opened.
    pub fn exit_tree(&mut self)
        ensures
            strings_view(final(self).stack@) == if old(self).stack@.len() > 0 {
                strings_view(old(self).stack@).drop_last()
            } else {
                strings_view(old(self).stack@)
            },
            final(self).navigation_map == old(self).navigation_map,
    {
        let _ = self.stack.pop();
        proof {
            if old(self).stack@.len() > 0 {
                assert(strings_view(self.stack@) =~= strings_view(old(self).stack@).drop_last());
            }
        }
    }

    /// The navigation map that was built.
    pub fn finish(self) -> (m: NavigationMap)
        ensures
            m == self.navigation_map,
    {
        self.navigation_map
    }
}

/// Every tree in the context points only at branches that are in it.
pub open spec fn roots_valid(t: &Treehouse) -> bool {
    forall|k: Seq<char>|
        #[trigger] t.roots.get_spec(k) matches Some(r) ==> forall|j: int|
            0 <= j < r.branches@.len() ==> (#[trigger] r.branches@[j]).0 < t.tree.branches_spec().len()
}

/// The number of trees in `entries` that have no path yet.
pub open spec fn unvisited(entries: Seq<(String, SemaRoots)>, paths: NameMap<Vec<String>>) -> nat
    decreases entries.len(),
{
    if entries.len() == 0 {
        0
    } else {
        unvisited(entries.drop_last(), paths) + if paths.get_spec(entries.last().0@) is None {
            1nat
        } else {
            0nat
        }
    }
}

/// Branch `id` leads to the tree `target`: it links to it, or it holds its children inline
/// and one of them leads there.
pub open spec fn leads_to(t: &Treehouse, id: int, target: Seq<char>) -> bool
    decreases id, 1int, 0int,
{
    if 0 <= id < t.tree.branches_spec().len() {
        let b = t.tree.branches_spec()[id];
        match b.attributes.content {
            Content::Link(l) => l@ == target,
            Content::Inline => children_lead_to(t, id, b.children@, b.children@.len() as int, target),
        }
    } else {
        false
    }
}

/// One of the first `n` children `kids` of branch `parent` leads to the tree `target`.
pub open spec fn children_lead_to(t: &Treehouse, parent: int, kids: Seq<SemaBranchId>, n: int, target: Seq<char>) -> bool
    decreases parent, 0int, n,
{
    if n <= 0 || n > kids.len() {
        false
    } else {
        children_lead_to(t, parent, kids, n - 1, target) || (0 <= kids[n - 1].0 < parent && leads_to(
            t,
            kids[n - 1].0 as int,
            target,
        ))
    }
}

/// The tree `from` has a top-level branch that leads to the tree `to`.
pub open spec fn tree_leads_to(t: &Treehouse, from: Seq<char>, to: Seq<char>) -> bool {
    t.roots.get_spec(from) matches Some(r) && exists|j: int|
        0 <= j < r.branches@.len() && #[trigger] leads_to(t, r.branches@[j].0 as int, to)
}

/// Each tree of `path` leads to the next one.
pub open spec fn linked_path(t: &Treehouse, path: Seq<Seq<char>>) -> bool
    decreases path.len(),
{
    path.len() <= 1 || (linked_path(t, path.drop_last()) && tree_leads_to(t, path[path.len() - 2], path.last()))
}

proof fn lemma_linked_push(t: &Treehouse, path: Seq<Seq<char>>, tree: Seq<char>)
    requires
        linked_path(t, path),
        path.len() > 0 ==> tree_leads_to(t, path.last(), tree),
    ensures
        linked_path(t, path.push(tree)),
{
    assert(path.push(tree).drop_last() =~= path);
}

/// A child of an inline branch that leads somewhere makes the branch lead there.
proof fn lemma_children_lead(t: &Treehouse, parent: int, kids: Seq<SemaBranchId>, n: int, i: int, target: Seq<char>)
    requires
        0 <= i < n <= kids.len(),
        0 <= kids[i].0 < parent,
        leads_to(t, kids[i].0 as int, target),
    ensures
        children_lead_to(t, parent, kids, n, target),
    decreases n,
{
    if n - 1 > i {
        lemma_children_lead(t, parent, kids, n - 1, i, target);
    }
}

/// Every path in `paths` leads from the root to its tree through trees that each lead to the
/// next, and is the path of a tree of the context.
pub open spec fn paths_ok(t: &Treehouse, paths: NameMap<Vec<String>>, root: Seq<char>) -> bool {
    forall|k: Seq<char>|
        #[trigger] paths.get_spec(k) matches Some(p) ==> {
            &&& strings_view(p@).len() >= 1
            &&& strings_view(p@).last() == k
            &&& strings_view(p@)[0] == root
            &&& linked_path(t, strings_view(p@))
            &&& strings_view(p@).no_duplicates()
            &&& t.roots.get_spec(k) is Some
        }
}

/// The open trees are all different, and each has its path already.
pub open spec fn open_trees_ok(paths: NameMap<Vec<String>>, stack: Seq<Seq<char>>) -> bool {
    &&& stack.no_duplicates()
    &&& forall|i: int| 0 <= i < stack.len() ==> paths.get_spec(#[trigger] stack[i]) is Some
}

/// The paths of `a` are all in `b`.
pub open spec fn paths_kept(a: NameMap<Vec<String>>, b: NameMap<Vec<String>>) -> bool {
    forall|k: Seq<char>| #[trigger] a.get_spec(k) is Some ==> b.get_spec(k) == a.get_spec(k)
}

proof fn lemma_unvisited_kept(entries: Seq<(String, SemaRoots)>, a: NameMap<Vec<String>>, b: NameMap<Vec<String>>)
    requires
        paths_kept(a, b),
    ensures
        unvisited(entries, b) <= unvisited(entries, a),
    decreases entries.len(),
{
    if entries.len() > 0 {
        lemma_unvisited_kept(entries.drop_last(), a, b);
        if a.get_spec(entries.last().0@) is Some {
            assert(b.get_spec(entries.last().0@) is Some);
        }
    }
}

proof fn lemma_unvisited_strict(
    entries: Seq<(String, SemaRoots)>,
    a: NameMap<Vec<String>>,
    b: NameMap<Vec<String>>,
    key: Seq<char>,
    j: int,
)
    requires
        paths_kept(a, b),
        a.get_spec(key) is None,
        b.get_spec(key) is Some,
        0 <= j < entries.len(),
        entries[j].0@ == key,
    ensures
        unvisited(entries, b) < unvisited(entries, a),
    decreases entries.len(),
{
    if j == entries.len() - 1 {
        lemma_unvisited_kept(entries.drop_last(), a, b);
    } else {
        lemma_unvisited_strict(entries.drop_last(), a, b, key, j);
        if a.get_spec(entries.last().0@) is Some {
            assert(b.get_spec(entries.last().0@) is Some);
        }
    }
}

/// Every tree with a path that is not open on `stack` has a path for each tree that it leads
/// to.
pub open spec fn closed_below(t: &Treehouse, paths: NameMap<Vec<String>>, stack: Seq<Seq<char>>) -> bool {
    forall|k: Seq<char>|
        #[trigger] paths.get_spec(k) is Some ==> (stack.contains(k) || forall|x: Seq<char>|
            #[trigger] tree_leads_to(t, k, x) && t.roots.get_spec(x) is Some ==> paths.get_spec(x) is Some)
}

/// One of the first `n` children `kids` of branch `parent` that leads to `target` is a child
/// that is one of the tree's branches and leads there.
proof fn lemma_child_leading(t: &Treehouse, parent: int, kids: Seq<SemaBranchId>, n: int, target: Seq<char>) -> (i: int)
    requires
        children_lead_to(t, parent, kids, n, target),
    ensures
        0 <= i < n <= kids.len(),
        0 <= kids[i].0 < parent,
        leads_to(t, kids[i].0 as int, target),
    decreases n,
{
    if children_lead_to(t, parent, kids, n - 1, target) {
        lemma_child_leading(t, parent, kids, n - 1, target)
    } else {
        n - 1
    }
}

proof fn lemma_paths_kept_trans(a: NameMap<Vec<String>>, b: NameMap<Vec<String>>, c: NameMap<Vec<String>>)
    requires
        paths_kept(a, b),
        paths_kept(b, c),
    ensures
        paths_kept(a, c),
{
}

/// Walks the tree at `tree_path`, when there is one and it has not been walked yet.
fn rec_tree(treehouse: &Treehouse, builder: &mut NavigationMapBuilder, tree_path: &str, Ghost(root): Ghost<Seq<char>>)
    requires
        treehouse.tree.wf(),
        roots_valid(treehouse),
        paths_ok(treehouse, old(builder).navigation_map.paths, root),
        old(builder).stack@.len() > 0 ==> old(builder).stack@[0]@ == root,
        old(builder).stack@.len() == 0 ==> tree_path@ == root,
        linked_path(treehouse, strings_view(old(builder).stack@)),
        old(builder).stack@.len() > 0 ==> tree_leads_to(treehouse, strings_view(old(builder).stack@).last(), tree_path@),
        closed_below(treehouse, old(builder).navigation_map.paths, strings_view(old(builder).stack@)),
        open_trees_ok(old(builder).navigation_map.paths, strings_view(old(builder).stack@)),
    ensures
        paths_ok(treehouse, final(builder).navigation_map.paths, root),
        closed_below(treehouse, final(builder).navigation_map.paths, strings_view(old(builder).stack@)),
        treehouse.roots.get_spec(tree_path@) is Some ==> final(builder).navigation_map.paths.get_spec(tree_path@) is Some,
        strings_view(final(builder).stack@) == strings_view(old(builder).stack@),
        paths_kept(old(builder).navigation_map.paths, final(builder).navigation_map.paths),
        unvisited(treehouse.roots.entries_spec(), final(builder).navigation_map.paths) <= unvisited(
            treehouse.roots.entries_spec(),
            old(builder).navigation_map.paths,
        ),
        treehouse.roots.get_spec(tree_path@) is None ==> final(builder).navigation_map == old(
            builder,
        ).navigation_map,
        treehouse.roots.get_spec(tree_path@) is Some && old(builder).navigation_map.paths.get_spec(
            tree_path@,
        ) is None ==> (final(builder).navigation_map.paths.get_spec(tree_path@) matches Some(p)
            && strings_view(p@) == strings_view(old(builder).stack@).push(tree_path@)),
    decreases unvisited(treehouse.roots.entries_spec(), old(builder).navigation_map.paths), 0nat,
{
    let ghost entries = treehouse.roots.entries_spec();
    let ghost start = *builder;
    match treehouse.roots.get(tree_path) {
        Some(roots) => {
            if !builder.navigation_map.paths.contains_key(tree_path) {
                builder.enter_tree(tree_path.to_owned());
                proof {
                    lemma_get_has_entry(&treehouse.roots, tree_path@);
                    let j = choose|j: int| 0 <= j < entries.len() && (#[trigger] entries[j]).0@ == tree_path@;
                    lemma_unvisited_strict(
                        entries,
                        start.navigation_map.paths,
                        builder.navigation_map.paths,
                        tree_path@,
                        j,
                    );
                    assert(strings_view(builder.stack@).len() == builder.stack@.len());
                    assert(strings_view(builder.stack@)[0] == builder.stack@[0]@);
                    if start.stack@.len() > 0 {
                        assert(strings_view(start.stack@)[0] == start.stack@[0]@);
                        assert(strings_view(start.stack@).len() == start.stack@.len());
                    }
                    lemma_linked_push(treehouse, strings_view(start.stack@), tree_path@);
                    let old_sv = strings_view(start.stack@);
                    assert(!old_sv.contains(tree_path@)) by {
                        if old_sv.contains(tree_path@) {
                            let j = choose|j: int| 0 <= j < old_sv.len() && old_sv[j] == tree_path@;
                            assert(start.navigation_map.paths.get_spec(old_sv[j]) is Some);
                        }
                    }
                    assert(old_sv.push(tree_path@).no_duplicates()) by {
                        assert forall|a: int, c: int| 0 <= a < c < old_sv.push(tree_path@).len() implies old_sv.push(
                            tree_path@,
                        )[a] != old_sv.push(tree_path@)[c] by {
                            if c == old_sv.len() {
                                assert(old_sv[a] == old_sv.push(tree_path@)[a]);
                            }
                        }
                    }
                    assert(paths_ok(treehouse, builder.navigation_map.paths, root));
                    let sv = strings_view(builder.stack@);
                    assert(sv[sv.len() - 1] == tree_path@);
                    assert forall|k: Seq<char>| #[trigger] builder.navigation_map.paths.get_spec(k) is Some implies (sv.contains(k)
                        || forall|x: Seq<char>|
                        #[trigger] tree_leads_to(treehouse, k, x) && treehouse.roots.get_spec(x) is Some
                            ==> builder.navigation_map.paths.get_spec(x) is Some) by {
                        if k != tree_path@ {
                            assert(start.navigation_map.paths.get_spec(k) is Some);
                            if strings_view(start.stack@).contains(k) {
                                let j = choose|j: int| 0 <= j < strings_view(start.stack@).len() && strings_view(start.stack@)[j] == k;
                                assert(sv[j] == k);
                            }
                        }
                    }
                    assert(closed_below(treehouse, builder.navigation_map.paths, sv));
                }
                let ghost entered = *builder;
                proof {
                    assert(strings_view(entered.stack@) == strings_view(start.stack@).push(tree_path@));
                    lemma_linked_push(treehouse, strings_view(start.stack@), tree_path@);
                }
                let mut i: usize = 0;
                while i < roots.branches.len()
                    invariant
                        i <= roots.branches@.len(),
                        treehouse.tree.wf(),
                        roots_valid(treehouse),
                        treehouse.roots.get_spec(tree_path@) == Some(*roots),
                        entries == treehouse.roots.entries_spec(),
                        paths_ok(treehouse, builder.navigation_map.paths, root),
                        strings_view(builder.stack@) == strings_view(entered.stack@),
                        entered.stack@.len() > 0,
                        entered.stack@[0]@ == root,
                        linked_path(treehouse, strings_view(entered.stack@)),
                        strings_view(entered.stack@).last() == tree_path@,
                        strings_view(entered.stack@) == strings_view(start.stack@).push(tree_path@),
                        closed_below(treehouse, builder.navigation_map.paths, strings_view(entered.stack@)),
                        open_trees_ok(builder.navigation_map.paths, strings_view(entered.stack@)),
                        forall|j: int, x: Seq<char>|
                            0 <= j < i && #[trigger] leads_to(treehouse, roots.branches@[j].0 as int, x)
                                && treehouse.roots.get_spec(x) is Some ==> builder.navigation_map.paths.get_spec(x) is Some,
                        paths_kept(start.navigation_map.paths, builder.navigation_map.paths),
                        paths_kept(entered.navigation_map.paths, builder.navigation_map.paths),
                        entered.navigation_map.paths.get_spec(tree_path@) is Some,
                        unvisited(entries, builder.navigation_map.paths) < unvisited(
                            entries,
                            start.navigation_map.paths,
                        ),
                        start == *old(builder),
                    decreases roots.branches@.len() - i,
                {
                    let ghost before = *builder;
                    proof {
                        assert(roots.branches@[i as int].0 < treehouse.tree.branches_spec().len());
                        assert(strings_view(builder.stack@).len() == builder.stack@.len());
                        assert(strings_view(builder.stack@)[0] == builder.stack@[0]@);
                        assert(strings_view(entered.stack@)[0] == entered.stack@[0]@);
                        assert forall|x: Seq<char>| #[trigger] leads_to(treehouse, roots.branches@[i as int].0 as int, x) implies tree_leads_to(
                            treehouse,
                            strings_view(builder.stack@).last(),
                            x,
                        ) by {
                            assert(0 <= i < roots.branches@.len());
                        }
                    }
                    rec_branch(treehouse, builder, roots.branches[i], Ghost(root));
                    proof {
                        lemma_paths_kept_trans(start.navigation_map.paths, before.navigation_map.paths, builder.navigation_map.paths);
                        lemma_paths_kept_trans(entered.navigation_map.paths, before.navigation_map.paths, builder.navigation_map.paths);
                        let ev = strings_view(entered.stack@);
                        assert forall|q: int| 0 <= q < ev.len() implies builder.navigation_map.paths.get_spec(
                            #[trigger] ev[q],
                        ) is Some by {
                            assert(before.navigation_map.paths.get_spec(ev[q]) is Some);
                        }
                        assert forall|j: int, x: Seq<char>|
                            0 <= j < i + 1 && #[trigger] leads_to(treehouse, roots.branches@[j].0 as int, x)
                                && treehouse.roots.get_spec(x) is Some implies builder.navigation_map.paths.get_spec(x) is Some by {
                            if j < i {
                                assert(before.navigation_map.paths.get_spec(x) is Some);
                            }
                        }
                    }
                    i = i + 1;
                }
                let ghost walked = *builder;
                builder.exit_tree();
                proof {
                    assert(strings_view(entered.stack@) == strings_view(start.stack@).push(tree_path@));
                    assert(strings_view(walked.stack@).len() == walked.stack@.len());
                    assert(strings_view(builder.stack@) =~= strings_view(start.stack@));
                    assert(builder.navigation_map.paths.get_spec(tree_path@) == entered.navigation_map.paths.get_spec(tree_path@));
                    let sv = strings_view(start.stack@);
                    assert forall|k: Seq<char>| #[trigger] builder.navigation_map.paths.get_spec(k) is Some implies (sv.contains(k)
                        || forall|x: Seq<char>|
                        #[trigger] tree_leads_to(treehouse, k, x) && treehouse.roots.get_spec(x) is Some
                            ==> builder.navigation_map.paths.get_spec(x) is Some) by {
                        let ev = strings_view(entered.stack@);
                        if ev.contains(k) && !sv.contains(k) {
                            let j = choose|j: int| 0 <= j < ev.len() && ev[j] == k;
                            if j < sv.len() {
                                assert(sv[j] == k);
                            }
                            assert(k == tree_path@);
                            assert forall|x: Seq<char>|
                                #[trigger] tree_leads_to(treehouse, k, x) && treehouse.roots.get_spec(x) is Some
                                    implies builder.navigation_map.paths.get_spec(x) is Some by {
                                let b = choose|b: int| 0 <= b < roots.branches@.len() && #[trigger] leads_to(
                                    treehouse,
                                    roots.branches@[b].0 as int,
                                    x,
                                );
                            }
                        }
                    }
                }
            }
        },
        None => {},
    }
}

/// Walks the branch `branch_id`: into the tree that it links to, or into its children.
fn rec_branch(treehouse: &Treehouse, builder: &mut NavigationMapBuilder, branch_id: SemaBranchId, Ghost(root): Ghost<Seq<char>>)
    requires
        treehouse.tree.wf(),
        roots_valid(treehouse),
        branch_id.0 < treehouse.tree.branches_spec().len(),
        paths_ok(treehouse, old(builder).navigation_map.paths, root),
        old(builder).stack@.len() > 0,
        old(builder).stack@[0]@ == root,
        linked_path(treehouse, strings_view(old(builder).stack@)),
        forall|x: Seq<char>|
            #[trigger] leads_to(treehouse, branch_id.0 as int, x) ==> tree_leads_to(
                treehouse,
                strings_view(old(builder).stack@).last(),
                x,
            ),
        closed_below(treehouse, old(builder).navigation_map.paths, strings_view(old(builder).stack@)),
        open_trees_ok(old(builder).navigation_map.paths, strings_view(old(builder).stack@)),
    ensures
        paths_ok(treehouse, final(builder).navigation_map.paths, root),
        closed_below(treehouse, final(builder).navigation_map.paths, strings_view(old(builder).stack@)),
        forall|x: Seq<char>|
            #[trigger] leads_to(treehouse, branch_id.0 as int, x) && treehouse.roots.get_spec(x) is Some
                ==> final(builder).navigation_map.paths.get_spec(x) is Some,
        strings_view(final(builder).stack@) == strings_view(old(builder).stack@),
        paths_kept(old(builder).navigation_map.paths, final(builder).navigation_map.paths),
        unvisited(treehouse.roots.entries_spec(), final(builder).navigation_map.paths) <= unvisited(
            treehouse.roots.entries_spec(),
            old(builder).navigation_map.paths,
        ),
    decreases unvisited(treehouse.roots.entries_spec(), old(builder).navigation_map.paths), branch_id.0 + 1,
{
    let ghost entries = treehouse.roots.entries_spec();
    let ghost start = *builder;
    let branch = treehouse.tree.branch(branch_id);
    match &branch.attributes.content {
        Content::Link(linked) => {
            proof {
                assert(leads_to(treehouse, branch_id.0 as int, linked@));
                assert(strings_view(builder.stack@).len() == builder.stack@.len());
            }
            rec_tree(treehouse, builder, linked.as_str(), Ghost(root));
        },
        Content::Inline => {
            let mut i: usize = 0;
            while i < branch.children.len()
                invariant
                    i <= branch.children@.len(),
                    treehouse.tree.wf(),
                    roots_valid(treehouse),
                    branch_id.0 < treehouse.tree.branches_spec().len(),
                    *branch == treehouse.tree.branches_spec()[branch_id.0 as int],
                    entries == treehouse.roots.entries_spec(),
                    paths_ok(treehouse, builder.navigation_map.paths, root),
                    strings_view(builder.stack@) == strings_view(start.stack@),
                    start.stack@.len() > 0,
                    start.stack@[0]@ == root,
                    linked_path(treehouse, strings_view(start.stack@)),
                    forall|x: Seq<char>|
                        #[trigger] leads_to(treehouse, branch_id.0 as int, x) ==> tree_leads_to(
                            treehouse,
                            strings_view(start.stack@).last(),
                            x,
                        ),
                    branch.attributes.content == Content::Inline,
                    closed_below(treehouse, builder.navigation_map.paths, strings_view(start.stack@)),
                    open_trees_ok(builder.navigation_map.paths, strings_view(start.stack@)),
                    forall|j: int, x: Seq<char>|
                        0 <= j < i && #[trigger] leads_to(treehouse, branch.children@[j].0 as int, x)
                            && treehouse.roots.get_spec(x) is Some ==> builder.navigation_map.paths.get_spec(x) is Some,
                    paths_kept(start.navigation_map.paths, builder.navigation_map.paths),
                    unvisited(entries, builder.navigation_map.paths) <= unvisited(
                        entries,
                        start.navigation_map.paths,
                    ),
                    start == *old(builder),
                decreases branch.children@.len() - i,
            {
                let ghost before = *builder;
                proof {
                    assert(branch.children@[i as int].0 < branch_id.0);
                    assert(strings_view(builder.stack@).len() == builder.stack@.len());
                    assert(strings_view(builder.stack@)[0] == builder.stack@[0]@);
                    assert(strings_view(start.stack@)[0] == start.stack@[0]@);
                    let kids = branch.children@;
                    assert forall|x: Seq<char>| #[trigger] leads_to(treehouse, kids[i as int].0 as int, x) implies tree_leads_to(
                        treehouse,
                        strings_view(builder.stack@).last(),
                        x,
                    ) by {
                        lemma_children_lead(treehouse, branch_id.0 as int, kids, kids.len() as int, i as int, x);
                        assert(leads_to(treehouse, branch_id.0 as int, x));
                    }
                }
                rec_branch(treehouse, builder, branch.children[i], Ghost(root));
                proof {
                    lemma_paths_kept_trans(start.navigation_map.paths, before.navigation_map.paths, builder.navigation_map.paths);
                    let sv = strings_view(start.stack@);
                    assert forall|q: int| 0 <= q < sv.len() implies builder.navigation_map.paths.get_spec(
                        #[trigger] sv[q],
                    ) is Some by {
                        assert(before.navigation_map.paths.get_spec(sv[q]) is Some);
                    }
                    assert forall|j: int, x: Seq<char>|
                        0 <= j < i + 1 && #[trigger] leads_to(treehouse, branch.children@[j].0 as int, x)
                            && treehouse.roots.get_spec(x) is Some implies builder.navigation_map.paths.get_spec(x) is Some by {
                        if j < i {
                            assert(before.navigation_map.paths.get_spec(x) is Some);
                        }
                    }
                }
                i = i + 1;
            }
            proof {
                assert forall|x: Seq<char>|
                    #[trigger] leads_to(treehouse, branch_id.0 as int, x) && treehouse.roots.get_spec(x) is Some
                        implies builder.navigation_map.paths.get_spec(x) is Some by {
                    let kids = branch.children@;
                    let j = lemma_child_leading(treehouse, branch_id.0 as int, kids, kids.len() as int, x);
                }
            }
        },
    }
}

/// The navigation map of the trees that can be reached from the tree at `root_tree_path`.
/// Every path leads from the root tree to the tree that it is the path of, each tree on it
/// holding a branch that links to the next one, and no tree twice; the root tree's own path is
/// itself alone.
pub fn build_navigation_map(treehouse: &Treehouse, root_tree_path: &str) -> (m: NavigationMap)
    requires
        treehouse.tree.wf(),
        roots_valid(treehouse),
    ensures
        paths_ok(treehouse, m.paths, root_tree_path@),
        treehouse.roots.get_spec(root_tree_path@) is Some ==> (m.paths.get_spec(root_tree_path@) matches Some(
            p,
        ) && strings_view(p@) == seq![root_tree_path@]),
        treehouse.roots.get_spec(root_tree_path@) is None ==> forall|k: Seq<char>| m.paths.get_spec(k) is None,
        closed_below(treehouse, m.paths, Seq::empty()),
{
    let mut builder = NavigationMapBuilder::new();
    proof {
        assert(strings_view(builder.stack@) =~= Seq::<Seq<char>>::empty());
    }
    rec_tree(treehouse, &mut builder, root_tree_path, Ghost(root_tree_path@));
    proof {
        if treehouse.roots.get_spec(root_tree_path@) is Some {
            assert(builder.navigation_map.paths.get_spec(root_tree_path@) is Some);
        }
    }
    builder.finish()
}

/// Every tree that a chain of links from the root tree reaches has a path in a navigation map
/// built from the root: the map holds the root's path and, for every tree that it has a path
/// for, a path for each tree that that one leads to.
pub proof fn law_reachable_trees_have_paths(
    t: &Treehouse,
    paths: NameMap<Vec<String>>,
    chain: Seq<Seq<char>>,
)
    requires
        chain.len() >= 1,
        paths.get_spec(chain[0]) is Some,
        closed_below(t, paths, Seq::empty()),
        linked_path(t, chain),
        t.roots.get_spec(chain.last()) is Some,
    ensures
        paths.get_spec(chain.last()) is Some,
    decreases chain.len(),
{
    if chain.len() > 1 {
        let prefix = chain.drop_last();
        assert(prefix[0] == chain[0]);
        assert(tree_leads_to(t, chain[chain.len() - 2], chain.last()));
        law_reachable_trees_have_paths(t, paths, prefix);
        assert(prefix.last() == chain[chain.len() - 2]);
        assert(!Seq::<Seq<char>>::empty().contains(prefix.last()));
    }
}

} // verus!
