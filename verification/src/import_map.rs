//! The import map: the address of each JavaScript module under the import roots, by the name
//! that scripts import it under, ordered by that name.
use indexmap::IndexMap;
use vstd::prelude::*;
use vstd::utf8::*;

use crate::static_urls::{blake3_hex, static_url, StaticUrls};

verus! {

#[verifier::external_type_specification]
#[verifier::external_body]
#[verifier::reject_recursive_types(K)]
#[verifier::reject_recursive_types(V)]
#[verifier::reject_recursive_types(S)]
pub struct ExIndexMap<K, V, S>(IndexMap<K, V, S>);

/// The entries of an import map, in its order: each module's name and address.
pub uninterp spec fn import_entries(m: IndexMap<String, String>) -> Seq<(Seq<char>, Seq<char>)>;

/// The first position of an entry with key `k`.
pub open spec fn index_of_key(s: Seq<(Seq<char>, Seq<char>)>, k: Seq<char>) -> Option<int>
    decreases s.len(),
{
    if s.len() == 0 {
        None
    } else {
        match index_of_key(s.drop_last(), k) {
            Some(i) => Some(i),
            None => if s.last().0 == k {
                Some(s.len() - 1)
            } else {
                None
            },
        }
    }
}

/// No two entries have the same key.
pub open spec fn keys_unique(s: Seq<(Seq<char>, Seq<char>)>) -> bool {
    forall|i: int, j: int| 0 <= i < j < s.len() ==> #[trigger] s[i].0 != #[trigger] s[j].0
}

/// `a` comes before `b` when bytes are compared one by one, a prefix first.
pub open spec fn bytes_before(a: Seq<u8>, b: Seq<u8>) -> bool
    decreases a.len(),
{
    if b.len() == 0 {
        false
    } else if a.len() == 0 {
        true
    } else if a[0] != b[0] {
        a[0] < b[0]
    } else {
        bytes_before(a.drop_first(), b.drop_first())
    }
}

/// `a` comes before `b` in the order of strings: that of their UTF-8 bytes.
pub open spec fn str_before(a: Seq<char>, b: Seq<char>) -> bool {
    bytes_before(encode_utf8(a), encode_utf8(b))
}

/// No entry comes after a later one in the order of their keys.
pub open spec fn sorted_by_key(s: Seq<(Seq<char>, Seq<char>)>) -> bool {
    forall|i: int, j: int| 0 <= i < j < s.len() ==> !str_before(#[trigger] s[j].0, #[trigger] s[i].0)
}

/// `IndexMap::new`: a map without entries.
#[verifier::external_body]
fn new_imports() -> (m: IndexMap<String, String>)
    ensures
        import_entries(m) == Seq::<(Seq<char>, Seq<char>)>::empty(),
{
    IndexMap::new()
}

/// `IndexMap::insert`: a key that the map has keeps its place and takes the new value; a new
/// key is added last. The old value that it returns is dropped.
#[verifier::external_body]
fn insert_import(m: &mut IndexMap<String, String>, key: String, value: String)
    ensures
        match index_of_key(import_entries(*old(m)), key@) {
            Some(i) => import_entries(*final(m)) == import_entries(*old(m)).update(i, (key@, value@)),
            None => import_entries(*final(m)) == import_entries(*old(m)).push((key@, value@)),
        },
{
    m.insert(key, value);
}

/// `IndexMap::sort_unstable_keys`: the same entries, reordered so that the keys come in the
/// order of `String`, which compares the bytes of the text.
#[verifier::external_body]
fn sort_imports(m: &mut IndexMap<String, String>)
    ensures
        import_entries(*final(m)).len() == import_entries(*old(m)).len(),
        forall|p: (Seq<char>, Seq<char>)|
            import_entries(*final(m)).contains(p) <==> import_entries(*old(m)).contains(p),
        keys_unique(import_entries(*old(m))) ==> keys_unique(import_entries(*final(m))),
        sorted_by_key(import_entries(*final(m))),
{
    m.sort_unstable_keys();
}

/// A JavaScript module found under an import root: its path relative to the root, with `/`
/// between directories, and its contents.
#[derive(Debug, Clone)]
pub struct ModuleFile {
    pub path: String,
    pub contents: Vec<u8>,
}

/// An import root: the name its modules are imported under, its directory, and the modules
/// found under it, in the order in which they were found.
#[derive(Debug, Clone)]
pub struct ImportRoot {
    pub name: String,
    pub path: String,
    pub modules: Vec<ModuleFile>,
}

/// The import map.
pub struct ImportMap {
    pub imports: IndexMap<String, String>,
}

/// The name and address of module `m` of `root`.
pub open spec fn module_entry(base_url: Seq<char>, root: ImportRoot, m: ModuleFile) -> (Seq<char>, Seq<char>) {
    (root.name@ + "/"@ + m.path@, static_url(base_url + "/"@ + root.path@, m.path@, blake3_hex(m.contents@)))
}

/// The names and addresses of the modules of `roots`, in order.
pub open spec fn module_entries(base_url: Seq<char>, roots: Seq<ImportRoot>) -> Seq<(Seq<char>, Seq<char>)>
    decreases roots.len(),
{
    if roots.len() == 0 {
        Seq::empty()
    } else {
        module_entries(base_url, roots.drop_last()) + roots.last().modules@.map_values(
            |m: ModuleFile| module_entry(base_url, roots.last(), m),
        )
    }
}

/// The value of the last entry with key `k`.
pub open spec fn last_value(s: Seq<(Seq<char>, Seq<char>)>, k: Seq<char>) -> Option<Seq<char>>
    decreases s.len(),
{
    if s.len() == 0 {
        None
    } else if s.last().0 == k {
        Some(s.last().1)
    } else {
        last_value(s.drop_last(), k)
    }
}

proof fn lemma_index_of_key(s: Seq<(Seq<char>, Seq<char>)>, k: Seq<char>)
    ensures
        match index_of_key(s, k) {
            Some(i) => 0 <= i < s.len() && s[i].0 == k,
            None => forall|j: int| 0 <= j < s.len() ==> s[j].0 != k,
        },
    decreases s.len(),
{
    if s.len() > 0 {
        lemma_index_of_key(s.drop_last(), k);
        if index_of_key(s.drop_last(), k) is None {
            assert forall|j: int| 0 <= j < s.len() - 1 implies s[j].0 != k by {
                assert(s[j] == s.drop_last()[j]);
            }
        }
    }
}

/// In a list with unique keys, the last value of a key is that of the entry with that key.
proof fn lemma_last_value_unique(s: Seq<(Seq<char>, Seq<char>)>, k: Seq<char>)
    requires
        keys_unique(s),
    ensures
        match last_value(s, k) {
            Some(v) => s.contains((k, v)),
            None => forall|j: int| 0 <= j < s.len() ==> s[j].0 != k,
        },
        forall|v: Seq<char>| s.contains((k, v)) ==> last_value(s, k) == Some(v),
    decreases s.len(),
{
    if s.len() > 0 {
        let t = s.drop_last();
        assert(keys_unique(t)) by {
            assert forall|i: int, j: int| 0 <= i < j < t.len() implies #[trigger] t[i].0 != #[trigger] t[j].0 by {
                assert(t[i] == s[i] && t[j] == s[j]);
            }
        }
        lemma_last_value_unique(t, k);
        if s.last().0 == k {
            assert(s[s.len() - 1] == s.last());
            assert forall|v: Seq<char>| s.contains((k, v)) implies last_value(s, k) == Some(v) by {
                let j = choose|j: int| 0 <= j < s.len() && s[j] == (k, v);
                if j < s.len() - 1 {
                    assert(s[j].0 == s[s.len() - 1].0);
                }
            }
        } else {
            match last_value(t, k) {
                Some(v) => {
                    let j = choose|j: int| 0 <= j < t.len() && t[j] == (k, v);
                    assert(s[j] == t[j]);
                },
                None => {
                    assert forall|j: int| 0 <= j < s.len() implies s[j].0 != k by {
                        if j < s.len() - 1 {
                            assert(s[j] == t[j]);
                        }
                    }
                },
            }
            assert forall|v: Seq<char>| s.contains((k, v)) implies last_value(s, k) == Some(v) by {
                let j = choose|j: int| 0 <= j < s.len() && s[j] == (k, v);
                assert(j < s.len() - 1);
                assert(t[j] == s[j]);
                assert(t.contains((k, v)));
            }
        }
    }
}

/// Two lists with unique keys and the same entries give every key the same value.
proof fn lemma_same_entries_same_values(a: Seq<(Seq<char>, Seq<char>)>, b: Seq<(Seq<char>, Seq<char>)>, k: Seq<char>)
    requires
        keys_unique(a),
        keys_unique(b),
        forall|p: (Seq<char>, Seq<char>)| a.contains(p) <==> b.contains(p),
    ensures
        last_value(a, k) == last_value(b, k),
{
    lemma_last_value_unique(a, k);
    lemma_last_value_unique(b, k);
    match last_value(a, k) {
        Some(v) => {
            assert(b.contains((k, v)));
        },
        None => {
            match last_value(b, k) {
                Some(v) => {
                    assert(a.contains((k, v)));
                    let j = choose|j: int| 0 <= j < a.len() && a[j] == (k, v);
                    assert(a[j].0 == k);
                },
                None => {},
            }
        },
    }
}

/// Inserting keeps the keys unique, and gives the inserted key the inserted value.
proof fn lemma_insert_entry(s: Seq<(Seq<char>, Seq<char>)>, t: Seq<(Seq<char>, Seq<char>)>, k: Seq<char>, v: Seq<char>)
    requires
        keys_unique(s),
        match index_of_key(s, k) {
            Some(i) => t == s.update(i, (k, v)),
            None => t == s.push((k, v)),
        },
    ensures
        keys_unique(t),
        forall|x: Seq<char>| last_value(t, x) == if x == k { Some(v) } else { last_value(s, x) },
{
    lemma_index_of_key(s, k);
    assert(keys_unique(t)) by {
        assert forall|i: int, j: int| 0 <= i < j < t.len() implies #[trigger] t[i].0 != #[trigger] t[j].0 by {
            match index_of_key(s, k) {
                Some(m) => {
                    if i == m {
                        assert(t[i].0 == s[m].0);
                    } else if j == m {
                        assert(t[j].0 == s[m].0);
                    }
                },
                None => {
                    if j == s.len() {
                        assert(t[i] == s[i]);
                    }
                },
            }
        }
    }
    assert forall|x: Seq<char>| last_value(t, x) == if x == k { Some(v) } else { last_value(s, x) } by {
        lemma_last_value_unique(s, x);
        lemma_last_value_unique(t, x);
        match index_of_key(s, k) {
            Some(m) => {
                assert(t[m] == (k, v));
                assert(t.contains((k, v)));
                if x != k {
                    match last_value(s, x) {
                        Some(w) => {
                            let j = choose|j: int| 0 <= j < s.len() && s[j] == (x, w);
                            assert(j != m);
                            assert(t[j] == s[j]);
                            assert(t.contains((x, w)));
                        },
                        None => {
                            assert forall|j: int| 0 <= j < t.len() implies t[j].0 != x by {
                                if j != m {
                                    assert(t[j] == s[j]);
                                }
                            }
                        },
                    }
                }
            },
            None => {
                assert(t[s.len() as int] == (k, v));
                assert(t.contains((k, v)));
                if x != k {
                    assert(t.drop_last() =~= s);
                }
            },
        }
    }
}

impl ImportMap {
/// The import map of the modules of `import_roots`: each module is named by its root's name and
/// its path, and its address is under the root's directory at `base_url`, keyed by its
/// contents. A later module with the name of an earlier one takes its place; the entries come
/// ordered by name.
pub fn generate(base_url: String, import_roots: &[ImportRoot]) -> (import_map: ImportMap)
    ensures
        keys_unique(import_entries(import_map.imports)),
        sorted_by_key(import_entries(import_map.imports)),
        forall|k: Seq<char>|
            last_value(import_entries(import_map.imports), k) == last_value(
                module_entries(base_url@, import_roots@),
                k,
            ),
{
    let mut imports = new_imports();
    let ghost roots = import_roots@;
    let mut r: usize = 0;
    while r < import_roots.len()
        invariant
            r <= roots.len(),
            roots == import_roots@,
            keys_unique(import_entries(imports)),
            forall|k: Seq<char>|
                last_value(import_entries(imports), k) == last_value(module_entries(base_url@, roots.take(r as int)), k),
        decreases roots.len() - r,
    {
        let root = &import_roots[r];
        let mut root_url = base_url.clone();
        root_url.push_str("/");
        root_url.push_str(root.path.as_str());
        let mut static_urls = StaticUrls::new(root.path.clone(), root_url);
        let ghost done = module_entries(base_url@, roots.take(r as int));
        let ghost mine = root.modules@.map_values(|m: ModuleFile| module_entry(base_url@, *root, m));
        proof {
            assert(roots.take(r + 1).drop_last() =~= roots.take(r as int));
            assert(roots.take(r + 1).last() == *root);
            assert(module_entries(base_url@, roots.take(r + 1)) == done + mine);
        }
        let mut i: usize = 0;
        while i < root.modules.len()
            invariant
                i <= root.modules@.len(),
                roots == import_roots@,
                r < roots.len(),
                *root == roots[r as int],
                mine == root.modules@.map_values(|m: ModuleFile| module_entry(base_url@, *root, m)),
                static_urls.base_url@ == base_url@ + "/"@ + root.path@,
                keys_unique(import_entries(imports)),
                forall|k: Seq<char>| last_value(import_entries(imports), k) == last_value(done + mine.take(i as int), k),
            decreases root.modules@.len() - i,
        {
            let module = &root.modules[i];
            let url = static_urls.url_of(module.path.as_str(), module.contents.as_slice());
            let mut key = root.name.clone();
            key.push_str("/");
            key.push_str(module.path.as_str());
            let ghost before = import_entries(imports);
            proof {
                assert(mine[i as int] == module_entry(base_url@, *root, *module));
            }
            insert_import(&mut imports, key, url);
            proof {
                lemma_insert_entry(before, import_entries(imports), key@, url@);
                let next = done + mine.take(i + 1);
                assert(next.drop_last() =~= done + mine.take(i as int));
                assert(next.last() == (key@, url@));
            }
            i = i + 1;
        }
        proof {
            assert(mine.take(i as int) =~= mine);
        }
        r = r + 1;
    }
    proof {
        assert(roots.take(r as int) =~= roots);
    }
    let ghost unsorted = import_entries(imports);
    sort_imports(&mut imports);
    proof {
        assert forall|k: Seq<char>|
            last_value(import_entries(imports), k) == last_value(module_entries(base_url@, import_roots@), k) by {
            lemma_same_entries_same_values(import_entries(imports), unsorted, k);
        }
    }
    ImportMap { imports }
}
}

} // verus!
