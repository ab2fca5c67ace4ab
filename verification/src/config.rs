//! The site configuration that the renderers read: the site's address and the maps from
//! names to links, pictures and emoji.
use vstd::prelude::*;
use vstd::string::*;

use crate::text::{chars_of, str_equal};

verus! {

/// A map from names to strings, kept as a list of entries; the first entry with a name is the
/// one that counts.
#[derive(Debug, Clone)]
pub struct StringMap {
    pub entries: Vec<(String, String)>,
}

/// What the first entry with key `key` among `entries` holds.
pub open spec fn lookup(entries: Seq<(String, String)>, key: Seq<char>) -> Option<Seq<char>>
    decreases entries.len(),
{
    if entries.len() == 0 {
        None
    } else if entries[0].0@ == key {
        Some(entries[0].1@)
    } else {
        lookup(entries.drop_first(), key)
    }
}

impl StringMap {
    pub open spec fn get_spec(&self, key: Seq<char>) -> Option<Seq<char>> {
        lookup(self.entries@, key)
    }

    /// An empty map.
    pub fn new() -> (m: Self)
        ensures
            forall|k: Seq<char>| m.get_spec(k) is None,
    {
        StringMap { entries: Vec::new() }
    }

    /// The value under `key`.
    pub fn get(&self, key: &str) -> (r: Option<&String>)
        ensures
            match self.get_spec(key@) {
                Some(v) => r matches Some(s) && s@ == v,
                None => r is None,
            },
    {
        let mut i: usize = 0;
        assert(self.entries@.subrange(0, self.entries@.len() as int) =~= self.entries@);
        while i < self.entries.len()
            invariant
                i <= self.entries@.len(),
                lookup(self.entries@.subrange(i as int, self.entries@.len() as int), key@) == lookup(
                    self.entries@,
                    key@,
                ),
            decreases self.entries@.len() - i,
        {
            let ghost rest = self.entries@.subrange(i as int, self.entries@.len() as int);
            assert(rest.drop_first() =~= self.entries@.subrange(i + 1, self.entries@.len() as int));
            if str_equal(self.entries[i].0.as_str(), key) {
                return Some(&self.entries[i].1);
            }
            i = i + 1;
        }
        None
    }

    /// Whether `key` has a value.
    pub fn contains_key(&self, key: &str) -> (r: bool)
        ensures
            r == self.get_spec(key@) is Some,
    {
        self.get(key).is_some()
    }

    /// Gives `key` the value `value`, unless it has one already.
    pub fn insert_if_absent(&mut self, key: String, value: String)
        ensures
            old(self).get_spec(key@) is Some ==> final(self).get_spec(key@) == old(self).get_spec(key@),
            old(self).get_spec(key@) is None ==> final(self).get_spec(key@) == Some(value@),
            forall|k: Seq<char>| k != key@ ==> final(self).get_spec(k) == old(self).get_spec(k),
    {
        if !self.contains_key(key.as_str()) {
            let ghost old_entries = self.entries@;
            self.entries.push((key, value));
            proof {
                lemma_lookup_push(old_entries, (key, value));
            }
        }
    }
}

proof fn lemma_lookup_push(entries: Seq<(String, String)>, e: (String, String))
    ensures
        forall|k: Seq<char>|
            #![trigger lookup(entries.push(e), k)]
            lookup(entries.push(e), k) == (if lookup(entries, k) is Some {
                lookup(entries, k)
            } else if e.0@ == k {
                Some(e.1@)
            } else {
                None
            }),
    decreases entries.len(),
{
    if entries.len() > 0 {
        lemma_lookup_push(entries.drop_first(), e);
        assert(entries.push(e).drop_first() =~= entries.drop_first().push(e));
        assert forall|k: Seq<char>| #[trigger] lookup(entries.push(e), k) == (if lookup(entries, k) is Some {
            lookup(entries, k)
        } else if e.0@ == k {
            Some(e.1@)
        } else {
            None
        }) by {
            assert(lookup(entries.drop_first().push(e), k) == lookup(entries.drop_first().push(e), k));
        }
    } else {
        assert(entries.push(e).drop_first() =~= Seq::<(String, String)>::empty());
        assert(entries.push(e)[0] == e);
        assert forall|k: Seq<char>| #[trigger] lookup(entries.push(e), k) == (if lookup(entries, k) is Some {
            lookup(entries, k)
        } else if e.0@ == k {
            Some(e.1@)
        } else {
            None
        }) by {
            assert(lookup(Seq::<(String, String)>::empty(), k) is None);
        }
    }
}

/// The markup language that branches are written in.
#[derive(Debug, Clone, Copy, PartialEq, Eq, Structural)]
pub enum Markup {
    Markdown,
    Djot,
}

/// The parts of the site configuration that rendering needs.
#[derive(Debug, Clone)]
pub struct Config {
    /// Website root; used when generating links.
    pub site: String,
    /// User-defined keys.
    pub user: StringMap,
    /// Links for the reference syntax `[text][def:key]`.
    pub defs: StringMap,
    /// Page redirects: from a page to the page that replaced it.
    pub redirects: StringMap,
    /// Emoji names and their files.
    pub emoji: StringMap,
    /// Picture ids and their files.
    pub pics: StringMap,
    /// The markup language of branches.
    pub markup: Markup,
}

impl Config {
    /// The address of page `page`.
    pub open spec fn page_url_spec(&self, page: Seq<char>) -> Seq<char> {
        self.site@ + "/"@ + page
    }

    /// The address of picture `id`, or of the missing-picture image when there is none.
    pub open spec fn pic_url_spec(&self, id: Seq<char>) -> Seq<char> {
        self.site@ + "/static/pic/"@ + match self.pics.get_spec(id) {
            Some(file) => file,
            None => "404.png"@,
        }
    }

    pub fn page_url(&self, page: &str) -> (url: String)
        ensures
            url@ == self.page_url_spec(page@),
    {
        let mut url = self.site.clone();
        url.push_str("/");
        url.push_str(page);
        url
    }

    pub fn pic_url(&self, id: &str) -> (url: String)
        ensures
            url@ == self.pic_url_spec(id@),
    {
        let mut url = self.site.clone();
        url.push_str("/static/pic/");
        match self.pics.get(id) {
            Some(file) => url.push_str(file.as_str()),
            None => url.push_str("404.png"),
        }
        url
    }
}

/// The id of a picture, from its file name without the extension: the part before the first
/// `-`, or all of it.
pub open spec fn pic_id(stem: Seq<char>) -> Seq<char>
    decreases stem.len(),
{
    if stem.len() == 0 {
        Seq::empty()
    } else if stem[0] == '-' {
        Seq::empty()
    } else {
        seq![stem[0]] + pic_id(stem.drop_first())
    }
}

/// Whether a file with the extension `extension` is an emoji.
pub open spec fn is_emoji_extension(extension: Option<Seq<char>>) -> bool {
    extension == Some("png"@) || extension == Some("svg"@)
}

/// Whether a file with the extension `extension` is a picture.
pub open spec fn is_pic_extension(extension: Option<Seq<char>>) -> bool {
    ||| extension == Some("png"@)
    ||| extension == Some("svg"@)
    ||| extension == Some("jpg"@)
    ||| extension == Some("jpeg"@)
    ||| extension == Some("webp"@)
}

/// Whether `extension` is one of `names`.
fn extension_in(extension: &str, names: &[&str]) -> (r: bool)
    ensures
        r == exists|j: int| 0 <= j < names@.len() && names@[j]@ == extension@,
{
    let mut j: usize = 0;
    while j < names.len()
        invariant
            j <= names@.len(),
            forall|k: int| 0 <= k < j ==> names@[k]@ != extension@,
        decreases names@.len() - j,
    {
        if str_equal(names[j], extension) {
            assert(names@[j as int]@ == extension@);
            return true;
        }
        j = j + 1;
    }
    false
}

impl Config {
    /// Whether a file with the extension `extension` is an emoji.
    pub fn is_emoji_file(extension: Option<&str>) -> (r: bool)
        ensures
            r == is_emoji_extension(
                match extension {
                    Some(e) => Some(e@),
                    None => None,
                },
            ),
    {
        let names = ["png", "svg"];
        let r = match extension {
            Some(e) => extension_in(e, &names),
            None => false,
        };
        proof {
            if let Some(e) = extension {
                if e@ == "png"@ {
                    assert(names@[0]@ == e@);
                }
                if e@ == "svg"@ {
                    assert(names@[1]@ == e@);
                }
            }
        }
        r
    }

    /// Whether a file with the extension `extension` is a picture.
    pub fn is_pic_file(extension: Option<&str>) -> (r: bool)
        ensures
            r == is_pic_extension(
                match extension {
                    Some(e) => Some(e@),
                    None => None,
                },
            ),
    {
        let names = ["png", "svg", "jpg", "jpeg", "webp"];
        let r = match extension {
            Some(e) => extension_in(e, &names),
            None => false,
        };
        proof {
            if let Some(e) = extension {
                if e@ == "png"@ {
                    assert(names@[0]@ == e@);
                }
                if e@ == "svg"@ {
                    assert(names@[1]@ == e@);
                }
                if e@ == "jpg"@ {
                    assert(names@[2]@ == e@);
                }
                if e@ == "jpeg"@ {
                    assert(names@[3]@ == e@);
                }
                if e@ == "webp"@ {
                    assert(names@[4]@ == e@);
                }
            }
        }
        r
    }

    /// Registers the emoji file `path` under its name `stem`, unless an emoji of that name is
    /// known already.
    pub fn add_emoji(&mut self, stem: &str, path: String)
        ensures
            old(self).emoji.get_spec(stem@) is Some ==> final(self).emoji.get_spec(stem@) == old(self).emoji.get_spec(stem@),
            old(self).emoji.get_spec(stem@) is None ==> final(self).emoji.get_spec(stem@) == Some(path@),
            forall|k: Seq<char>| k != stem@ ==> final(self).emoji.get_spec(k) == old(self).emoji.get_spec(k),
            final(self).site == old(self).site,
            final(self).pics == old(self).pics,
            final(self).defs == old(self).defs,
    {
        self.emoji.insert_if_absent(stem.to_owned(), path);
    }

    /// Registers the picture file `path`, whose file name without the extension is `stem`,
    /// under its id, unless a picture with that id is known already.
    pub fn add_pic(&mut self, stem: &str, path: String)
        ensures
            old(self).pics.get_spec(pic_id(stem@)) is Some ==> final(self).pics.get_spec(pic_id(stem@))
                == old(self).pics.get_spec(pic_id(stem@)),
            old(self).pics.get_spec(pic_id(stem@)) is None ==> final(self).pics.get_spec(pic_id(stem@))
                == Some(path@),
            forall|k: Seq<char>| k != pic_id(stem@) ==> final(self).pics.get_spec(k) == old(self).pics.get_spec(k),
            final(self).site == old(self).site,
            final(self).emoji == old(self).emoji,
            final(self).defs == old(self).defs,
    {
        let id = pic_id_of(stem);
        self.pics.insert_if_absent(id, path);
    }
}

/// The id of a picture, from its file name without the extension.
pub fn pic_id_of(stem: &str) -> (id: String)
    ensures
        id@ == pic_id(stem@),
{
    let chars = chars_of(stem);
    let mut id = String::new();
    let mut i: usize = 0;
    proof {
        assert(stem@.skip(0) =~= stem@);
        assert(id@ + pic_id(stem@) =~= pic_id(stem@));
    }
    while i < chars.len() && chars[i] != '-'
        invariant
            i <= chars@.len(),
            chars@ == stem@,
            pic_id(stem@) == id@ + pic_id(stem@.skip(i as int)),
        decreases chars@.len() - i,
    {
        proof {
            assert(stem@.skip(i as int).drop_first() =~= stem@.skip(i + 1));
            assert(id@.push(chars@[i as int]) =~= id@ + seq![chars@[i as int]]);
        }
        id.push(chars[i]);
        i = i + 1;
    }
    proof {
        assert(id@ + pic_id(stem@.skip(i as int)) =~= id@);
    }
    id
}

} // verus!
