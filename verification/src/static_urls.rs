//! Addresses of static files that change whenever the files do: the file's address with the
//! start of its BLAKE3 hash as a cache key, remembered per file.
use vstd::prelude::*;

use crate::name_map::NameMap;

verus! {

/// The BLAKE3 hash of `bytes`, in lowercase hexadecimal.
pub uninterp spec fn blake3_hex(bytes: Seq<u8>) -> Seq<char>;

/// `blake3::hash(bytes).to_hex()`: the 64 lowercase hexadecimal digits of the BLAKE3 hash of
/// `bytes`.
#[verifier::external_body]
fn hash_hex(bytes: &[u8]) -> (h: String)
    ensures
        h@ == blake3_hex(bytes@),
        h@.len() == 64,
{
    blake3::hash(bytes).to_hex().to_string()
}

/// The address of file `filename` under `base_url`, keyed by the first eight digits of the
/// hash of its contents.
pub open spec fn static_url(base_url: Seq<char>, filename: Seq<char>, hash: Seq<char>) -> Seq<char> {
    base_url + "/"@ + filename + "?cache=b3-"@ + hash.take(8)
}

/// The addresses of the static files under a directory.
#[derive(Debug, Clone)]
pub struct StaticUrls {
    /// The directory that the files are read from.
    pub base_dir: String,
    /// The address of that directory.
    pub base_url: String,
    /// The address of each file that was asked for already.
    pub hash_cache: NameMap<String>,
}

impl StaticUrls {
    /// Addresses for the files under `base_dir`, which is at `base_url`.
    pub fn new(base_dir: String, base_url: String) -> (urls: Self)
        ensures
            urls.base_dir == base_dir,
            urls.base_url == base_url,
            forall|k: Seq<char>| urls.hash_cache.get_spec(k) is None,
    {
        StaticUrls { base_dir, base_url, hash_cache: NameMap::new() }
    }

    /// The address of `filename` when it was asked for already.
    pub fn cached(&self, filename: &str) -> (url: Option<String>)
        ensures
            match self.hash_cache.get_spec(filename@) {
                Some(u) => url matches Some(s) && s@ == u@,
                None => url is None,
            },
    {
        match self.hash_cache.get(filename) {
            Some(url) => Some(url.clone()),
            None => None,
        }
    }

    /// The address of `filename`, whose contents are `contents`; it is remembered.
    pub fn url_of(&mut self, filename: &str, contents: &[u8]) -> (url: String)
        ensures
            url@ == static_url(old(self).base_url@, filename@, blake3_hex(contents@)),
            final(self).hash_cache.get_spec(filename@) matches Some(u) && u@ == url@,
            forall|k: Seq<char>|
                k != filename@ ==> final(self).hash_cache.get_spec(k) == old(self).hash_cache.get_spec(k),
            final(self).base_dir == old(self).base_dir,
            final(self).base_url == old(self).base_url,
    {
        let hash = hash_hex(contents);
        let mut url = self.base_url.clone();
        url.push_str("/");
        url.push_str(filename);
        url.push_str("?cache=b3-");
        let mut i: usize = 0;
        let ghost before = url@;
        let digits = crate::text::chars_of(hash.as_str());
        while i < 8
            invariant
                i <= 8,
                digits@ == hash@,
                digits@.len() == 64,
                url@ == before + hash@.take(i as int),
            decreases 8 - i,
        {
            url.push(digits[i]);
            proof {
                assert(hash@.take(i + 1) =~= hash@.take(i as int).push(hash@[i as int]));
            }
            i = i + 1;
        }
        let key = filename.to_owned();
        self.hash_cache.insert(key, url.clone());
        url
    }
}

} // verus!
