use vstd::prelude::*;
use crate::assoc::{lookup_entries, lemma_lookup_at, lemma_lookup_none, lemma_lookup_push};
use crate::chars::str_eq;
use crate::error::{Error, ErrorKind, errv};

verus! {

/// One cached file: its text and how many times it has been asked for.
pub struct CacheEntry {
    pub text: String,
    pub occured: usize,
}

impl CacheEntry {
    fn new(text: String) -> (r: CacheEntry)
        ensures
            r.text == text,
            r.occured == 1,
    {
        CacheEntry { text, occured: 1 }
    }
}

/// A content cache keyed by canonical path: each path is registered once
/// and holds its text beside an occurrence counter.
pub struct Cache {
    map: Vec<(String, CacheEntry)>,
}

impl Cache {
    pub closed spec fn entries(&self) -> Seq<(Seq<char>, (Seq<char>, int))> {
        Seq::new(
            self.map@.len(),
            |i: int| (self.map@[i].0@, (self.map@[i].1.text@, self.map@[i].1.occured as int)),
        )
    }

    /// The cache as a map from path to text and occurrence count.
    pub open spec fn cache_map(&self) -> Map<Seq<char>, (Seq<char>, int)> {
        Map::new(
            |k: Seq<char>| lookup_entries(self.entries(), k) is Some,
            |k: Seq<char>| lookup_entries(self.entries(), k)->0,
        )
    }

    pub fn new() -> (r: Cache)
        ensures
            r.cache_map() == Map::<Seq<char>, (Seq<char>, int)>::empty(),
    {
        let r = Cache { map: Vec::new() };
        proof {
            assert(r.entries() =~= Seq::<(Seq<char>, (Seq<char>, int))>::empty());
            assert(r.cache_map() =~= Map::<Seq<char>, (Seq<char>, int)>::empty());
        }
        r
    }

    fn find(&self, path: &str) -> (r: Option<usize>)
        ensures
            match r {
                Some(i) => self.cache_map().contains_key(path@) && i < self.map@.len()
                    && self.entries()[i as int].0 == path@ && self.entries()[i as int].1
                    == self.cache_map()[path@],
                None => !self.cache_map().contains_key(path@),
            },
    {
        let n = self.map.len();
        let mut i: usize = 0;
        while i < n
            invariant
                0 <= i <= n,
                n == self.map@.len(),
                forall|j: int| 0 <= j < i ==> (#[trigger] self.entries()[j]).0 != path@,
            decreases n - i,
        {
            if str_eq(self.map[i].0.as_str(), path) {
                proof {
                    lemma_lookup_at(self.entries(), path@, i as int);
                }
                return Some(i);
            }
            i += 1;
        }
        proof {
            lemma_lookup_none(self.entries(), path@);
        }
        None
    }

    /// Stores a file's text under its path; a second registration of the
    /// same path fails with `AlreadyExists` and changes nothing.
    pub fn put(&mut self, path: &str, text: String) -> (r: Result<(), Error>)
        ensures
            old(self).cache_map().contains_key(path@) ==> (r matches Err(e) && e@ == errv(
                ErrorKind::AlreadyExists,
            ) && final(self).cache_map() == old(self).cache_map()),
            !old(self).cache_map().contains_key(path@) ==> r is Ok && final(self).cache_map()
                == old(self).cache_map().insert(path@, (text@, 1int)),
    {
        match self.find(path) {
            Some(_) => Err(Error::new(ErrorKind::AlreadyExists)),
            None => {
                let ghost before = self.entries();
                let ghost tv = text@;
                self.map.push((path.to_owned(), CacheEntry::new(text)));
                proof {
                    assert(self.entries() =~= before.push((path@, (tv, 1int))));
                    let newmap = self.cache_map();
                    let target = old(self).cache_map().insert(path@, (tv, 1int));
                    assert forall|k: Seq<char>| #[trigger] newmap.dom().contains(k)
                        == target.dom().contains(k) by {
                        lemma_lookup_push(before, (path@, (tv, 1int)), k);
                    }
                    assert forall|k: Seq<char>| newmap.dom().contains(k) implies newmap[k]
                        == target[k] by {
                        lemma_lookup_push(before, (path@, (tv, 1int)), k);
                    }
                    assert(newmap.dom() =~= target.dom());
                    assert(newmap =~= target);
                }
                Ok(())
            },
        }
    }

    /// The entry stored under the path, if any.
    pub fn get(&self, path: &str) -> (r: Option<&CacheEntry>)
        ensures
            match r {
                Some(e) => self.cache_map().contains_key(path@) && e.text@
                    == self.cache_map()[path@].0 && e.occured == self.cache_map()[path@].1,
                None => !self.cache_map().contains_key(path@),
            },
    {
        match self.find(path) {
            Some(i) => Some(&self.map[i].1),
            None => None,
        }
    }

    /// The entry stored under the path, for updating in place.
    pub fn get_mut(&mut self, path: &str) -> (r: Option<&mut CacheEntry>)
        ensures
            match r {
                Some(e) => old(self).cache_map().contains_key(path@) && (*e).text@ == old(
                    self,
                ).cache_map()[path@].0 && (*e).occured == old(self).cache_map()[path@].1,
                None => !old(self).cache_map().contains_key(path@) && final(self).cache_map()
                    == old(self).cache_map(),
            },
    {
        match self.find(path) {
            Some(i) => Some(&mut self.map[i].1),
            None => None,
        }
    }
}

} // verus!
