use vstd::prelude::*;
use super::{Source, ReadOutcome};
use crate::assoc::{lookup_entries, lemma_lookup_at, lemma_lookup_none, lemma_lookup_push};
use crate::chars::{join_path, join_spec, str_eq};
use crate::error::{Error, ErrorKind, errv};

verus! {

/// Source for retrieving files from memory: a map from file name to
/// content, filled up front. Registration rejects duplicate names, so
/// each name decides its content.
pub struct Mem {
    files: Vec<(String, String)>,
}

impl Mem {
    pub closed spec fn entries(&self) -> Seq<(Seq<char>, Seq<char>)> {
        Seq::new(self.files@.len(), |i: int| (self.files@[i].0@, self.files@[i].1@))
    }

    /// The registered files, as a map from name to content.
    pub open spec fn files_map(&self) -> Map<Seq<char>, Seq<char>> {
        Map::new(
            |k: Seq<char>| lookup_entries(self.entries(), k) is Some,
            |k: Seq<char>| lookup_entries(self.entries(), k)->0,
        )
    }

    pub fn new() -> (r: Mem)
        ensures
            r.files_map() == Map::<Seq<char>, Seq<char>>::empty(),
    {
        let r = Mem { files: Vec::new() };
        proof {
            assert(r.entries() =~= Seq::<(Seq<char>, Seq<char>)>::empty());
            assert(r.files_map() =~= Map::<Seq<char>, Seq<char>>::empty());
        }
        r
    }

    pub fn builder() -> (r: MemBuilder)
        ensures
            r.source_spec().files_map() == Map::<Seq<char>, Seq<char>>::empty(),
    {
        MemBuilder { source: Mem::new() }
    }

    /// Index of the first entry holding `name`, if any.
    fn find(&self, name: &str) -> (r: Option<usize>)
        ensures
            match r {
                Some(i) => self.files_map().contains_key(name@) && i < self.entries().len()
                    && self.entries()[i as int].1 == self.files_map()[name@],
                None => !self.files_map().contains_key(name@),
            },
    {
        let n = self.files.len();
        let mut i: usize = 0;
        while i < n
            invariant
                0 <= i <= n,
                n == self.files@.len(),
                forall|j: int| 0 <= j < i ==> (#[trigger] self.entries()[j]).0 != name@,
            decreases n - i,
        {
            if str_eq(self.files[i].0.as_str(), name) {
                proof {
                    lemma_lookup_at(self.entries(), name@, i as int);
                }
                return Some(i);
            }
            i += 1;
        }
        proof {
            lemma_lookup_none(self.entries(), name@);
        }
        None
    }

    /// Registers a file; a second registration under the same name fails
    /// with `AlreadyExists` and changes nothing.
    pub fn add_file(&mut self, name: &str, data: String) -> (r: Result<(), Error>)
        ensures
            old(self).files_map().contains_key(name@) ==> (r matches Err(e) && e@ == errv(
                ErrorKind::AlreadyExists,
            ) && final(self).files_map() == old(self).files_map()),
            !old(self).files_map().contains_key(name@) ==> r is Ok && final(self).files_map()
                == old(self).files_map().insert(name@, data@),
    {
        match self.find(name) {
            Some(_) => Err(Error::new(ErrorKind::AlreadyExists)),
            None => {
                let ghost before = self.entries();
                let ghost dataview = data@;
                self.files.push((name.to_owned(), data));
                proof {
                    assert(self.entries() =~= before.push((name@, dataview)));
                    let newmap = self.files_map();
                    let oldins = old(self).files_map().insert(name@, dataview);
                    assert forall|k: Seq<char>| #[trigger] newmap.dom().contains(k)
                        == oldins.dom().contains(k) by {
                        lemma_lookup_push(before, (name@, dataview), k);
                    }
                    assert forall|k: Seq<char>| newmap.dom().contains(k) implies newmap[k]
                        == oldins[k] by {
                        lemma_lookup_push(before, (name@, dataview), k);
                    }
                    assert(newmap.dom() =~= oldins.dom());
                    assert(newmap =~= oldins);
                }
                Ok(())
            },
        }
    }
}

/// Builder for `Mem`, adding one file at a time.
pub struct MemBuilder {
    source: Mem,
}

impl MemBuilder {
    pub closed spec fn source_spec(&self) -> Mem {
        self.source
    }

    /// Registers a file; a duplicate name fails with `AlreadyExists`.
    pub fn add_file(self, name: &str, data: String) -> (r: Result<MemBuilder, Error>)
        ensures
            builder_add_spec(self.source_spec(), name@, data@, r),
    {
        let MemBuilder { mut source } = self;
        match source.add_file(name, data) {
            Ok(()) => Ok(MemBuilder { source }),
            Err(e) => Err(e),
        }
    }

    pub fn build(self) -> (r: Mem)
        ensures
            r == self.source_spec(),
    {
        self.source
    }
}

/// What `MemBuilder::add_file` yields: the grown source, or the
/// `AlreadyExists` failure with the builder dropped.
pub open spec fn builder_add_spec(
    m: Mem,
    name: Seq<char>,
    data: Seq<char>,
    r: Result<MemBuilder, Error>,
) -> bool {
    if m.files_map().contains_key(name) {
        match r {
            Ok(_) => false,
            Err(e) => e@ == errv(ErrorKind::AlreadyExists),
        }
    } else {
        match r {
            Ok(b) => b.source_spec().files_map() == m.files_map().insert(name, data),
            Err(_) => false,
        }
    }
}

impl Source for Mem {
    /// A quoted inclusion looks first under the parent file's directory,
    /// then under the bare name; an angle inclusion only under the bare
    /// name.
    open spec fn read_model(&self, path: Seq<char>, dir: Option<Seq<char>>) -> ReadOutcome {
        let joined_hit = match dir {
            Some(d) => self.files_map().contains_key(join_spec(d, path)),
            None => false,
        };
        if joined_hit {
            let j = join_spec(dir->0, path);
            ReadOutcome::Found { path: j, text: self.files_map()[j] }
        } else if self.files_map().contains_key(path) {
            ReadOutcome::Found { path, text: self.files_map()[path] }
        } else {
            ReadOutcome::Absent
        }
    }

    fn read(&self, path: &str, dir: Option<&str>) -> (r: Result<(String, String), Error>) {
        if let Some(d) = dir {
            let joined = join_path(d, path);
            if let Some(i) = self.find(joined.as_str()) {
                let text = self.files[i].1.clone();
                proof {
                    assert(self.entries()[i as int].1 == self.files@[i as int].1@);
                }
                return Ok((joined, text));
            }
        }
        if let Some(i) = self.find(path) {
            let text = self.files[i].1.clone();
            proof {
                assert(self.entries()[i as int].1 == self.files@[i as int].1@);
            }
            return Ok((path.to_owned(), text));
        }
        Err(Error::new(ErrorKind::NotFound))
    }
}

} // verus!
