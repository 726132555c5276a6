use vstd::prelude::*;
use crate::assoc::{
    lookup_entries, lemma_lookup_at, lemma_lookup_none, lemma_lookup_push, lemma_lookup_update,
};
use crate::chars::str_eq;
use crate::error::{Error, ErrorKind, errv};
use crate::model::{RRes, bumped, resolve_model};
use crate::node::{Node, node_wf, node_flat, node_orig};
use crate::source::Source;

verus! {

/// One occurrence record: how often a file has been read during the
/// parses this cache has lived through.
pub struct FileCacheEntry {
    pub occured: usize,
}

impl FileCacheEntry {
    pub fn new() -> (r: FileCacheEntry)
        ensures
            r.occured == 1,
    {
        FileCacheEntry { occured: 1 }
    }
}

/// Occurrence cache: a map from canonical file name to how many times
/// that file has been read.
pub struct FileCache {
    entries: Vec<(String, FileCacheEntry)>,
}

impl FileCache {
    pub closed spec fn entries_spec(&self) -> Seq<(Seq<char>, int)> {
        Seq::new(
            self.entries@.len(),
            |i: int| (self.entries@[i].0@, self.entries@[i].1.occured as int),
        )
    }

    /// The counts, as a map from canonical name to occurrence count.
    pub open spec fn occ_map(&self) -> Map<Seq<char>, int> {
        Map::new(
            |k: Seq<char>| lookup_entries(self.entries_spec(), k) is Some,
            |k: Seq<char>| lookup_entries(self.entries_spec(), k)->0,
        )
    }

    pub fn new() -> (r: FileCache)
        ensures
            r.occ_map() == Map::<Seq<char>, int>::empty(),
    {
        let r = FileCache { entries: Vec::new() };
        proof {
            assert(r.entries_spec() =~= Seq::<(Seq<char>, int)>::empty());
            assert(r.occ_map() =~= Map::<Seq<char>, int>::empty());
        }
        r
    }

    /// Moves the cache out, leaving an empty one behind.
    pub(crate) fn take(&mut self) -> (r: FileCache)
        ensures
            r.occ_map() == old(self).occ_map(),
    {
        let mut tmp = FileCache::new();
        core::mem::swap(&mut tmp, self);
        tmp
    }

    fn find(&self, name: &str) -> (r: Option<usize>)
        ensures
            match r {
                Some(i) => self.occ_map().contains_key(name@) && i < self.entries@.len()
                    && self.entries_spec()[i as int].0 == name@ && self.entries_spec()[
                    i as int].1 == self.occ_map()[name@] && (forall|j: int|
                    0 <= j < i ==> (#[trigger] self.entries_spec()[j]).0 != name@),
                None => !self.occ_map().contains_key(name@),
            },
    {
        let n = self.entries.len();
        let mut i: usize = 0;
        while i < n
            invariant
                0 <= i <= n,
                n == self.entries@.len(),
                forall|j: int| 0 <= j < i ==> (#[trigger] self.entries_spec()[j]).0 != name@,
            decreases n - i,
        {
            if str_eq(self.entries[i].0.as_str(), name) {
                proof {
                    lemma_lookup_at(self.entries_spec(), name@, i as int);
                }
                return Some(i);
            }
            i += 1;
        }
        proof {
            lemma_lookup_none(self.entries_spec(), name@);
        }
        None
    }

    /// How often the file has been read; `None` when it never was.
    pub fn count(&self, name: &str) -> (r: Option<usize>)
        ensures
            match r {
                Some(c) => self.occ_map().contains_key(name@) && c == self.occ_map()[name@],
                None => !self.occ_map().contains_key(name@),
            },
    {
        match self.find(name) {
            Some(i) => Some(self.entries[i].1.occured),
            None => None,
        }
    }

    /// Records one more read of the file: a first read starts the count
    /// at one, any further read raises it, saturating at the machine's
    /// limit.
    pub(crate) fn bump(&mut self, name: &str)
        ensures
            final(self).occ_map() == bumped(old(self).occ_map(), name@),
    {
        let ghost before = self.entries_spec();
        match self.find(name) {
            Some(i) => {
                let c = self.entries[i].1.occured;
                let c2 = if c < usize::MAX {
                    c + 1
                } else {
                    c
                };
                let key = self.entries[i].0.clone();
                self.entries.set(i, (key, FileCacheEntry { occured: c2 }));
                proof {
                    assert(self.entries_spec() =~= before.update(
                        i as int,
                        (name@, c2 as int),
                    ));
                    assert(before[i as int].0 == name@);
                    let newmap = self.occ_map();
                    let target = bumped(old(self).occ_map(), name@);
                    assert forall|k: Seq<char>| #[trigger] newmap.dom().contains(k)
                        == target.dom().contains(k) by {
                        lemma_lookup_update(before, i as int, c2 as int, k);
                    }
                    assert forall|k: Seq<char>| newmap.dom().contains(k) implies newmap[k]
                        == target[k] by {
                        lemma_lookup_update(before, i as int, c2 as int, k);
                    }
                    assert(newmap.dom() =~= target.dom());
                    assert(newmap =~= target);
                }
            },
            None => {
                self.entries.push((name.to_owned(), FileCacheEntry::new()));
                proof {
                    assert(self.entries_spec() =~= before.push((name@, 1int)));
                    let newmap = self.occ_map();
                    let target = bumped(old(self).occ_map(), name@);
                    assert forall|k: Seq<char>| #[trigger] newmap.dom().contains(k)
                        == target.dom().contains(k) by {
                        lemma_lookup_push(before, (name@, 1int), k);
                    }
                    assert forall|k: Seq<char>| newmap.dom().contains(k) implies newmap[k]
                        == target[k] by {
                        lemma_lookup_push(before, (name@, 1int), k);
                    }
                    assert(newmap.dom() =~= target.dom());
                    assert(newmap =~= target);
                }
            },
        }
    }
}

/// The flag set: an immutable mapping from macro name to truth value,
/// fixed before a parse begins. A name that is absent is neither true
/// nor false but unknown.
pub struct Flags {
    entries: Vec<(String, bool)>,
}

impl Flags {
    pub closed spec fn entries_spec(&self) -> Seq<(Seq<char>, bool)> {
        Seq::new(self.entries@.len(), |i: int| (self.entries@[i].0@, self.entries@[i].1))
    }

    /// The known flags, as a map from name to value.
    pub open spec fn flags_map(&self) -> Map<Seq<char>, bool> {
        Map::new(
            |k: Seq<char>| lookup_entries(self.entries_spec(), k) is Some,
            |k: Seq<char>| lookup_entries(self.entries_spec(), k)->0,
        )
    }

    pub fn new() -> (r: Flags)
        ensures
            r.flags_map() == Map::<Seq<char>, bool>::empty(),
    {
        let r = Flags { entries: Vec::new() };
        proof {
            assert(r.entries_spec() =~= Seq::<(Seq<char>, bool)>::empty());
            assert(r.flags_map() =~= Map::<Seq<char>, bool>::empty());
        }
        r
    }

    fn find(&self, name: &str) -> (r: Option<usize>)
        ensures
            match r {
                Some(i) => self.flags_map().contains_key(name@) && i < self.entries@.len()
                    && self.entries_spec()[i as int].0 == name@ && self.entries_spec()[
                    i as int].1 == self.flags_map()[name@] && (forall|j: int|
                    0 <= j < i ==> (#[trigger] self.entries_spec()[j]).0 != name@),
                None => !self.flags_map().contains_key(name@),
            },
    {
        let n = self.entries.len();
        let mut i: usize = 0;
        while i < n
            invariant
                0 <= i <= n,
                n == self.entries@.len(),
                forall|j: int| 0 <= j < i ==> (#[trigger] self.entries_spec()[j]).0 != name@,
            decreases n - i,
        {
            if str_eq(self.entries[i].0.as_str(), name) {
                proof {
                    lemma_lookup_at(self.entries_spec(), name@, i as int);
                }
                return Some(i);
            }
            i += 1;
        }
        proof {
            lemma_lookup_none(self.entries_spec(), name@);
        }
        None
    }

    /// The flag's value, or `None` for an unknown name.
    pub fn get(&self, name: &str) -> (r: Option<bool>)
        ensures
            match r {
                Some(v) => self.flags_map().contains_key(name@) && v == self.flags_map()[name@],
                None => !self.flags_map().contains_key(name@),
            },
    {
        match self.find(name) {
            Some(i) => Some(self.entries[i].1),
            None => None,
        }
    }

    /// Sets a flag, overriding any earlier value under the same name.
    pub fn set(&mut self, name: String, value: bool)
        ensures
            final(self).flags_map() == old(self).flags_map().insert(name@, value),
    {
        let ghost before = self.entries_spec();
        let ghost nameview = name@;
        match self.find(name.as_str()) {
            Some(i) => {
                let key = self.entries[i].0.clone();
                self.entries.set(i, (key, value));
                proof {
                    assert(self.entries_spec() =~= before.update(
                        i as int,
                        (nameview, value),
                    ));
                    assert(before[i as int].0 == nameview);
                    let newmap = self.flags_map();
                    let target = old(self).flags_map().insert(nameview, value);
                    assert forall|k: Seq<char>| #[trigger] newmap.dom().contains(k)
                        == target.dom().contains(k) by {
                        lemma_lookup_update(before, i as int, value, k);
                    }
                    assert forall|k: Seq<char>| newmap.dom().contains(k) implies newmap[k]
                        == target[k] by {
                        lemma_lookup_update(before, i as int, value, k);
                    }
                    assert(newmap.dom() =~= target.dom());
                    assert(newmap =~= target);
                }
            },
            None => {
                self.entries.push((name, value));
                proof {
                    assert(self.entries_spec() =~= before.push((nameview, value)));
                    let newmap = self.flags_map();
                    let target = old(self).flags_map().insert(nameview, value);
                    assert forall|k: Seq<char>| #[trigger] newmap.dom().contains(k)
                        == target.dom().contains(k) by {
                        lemma_lookup_push(before, (nameview, value), k);
                    }
                    assert forall|k: Seq<char>| newmap.dom().contains(k) implies newmap[k]
                        == target[k] by {
                        lemma_lookup_push(before, (nameview, value), k);
                    }
                    assert(newmap.dom() =~= target.dom());
                    assert(newmap =~= target);
                }
            },
        }
    }
}

/// Reads and parses source files and resolves their inclusions, keeping
/// one occurrence cache across its parses.
pub struct Parser<S: Source> {
    source: S,
    flags: Flags,
    file_cache: FileCache,
}

/// Builder for a `Parser`: sources are tried in registration order, and
/// flags accumulate with a later value overriding an earlier one.
pub struct ParserBuilder<S: Source> {
    sources: Vec<S>,
    flags: Flags,
}

impl<S: Source> ParserBuilder<S> {
    pub fn new() -> (r: ParserBuilder<S>)
        ensures
            r.sources_spec() == Seq::<S>::empty(),
            r.flags_spec() == Map::<Seq<char>, bool>::empty(),
    {
        ParserBuilder { sources: Vec::new(), flags: Flags::new() }
    }

    pub closed spec fn sources_spec(&self) -> Seq<S> {
        self.sources@
    }

    pub closed spec fn flags_spec(&self) -> Map<Seq<char>, bool> {
        self.flags.flags_map()
    }

    pub fn add_source(self, source: S) -> (r: ParserBuilder<S>)
        ensures
            r.sources_spec() == self.sources_spec().push(source),
            r.flags_spec() == self.flags_spec(),
    {
        let ParserBuilder { mut sources, flags } = self;
        sources.push(source);
        ParserBuilder { sources, flags }
    }

    pub fn add_flag(self, name: String, value: bool) -> (r: ParserBuilder<S>)
        ensures
            r.sources_spec() == self.sources_spec(),
            r.flags_spec() == self.flags_spec().insert(name@, value),
    {
        let ParserBuilder { sources, mut flags } = self;
        flags.set(name, value);
        ParserBuilder { sources, flags }
    }

    pub fn build(self) -> (r: Parser<Vec<S>>)
        ensures
            r.source_spec()@ == self.sources_spec(),
            r.flags_map() == self.flags_spec(),
            r.occ_map() == Map::<Seq<char>, int>::empty(),
    {
        let ParserBuilder { sources, flags } = self;
        Parser::new(sources, flags)
    }
}

impl<S: Source> Parser<Vec<S>> {
    pub fn builder() -> (r: ParserBuilder<S>)
        ensures
            r.sources_spec() == Seq::<S>::empty(),
            r.flags_spec() == Map::<Seq<char>, bool>::empty(),
    {
        ParserBuilder::new()
    }
}

impl<S: Source> Parser<S> {
    pub closed spec fn source_spec(&self) -> S {
        self.source
    }

    pub closed spec fn flags_map(&self) -> Map<Seq<char>, bool> {
        self.flags.flags_map()
    }

    pub closed spec fn occ_map(&self) -> Map<Seq<char>, int> {
        self.file_cache.occ_map()
    }

    pub fn new(source: S, flags: Flags) -> (r: Parser<S>)
        ensures
            r.source_spec() == source,
            r.flags_map() == flags.flags_map(),
            r.occ_map() == Map::<Seq<char>, int>::empty(),
    {
        Parser { source, flags, file_cache: FileCache::new() }
    }

    /// Reads and parses source files and resolves their inclusions.
    ///
    /// Returns the node tree, which `collect` flattens into the
    /// resulting text and its index. The result is exactly what the
    /// resolution model prescribes for this source, flag set and
    /// occurrence history; a root that a repeated `#pragma once`
    /// discards is reported as not found.
    pub fn parse(&mut self, main: &str) -> (r: Result<Node, Error>)
        ensures
            final(self).source_spec() == old(self).source_spec(),
            final(self).flags_map() == old(self).flags_map(),
            ({
                let m = resolve_model(
                    &old(self).source_spec(),
                    old(self).flags_map(),
                    main@,
                    None::<Seq<char>>,
                    old(self).occ_map(),
                    Seq::empty(),
                    u64::MAX as nat,
                );
                match r {
                    Ok(node) => m matches RRes::RDone { name, out, orig, slots, occ }
                        && node_wf(node) && node.name_spec() == name && node_flat(node) == out
                        && node_orig(node) == orig && node.lines_spec().len() == slots && final(self).occ_map() == occ,
                    Err(e) => match m {
                        RRes::RDone { .. } => false,
                        RRes::RSkip { occ } => e@ == errv(ErrorKind::NotFound) && final(self).occ_map() == occ,
                        RRes::RFail { err, occ } => e@ == err && final(self).occ_map() == occ,
                    },
                }
            }),
    {
        let cache = self.file_cache.take();
        let mut context = super::context::Context::new(&self.source, &self.flags, cache);
        let res = context.build_tree(main, None, u64::MAX);
        self.file_cache = context.into_cache();
        match res {
            Ok(Some(node)) => Ok(node),
            Ok(None) => Err(Error::new(ErrorKind::NotFound)),
            Err(e) => Err(e),
        }
    }
}

} // verus!
