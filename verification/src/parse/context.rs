use vstd::prelude::*;
use super::file_context::FileContext;
use super::parser::{FileCache, Flags};
use crate::chars::str_eq;
use crate::error::{Error, ErrorKind, errv};
use crate::model::{RRes, bumped, count_in, resolve_model, scan_model};
use crate::node::{Node, node_wf, node_flat, node_orig};
use crate::source::{Source, ReadOutcome, dir_view};

verus! {

/// The state of one top-level resolution: the source and flag set it
/// reads from, the occurrence cache it counts reads in, and the live
/// stack of files being resolved, for cycle detection.
pub struct Context<'a, S: Source> {
    source: &'a S,
    flags: &'a Flags,
    file_cache: FileCache,
    file_stack: Vec<String>,
}

impl<'a, S: Source> Context<'a, S> {
    pub closed spec fn source_spec(&self) -> S {
        *self.source
    }

    pub closed spec fn flags_map(&self) -> Map<Seq<char>, bool> {
        self.flags.flags_map()
    }

    pub closed spec fn occ_map(&self) -> Map<Seq<char>, int> {
        self.file_cache.occ_map()
    }

    pub closed spec fn stack_view(&self) -> Seq<Seq<char>> {
        Seq::new(self.file_stack@.len(), |i: int| self.file_stack@[i]@)
    }

    pub fn new(source: &'a S, flags: &'a Flags, file_cache: FileCache) -> (r: Self)
        ensures
            r.source_spec() == *source,
            r.flags_map() == flags.flags_map(),
            r.occ_map() == file_cache.occ_map(),
            r.stack_view() == Seq::<Seq<char>>::empty(),
    {
        let r = Context { source, flags, file_cache, file_stack: Vec::new() };
        proof {
            assert(r.stack_view() =~= Seq::<Seq<char>>::empty());
        }
        r
    }

    pub fn flags(&self) -> (r: &'a Flags)
        ensures
            r.flags_map() == self.flags_map(),
    {
        self.flags
    }

    /// Whether the file has been read more than once during the parses
    /// this cache has lived through. The file must have been read at
    /// least once.
    pub fn is_file_occured(&self, path: &str) -> (r: bool)
        requires
            self.occ_map().contains_key(path@),
        ensures
            r == (self.occ_map()[path@] > 1),
    {
        match self.file_cache.count(path) {
            Some(c) => c > 1,
            None => false,
        }
    }

    /// Hands the occurrence cache back when the resolution is over.
    pub(crate) fn into_cache(self) -> (r: FileCache)
        ensures
            r.occ_map() == self.occ_map(),
    {
        self.file_cache
    }

    /// Like `FileCache::count`, for the scanner: no read is presumed.
    pub(crate) fn occurred_more_than_once(&self, path: &str) -> (r: bool)
        ensures
            r == (self.occ_map().contains_key(path@) && self.occ_map()[path@] > 1),
    {
        match self.file_cache.count(path) {
            Some(c) => c > 1,
            None => false,
        }
    }

    fn read_file(&mut self, path: &str, dir: Option<&str>) -> (r: Result<(String, String), Error>)
        ensures
            final(self).source_spec() == old(self).source_spec(),
            final(self).flags_map() == old(self).flags_map(),
            final(self).stack_view() == old(self).stack_view(),
            ({
                let m = old(self).source_spec().read_model(path@, dir_view(dir));
                match r {
                    Ok(p) => (m matches ReadOutcome::Found { path: cp, text } && p.0@ == cp
                        && p.1@ == text) && final(self).occ_map() == bumped(
                        old(self).occ_map(),
                        p.0@,
                    ),
                    Err(e) => (match m {
                        ReadOutcome::Absent => e@ == errv(ErrorKind::NotFound),
                        ReadOutcome::Failed { kind } => e@ == errv(kind),
                        ReadOutcome::Found { .. } => false,
                    }) && final(self).occ_map() == old(self).occ_map(),
                }
            }),
    {
        match self.source.read(path, dir) {
            Ok((cpath, text)) => {
                self.file_cache.bump(cpath.as_str());
                Ok((cpath, text))
            },
            Err(e) => Err(e),
        }
    }

    /// How many times the path already stands on the live stack.
    fn stack_count(&self, path: &str) -> (r: usize)
        ensures
            r == count_in(self.stack_view(), path@),
    {
        let n = self.file_stack.len();
        let mut cnt: usize = 0;
        let mut i: usize = 0;
        proof {
            assert(self.stack_view().take(0) =~= Seq::<Seq<char>>::empty());
        }
        while i < n
            invariant
                0 <= i <= n,
                n == self.file_stack@.len(),
                cnt <= i,
                cnt == count_in(self.stack_view().take(i as int), path@),
            decreases n - i,
        {
            proof {
                assert(self.stack_view().take(i + 1).drop_last() =~= self.stack_view().take(
                    i as int,
                ));
                assert(self.stack_view().take(i + 1).last() == self.stack_view()[i as int]);
            }
            if str_eq(self.file_stack[i].as_str(), path) {
                cnt += 1;
            }
            i += 1;
        }
        proof {
            assert(self.stack_view().take(n as int) =~= self.stack_view());
        }
        cnt
    }

    /// Resolves one file: reads it, counts the read, guards against
    /// cycles, and scans its lines, resolving nested inclusions
    /// recursively. The fuel bounds the depth of the descent; exhausting
    /// it counts as detected recursion.
    pub fn build_tree(&mut self, path: &str, dir: Option<&str>, fuel: u64) -> (r: Result<
        Option<Node>,
        Error,
    >)
        ensures
            final(self).source_spec() == old(self).source_spec(),
            final(self).flags_map() == old(self).flags_map(),
            final(self).stack_view() == old(self).stack_view(),
            ({
                let m = resolve_model(
                    &old(self).source_spec(),
                    old(self).flags_map(),
                    path@,
                    dir_view(dir),
                    old(self).occ_map(),
                    old(self).stack_view(),
                    fuel as nat,
                );
                match r {
                    Ok(Some(node)) => m matches RRes::RDone { name, out, orig, slots, occ }
                        && node_wf(node) && node.name_spec() == name && node_flat(node) == out
                        && node_orig(node) == orig && node.lines_spec().len() == slots && final(self).occ_map() == occ,
                    Ok(None) => m matches RRes::RSkip { occ } && final(self).occ_map() == occ,
                    Err(e) => m matches RRes::RFail { err, occ } && e@ == err && final(self).occ_map() == occ,
                }
            }),
        decreases fuel, 0nat,
    {
        if fuel == 0 {
            return Err(Error::new(ErrorKind::RecursionDetected));
        }
        let (cpath, text) = match self.read_file(path, dir) {
            Ok(x) => x,
            Err(e) => {
                return Err(e);
            },
        };
        let cnt = self.stack_count(cpath.as_str());
        if cnt >= 2 {
            return Err(Error::new(ErrorKind::RecursionDetected));
        }
        let ghost stack_before = self.stack_view();
        self.file_stack.push(cpath.clone());
        proof {
            assert(self.stack_view() =~= stack_before.push(cpath@));
        }
        let fc = FileContext::new(cpath.as_str());
        let ghost fc0 = fc;
        let res = fc.parse(self, text.as_str(), fuel - 1);
        let ghost vparse = self.stack_view();
        let _last = self.file_stack.pop();
        proof {
            assert(forall|k: int|
                0 <= k < self.stack_view().len() ==> self.stack_view()[k] == vparse[k]);
            assert(self.stack_view() =~= vparse.drop_last());
            assert(vparse.drop_last() =~= stack_before);
            let m = resolve_model(
                &old(self).source_spec(),
                old(self).flags_map(),
                path@,
                dir_view(dir),
                old(self).occ_map(),
                old(self).stack_view(),
                fuel as nat,
            );
            assert(old(self).source_spec().read_model(path@, dir_view(dir))
                == (ReadOutcome::Found { path: cpath@, text: text@ }));
            assert(node_flat(fc0.node_spec()) =~= Seq::<Seq<char>>::empty());
            assert(node_orig(fc0.node_spec()) =~= Seq::<(Seq<char>, int)>::empty());
            assert(m == scan_model(
                &old(self).source_spec(),
                old(self).flags_map(),
                cpath@,
                crate::chars::split_lines_spec(text@),
                0,
                Seq::empty(),
                Seq::empty(),
                0,
                Seq::empty(),
                bumped(old(self).occ_map(), cpath@),
                old(self).stack_view().push(cpath@),
                (fuel - 1) as nat,
            ));
        }
        res
    }
}

} // verus!
