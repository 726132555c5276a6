pub mod container;
pub mod mem;

pub use mem::{Mem, MemBuilder};

use vstd::prelude::*;
use crate::error::{Error, ErrorKind, errv};

verus! {

/// What a read comes to, at the spec level: the canonical path and the
/// file's text, no file under that name, or a failure of the backing
/// store.
pub enum ReadOutcome {
    Found { path: Seq<char>, text: Seq<char> },
    Absent,
    Failed { kind: ErrorKind },
}

pub open spec fn dir_view(dir: Option<&str>) -> Option<Seq<char>> {
    match dir {
        Some(d) => Some(d@),
        None => None,
    }
}

/// The returned value a read model prescribes.
pub open spec fn read_matches(m: ReadOutcome, r: Result<(String, String), Error>) -> bool {
    match m {
        ReadOutcome::Found { path, text } => match r {
            Ok(p) => p.0@ == path && p.1@ == text,
            Err(_) => false,
        },
        ReadOutcome::Absent => match r {
            Ok(_) => false,
            Err(e) => e@ == errv(ErrorKind::NotFound),
        },
        ReadOutcome::Failed { kind } => match r {
            Ok(_) => false,
            Err(e) => e@ == errv(kind),
        },
    }
}

/// Something that may provide file content by its name. Each
/// implementation pins the behaviour of `read` through its `read_model`,
/// so that resolution over any source is deterministic at the spec level.
pub trait Source: Sized {
    /// What reading `path` under the directory hint `dir` yields.
    spec fn read_model(&self, path: Seq<char>, dir: Option<Seq<char>>) -> ReadOutcome;

    /// Performs file loading.
    ///
    /// Arguments:
    /// + `path`: absolute or relative file path,
    /// + `dir`: directory of the parent file, when that file holds a
    ///   relative inclusion directive.
    ///
    /// Returns on success the canonical path of the file and its content.
    fn read(&self, path: &str, dir: Option<&str>) -> (r: Result<(String, String), Error>)
        ensures
            read_matches(self.read_model(path@, dir_view(dir)), r),
    ;
}

} // verus!
