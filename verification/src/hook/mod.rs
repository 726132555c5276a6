pub mod list;
pub mod mem;

pub use list::{ListHook, ListHookBuilder};
pub use mem::{MemHook, MemHookBuilder};

use vstd::prelude::*;
use crate::error::Error;
use crate::source::{ReadOutcome, dir_view, read_matches};

verus! {

/// Something that may provide file content by its name: the earlier
/// shape of the `Source` abstraction, kept for callers that still use
/// it. Each implementation pins `read` through its `read_model`.
pub trait Hook: Sized {
    /// What reading `path` under the directory hint `dir` yields.
    spec fn read_model(&self, path: Seq<char>, dir: Option<Seq<char>>) -> ReadOutcome;

    /// Performs file loading.
    ///
    /// Arguments:
    /// + `path`: absolute or relative file path,
    /// + `dir`: directory of the parent file, when that file holds a
    ///   relative inclusion directive.
    ///
    /// Returns on success the canonical path of the file and its content.
    fn read(&self, path: &str, dir: Option<&str>) -> (r: Result<(String, String), Error>)
        ensures
            read_matches(self.read_model(path@, dir_view(dir)), r),
    ;
}

} // verus!
