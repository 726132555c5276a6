use vstd::prelude::*;
use super::Hook;
use crate::error::{Error, ErrorKind};
use crate::source::{ReadOutcome, dir_view};

verus! {

/// Reading through an ordered list of hooks: the first hit wins, a
/// missing file falls through to the next hook, and any other failure
/// stops the walk at once.
pub open spec fn hooks_read_model<H: Hook>(
    hs: Seq<H>,
    path: Seq<char>,
    dir: Option<Seq<char>>,
) -> ReadOutcome
    decreases hs.len(),
{
    if hs.len() == 0 {
        ReadOutcome::Absent
    } else {
        match hs[0].read_model(path, dir) {
            ReadOutcome::Found { path: p, text } => ReadOutcome::Found { path: p, text },
            ReadOutcome::Failed { kind } => {
                if kind == ErrorKind::NotFound {
                    hooks_read_model(hs.skip(1), path, dir)
                } else {
                    ReadOutcome::Failed { kind }
                }
            },
            ReadOutcome::Absent => hooks_read_model(hs.skip(1), path, dir),
        }
    }
}

proof fn lemma_hooks_read_model_step<H: Hook>(
    hs: Seq<H>,
    i: int,
    path: Seq<char>,
    dir: Option<Seq<char>>,
)
    requires
        0 <= i < hs.len(),
        forall|j: int|
            0 <= j < i ==> (#[trigger] hs[j].read_model(path, dir)) is Absent || (
            hs[j].read_model(path, dir) matches ReadOutcome::Failed { kind } && kind
                == ErrorKind::NotFound),
    ensures
        hooks_read_model(hs, path, dir) == hooks_read_model(hs.skip(i), path, dir),
    decreases i,
{
    if i == 0 {
        assert(hs.skip(0) =~= hs);
    } else {
        lemma_hooks_read_model_step(hs, i - 1, path, dir);
        assert(hs.skip(i - 1)[0] == hs[i - 1]);
        assert(hs.skip(i - 1).skip(1) =~= hs.skip(i));
    }
}

proof fn lemma_hooks_read_model_none<H: Hook>(
    hs: Seq<H>,
    path: Seq<char>,
    dir: Option<Seq<char>>,
)
    requires
        forall|j: int|
            0 <= j < hs.len() ==> (#[trigger] hs[j].read_model(path, dir)) is Absent || (
            hs[j].read_model(path, dir) matches ReadOutcome::Failed { kind } && kind
                == ErrorKind::NotFound),
    ensures
        hooks_read_model(hs, path, dir) is Absent,
    decreases hs.len(),
{
    if hs.len() > 0 {
        assert(forall|j: int| 0 <= j < hs.skip(1).len() ==> hs.skip(1)[j] == hs[j + 1]);
        lemma_hooks_read_model_none(hs.skip(1), path, dir);
    }
}

/// Hook for retrieving files from a list of other hooks, tried in turn.
pub struct ListHook<H: Hook> {
    hooks: Vec<H>,
}

impl<H: Hook> ListHook<H> {
    pub closed spec fn hooks_spec(&self) -> Seq<H> {
        self.hooks@
    }

    pub fn new() -> (r: ListHook<H>)
        ensures
            r.hooks_spec() == Seq::<H>::empty(),
    {
        ListHook { hooks: Vec::new() }
    }

    pub fn builder() -> (r: ListHookBuilder<H>)
        ensures
            r.hook_spec().hooks_spec() == Seq::<H>::empty(),
    {
        ListHookBuilder { hook: ListHook::new() }
    }

    /// Appends a hook; it is consulted after every earlier one.
    pub fn add_hook(&mut self, hook: H)
        ensures
            final(self).hooks_spec() == old(self).hooks_spec().push(hook),
    {
        self.hooks.push(hook);
    }
}

/// Builder for `ListHook`, adding one hook at a time.
pub struct ListHookBuilder<H: Hook> {
    hook: ListHook<H>,
}

impl<H: Hook> ListHookBuilder<H> {
    pub closed spec fn hook_spec(&self) -> ListHook<H> {
        self.hook
    }

    pub fn add_hook(self, hook: H) -> (r: ListHookBuilder<H>)
        ensures
            r.hook_spec().hooks_spec() == self.hook_spec().hooks_spec().push(hook),
    {
        let ListHookBuilder { hook: mut list } = self;
        list.add_hook(hook);
        ListHookBuilder { hook: list }
    }

    pub fn build(self) -> (r: ListHook<H>)
        ensures
            r == self.hook_spec(),
    {
        self.hook
    }
}

impl<H: Hook> Hook for ListHook<H> {
    open spec fn read_model(&self, path: Seq<char>, dir: Option<Seq<char>>) -> ReadOutcome {
        hooks_read_model(self.hooks_spec(), path, dir)
    }

    fn read(&self, path: &str, dir: Option<&str>) -> (r: Result<(String, String), Error>) {
        let n = self.hooks.len();
        let mut i: usize = 0;
        while i < n
            invariant
                0 <= i <= n,
                n == self.hooks@.len(),
                forall|j: int|
                    0 <= j < i ==> (#[trigger] self.hooks@[j].read_model(
                        path@,
                        dir_view(dir),
                    )) is Absent || (self.hooks@[j].read_model(path@, dir_view(dir))
                        matches ReadOutcome::Failed { kind } && kind == ErrorKind::NotFound),
            decreases n - i,
        {
            let member = &self.hooks[i];
            match member.read(path, dir) {
                Ok(x) => {
                    proof {
                        lemma_hooks_read_model_step(self.hooks@, i as int, path@, dir_view(dir));
                        assert(self.hooks@.skip(i as int)[0] == self.hooks@[i as int]);
                    }
                    return Ok(x);
                },
                Err(e) => {
                    let k = e.kind();
                    if !matches!(k, ErrorKind::NotFound) {
                        proof {
                            lemma_hooks_read_model_step(
                                self.hooks@,
                                i as int,
                                path@,
                                dir_view(dir),
                            );
                            assert(self.hooks@.skip(i as int)[0] == self.hooks@[i as int]);
                        }
                        return Err(e);
                    }
                },
            }
            i += 1;
        }
        proof {
            lemma_hooks_read_model_none(self.hooks@, path@, dir_view(dir));
        }
        Err(Error::new(ErrorKind::NotFound))
    }
}

} // verus!
