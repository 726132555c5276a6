use vstd::prelude::*;

verus! {

/// The failure taxonomy of the resolver.
#[derive(Clone, Copy, PartialEq, Eq, Structural, Debug)]
pub enum ErrorKind {
    /// No source yielded the file.
    NotFound,
    /// A file was registered a second time with an in-memory source.
    AlreadyExists,
    /// Mismatched inclusion delimiters, or other malformed input.
    InvalidData,
    /// The cycle guard tripped while resolving nested inclusions.
    RecursionDetected,
    /// `#else` or `#endif` without an opener, or a second `#else`.
    UnbalancedDirective,
    /// A failure of an underlying source, passed through unchanged.
    Io,
}

/// Spec-level value of an error: its kind, and the (file, line) pairs it
/// was wrapped with while unwinding, innermost first.
pub struct ErrV {
    pub kind: ErrorKind,
    pub trace: Seq<(Seq<char>, int)>,
}

/// A bare error of the given kind.
pub open spec fn errv(kind: ErrorKind) -> ErrV {
    ErrV { kind, trace: Seq::empty() }
}

/// The error as it looks one resolution level further out: wrapped with
/// the file and the zero-based line at which it arose.
pub open spec fn errv_wrap(e: ErrV, path: Seq<char>, line: int) -> ErrV {
    ErrV { kind: e.kind, trace: e.trace.push((path, line)) }
}

/// A resolution failure: its kind and the trace of inclusion sites it
/// unwound through, each a file name with a zero-based line number.
#[derive(Debug)]
pub struct Error {
    kind: ErrorKind,
    trace: Vec<(String, usize)>,
}

impl View for Error {
    type V = ErrV;

    closed spec fn view(&self) -> ErrV {
        ErrV {
            kind: self.kind,
            trace: Seq::new(
                self.trace@.len(),
                |i: int| (self.trace@[i].0@, self.trace@[i].1 as int),
            ),
        }
    }
}

impl Error {
    pub fn new(kind: ErrorKind) -> (r: Error)
        ensures
            r@ == errv(kind),
    {
        let r = Error { kind, trace: Vec::new() };
        proof {
            assert(r@.trace =~= Seq::<(Seq<char>, int)>::empty());
        }
        r
    }

    pub fn kind(&self) -> (k: ErrorKind)
        ensures
            k == self@.kind,
    {
        self.kind
    }

    /// The inclusion sites the failure unwound through, innermost first.
    pub fn trace(&self) -> (r: &Vec<(String, usize)>)
        ensures
            r@.len() == self@.trace.len(),
            forall|i: int|
                0 <= i < r@.len() ==> (#[trigger] r@[i]).0@ == self@.trace[i].0 && r@[i].1
                    == self@.trace[i].1,
    {
        &self.trace
    }

    /// Wraps the error with the file and zero-based line at which it
    /// arose, as it unwinds one resolution level.
    pub(crate) fn wrapped(self, path: &str, line: usize) -> (r: Error)
        ensures
            r@ == errv_wrap(self@, path@, line as int),
    {
        let mut e = self;
        let ghost before = e@;
        e.trace.push((path.to_owned(), line));
        proof {
            assert(e@.trace =~= before.trace.push((path@, line as int)));
        }
        e
    }
}

} // verus!
