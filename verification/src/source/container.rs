use vstd::prelude::*;
use super::{Source, ReadOutcome, dir_view};
use crate::error::{Error, ErrorKind};

verus! {

/// Reading through an ordered list of sources: the first hit wins, a
/// missing file falls through to the next source, and any other failure
/// stops the walk at once.
pub open spec fn seq_read_model<S: Source>(
    ss: Seq<S>,
    path: Seq<char>,
    dir: Option<Seq<char>>,
) -> ReadOutcome
    decreases ss.len(),
{
    if ss.len() == 0 {
        ReadOutcome::Absent
    } else {
        match ss[0].read_model(path, dir) {
            ReadOutcome::Found { path: p, text } => ReadOutcome::Found { path: p, text },
            ReadOutcome::Failed { kind } => {
                if kind == ErrorKind::NotFound {
                    seq_read_model(ss.skip(1), path, dir)
                } else {
                    ReadOutcome::Failed { kind }
                }
            },
            ReadOutcome::Absent => seq_read_model(ss.skip(1), path, dir),
        }
    }
}

proof fn lemma_seq_read_model_step<S: Source>(
    ss: Seq<S>,
    i: int,
    path: Seq<char>,
    dir: Option<Seq<char>>,
)
    requires
        0 <= i < ss.len(),
        forall|j: int|
            0 <= j < i ==> (#[trigger] ss[j].read_model(path, dir)) is Absent || (
            ss[j].read_model(path, dir) matches ReadOutcome::Failed { kind }
                && kind == ErrorKind::NotFound),
    ensures
        seq_read_model(ss, path, dir) == seq_read_model(ss.skip(i), path, dir),
    decreases i,
{
    if i == 0 {
        assert(ss.skip(0) =~= ss);
    } else {
        lemma_seq_read_model_step(ss, i - 1, path, dir);
        assert(ss.skip(i - 1)[0] == ss[i - 1]);
        assert(ss.skip(i - 1).skip(1) =~= ss.skip(i));
    }
}

proof fn lemma_seq_read_model_none<S: Source>(ss: Seq<S>, path: Seq<char>, dir: Option<Seq<char>>)
    requires
        forall|j: int|
            0 <= j < ss.len() ==> (#[trigger] ss[j].read_model(path, dir)) is Absent || (
            ss[j].read_model(path, dir) matches ReadOutcome::Failed { kind }
                && kind == ErrorKind::NotFound),
    ensures
        seq_read_model(ss, path, dir) is Absent,
    decreases ss.len(),
{
    if ss.len() > 0 {
        assert(forall|j: int| 0 <= j < ss.skip(1).len() ==> ss.skip(1)[j] == ss[j + 1]);
        lemma_seq_read_model_none(ss.skip(1), path, dir);
    }
}

/// A vector of sources is itself a source: members are tried in order.
impl<S: Source> Source for Vec<S> {
    open spec fn read_model(&self, path: Seq<char>, dir: Option<Seq<char>>) -> ReadOutcome {
        seq_read_model(self@, path, dir)
    }

    fn read(&self, path: &str, dir: Option<&str>) -> (r: Result<(String, String), Error>) {
        let n = self.len();
        let mut i: usize = 0;
        while i < n
            invariant
                0 <= i <= n,
                n == self@.len(),
                forall|j: int|
                    0 <= j < i ==> (#[trigger] self@[j].read_model(path@, dir_view(dir)))
                        is Absent || (self@[j].read_model(path@, dir_view(dir))
                        matches ReadOutcome::Failed { kind } && kind == ErrorKind::NotFound),
            decreases n - i,
        {
            let member = &self[i];
            match member.read(path, dir) {
                Ok(x) => {
                    proof {
                        lemma_seq_read_model_step(self@, i as int, path@, dir_view(dir));
                        assert(self@.skip(i as int)[0] == self@[i as int]);
                    }
                    return Ok(x);
                },
                Err(e) => {
                    let k = e.kind();
                    if !matches!(k, ErrorKind::NotFound) {
                        proof {
                            lemma_seq_read_model_step(self@, i as int, path@, dir_view(dir));
                            assert(self@.skip(i as int)[0] == self@[i as int]);
                        }
                        return Err(e);
                    }
                },
            }
            i += 1;
        }
        proof {
            lemma_seq_read_model_none(self@, path@, dir_view(dir));
        }
        Err(Error::new(ErrorKind::NotFound))
    }
}

} // verus!
