use vstd::prelude::*;

verus! {

/// One level of conditional inclusion.
pub enum Gate {
    /// A condition on a flag whose value is known: the flag's name and
    /// whether the branch is currently open.
    Known(String, bool),
    /// A condition that cannot be decided; always treated as open.
    Unknown,
}

/// Spec-level value of a gate.
pub enum GateV {
    KnownV { name: Seq<char>, open: bool },
    UnknownV,
}

impl View for Gate {
    type V = GateV;

    open spec fn view(&self) -> GateV {
        match self {
            Gate::Known(n, v) => GateV::KnownV { name: n@, open: *v },
            Gate::Unknown => GateV::UnknownV,
        }
    }
}

/// Whether a gate lets lines through: a known gate by its value, an
/// undecided one always.
pub open spec fn gate_open(g: GateV) -> bool {
    match g {
        GateV::KnownV { open, .. } => open,
        GateV::UnknownV => true,
    }
}

/// Conjunction of the open states over a gate sequence; each element
/// pairs a gate with its been-inverted mark.
pub open spec fn all_open(gs: Seq<(GateV, bool)>) -> bool {
    forall|i: int| 0 <= i < gs.len() ==> gate_open(#[trigger] gs[i].0)
}

impl Gate {
    pub fn is_open(&self) -> (r: bool)
        ensures
            r == gate_open(self@),
    {
        match self {
            Gate::Known(_, v) => *v,
            Gate::Unknown => true,
        }
    }
}

pub(crate) struct GateState {
    pub(crate) gate: Gate,
    pub(crate) inverted: bool,
}

/// The nested conditional state of one scanned file: a stack of gates and
/// a cached conjunction of their open states.
pub struct GateStack {
    stack: Vec<GateState>,
    state: bool,
}

impl View for GateStack {
    type V = Seq<(GateV, bool)>;

    closed spec fn view(&self) -> Seq<(GateV, bool)> {
        Seq::new(self.stack@.len(), |i: int| (self.stack@[i].gate@, self.stack@[i].inverted))
    }
}

impl GateStack {
    /// The cached conjunction is in step with the stack.
    pub closed spec fn wf(&self) -> bool {
        self.state == all_open(self@)
    }

    pub fn new() -> (r: Self)
        ensures
            r.wf(),
            r@ == Seq::<(GateV, bool)>::empty(),
    {
        let r = GateStack { stack: Vec::new(), state: true };
        proof {
            assert(r@ =~= Seq::<(GateV, bool)>::empty());
        }
        r
    }

    fn compute_state(&mut self)
        ensures
            final(self)@ == old(self)@,
            final(self).wf(),
    {
        let mut all = true;
        let mut i: usize = 0;
        let n = self.stack.len();
        while i < n
            invariant
                0 <= i <= n,
                n == self.stack@.len(),
                all == (forall|j: int| 0 <= j < i ==> gate_open(#[trigger] self@[j].0)),
            decreases n - i,
        {
            let o = self.stack[i].gate.is_open();
            proof {
                assert(self@[i as int].0 == self.stack@[i as int].gate@);
            }
            all = all && o;
            i += 1;
        }
        self.state = all;
    }

    pub fn push(&mut self, gate: Gate)
        requires
            old(self).wf(),
        ensures
            final(self).wf(),
            final(self)@ == old(self)@.push((gate@, false)),
    {
        self.state = self.state && gate.is_open();
        let ghost before = self@;
        let ghost gv = gate@;
        self.stack.push(GateState { gate, inverted: false });
        proof {
            assert(self@ =~= before.push((gv, false)));
            assert(all_open(self@) == (all_open(before) && gate_open(gv))) by {
                if all_open(before) && gate_open(gv) {
                    assert(forall|i: int|
                        0 <= i < self@.len() ==> gate_open(#[trigger] self@[i].0)) by {
                        assert(forall|i: int|
                            0 <= i < before.len() ==> self@[i] == before[i]);
                    }
                }
                if all_open(self@) {
                    assert(forall|i: int|
                        0 <= i < before.len() ==> gate_open(#[trigger] before[i].0)) by {
                        assert(forall|i: int|
                            0 <= i < before.len() ==> before[i] == self@[i]);
                    }
                    assert(gate_open(self@[self@.len() - 1].0));
                }
            }
        }
    }

    pub fn pop(&mut self) -> (r: Option<Gate>)
        requires
            old(self).wf(),
        ensures
            final(self).wf(),
            old(self)@.len() == 0 ==> r is None && final(self)@ == old(self)@,
            old(self)@.len() > 0 ==> (r matches Some(g) && g@ == old(self)@.last().0
                && final(self)@ == old(self)@.drop_last()),
    {
        let ghost before = self@;
        let gs_opt = self.stack.pop();
        match gs_opt {
            None => {
                proof {
                    assert(self@ =~= before);
                }
                None
            },
            Some(gs) => {
                proof {
                    assert(self@ =~= before.drop_last());
                    assert(forall|i: int|
                        0 <= i < self@.len() ==> self@[i] == before[i]);
                }
                if !gs.gate.is_open() {
                    self.compute_state();
                } else {
                    proof {
                        assert(all_open(self@) == all_open(before)) by {
                            if all_open(before) {
                                assert(forall|i: int|
                                    0 <= i < self@.len() ==> gate_open(
                                        #[trigger] self@[i].0,
                                    ));
                            }
                            if all_open(self@) {
                                assert(forall|i: int|
                                    0 <= i < before.len() ==> gate_open(
                                        #[trigger] before[i].0,
                                    )) by {
                                    assert(gate_open(before[before.len() - 1].0));
                                }
                            }
                        }
                    }
                }
                Some(gs.gate)
            },
        }
    }

    /// Whether every nesting level is currently open.
    pub fn is_open(&self) -> (r: bool)
        requires
            self.wf(),
        ensures
            r == all_open(self@),
    {
        self.state
    }

    /// Flips the innermost gate on `#else`. Fails when there is no open
    /// gate, or when that gate has already been flipped once.
    pub fn invert_last(&mut self) -> (r: Result<bool, ()>)
        requires
            old(self).wf(),
        ensures
            final(self).wf(),
            old(self)@.len() == 0 || (old(self)@.len() > 0 && old(self)@.last().1) ==> r is Err
                && final(self)@ == old(self)@,
            old(self)@.len() > 0 && !old(self)@.last().1 ==> r is Ok
                && final(self)@ == old(self)@.update(
                    old(self)@.len() - 1,
                    (flipped(old(self)@.last().0), true),
                )
                && (r == Ok::<bool, ()>(!(old(self)@.last().0 is UnknownV))),
    {
        let ghost before = self@;
        let n = self.stack.len();
        if n == 0 {
            return Err(());
        }
        let gs = match self.stack.pop() {
            Some(g) => g,
            None => {
                return Err(());
            },
        };
        if gs.inverted {
            self.stack.push(gs);
            proof {
                assert(self@ =~= before);
            }
            return Err(());
        }
        match gs.gate {
            Gate::Known(name, value) => {
                let nv = !value;
                self.stack.push(GateState { gate: Gate::Known(name, nv), inverted: true });
                proof {
                    assert(self@ =~= before.update(
                        before.len() - 1,
                        (flipped(before.last().0), true),
                    ));
                }
                if nv {
                    self.compute_state();
                } else {
                    self.state = false;
                    proof {
                        assert(!gate_open(self@[self@.len() - 1].0));
                    }
                }
                Ok(true)
            },
            Gate::Unknown => {
                self.stack.push(GateState { gate: Gate::Unknown, inverted: true });
                proof {
                    assert(self@ =~= before.update(
                        before.len() - 1,
                        (flipped(before.last().0), true),
                    ));
                    assert(all_open(self@) == all_open(before)) by {
                        if all_open(before) {
                            assert(forall|i: int|
                                0 <= i < self@.len() ==> gate_open(#[trigger] self@[i].0))
                                by {
                                assert(forall|i: int|
                                    0 <= i < self@.len() - 1 ==> self@[i] == before[i]);
                            }
                        }
                        if all_open(self@) {
                            assert(forall|i: int|
                                0 <= i < before.len() ==> gate_open(
                                    #[trigger] before[i].0,
                                )) by {
                                assert(forall|i: int|
                                    0 <= i < before.len() - 1 ==> before[i] == self@[i]);
                                assert(before[before.len() - 1].0 is UnknownV);
                            }
                        }
                    }
                }
                Ok(false)
            },
        }
    }
}

/// What `#else` makes of a gate: a known gate changes branch, an
/// undecided one only remembers that it was flipped.
pub open spec fn flipped(g: GateV) -> GateV {
    match g {
        GateV::KnownV { name, open } => GateV::KnownV { name, open: !open },
        GateV::UnknownV => GateV::UnknownV,
    }
}

} // verus!
