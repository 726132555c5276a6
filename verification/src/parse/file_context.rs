use vstd::prelude::*;
use super::context::Context;
use super::gate::{Gate, GateStack, GateV};
use crate::chars::{split_lines, split_lines_spec, trim_end_spec, parent_dir, parent_dir_spec};
use crate::error::{Error, ErrorKind, errv, errv_wrap};
use crate::model::{RRes, resolve_model, scan_model};
use crate::node::{
    Node, node_wf, node_flat, node_orig, lemma_flat_add_line, lemma_flat_add_child,
    lemma_wf_add_line, lemma_wf_add_child,
};
use crate::scan::{classify, parse_inc, Directive, IncParse};
use crate::source::Source;

verus! {

/// The scan of one file: the node being built and the conditional state
/// of the lines read so far.
pub struct FileContext {
    node: Node,
    gate_stack: GateStack,
}

impl FileContext {
    pub closed spec fn node_spec(&self) -> Node {
        self.node
    }

    pub closed spec fn gates_spec(&self) -> Seq<(GateV, bool)> {
        self.gate_stack@
    }

    pub closed spec fn wf(&self) -> bool {
        self.gate_stack.wf() && node_wf(self.node_spec())
    }

    pub fn new(path: &str) -> (r: FileContext)
        ensures
            r.wf(),
            r.node_spec().name_spec() == path@,
            r.node_spec().lines_spec() == Seq::<Seq<char>>::empty(),
            r.node_spec().children_spec() == Seq::<(Node, int)>::empty(),
            r.gates_spec() == Seq::<(GateV, bool)>::empty(),
    {
        FileContext { node: Node::new(path), gate_stack: GateStack::new() }
    }

    /// Scans the text one physical line at a time, resolving every
    /// inclusion it meets through the resolution context; the outcome
    /// agrees with the scan model applied to the same starting state.
    pub fn parse<'a, S: Source>(
        self,
        context: &mut Context<'a, S>,
        text: &str,
        fuel: u64,
    ) -> (r: Result<Option<Node>, Error>)
        requires
            self.wf(),
        ensures
            final(context).source_spec() == old(context).source_spec(),
            final(context).flags_map() == old(context).flags_map(),
            final(context).stack_view() == old(context).stack_view(),
            ({
                let m = scan_model(
                    &old(context).source_spec(),
                    old(context).flags_map(),
                    self.node_spec().name_spec(),
                    split_lines_spec(text@),
                    0,
                    node_flat(self.node_spec()),
                    node_orig(self.node_spec()),
                    self.node_spec().lines_spec().len() as int,
                    self.gates_spec(),
                    old(context).occ_map(),
                    old(context).stack_view(),
                    fuel as nat,
                );
                match r {
                    Ok(Some(node)) => m matches RRes::RDone { name, out, orig, slots, occ }
                        && node_wf(node) && node.name_spec() == name && node_flat(node) == out
                        && node_orig(node) == orig && node.lines_spec().len() == slots && final(context).occ_map() == occ,
                    Ok(None) => m matches RRes::RSkip { occ } && final(context).occ_map()
                        == occ,
                    Err(e) => m matches RRes::RFail { err, occ } && e@ == err && final(context).occ_map() == occ,
                }
            }),
        decreases fuel, 1nat,
    {
        let ghost self0 = self;
        let FileContext { mut node, mut gate_stack } = self;
        let ghost src0 = context.source_spec();
        let ghost flagsm = context.flags_map();
        let ghost stackv = context.stack_view();
        let ghost pname = node.name_spec();
        let ghost linesv = split_lines_spec(text@);
        let ghost target = scan_model(
            &src0,
            flagsm,
            pname,
            linesv,
            0,
            node_flat(node),
            node_orig(node),
            node.lines_spec().len() as int,
            gate_stack@,
            old(context).occ_map(),
            stackv,
            fuel as nat,
        );
        proof {
            assert(target == scan_model(
                &old(context).source_spec(),
                old(context).flags_map(),
                self0.node_spec().name_spec(),
                split_lines_spec(text@),
                0,
                node_flat(self0.node_spec()),
                node_orig(self0.node_spec()),
                self0.node_spec().lines_spec().len() as int,
                self0.gates_spec(),
                old(context).occ_map(),
                old(context).stack_view(),
                fuel as nat,
            ));
        }
        let path_s = node.name().to_owned();
        let lines = split_lines(text);
        let nlines = lines.len();
        proof {
            reveal_strlit("");
            assert(("")@ =~= Seq::<char>::empty());
            assert(trim_end_spec(Seq::<char>::empty()) =~= Seq::<char>::empty());
        }
        let mut i: usize = 0;
        while i < nlines
            invariant
                0 <= i <= nlines,
                nlines == lines@.len(),
                lines.deep_view() == linesv,
                linesv == split_lines_spec(text@),
                gate_stack.wf(),
                node_wf(node),
                node.name_spec() == pname,
                path_s@ == pname,
                trim_end_spec(Seq::<char>::empty()) == Seq::<char>::empty(),
                ("")@ == Seq::<char>::empty(),
                context.source_spec() == src0,
                context.flags_map() == flagsm,
                context.stack_view() == stackv,
                src0 == old(context).source_spec(),
                flagsm == old(context).flags_map(),
                stackv == old(context).stack_view(),
                self0 == self,
                target == scan_model(
                    &old(context).source_spec(),
                    old(context).flags_map(),
                    self0.node_spec().name_spec(),
                    split_lines_spec(text@),
                    0,
                    node_flat(self0.node_spec()),
                    node_orig(self0.node_spec()),
                    self0.node_spec().lines_spec().len() as int,
                    self0.gates_spec(),
                    old(context).occ_map(),
                    old(context).stack_view(),
                    fuel as nat,
                ),
                target == scan_model(
                    &src0,
                    flagsm,
                    pname,
                    linesv,
                    i as int,
                    node_flat(node),
                    node_orig(node),
                    node.lines_spec().len() as int,
                    gate_stack@,
                    context.occ_map(),
                    stackv,
                    fuel as nat,
                ),
            decreases nlines - i,
        {
            let ghost line_v = linesv[i as int];
            proof {
                assert(lines.deep_view()[i as int] == lines@[i as int]@);
            }
            let ghost n0 = node;
            let ghost g0 = gate_stack@;
            let ghost occ0 = context.occ_map();
            let ghost cur = scan_model(
                &src0,
                flagsm,
                pname,
                linesv,
                i as int,
                node_flat(n0),
                node_orig(n0),
                n0.lines_spec().len() as int,
                g0,
                occ0,
                stackv,
                fuel as nat,
            );
            proof {
                assert(cur == target);
            }
            let d = classify(lines[i].as_str());
            match d {
                Directive::PragmaOnce => {
                    if context.occurred_more_than_once(path_s.as_str()) {
                        proof {
                            assert(cur == RRes::RSkip { occ: occ0 });
                        }
                        return Ok(None);
                    } else {
                        node.add_line("");
                        proof {
                            lemma_wf_add_line(n0, node);
                            lemma_flat_add_line(n0, node, trim_end_spec(("")@));
                            assert_step(
                                cur, &src0, flagsm, pname, linesv, i as int, node, gate_stack@,
                                context.occ_map(), stackv, fuel as nat,
                            );
                        }
                    }
                },
                Directive::IfDef { negated, name } => {
                    let fv = context.flags().get(name.as_str());
                    match fv {
                        Some(v) => {
                            let open = (!negated) == v;
                            let gate = Gate::Known(name, open);
                            let ghost gv = gate@;
                            gate_stack.push(gate);
                            node.add_line("");
                            proof {
                                lemma_wf_add_line(n0, node);
                                lemma_flat_add_line(n0, node, trim_end_spec(("")@));
                                assert(gate_stack@ == g0.push((gv, false)));
                                assert_step(
                                    cur, &src0, flagsm, pname, linesv, i as int, node,
                                    gate_stack@, context.occ_map(), stackv, fuel as nat,
                                );
                            }
                        },
                        None => {
                            gate_stack.push(Gate::Unknown);
                            if gate_stack.is_open() {
                                node.add_line(lines[i].as_str());
                            } else {
                                node.add_line("");
                            }
                            proof {
                                lemma_wf_add_line(n0, node);
                                lemma_flat_add_line(n0, node, node.lines_spec().last());
                                assert_step(
                                    cur, &src0, flagsm, pname, linesv, i as int, node,
                                    gate_stack@, context.occ_map(), stackv, fuel as nat,
                                );
                            }
                        },
                    }
                },
                Directive::IfRaw => {
                    gate_stack.push(Gate::Unknown);
                    if gate_stack.is_open() {
                        node.add_line(lines[i].as_str());
                    } else {
                        node.add_line("");
                    }
                    proof {
                        lemma_wf_add_line(n0, node);
                        lemma_flat_add_line(n0, node, node.lines_spec().last());
                        assert_step(
                            cur, &src0, flagsm, pname, linesv, i as int, node, gate_stack@,
                            context.occ_map(), stackv, fuel as nat,
                        );
                    }
                },
                Directive::Else => {
                    match gate_stack.invert_last() {
                        Err(()) => {
                            proof {
                                assert(cur == RRes::RFail {
                                    err: errv(ErrorKind::UnbalancedDirective),
                                    occ: occ0,
                                });
                            }
                            return Err(Error::new(ErrorKind::UnbalancedDirective));
                        },
                        Ok(known) => {
                            if known {
                                node.add_line("");
                            } else if gate_stack.is_open() {
                                node.add_line(lines[i].as_str());
                            } else {
                                node.add_line("");
                            }
                            proof {
                                lemma_wf_add_line(n0, node);
                                lemma_flat_add_line(n0, node, node.lines_spec().last());
                                assert_step(
                                    cur, &src0, flagsm, pname, linesv, i as int, node,
                                    gate_stack@, context.occ_map(), stackv, fuel as nat,
                                );
                            }
                        },
                    }
                },
                Directive::Endif => {
                    match gate_stack.pop() {
                        None => {
                            proof {
                                assert(cur == RRes::RFail {
                                    err: errv(ErrorKind::UnbalancedDirective),
                                    occ: occ0,
                                });
                            }
                            return Err(Error::new(ErrorKind::UnbalancedDirective));
                        },
                        Some(g) => {
                            let known = match g {
                                Gate::Known(_, _) => true,
                                Gate::Unknown => false,
                            };
                            if known {
                                node.add_line("");
                            } else if gate_stack.is_open() {
                                node.add_line(lines[i].as_str());
                            } else {
                                node.add_line("");
                            }
                            proof {
                                lemma_wf_add_line(n0, node);
                                lemma_flat_add_line(n0, node, node.lines_spec().last());
                                assert_step(
                                    cur, &src0, flagsm, pname, linesv, i as int, node,
                                    gate_stack@, context.occ_map(), stackv, fuel as nat,
                                );
                            }
                        },
                    }
                },
                Directive::Plain => {
                    if !gate_stack.is_open() {
                        node.add_line("");
                        proof {
                            lemma_wf_add_line(n0, node);
                            lemma_flat_add_line(n0, node, trim_end_spec(("")@));
                            assert_step(
                                cur, &src0, flagsm, pname, linesv, i as int, node, gate_stack@,
                                context.occ_map(), stackv, fuel as nat,
                            );
                        }
                    } else {
                        match parse_inc(lines[i].as_str()) {
                            IncParse::NotInc => {
                                node.add_line(lines[i].as_str());
                                proof {
                                    lemma_wf_add_line(n0, node);
                                    lemma_flat_add_line(n0, node, node.lines_spec().last());
                                    assert_step(
                                        cur, &src0, flagsm, pname, linesv, i as int, node,
                                        gate_stack@, context.occ_map(), stackv, fuel as nat,
                                    );
                                }
                            },
                            IncParse::Mismatched => {
                                let lc = node.lines_count();
                                proof {
                                    assert(cur == RRes::RFail {
                                        err: errv_wrap(
                                            errv(ErrorKind::InvalidData),
                                            pname,
                                            lc as int,
                                        ),
                                        occ: occ0,
                                    });
                                }
                                return Err(
                                    Error::new(ErrorKind::InvalidData).wrapped(
                                        path_s.as_str(),
                                        lc,
                                    ),
                                );
                            },
                            IncParse::Angle(p) => {
                                let ghost sub = resolve_model(
                                    &src0,
                                    flagsm,
                                    p@,
                                    None::<Seq<char>>,
                                    occ0,
                                    stackv,
                                    fuel as nat,
                                );
                                let res = context.build_tree(p.as_str(), None, fuel);
                                match res {
                                    Ok(Some(child)) => {
                                        let ghost c = child;
                                        node.add_child(child);
                                        proof {
                                            lemma_wf_add_child(n0, node, c);
                                            lemma_flat_add_child(n0, node, c);
                                            assert(sub matches RRes::RDone { .. });
                                            assert_step(
                                                cur, &src0, flagsm, pname, linesv, i as int,
                                                node, gate_stack@, context.occ_map(), stackv,
                                                fuel as nat,
                                            );
                                        }
                                    },
                                    Ok(None) => {
                                        node.add_line("");
                                        proof {
                                            lemma_wf_add_line(n0, node);
                                            lemma_flat_add_line(
                                                n0,
                                                node,
                                                trim_end_spec(("")@),
                                            );
                                            assert(sub matches RRes::RSkip { .. });
                                            assert_step(
                                                cur, &src0, flagsm, pname, linesv, i as int,
                                                node, gate_stack@, context.occ_map(), stackv,
                                                fuel as nat,
                                            );
                                        }
                                    },
                                    Err(e) => {
                                        let lc = node.lines_count();
                                        proof {
                                            assert(sub matches RRes::RFail { .. });
                                            assert(cur == RRes::RFail {
                                                err: errv_wrap(sub.err_of(), pname, lc as int),
                                                occ: sub.occ_of(),
                                            });
                                        }
                                        return Err(e.wrapped(path_s.as_str(), lc));
                                    },
                                }
                            },
                            IncParse::Quoted(p) => {
                                match parent_dir(path_s.as_str()) {
                                    None => {
                                        let lc = node.lines_count();
                                        proof {
                                            assert(cur == RRes::RFail {
                                                err: errv_wrap(
                                                    errv(ErrorKind::InvalidData),
                                                    pname,
                                                    lc as int,
                                                ),
                                                occ: occ0,
                                            });
                                        }
                                        return Err(
                                            Error::new(ErrorKind::InvalidData).wrapped(
                                                path_s.as_str(),
                                                lc,
                                            ),
                                        );
                                    },
                                    Some(dirname) => {
                                        let ghost sub = resolve_model(
                                            &src0,
                                            flagsm,
                                            p@,
                                            Some(dirname@),
                                            occ0,
                                            stackv,
                                            fuel as nat,
                                        );
                                        let res = context.build_tree(
                                            p.as_str(),
                                            Some(dirname.as_str()),
                                            fuel,
                                        );
                                        match res {
                                            Ok(Some(child)) => {
                                                let ghost c = child;
                                                node.add_child(child);
                                                proof {
                                                    lemma_wf_add_child(n0, node, c);
                                                    lemma_flat_add_child(n0, node, c);
                                                    assert(sub matches RRes::RDone { .. });
                                                    assert_step(
                                                        cur, &src0, flagsm, pname, linesv,
                                                        i as int, node, gate_stack@,
                                                        context.occ_map(), stackv, fuel as nat,
                                                    );
                                                }
                                            },
                                            Ok(None) => {
                                                node.add_line("");
                                                proof {
                                                    lemma_wf_add_line(n0, node);
                                                    lemma_flat_add_line(
                                                        n0,
                                                        node,
                                                        trim_end_spec(("")@),
                                                    );
                                                    assert(sub matches RRes::RSkip { .. });
                                                    assert_step(
                                                        cur, &src0, flagsm, pname, linesv,
                                                        i as int, node, gate_stack@,
                                                        context.occ_map(), stackv, fuel as nat,
                                                    );
                                                }
                                            },
                                            Err(e) => {
                                                let lc = node.lines_count();
                                                proof {
                                                    assert(sub matches RRes::RFail { .. });
                                                    assert(cur == RRes::RFail {
                                                        err: errv_wrap(
                                                            sub.err_of(),
                                                            pname,
                                                            lc as int,
                                                        ),
                                                        occ: sub.occ_of(),
                                                    });
                                                }
                                                return Err(e.wrapped(path_s.as_str(), lc));
                                            },
                                        }
                                    },
                                }
                            },
                        }
                    }
                },
            }
            i += 1;
        }
        proof {
            assert(target == RRes::RDone {
                name: pname,
                out: node_flat(node),
                orig: node_orig(node),
                slots: node.lines_spec().len() as int,
                occ: context.occ_map(),
            });
        }
        Ok(Some(node))
    }
}

/// One scan step: after the line's effect has been applied to the node,
/// the gates and the occurrence map, the model's value is unchanged.
proof fn assert_step<S: Source>(
    cur: RRes,
    src: &S,
    flags: Map<Seq<char>, bool>,
    pname: Seq<char>,
    linesv: Seq<Seq<char>>,
    i: int,
    node: Node,
    gates: Seq<(GateV, bool)>,
    occ: Map<Seq<char>, int>,
    stackv: Seq<Seq<char>>,
    fuel: nat,
)
    requires
        cur == scan_model(
            src,
            flags,
            pname,
            linesv,
            i + 1,
            node_flat(node),
            node_orig(node),
            node.lines_spec().len() as int,
            gates,
            occ,
            stackv,
            fuel,
        ),
    ensures
        cur == scan_model(
            src,
            flags,
            pname,
            linesv,
            i + 1,
            node_flat(node),
            node_orig(node),
            node.lines_spec().len() as int,
            gates,
            occ,
            stackv,
            fuel,
        ),
{
}

} // verus!
