use vstd::prelude::*;
use crate::chars::{split_lines_spec, trim_end_spec, parent_dir_spec};
use crate::error::{ErrV, ErrorKind, errv, errv_wrap};
use crate::parse::gate::{GateV, all_open, flipped};
use crate::scan::{
    is_pragma_line, is_ifdef_line, ifdef_neg, ifdef_name, is_ifraw_line, is_else_line,
    is_endif_line, is_inc_line, inc_lb, inc_matched, inc_target,
};
use crate::source::{Source, ReadOutcome};

verus! {

/// What resolving one file comes to: its flattened output lines with
/// their origins and its own slot count; a skip, when a repeated
/// `#pragma once` discards the file; or a failure. In every case the
/// occurrence map as it stands afterwards.
pub enum RRes {
    RDone {
        name: Seq<char>,
        out: Seq<Seq<char>>,
        orig: Seq<(Seq<char>, int)>,
        slots: int,
        occ: Map<Seq<char>, int>,
    },
    RSkip { occ: Map<Seq<char>, int> },
    RFail { err: ErrV, occ: Map<Seq<char>, int> },
}

impl RRes {
    pub open spec fn occ_of(self) -> Map<Seq<char>, int> {
        match self {
            RRes::RDone { occ, .. } => occ,
            RRes::RSkip { occ } => occ,
            RRes::RFail { occ, .. } => occ,
        }
    }

    /// The error of a failed resolution.
    pub open spec fn err_of(self) -> ErrV {
        match self {
            RRes::RFail { err, .. } => err,
            _ => errv(ErrorKind::NotFound),
        }
    }
}

/// The occurrence count after one more read of `k`; at the machine's
/// limit the count stays put, which preserves the only fact the scanner
/// asks of it, whether it exceeds one.
pub open spec fn bumped(m: Map<Seq<char>, int>, k: Seq<char>) -> Map<Seq<char>, int> {
    if m.contains_key(k) {
        m.insert(
            k,
            if m[k] < usize::MAX {
                m[k] + 1
            } else {
                m[k]
            },
        )
    } else {
        m.insert(k, 1)
    }
}

/// How many times a path stands on the live resolution stack.
pub open spec fn count_in(stack: Seq<Seq<char>>, p: Seq<char>) -> int
    decreases stack.len(),
{
    if stack.len() == 0 {
        0
    } else {
        count_in(stack.drop_last(), p) + if stack.last() == p {
            1int
        } else {
            0int
        }
    }
}

/// Resolution of one file: read it, count the read, guard against
/// cycles — tolerating one re-entry, failing on the third encounter —
/// and scan its lines. The fuel bounds the depth of the descent; when it
/// runs out the resolution fails as a detected recursion.
pub open spec fn resolve_model<S: Source>(
    src: &S,
    flags: Map<Seq<char>, bool>,
    path: Seq<char>,
    dir: Option<Seq<char>>,
    occ: Map<Seq<char>, int>,
    stack: Seq<Seq<char>>,
    fuel: nat,
) -> RRes
    decreases fuel, 0nat, 0nat,
{
    if fuel == 0 {
        RRes::RFail { err: errv(ErrorKind::RecursionDetected), occ }
    } else {
        match src.read_model(path, dir) {
            ReadOutcome::Absent => RRes::RFail { err: errv(ErrorKind::NotFound), occ },
            ReadOutcome::Failed { kind } => RRes::RFail { err: errv(kind), occ },
            ReadOutcome::Found { path: cpath, text } => {
                let occ1 = bumped(occ, cpath);
                if count_in(stack, cpath) >= 2 {
                    RRes::RFail { err: errv(ErrorKind::RecursionDetected), occ: occ1 }
                } else {
                    scan_model(
                        src,
                        flags,
                        cpath,
                        split_lines_spec(text),
                        0,
                        Seq::empty(),
                        Seq::empty(),
                        0,
                        Seq::empty(),
                        occ1,
                        stack.push(cpath),
                        (fuel - 1) as nat,
                    )
                }
            },
        }
    }
}

/// The line-by-line scan of one file under its gate stack, accumulating
/// flattened output lines and their origins. Every input line yields
/// exactly one line slot of its own; a resolved inclusion splices the
/// child's lines after the slot.
pub open spec fn scan_model<S: Source>(
    src: &S,
    flags: Map<Seq<char>, bool>,
    path: Seq<char>,
    lines: Seq<Seq<char>>,
    i: int,
    out: Seq<Seq<char>>,
    orig: Seq<(Seq<char>, int)>,
    slots: int,
    gates: Seq<(GateV, bool)>,
    occ: Map<Seq<char>, int>,
    stack: Seq<Seq<char>>,
    fuel: nat,
) -> RRes
    decreases fuel, 1nat, lines.len() - i,
{
    if i < 0 || i >= lines.len() {
        RRes::RDone { name: path, out, orig, slots, occ }
    } else {
        let line = lines[i];
        let blank_out = out.push(Seq::empty());
        let verbatim_out = out.push(trim_end_spec(line));
        let orig1 = orig.push((path, slots));
        if is_pragma_line(line) {
            if occ.contains_key(path) && occ[path] > 1 {
                RRes::RSkip { occ }
            } else {
                scan_model(
                    src, flags, path, lines, i + 1, blank_out, orig1, slots + 1, gates, occ,
                    stack, fuel,
                )
            }
        } else if is_ifdef_line(line) {
            let name = ifdef_name(line);
            if flags.contains_key(name) {
                let open = !ifdef_neg(line) == flags[name];
                let gates1 = gates.push((GateV::KnownV { name, open }, false));
                scan_model(
                    src, flags, path, lines, i + 1, blank_out, orig1, slots + 1, gates1, occ,
                    stack, fuel,
                )
            } else {
                let gates1 = gates.push((GateV::UnknownV, false));
                let out1 = if all_open(gates1) {
                    verbatim_out
                } else {
                    blank_out
                };
                scan_model(
                    src, flags, path, lines, i + 1, out1, orig1, slots + 1, gates1, occ, stack,
                    fuel,
                )
            }
        } else if is_ifraw_line(line) {
            let gates1 = gates.push((GateV::UnknownV, false));
            let out1 = if all_open(gates1) {
                verbatim_out
            } else {
                blank_out
            };
            scan_model(
                src, flags, path, lines, i + 1, out1, orig1, slots + 1, gates1, occ, stack,
                fuel,
            )
        } else if is_else_line(line) {
            if gates.len() == 0 || gates.last().1 {
                RRes::RFail { err: errv(ErrorKind::UnbalancedDirective), occ }
            } else {
                let known = !(gates.last().0 is UnknownV);
                let gates1 = gates.update(gates.len() - 1, (flipped(gates.last().0), true));
                let out1 = if known {
                    blank_out
                } else if all_open(gates1) {
                    verbatim_out
                } else {
                    blank_out
                };
                scan_model(
                    src, flags, path, lines, i + 1, out1, orig1, slots + 1, gates1, occ, stack,
                    fuel,
                )
            }
        } else if is_endif_line(line) {
            if gates.len() == 0 {
                RRes::RFail { err: errv(ErrorKind::UnbalancedDirective), occ }
            } else {
                let known = !(gates.last().0 is UnknownV);
                let gates1 = gates.drop_last();
                let out1 = if known {
                    blank_out
                } else if all_open(gates1) {
                    verbatim_out
                } else {
                    blank_out
                };
                scan_model(
                    src, flags, path, lines, i + 1, out1, orig1, slots + 1, gates1, occ, stack,
                    fuel,
                )
            }
        } else if !all_open(gates) {
            scan_model(
                src, flags, path, lines, i + 1, blank_out, orig1, slots + 1, gates, occ, stack,
                fuel,
            )
        } else if is_inc_line(line) {
            if !inc_matched(line) {
                RRes::RFail { err: errv_wrap(errv(ErrorKind::InvalidData), path, slots), occ }
            } else if inc_lb(line) == '"' && parent_dir_spec(path) is None {
                RRes::RFail { err: errv_wrap(errv(ErrorKind::InvalidData), path, slots), occ }
            } else {
                let dir = if inc_lb(line) == '"' {
                    Some(parent_dir_spec(path)->0)
                } else {
                    None
                };
                match resolve_model(src, flags, inc_target(line), dir, occ, stack, fuel) {
                    RRes::RDone { out: cout, orig: corig, occ: occ2, .. } => scan_model(
                        src,
                        flags,
                        path,
                        lines,
                        i + 1,
                        blank_out + cout,
                        orig1 + corig,
                        slots + 1,
                        gates,
                        occ2,
                        stack,
                        fuel,
                    ),
                    RRes::RSkip { occ: occ2 } => scan_model(
                        src, flags, path, lines, i + 1, blank_out, orig1, slots + 1, gates,
                        occ2, stack, fuel,
                    ),
                    RRes::RFail { err, occ: occ2 } => RRes::RFail {
                        err: errv_wrap(err, path, slots),
                        occ: occ2,
                    },
                }
            }
        } else {
            scan_model(
                src, flags, path, lines, i + 1, verbatim_out, orig1, slots + 1, gates, occ,
                stack, fuel,
            )
        }
    }
}

} // verus!
