use vstd::prelude::*;
use crate::chars::{split_lines_spec, trim_end_spec};
use crate::node::{
    Index, Node, node_wf, node_flat, node_orig, seg_lookup, lemma_flat_orig_len,
    lemma_seg_his_bounded, lemma_lookup_misses,
};
use crate::error::ErrorKind;
use crate::model::{RRes, bumped, count_in, resolve_model, scan_model};
use crate::parse::gate::{GateV, all_open};
use crate::scan::{
    is_pragma_line, is_ifdef_line, is_ifraw_line, is_else_line, is_endif_line, is_inc_line,
    inc_lb, inc_matched, inc_target,
};
use crate::source::{Source, ReadOutcome};

verus! {

/// A line that carries no directive at all.
pub open spec fn plain_line(l: Seq<char>) -> bool {
    !is_pragma_line(l) && !is_ifdef_line(l) && !is_ifraw_line(l) && !is_else_line(l)
        && !is_endif_line(l) && !is_inc_line(l)
}

/// Each line, with its trailing white space removed.
pub open spec fn trim_all(ls: Seq<Seq<char>>) -> Seq<Seq<char>> {
    Seq::new(ls.len(), |k: int| trim_end_spec(ls[k]))
}

/// Scanning a stretch of plain lines under an open stack copies each
/// line, trimmed, to the output, attributes it to its own line number,
/// and touches neither the gates nor the occurrence map.
pub proof fn lemma_scan_plain<S: Source>(
    src: &S,
    flags: Map<Seq<char>, bool>,
    path: Seq<char>,
    lines: Seq<Seq<char>>,
    i: int,
    out: Seq<Seq<char>>,
    orig: Seq<(Seq<char>, int)>,
    slots: int,
    gates: Seq<(GateV, bool)>,
    occ: Map<Seq<char>, int>,
    stack: Seq<Seq<char>>,
    fuel: nat,
)
    requires
        0 <= i <= lines.len(),
        all_open(gates),
        forall|j: int| i <= j < lines.len() ==> plain_line(#[trigger] lines[j]),
    ensures
        scan_model(src, flags, path, lines, i, out, orig, slots, gates, occ, stack, fuel)
            == (RRes::RDone {
            name: path,
            out: out + Seq::new((lines.len() - i) as nat, |k: int| trim_end_spec(lines[i + k])),
            orig: orig + Seq::new((lines.len() - i) as nat, |k: int| (path, slots + k)),
            slots: slots + lines.len() - i,
            occ,
        }),
    decreases lines.len() - i,
{
    if i == lines.len() {
        assert(out + Seq::new(0, |k: int| trim_end_spec(lines[i + k])) =~= out);
        assert(orig + Seq::new(0, |k: int| (path, slots + k)) =~= orig);
    } else {
        lemma_scan_plain(
            src,
            flags,
            path,
            lines,
            i + 1,
            out.push(trim_end_spec(lines[i])),
            orig.push((path, slots)),
            slots + 1,
            gates,
            occ,
            stack,
            fuel,
        );
        assert(out.push(trim_end_spec(lines[i])) + Seq::new(
            (lines.len() - i - 1) as nat,
            |k: int| trim_end_spec(lines[i + 1 + k]),
        ) =~= out + Seq::new((lines.len() - i) as nat, |k: int| trim_end_spec(lines[i + k])));
        assert(orig.push((path, slots)) + Seq::new(
            (lines.len() - i - 1) as nat,
            |k: int| (path, slots + 1 + k),
        ) =~= orig + Seq::new((lines.len() - i) as nat, |k: int| (path, slots + k)));
    }
}

/// Resolving a file whose text carries no directives reproduces the text
/// exactly, except that each line loses its trailing white space: one
/// output line per input line, each attributed to the root file at its
/// own line number.
pub proof fn lemma_plain_round_trip<S: Source>(
    src: &S,
    flags: Map<Seq<char>, bool>,
    path: Seq<char>,
    cpath: Seq<char>,
    text: Seq<char>,
    occ: Map<Seq<char>, int>,
    stack: Seq<Seq<char>>,
    fuel: nat,
)
    requires
        src.read_model(path, None) == (ReadOutcome::Found { path: cpath, text }),
        forall|j: int|
            0 <= j < split_lines_spec(text).len() ==> plain_line(
                #[trigger] split_lines_spec(text)[j],
            ),
        count_in(stack, cpath) < 2,
        fuel >= 1,
    ensures
        resolve_model(src, flags, path, None, occ, stack, fuel) == (RRes::RDone {
            name: cpath,
            out: trim_all(split_lines_spec(text)),
            orig: Seq::new(split_lines_spec(text).len(), |k: int| (cpath, k)),
            slots: split_lines_spec(text).len() as int,
            occ: bumped(occ, cpath),
        }),
{
    let lines = split_lines_spec(text);
    let gates0 = Seq::<(GateV, bool)>::empty();
    assert(all_open(gates0));
    lemma_scan_plain(
        src,
        flags,
        cpath,
        lines,
        0,
        Seq::empty(),
        Seq::empty(),
        0,
        gates0,
        bumped(occ, cpath),
        stack.push(cpath),
        (fuel - 1) as nat,
    );
    assert(Seq::<Seq<char>>::empty() + Seq::new(
        lines.len(),
        |k: int| trim_end_spec(lines[0 + k]),
    ) =~= trim_all(lines));
    assert(Seq::<(Seq<char>, int)>::empty() + Seq::new(lines.len(), |k: int| (cpath, 0 + k))
        =~= Seq::new(lines.len(), |k: int| (cpath, k)));
}

/// Line-count invariant: a resolution that completes yields exactly one
/// line slot of its own for every physical line of the file's text.
pub proof fn lemma_one_slot_per_line<S: Source>(
    src: &S,
    flags: Map<Seq<char>, bool>,
    path: Seq<char>,
    dir: Option<Seq<char>>,
    occ: Map<Seq<char>, int>,
    stack: Seq<Seq<char>>,
    fuel: nat,
)
    requires
        resolve_model(src, flags, path, dir, occ, stack, fuel) is RDone,
    ensures
        src.read_model(path, dir) is Found,
        (resolve_model(src, flags, path, dir, occ, stack, fuel) matches RRes::RDone {
            slots,
            ..
        } && slots == split_lines_spec(src.read_model(path, dir)->Found_text).len()),
{
    match src.read_model(path, dir) {
        ReadOutcome::Found { path: cpath, text } => {
            lemma_scan_slots(
                src,
                flags,
                cpath,
                split_lines_spec(text),
                0,
                Seq::empty(),
                Seq::empty(),
                0,
                Seq::empty(),
                bumped(occ, cpath),
                stack.push(cpath),
                (fuel - 1) as nat,
            );
        },
        _ => {},
    }
}

/// Within one file the scan adds exactly one slot per remaining line,
/// whatever the lines hold, whenever it completes.
pub proof fn lemma_scan_slots<S: Source>(
    src: &S,
    flags: Map<Seq<char>, bool>,
    path: Seq<char>,
    lines: Seq<Seq<char>>,
    i: int,
    out: Seq<Seq<char>>,
    orig: Seq<(Seq<char>, int)>,
    slots: int,
    gates: Seq<(GateV, bool)>,
    occ: Map<Seq<char>, int>,
    stack: Seq<Seq<char>>,
    fuel: nat,
)
    requires
        0 <= i <= lines.len(),
        scan_model(src, flags, path, lines, i, out, orig, slots, gates, occ, stack, fuel)
            is RDone,
    ensures
        (scan_model(src, flags, path, lines, i, out, orig, slots, gates, occ, stack, fuel)
            matches RRes::RDone { slots: s, .. } && s == slots + lines.len() - i),
    decreases fuel, 1nat, lines.len() - i,
{
    if i < lines.len() {
        let line = lines[i];
        let blank_out = out.push(Seq::empty());
        let verbatim_out = out.push(trim_end_spec(line));
        let orig1 = orig.push((path, slots));
        if is_pragma_line(line) {
            if !(occ.contains_key(path) && occ[path] > 1) {
                lemma_scan_slots(
                    src, flags, path, lines, i + 1, blank_out, orig1, slots + 1, gates, occ,
                    stack, fuel,
                );
            }
        } else if is_ifdef_line(line) {
            let name = crate::scan::ifdef_name(line);
            if flags.contains_key(name) {
                let open = !crate::scan::ifdef_neg(line) == flags[name];
                lemma_scan_slots(
                    src,
                    flags,
                    path,
                    lines,
                    i + 1,
                    blank_out,
                    orig1,
                    slots + 1,
                    gates.push((GateV::KnownV { name, open }, false)),
                    occ,
                    stack,
                    fuel,
                );
            } else {
                let gates1 = gates.push((GateV::UnknownV, false));
                let out1 = if all_open(gates1) {
                    verbatim_out
                } else {
                    blank_out
                };
                lemma_scan_slots(
                    src, flags, path, lines, i + 1, out1, orig1, slots + 1, gates1, occ, stack,
                    fuel,
                );
            }
        } else if is_ifraw_line(line) {
            let gates1 = gates.push((GateV::UnknownV, false));
            let out1 = if all_open(gates1) {
                verbatim_out
            } else {
                blank_out
            };
            lemma_scan_slots(
                src, flags, path, lines, i + 1, out1, orig1, slots + 1, gates1, occ, stack,
                fuel,
            );
        } else if is_else_line(line) {
            if !(gates.len() == 0 || gates.last().1) {
                let known = !(gates.last().0 is UnknownV);
                let gates1 = gates.update(
                    gates.len() - 1,
                    (crate::parse::gate::flipped(gates.last().0), true),
                );
                let out1 = if known {
                    blank_out
                } else if all_open(gates1) {
                    verbatim_out
                } else {
                    blank_out
                };
                lemma_scan_slots(
                    src, flags, path, lines, i + 1, out1, orig1, slots + 1, gates1, occ, stack,
                    fuel,
                );
            }
        } else if is_endif_line(line) {
            if gates.len() != 0 {
                let known = !(gates.last().0 is UnknownV);
                let gates1 = gates.drop_last();
                let out1 = if known {
                    blank_out
                } else if all_open(gates1) {
                    verbatim_out
                } else {
                    blank_out
                };
                lemma_scan_slots(
                    src, flags, path, lines, i + 1, out1, orig1, slots + 1, gates1, occ, stack,
                    fuel,
                );
            }
        } else if !all_open(gates) {
            lemma_scan_slots(
                src, flags, path, lines, i + 1, blank_out, orig1, slots + 1, gates, occ, stack,
                fuel,
            );
        } else if is_inc_line(line) {
            if inc_matched(line) && !(inc_lb(line) == '"'
                && crate::chars::parent_dir_spec(path) is None) {
                let dir = if inc_lb(line) == '"' {
                    Some(crate::chars::parent_dir_spec(path)->0)
                } else {
                    None::<Seq<char>>
                };
                match resolve_model(src, flags, inc_target(line), dir, occ, stack, fuel) {
                    RRes::RDone { out: cout, orig: corig, occ: occ2, .. } => {
                        lemma_scan_slots(
                            src,
                            flags,
                            path,
                            lines,
                            i + 1,
                            blank_out + cout,
                            orig1 + corig,
                            slots + 1,
                            gates,
                            occ2,
                            stack,
                            fuel,
                        );
                    },
                    RRes::RSkip { occ: occ2 } => {
                        lemma_scan_slots(
                            src, flags, path, lines, i + 1, blank_out, orig1, slots + 1, gates,
                            occ2, stack, fuel,
                        );
                    },
                    RRes::RFail { .. } => {},
                }
            }
        } else {
            lemma_scan_slots(
                src, flags, path, lines, i + 1, verbatim_out, orig1, slots + 1, gates, occ,
                stack, fuel,
            );
        }
    }
}

/// A conditionally excluded line is never resolved: under a closed gate
/// stack, any line that is not itself a directive — an inclusion line
/// among them — becomes one blank line, and the occurrence map and the
/// rest of the state stand untouched.
pub proof fn lemma_closed_gate_skips_inclusion<S: Source>(
    src: &S,
    flags: Map<Seq<char>, bool>,
    path: Seq<char>,
    lines: Seq<Seq<char>>,
    i: int,
    out: Seq<Seq<char>>,
    orig: Seq<(Seq<char>, int)>,
    slots: int,
    gates: Seq<(GateV, bool)>,
    occ: Map<Seq<char>, int>,
    stack: Seq<Seq<char>>,
    fuel: nat,
)
    requires
        0 <= i < lines.len(),
        !all_open(gates),
        !is_pragma_line(lines[i]),
        !is_ifdef_line(lines[i]),
        !is_ifraw_line(lines[i]),
        !is_else_line(lines[i]),
        !is_endif_line(lines[i]),
    ensures
        scan_model(src, flags, path, lines, i, out, orig, slots, gates, occ, stack, fuel)
            == scan_model(
            src,
            flags,
            path,
            lines,
            i + 1,
            out.push(Seq::empty()),
            orig.push((path, slots)),
            slots + 1,
            gates,
            occ,
            stack,
            fuel,
        ),
{
}

/// Best-effort expansion: under an open stack — undecided gates count as
/// open — an angle inclusion line is resolved, and the scan goes on with
/// whatever that resolution yields: spliced lines, a blank for a
/// discarded repeat, or its failure wrapped with this file and line.
pub proof fn lemma_open_gate_resolves_inclusion<S: Source>(
    src: &S,
    flags: Map<Seq<char>, bool>,
    path: Seq<char>,
    lines: Seq<Seq<char>>,
    i: int,
    out: Seq<Seq<char>>,
    orig: Seq<(Seq<char>, int)>,
    slots: int,
    gates: Seq<(GateV, bool)>,
    occ: Map<Seq<char>, int>,
    stack: Seq<Seq<char>>,
    fuel: nat,
)
    requires
        0 <= i < lines.len(),
        all_open(gates),
        !is_pragma_line(lines[i]),
        !is_ifdef_line(lines[i]),
        !is_ifraw_line(lines[i]),
        !is_else_line(lines[i]),
        !is_endif_line(lines[i]),
        is_inc_line(lines[i]),
        inc_matched(lines[i]),
        inc_lb(lines[i]) == '<',
    ensures
        scan_model(src, flags, path, lines, i, out, orig, slots, gates, occ, stack, fuel)
            == (match resolve_model(src, flags, inc_target(lines[i]), None, occ, stack, fuel) {
            RRes::RDone { out: cout, orig: corig, occ: occ2, .. } => scan_model(
                src,
                flags,
                path,
                lines,
                i + 1,
                out.push(Seq::empty()) + cout,
                orig.push((path, slots)) + corig,
                slots + 1,
                gates,
                occ2,
                stack,
                fuel,
            ),
            RRes::RSkip { occ: occ2 } => scan_model(
                src,
                flags,
                path,
                lines,
                i + 1,
                out.push(Seq::empty()),
                orig.push((path, slots)),
                slots + 1,
                gates,
                occ2,
                stack,
                fuel,
            ),
            RRes::RFail { err, occ: occ2 } => RRes::RFail {
                err: crate::error::errv_wrap(err, path, slots),
                occ: occ2,
            },
        }),
{
}

/// One more entry on the stack raises the count of its own path by one
/// and leaves every other count alone.
pub proof fn lemma_count_in_push(stack: Seq<Seq<char>>, p: Seq<char>, x: Seq<char>)
    ensures
        count_in(stack.push(p), x) == count_in(stack, x) + if p == x {
            1int
        } else {
            0int
        },
{
    assert(stack.push(p).drop_last() =~= stack);
}

/// Mutual inclusion without `#pragma once` fails as detected recursion:
/// two files that each name the other are re-entered once, and the third
/// encounter trips the cycle guard — or the depth budget runs out first,
/// which reports the same failure. Either way the resolution fails with
/// `RecursionDetected`, from any starting state.
pub proof fn lemma_mutual_recursion_detected<S: Source>(
    src: &S,
    flags: Map<Seq<char>, bool>,
    aname: Seq<char>,
    ac: Seq<char>,
    atext: Seq<char>,
    bname: Seq<char>,
    bc: Seq<char>,
    btext: Seq<char>,
    occ: Map<Seq<char>, int>,
    stack: Seq<Seq<char>>,
    fuel: nat,
    start_with_a: bool,
)
    requires
        src.read_model(aname, None) == (ReadOutcome::Found { path: ac, text: atext }),
        src.read_model(bname, None) == (ReadOutcome::Found { path: bc, text: btext }),
        split_lines_spec(atext).len() == 1,
        is_inc_line(split_lines_spec(atext)[0]),
        inc_matched(split_lines_spec(atext)[0]),
        inc_lb(split_lines_spec(atext)[0]) == '<',
        inc_target(split_lines_spec(atext)[0]) == bname,
        split_lines_spec(btext).len() == 1,
        is_inc_line(split_lines_spec(btext)[0]),
        inc_matched(split_lines_spec(btext)[0]),
        inc_lb(split_lines_spec(btext)[0]) == '<',
        inc_target(split_lines_spec(btext)[0]) == aname,
    ensures
        (resolve_model(
            src,
            flags,
            if start_with_a {
                aname
            } else {
                bname
            },
            None,
            occ,
            stack,
            fuel,
        ) matches RRes::RFail { err, .. } && err.kind == ErrorKind::RecursionDetected),
    decreases fuel,
{
    if fuel > 0 {
        let name = if start_with_a {
            aname
        } else {
            bname
        };
        let c = if start_with_a {
            ac
        } else {
            bc
        };
        let text = if start_with_a {
            atext
        } else {
            btext
        };
        let lines = split_lines_spec(text);
        let l0 = lines[0];
        crate::scan::lemma_inc_line_only(l0);
        if count_in(stack, c) < 2 {
            let occ1 = bumped(occ, c);
            let gates0 = Seq::<(GateV, bool)>::empty();
            assert(all_open(gates0));
            lemma_mutual_recursion_detected(
                src,
                flags,
                aname,
                ac,
                atext,
                bname,
                bc,
                btext,
                occ1,
                stack.push(c),
                (fuel - 1) as nat,
                !start_with_a,
            );
            let sub = resolve_model(
                src,
                flags,
                if start_with_a {
                    bname
                } else {
                    aname
                },
                None,
                occ1,
                stack.push(c),
                (fuel - 1) as nat,
            );
            assert(sub is RFail);
            assert(scan_model(
                src,
                flags,
                c,
                lines,
                0,
                Seq::empty(),
                Seq::empty(),
                0,
                gates0,
                occ1,
                stack.push(c),
                (fuel - 1) as nat,
            ) == (RRes::RFail {
                err: crate::error::errv_wrap(sub.err_of(), c, 0),
                occ: sub.occ_of(),
            }));
        }
    }
}

/// `#pragma once`: a file included twice contributes its expansion
/// exactly once; the second inclusion site collapses to a single blank
/// line. Stated for a root that includes the same guarded file at both
/// of its lines; the guarded file holds its pragma line and otherwise
/// plain content.
pub proof fn lemma_pragma_once_dedup<S: Source>(
    src: &S,
    flags: Map<Seq<char>, bool>,
    root: Seq<char>,
    rootc: Seq<char>,
    rtext: Seq<char>,
    hname: Seq<char>,
    hc: Seq<char>,
    htext: Seq<char>,
    occ: Map<Seq<char>, int>,
    fuel: nat,
)
    requires
        src.read_model(root, None) == (ReadOutcome::Found { path: rootc, text: rtext }),
        src.read_model(hname, None) == (ReadOutcome::Found { path: hc, text: htext }),
        split_lines_spec(rtext).len() == 2,
        is_inc_line(split_lines_spec(rtext)[0]),
        inc_matched(split_lines_spec(rtext)[0]),
        inc_lb(split_lines_spec(rtext)[0]) == '<',
        inc_target(split_lines_spec(rtext)[0]) == hname,
        is_inc_line(split_lines_spec(rtext)[1]),
        inc_matched(split_lines_spec(rtext)[1]),
        inc_lb(split_lines_spec(rtext)[1]) == '<',
        inc_target(split_lines_spec(rtext)[1]) == hname,
        split_lines_spec(htext).len() >= 1,
        is_pragma_line(split_lines_spec(htext)[0]),
        forall|j: int|
            1 <= j < split_lines_spec(htext).len() ==> plain_line(
                #[trigger] split_lines_spec(htext)[j],
            ),
        !occ.contains_key(hc),
        rootc != hc,
        fuel >= 2,
    ensures
        ({
            let hlines = split_lines_spec(htext);
            let hout = seq![Seq::<char>::empty()] + trim_all(hlines.skip(1));
            let horig = Seq::new(hlines.len(), |k: int| (hc, k));
            resolve_model(src, flags, root, None, occ, Seq::empty(), fuel) == (RRes::RDone {
                name: rootc,
                out: seq![Seq::<char>::empty()] + hout + seq![Seq::<char>::empty()],
                orig: seq![(rootc, 0int)] + horig + seq![(rootc, 1int)],
                slots: 2,
                occ: bumped(bumped(bumped(occ, rootc), hc), hc),
            })
        }),
{
    let rlines = split_lines_spec(rtext);
    let hlines = split_lines_spec(htext);
    let occ1 = bumped(occ, rootc);
    let occ2 = bumped(occ1, hc);
    let occ3 = bumped(occ2, hc);
    let gates0 = Seq::<(GateV, bool)>::empty();
    let stack1 = Seq::<Seq<char>>::empty().push(rootc);
    assert(all_open(gates0));
    crate::scan::lemma_inc_line_only(rlines[0]);
    crate::scan::lemma_inc_line_only(rlines[1]);
    assert(count_in(Seq::<Seq<char>>::empty(), rootc) == 0);
    lemma_count_in_push(Seq::<Seq<char>>::empty(), rootc, hc);
    assert(count_in(stack1, hc) == 0);
    // First inclusion of the guarded file: its pragma line sees a count
    // of one and lets the scan go on over the plain remainder.
    assert(!occ1.contains_key(hc));
    assert(occ2.contains_key(hc) && occ2[hc] == 1);
    let hscan1 = scan_model(
        src,
        flags,
        hc,
        hlines,
        0,
        Seq::empty(),
        Seq::empty(),
        0,
        gates0,
        occ2,
        stack1.push(hc),
        (fuel - 2) as nat,
    );
    lemma_scan_plain(
        src,
        flags,
        hc,
        hlines,
        1,
        Seq::empty().push(Seq::<char>::empty()),
        Seq::empty().push((hc, 0int)),
        1,
        gates0,
        occ2,
        stack1.push(hc),
        (fuel - 2) as nat,
    );
    let hout = seq![Seq::<char>::empty()] + trim_all(hlines.skip(1));
    let horig = Seq::new(hlines.len(), |k: int| (hc, k));
    assert(Seq::empty().push(Seq::<char>::empty()) + Seq::new(
        (hlines.len() - 1) as nat,
        |k: int| trim_end_spec(hlines[1 + k]),
    ) =~= hout) by {
        assert(forall|k: int|
            0 <= k < hlines.len() - 1 ==> hlines.skip(1)[k] == hlines[1 + k]);
        assert(trim_all(hlines.skip(1)).len() == hlines.len() - 1);
        assert(forall|k: int|
            0 <= k < hlines.len() - 1 ==> trim_all(hlines.skip(1))[k] == trim_end_spec(
                hlines[1 + k],
            ));
    }
    assert(Seq::empty().push((hc, 0int)) + Seq::new(
        (hlines.len() - 1) as nat,
        |k: int| (hc, 1 + k),
    ) =~= horig);
    assert(hscan1 == (RRes::RDone {
        name: hc,
        out: hout,
        orig: horig,
        slots: hlines.len() as int,
        occ: occ2,
    }));
    let sub1 = resolve_model(src, flags, hname, None, occ1, stack1, (fuel - 1) as nat);
    assert(sub1 == hscan1);
    // Second inclusion: the count is now two, so the pragma line
    // discards the repeat.
    assert(occ3.contains_key(hc) && occ3[hc] == 2);
    let sub2 = resolve_model(src, flags, hname, None, occ2, stack1, (fuel - 1) as nat);
    assert(sub2 == (RRes::RSkip { occ: occ3 }));
    // The root's two lines, assembled.
    let out1 = Seq::<Seq<char>>::empty().push(Seq::<char>::empty()) + hout;
    let orig1 = Seq::<(Seq<char>, int)>::empty().push((rootc, 0int)) + horig;
    let rscan2 = scan_model(
        src,
        flags,
        rootc,
        rlines,
        2,
        out1.push(Seq::<char>::empty()),
        orig1.push((rootc, 1int)),
        2,
        gates0,
        occ3,
        stack1,
        (fuel - 1) as nat,
    );
    assert(rscan2 == (RRes::RDone {
        name: rootc,
        out: out1.push(Seq::<char>::empty()),
        orig: orig1.push((rootc, 1int)),
        slots: 2,
        occ: occ3,
    }));
    assert(out1.push(Seq::<char>::empty()) =~= seq![Seq::<char>::empty()] + hout + seq![
        Seq::<char>::empty(),
    ]);
    assert(orig1.push((rootc, 1int)) =~= seq![(rootc, 0int)] + horig + seq![(rootc, 1int)]);
    assert(count_in(Seq::<Seq<char>>::empty(), rootc) < 2);
    // Chain the root's own scan through its two lines.
    let rscan1 = scan_model(
        src, flags, rootc, rlines, 1, out1, orig1, 1, gates0, occ2, stack1,
        (fuel - 1) as nat,
    );
    assert(rscan1 == rscan2);
    let rscan0 = scan_model(
        src,
        flags,
        rootc,
        rlines,
        0,
        Seq::empty(),
        Seq::empty(),
        0,
        gates0,
        occ1,
        stack1,
        (fuel - 1) as nat,
    );
    assert(Seq::<Seq<char>>::empty().push(Seq::<char>::empty()) + hout == out1);
    assert(Seq::<(Seq<char>, int)>::empty().push((rootc, 0int)) + horig == orig1);
    assert(rscan0 == rscan1);
    assert(resolve_model(src, flags, root, None, occ, Seq::empty(), fuel) == rscan0);
}

/// Mutual inclusion where both files declare `#pragma once` succeeds:
/// each file is expanded once, and each inclusion site of an already
/// present file contributes one blank line per line slot — here four
/// blank lines in all.
pub proof fn lemma_mutual_pragma_once_resolves<S: Source>(
    src: &S,
    flags: Map<Seq<char>, bool>,
    aname: Seq<char>,
    ac: Seq<char>,
    atext: Seq<char>,
    bname: Seq<char>,
    bc: Seq<char>,
    btext: Seq<char>,
    occ: Map<Seq<char>, int>,
    fuel: nat,
)
    requires
        src.read_model(aname, None) == (ReadOutcome::Found { path: ac, text: atext }),
        src.read_model(bname, None) == (ReadOutcome::Found { path: bc, text: btext }),
        split_lines_spec(atext).len() == 2,
        is_pragma_line(split_lines_spec(atext)[0]),
        is_inc_line(split_lines_spec(atext)[1]),
        inc_matched(split_lines_spec(atext)[1]),
        inc_lb(split_lines_spec(atext)[1]) == '<',
        inc_target(split_lines_spec(atext)[1]) == bname,
        split_lines_spec(btext).len() == 2,
        is_pragma_line(split_lines_spec(btext)[0]),
        is_inc_line(split_lines_spec(btext)[1]),
        inc_matched(split_lines_spec(btext)[1]),
        inc_lb(split_lines_spec(btext)[1]) == '<',
        inc_target(split_lines_spec(btext)[1]) == aname,
        !occ.contains_key(ac),
        !occ.contains_key(bc),
        ac != bc,
        fuel >= 3,
    ensures
        resolve_model(src, flags, aname, None, occ, Seq::empty(), fuel) == (RRes::RDone {
            name: ac,
            out: seq![
                Seq::<char>::empty(),
                Seq::<char>::empty(),
                Seq::<char>::empty(),
                Seq::<char>::empty(),
            ],
            orig: seq![(ac, 0int), (ac, 1int), (bc, 0int), (bc, 1int)],
            slots: 2,
            occ: bumped(bumped(bumped(occ, ac), bc), ac),
        }),
{
    let alines = split_lines_spec(atext);
    let blines = split_lines_spec(btext);
    let e = Seq::<char>::empty();
    let gates0 = Seq::<(GateV, bool)>::empty();
    let occ1 = bumped(occ, ac);
    let occ2 = bumped(occ1, bc);
    let occ3 = bumped(occ2, ac);
    let stack0 = Seq::<Seq<char>>::empty();
    let stack1 = stack0.push(ac);
    let stack2 = stack1.push(bc);
    assert(all_open(gates0));
    crate::scan::lemma_inc_line_only(alines[1]);
    crate::scan::lemma_inc_line_only(blines[1]);
    assert(count_in(stack0, ac) == 0);
    lemma_count_in_push(stack0, ac, bc);
    assert(count_in(stack1, bc) == 0);
    lemma_count_in_push(stack0, ac, ac);
    lemma_count_in_push(stack1, bc, ac);
    assert(count_in(stack2, ac) == 1);
    assert(occ1.contains_key(ac) && occ1[ac] == 1);
    assert(occ2.contains_key(bc) && occ2[bc] == 1);
    assert(occ3.contains_key(ac) && occ3[ac] == 2);
    // Innermost: resolving the first file again, now counted twice, is
    // discarded by its pragma line.
    let ascan2 = scan_model(
        src, flags, ac, alines, 0, Seq::empty(), Seq::empty(), 0, gates0, occ3,
        stack2.push(ac), (fuel - 3) as nat,
    );
    assert(ascan2 == (RRes::RSkip { occ: occ3 }));
    let sub_a = resolve_model(src, flags, aname, None, occ2, stack2, (fuel - 2) as nat);
    assert(sub_a == (RRes::RSkip { occ: occ3 }));
    // The second file: pragma slot, then a blank for the discarded
    // repeat of the first.
    let bscan_i2 = scan_model(
        src,
        flags,
        bc,
        blines,
        2,
        Seq::empty().push(e).push(e),
        Seq::empty().push((bc, 0int)).push((bc, 1int)),
        2,
        gates0,
        occ3,
        stack2,
        (fuel - 2) as nat,
    );
    assert(bscan_i2 == (RRes::RDone {
        name: bc,
        out: Seq::empty().push(e).push(e),
        orig: Seq::empty().push((bc, 0int)).push((bc, 1int)),
        slots: 2,
        occ: occ3,
    }));
    let bscan_i1 = scan_model(
        src, flags, bc, blines, 1, Seq::empty().push(e), Seq::empty().push((bc, 0int)), 1,
        gates0, occ2, stack2, (fuel - 2) as nat,
    );
    assert(bscan_i1 == bscan_i2);
    let bscan_i0 = scan_model(
        src, flags, bc, blines, 0, Seq::empty(), Seq::empty(), 0, gates0, occ2, stack2,
        (fuel - 2) as nat,
    );
    assert(bscan_i0 == bscan_i1);
    let sub_b = resolve_model(src, flags, bname, None, occ1, stack1, (fuel - 1) as nat);
    assert(sub_b == bscan_i0);
    // The first file: pragma slot, inclusion slot, then the second
    // file's two blank lines spliced in.
    let bout = Seq::empty().push(e).push(e);
    let borig = Seq::empty().push((bc, 0int)).push((bc, 1int));
    let aout1 = Seq::<Seq<char>>::empty().push(e);
    let aorig1 = Seq::<(Seq<char>, int)>::empty().push((ac, 0int));
    let ascan_i2 = scan_model(
        src,
        flags,
        ac,
        alines,
        2,
        aout1.push(e) + bout,
        aorig1.push((ac, 1int)) + borig,
        2,
        gates0,
        occ3,
        stack1,
        (fuel - 1) as nat,
    );
    assert(ascan_i2 == (RRes::RDone {
        name: ac,
        out: aout1.push(e) + bout,
        orig: aorig1.push((ac, 1int)) + borig,
        slots: 2,
        occ: occ3,
    }));
    let ascan_i1 = scan_model(
        src, flags, ac, alines, 1, aout1, aorig1, 1, gates0, occ1, stack1, (fuel - 1) as nat,
    );
    assert(ascan_i1 == ascan_i2);
    let ascan_i0 = scan_model(
        src, flags, ac, alines, 0, Seq::empty(), Seq::empty(), 0, gates0, occ1, stack1,
        (fuel - 1) as nat,
    );
    assert(ascan_i0 == ascan_i1);
    assert(resolve_model(src, flags, aname, None, occ, stack0, fuel) == ascan_i0);
    assert(aout1.push(e) + bout =~= seq![e, e, e, e]);
    assert(aorig1.push((ac, 1int)) + borig =~= seq![(ac, 0int), (ac, 1int), (bc, 0int), (bc, 1int)]);
}

/// An untaken known branch collapses: under a closed stack a stretch of
/// plain lines becomes one blank line each, still attributed to its own
/// line number, with nothing resolved.
pub proof fn lemma_scan_plain_closed<S: Source>(
    src: &S,
    flags: Map<Seq<char>, bool>,
    path: Seq<char>,
    lines: Seq<Seq<char>>,
    i: int,
    out: Seq<Seq<char>>,
    orig: Seq<(Seq<char>, int)>,
    slots: int,
    gates: Seq<(GateV, bool)>,
    occ: Map<Seq<char>, int>,
    stack: Seq<Seq<char>>,
    fuel: nat,
)
    requires
        0 <= i <= lines.len(),
        !all_open(gates),
        forall|j: int|
            i <= j < lines.len() ==> !is_pragma_line(#[trigger] lines[j]) && !is_ifdef_line(
                lines[j],
            ) && !is_ifraw_line(lines[j]) && !is_else_line(lines[j]) && !is_endif_line(
                lines[j],
            ),
    ensures
        scan_model(src, flags, path, lines, i, out, orig, slots, gates, occ, stack, fuel)
            == (RRes::RDone {
            name: path,
            out: out + Seq::new((lines.len() - i) as nat, |k: int| Seq::<char>::empty()),
            orig: orig + Seq::new((lines.len() - i) as nat, |k: int| (path, slots + k)),
            slots: slots + lines.len() - i,
            occ,
        }),
    decreases lines.len() - i,
{
    if i == lines.len() {
        assert(out + Seq::new(0, |k: int| Seq::<char>::empty()) =~= out);
        assert(orig + Seq::new(0, |k: int| (path, slots + k)) =~= orig);
    } else {
        lemma_scan_plain_closed(
            src,
            flags,
            path,
            lines,
            i + 1,
            out.push(Seq::empty()),
            orig.push((path, slots)),
            slots + 1,
            gates,
            occ,
            stack,
            fuel,
        );
        assert(out.push(Seq::<char>::empty()) + Seq::new(
            (lines.len() - i - 1) as nat,
            |k: int| Seq::<char>::empty(),
        ) =~= out + Seq::new((lines.len() - i) as nat, |k: int| Seq::<char>::empty()));
        assert(orig.push((path, slots)) + Seq::new(
            (lines.len() - i - 1) as nat,
            |k: int| (path, slots + 1 + k),
        ) =~= orig + Seq::new((lines.len() - i) as nat, |k: int| (path, slots + k)));
    }
}

/// An undecided condition is kept for a later tool: an `#ifdef` whose
/// flag is unknown leaves its directive line verbatim — trimmed like any
/// stored line — while the stack stays open.
pub proof fn lemma_unknown_gate_verbatim<S: Source>(
    src: &S,
    flags: Map<Seq<char>, bool>,
    path: Seq<char>,
    lines: Seq<Seq<char>>,
    i: int,
    out: Seq<Seq<char>>,
    orig: Seq<(Seq<char>, int)>,
    slots: int,
    gates: Seq<(GateV, bool)>,
    occ: Map<Seq<char>, int>,
    stack: Seq<Seq<char>>,
    fuel: nat,
)
    requires
        0 <= i < lines.len(),
        all_open(gates),
        !is_pragma_line(lines[i]),
        is_ifdef_line(lines[i]),
        !flags.contains_key(crate::scan::ifdef_name(lines[i])),
    ensures
        all_open(gates.push((GateV::UnknownV, false))),
        scan_model(src, flags, path, lines, i, out, orig, slots, gates, occ, stack, fuel)
            == scan_model(
            src,
            flags,
            path,
            lines,
            i + 1,
            out.push(trim_end_spec(lines[i])),
            orig.push((path, slots)),
            slots + 1,
            gates.push((GateV::UnknownV, false)),
            occ,
            stack,
            fuel,
        ),
{
    let gates1 = gates.push((GateV::UnknownV, false));
    assert(all_open(gates1)) by {
        assert(forall|k: int| 0 <= k < gates.len() ==> gates1[k] == gates[k]);
        assert(crate::parse::gate::gate_open(gates1[gates1.len() - 1].0));
    }
}

/// Index round trip: an index that covers a flattened tree — as the one
/// `collect` builds does, by its contract — attributes every output line
/// to exactly the file and local line that produced it, and misses for
/// any position past the end of the output.
pub proof fn lemma_index_round_trip(n: Node, idx: Index, pos: int)
    requires
        node_wf(n),
        idx.wf(),
        idx.size_spec() == node_flat(n).len(),
        forall|k: int|
            0 <= k < node_flat(n).len() ==> seg_lookup(idx@, k) == Some(node_orig(n)[k]),
        0 <= pos,
    ensures
        node_orig(n).len() == node_flat(n).len(),
        pos < node_flat(n).len() ==> seg_lookup(idx@, pos) == Some(node_orig(n)[pos]),
        pos >= node_flat(n).len() ==> seg_lookup(idx@, pos) is None,
{
    lemma_flat_orig_len(n);
    if pos >= node_flat(n).len() {
        lemma_seg_his_bounded(idx@, 0, idx.size_spec());
        lemma_lookup_misses(idx@, 0, pos);
    }
}

} // verus!
