//! What the optional traces show.

use crate::auth_gate;
use crate::debug;
use crate::debug::DefinitionView;
use crate::evaluation::SinkView;
use crate::gating;
use crate::graph;
use crate::laws;
use crate::laws::comparisons;
use crate::laws::flows;
use crate::laws::guards;
use crate::laws::paths;
use crate::mir::{Assign, Body, Call, DefId, Local, Program, Statement, Terminator};
use crate::mir_util;
use crate::report;
use crate::sender_comparisons::ComparisonView;
use crate::taint;
use crate::text;
use vstd::prelude::*;

verus! {

/// A definition of a local is what some point writes to it: an assignment by its
/// text, with the locals that it depends on, or a call by its target, with its
/// arguments.
pub open spec fn is_definition(body: Body, local: Local, definition: DefinitionView) -> bool {
    ||| exists|block: int, k: int, assign: Assign| #[trigger]
        laws::assigns(body, block, k, assign) && assign.place.local == local
            && definition.description == assign.text@ && forall|l: Local| #[trigger]
            definition.reads.contains(l) <==> flows::uses(assign.rvalue, l)
    ||| exists|block: int, call: Call| #[trigger]
        laws::ends_in(body, block, call) && call.destination.local == local
            && definition.description == "call "@ + call.func_text@ && forall|l: Local| #[trigger]
            definition.reads.contains(l) <==> passes_argument(call, l)
}

/// A call has a local among its arguments.
pub open spec fn passes_argument(call: Call, local: Local) -> bool {
    exists|i: int| 0 <= i < call.args@.len() && laws::reads(#[trigger] call.args@[i], local)
}

proof fn lemma_definition_at(body: Body, local: Local, block: int, k: int)
    requires
        guards::is_point(body, block, k),
    ensures
        debug::definition_at(body, local, block, k) matches Some(definition) ==> is_definition(
            body,
            local,
            definition,
        ),
{
    let data = body.basic_blocks@[block];
    if k < data.statements@.len() {
        if let Statement::Assign(assign) = data.statements@[k] {
            assert(laws::assigns(body, block, k, assign));
            assert forall|l: Local| #[trigger] mir_util::rvalue_reads(assign.rvalue).contains(l)
                <==> flows::uses(assign.rvalue, l) by {
                flows::lemma_uses(assign.rvalue, l);
            }
        }
    } else {
        if let Terminator::Call(call) = data.terminator {
            assert(laws::ends_in(body, block, call));
            assert forall|l: Local| #[trigger] mir_util::read_locals(call.args@).contains(l)
                <==> passes_argument(call, l) by {
                mir_util::lemma_read_locals(call.args@, l);
                if passes_argument(call, l) {
                    let i = choose|i: int|
                        0 <= i < call.args@.len() && laws::reads(#[trigger] call.args@[i], l);
                    assert(mir_util::local_of(call.args@[i]) == Some(l));
                }
                if mir_util::read_locals(call.args@).contains(l) {
                    let i = choose|i: int|
                        0 <= i < call.args@.len() && mir_util::local_of(#[trigger] call.args@[i])
                            == Some(l);
                    assert(laws::reads(call.args@[i], l));
                }
            }
        }
    }
}

proof fn lemma_definitions(body: Body, local: Local, block: nat, k: nat, i: int)
    requires
        block <= body.basic_blocks@.len(),
        k > 0 ==> block < body.basic_blocks@.len() && k
            <= body.basic_blocks@[block as int].statements@.len() + 1,
        0 <= i < debug::definitions_before(body, local, block, k).len(),
    ensures
        is_definition(body, local, debug::definitions_before(body, local, block, k)[i]),
    decreases block, k,
{
    if k > 0 {
        let before = debug::definitions_before(body, local, block, (k - 1) as nat);
        lemma_definition_at(body, local, block as int, k - 1);
        if i < before.len() {
            lemma_definitions(body, local, block, (k - 1) as nat, i);
        }
    } else if block > 0 {
        lemma_definitions(
            body,
            local,
            (block - 1) as nat,
            body.basic_blocks@[block - 1].statements@.len() + 1,
            i,
        );
    }
}

proof fn lemma_is_listed(body: Body, local: Local, block: nat, k: nat, b: int, j: int)
    requires
        block <= body.basic_blocks@.len(),
        k > 0 ==> block < body.basic_blocks@.len() && k
            <= body.basic_blocks@[block as int].statements@.len() + 1,
        guards::is_point(body, b, j),
        b < block || (b == block && j < k),
        debug::definition_at(body, local, b, j) is Some,
    ensures
        debug::definitions_before(body, local, block, k).contains(
            debug::definition_at(body, local, b, j)->0,
        ),
    decreases block, k,
{
    let one = debug::definition_at(body, local, b, j)->0;
    if k > 0 {
        let before = debug::definitions_before(body, local, block, (k - 1) as nat);
        if b == block && j == k - 1 {
            graph::lemma_push_contains(before, one, one);
        } else {
            lemma_is_listed(body, local, block, (k - 1) as nat, b, j);
            if let Some(last) = debug::definition_at(body, local, block as int, k - 1) {
                graph::lemma_push_contains(before, last, one);
            }
        }
    } else {
        lemma_is_listed(
            body,
            local,
            (block - 1) as nat,
            body.basic_blocks@[block - 1].statements@.len() + 1,
            b,
            j,
        );
    }
}

/// The definitions of a local that a trace shows are writes to it; every assignment
/// to it and every call that returns into it is among them.
pub proof fn law_definitions_are_the_writes(
    body: Body,
    local: Local,
    i: int,
    block: int,
    k: int,
    assign: Assign,
    call: Call,
)
    ensures
        0 <= i < debug::definitions_of(body, local).len() ==> is_definition(
            body,
            local,
            debug::definitions_of(body, local)[i],
        ),
        laws::assigns(body, block, k, assign) && assign.place.local == local ==> exists|m: int|
            0 <= m < debug::definitions_of(body, local).len() && (#[trigger] debug::definitions_of(
                body,
                local,
            )[m]).description == assign.text@,
        laws::ends_in(body, block, call) && call.destination.local == local ==> exists|m: int|
            0 <= m < debug::definitions_of(body, local).len() && (#[trigger] debug::definitions_of(
                body,
                local,
            )[m]).description == "call "@ + call.func_text@,
{
    let n = body.basic_blocks@.len();
    let all = debug::definitions_of(body, local);
    if 0 <= i < all.len() {
        lemma_definitions(body, local, n, 0, i);
    }
    if laws::assigns(body, block, k, assign) && assign.place.local == local {
        lemma_is_listed(body, local, n, 0, block, k);
        let one = debug::definition_at(body, local, block, k)->0;
        let m = choose|m: int| 0 <= m < all.len() && all[m] == one;
        assert(all[m].description == assign.text@);
    }
    if laws::ends_in(body, block, call) && call.destination.local == local {
        let end = body.basic_blocks@[block].statements@.len() as int;
        lemma_is_listed(body, local, n, 0, block, end);
        let one = debug::definition_at(body, local, block, end)->0;
        let m = choose|m: int| 0 <= m < all.len() && all[m] == one;
        assert(all[m].description == "call "@ + call.func_text@);
    }
}

/// The trace of a write begins by saying whether the stored value is tainted, and by
/// what, or else what was taken for input; the stored value itself comes next, marked
/// where it is tainted.
pub proof fn law_trace_of_a_write(
    program: Program,
    body: Body,
    sources: Map<usize, Local>,
    sink: SinkView,
    call: Call,
    value: Local,
)
    requires
        laws::ends_in(body, sink.location.block as int, call),
        call.args@.len() > 0,
        laws::reads(call.args@[call.args@.len() - 1], value),
        value < body.local_decls@.len(),
    ensures
        ({
            let lines = debug::sink_trace(program, body, sources, sink);
            let place = sink.symbolic_name + " @ "@ + mir_util::location_text(sink.location)
                + ": value="@ + mir_util::local_text(value);
            &&& lines.len() > 1
            &&& sources.contains_key(value) ==> lines[0] == "\t[dbg] TAINTED sink "@ + place
                + "  origin="@ + mir_util::local_text(sources[value]) + " : "@
                + taint::origin_ty_text(program, body, sources[value])
            &&& !sources.contains_key(value) ==> lines[0] == "\t[dbg] UNTAINTED sink "@ + place
                + "  seed=["@ + debug::locals_text(
                report::members(taint::address_seeds(program, body), body.local_decls@.len()),
            ) + "]"@
            &&& comparisons::starts_with(
                lines[1],
                "\t[dbg"@ + (if sources.contains_key(value) {
                    "T"@
                } else {
                    " "@
                }) + "] "@ + ""@ + mir_util::local_text(value),
            )
        }),
{
    let lines = debug::sink_trace(program, body, sources, sink);
    let tainted = sources.dom();
    assert(taint::data_of(call) == Some(value));
    let stack = seq![(value, 0usize)];
    let trace = debug::value_trace(body, tainted, value);
    let front = debug::hop_text(tainted, value, 0);
    let definitions = debug::definitions_of(body, value);
    let hop = debug::hop_lines(body, tainted, value, 0);
    assert(stack.last() == (value, 0usize));
    assert(hop.len() > 0);
    assert(trace.len() > 0 && trace[0] == hop[0]);
    assert(lines[1] == trace[0]);
    if definitions.len() == 0 {
        lemma_starts(front, " (parameter or undefined)"@);
    } else {
        let one = definitions[0];
        let rest = " <- "@ + text::shortened(one.description, 72) + "  reads=["@
            + debug::reads_text(tainted, one.reads) + "]"@;
        assert(debug::definition_line(tainted, value, 0, one) =~= front + rest);
        lemma_starts(front, rest);
    }
    assert(front =~= "\t[dbg"@ + (if sources.contains_key(value) {
        "T"@
    } else {
        " "@
    }) + "] "@ + ""@ + mir_util::local_text(value));
    if sources.contains_key(value) {
        assert(lines[0] =~= "\t[dbg] TAINTED sink "@ + (sink.symbolic_name + " @ "@
            + mir_util::location_text(sink.location) + ": value="@ + mir_util::local_text(value))
            + "  origin="@ + mir_util::local_text(sources[value]) + " : "@ + taint::origin_ty_text(
            program,
            body,
            sources[value],
        ));
    } else {
        assert(lines[0] =~= "\t[dbg] UNTAINTED sink "@ + (sink.symbolic_name + " @ "@
            + mir_util::location_text(sink.location) + ": value="@ + mir_util::local_text(value))
            + "  seed=["@ + debug::locals_text(
            report::members(taint::address_seeds(program, body), body.local_decls@.len()),
        ) + "]"@);
    }
}

proof fn lemma_starts(front: Seq<char>, rest: Seq<char>)
    ensures
        comparisons::starts_with(front + rest, front),
{
    assert((front + rest).take(front.len() as int) =~= front);
}

proof fn lemma_closure_lines(
    program: Program,
    known: Map<usize, Seq<ComparisonView>>,
    n: nat,
    f: DefId,
    line: Seq<char>,
)
    requires
        f < n,
        n <= usize::MAX,
        debug::closure_line(program, known, f).contains(line),
    ensures
        debug::closure_lines(program, known, n).contains(line),
    decreases n,
{
    let before = debug::closure_lines(program, known, (n - 1) as nat);
    let here = debug::closure_line(program, known, (n - 1) as usize);
    let all = debug::closure_lines(program, known, n);
    if f < n - 1 {
        lemma_closure_lines(program, known, (n - 1) as nat, f, line);
        let i = choose|i: int| 0 <= i < before.len() && before[i] == line;
        assert(all[i] == line);
    } else {
        let i = choose|i: int| 0 <= i < here.len() && here[i] == line;
        assert(all[before.len() + i] == line);
    }
}

/// Every closure that holds the sender against something is shown: as skipped where
/// it has no successful return, or else with whether it crosses a check on every
/// path to one.
pub proof fn law_trace_of_closures(
    program: Program,
    known: Map<usize, Seq<ComparisonView>>,
    f: DefId,
)
    requires
        paths::is_known(program, known, f),
        known[f].len() > 0,
        program.defs@[f as int].kind is Closure,
    ensures
        ({
            let body = program.defs@[f as int].body->0;
            let points = auth_gate::ok_points_of(program, body);
            let lines = debug::closure_lines(program, known, program.defs@.len());
            let path = program.defs@[f as int].path@;
            &&& points.len() == 0 ==> lines.contains(
                "[closure-ac] SKIP "@ + path + " — comps="@ + text::decimal(known[f].len())
                    + " ok_points=0"@,
            )
            &&& points.len() > 0 ==> lines.contains(
                "[closure-ac] "@ + path + " — comps="@ + text::decimal(known[f].len())
                    + " ok_points="@ + text::decimal(points.len()) + " checks="@ + text::decimal(
                    gating::own_guards(program, body, known[f]).points.len(),
                ) + " always="@ + (if paths::closure_vouches(program, known, f) {
                    "Checked"@
                } else {
                    "Unchecked"@
                }),
            )
        }),
{
    assert(program.defs.len() == program.defs@.len());
    paths::law_checking_closures(program, known, f);
    let here = debug::closure_line(program, known, f);
    assert(here.len() == 1);
    assert(here.contains(here[0]));
    lemma_closure_lines(program, known, program.defs@.len(), f, here[0]);
}

} // verus!
