//! Opt-in diagnostic traces.
//!
//! These traces answer "why did this finding come out the way it did?" for a
//! single contract without touching the analysis itself: everything here is
//! purely observational and produces lines only where the corresponding trace is
//! asked for.
//!
//! * The taint trace: per sink, whether its written value is tainted, and a
//!   backward trace of the definitions that led there, so the exact hop at which
//!   a taint chain starts or breaks becomes visible.
//! * The closure trace: why a closure was or was not accepted as an
//!   always-checking guard, and which closure a write call received.

use crate::auth_gate;
use crate::auth_gate::AuthState;
use crate::call_graph;
use crate::call_graph::{CallSite, CallSiteView};
use crate::cosmwasm;
use crate::dense::{DenseMap, DenseSet};
use crate::evaluation;
use crate::evaluation::{Evaluation, EvaluationContext, SensitiveSink, SinkView};
use crate::gating;
use crate::gating::GatingIndex;
use crate::graph;
use crate::mir::{
    Body, DefId, DefKind, Local, Location, Operand, Program, Statement, Terminator, TyKind,
};
use crate::mir_util;
use crate::report;
use crate::sender_comparisons;
use crate::sender_comparisons::{ComparisonView, SenderComparison};
use crate::storage_inventory::ConstDefIndex;
use crate::taint;
use crate::taint::TaintResult;
use crate::text;
use vstd::prelude::*;

verus! {

/// Which traces are asked for.
#[derive(Debug, Clone, Copy)]
pub struct Traces {
    /// The taint trace.
    pub taint: bool,
    /// The closure trace.
    pub closure: bool,
}

/// How deep the backward trace of a sink value follows its definitions.
pub const MAX_TRACE_DEPTH: usize = 14;

// ---- definitions ---------------------------------------------------------

/// A definition of a local: the text it is shown as, and the locals it reads.
#[derive(Debug)]
struct Definition {
    description: String,
    reads: Vec<Local>,
}

/// What a definition of a local holds.
#[verifier::ext_equal]
pub ghost struct DefinitionView {
    pub description: Seq<char>,
    pub reads: Seq<Local>,
}

impl View for Definition {
    type V = DefinitionView;

    closed spec fn view(&self) -> DefinitionView {
        DefinitionView { description: self.description@, reads: self.reads@ }
    }
}

spec fn definition_views(definitions: Seq<Definition>) -> Seq<DefinitionView> {
    definitions.map_values(|definition: Definition| definition@)
}

/// The definition of `local` at point `k` of a block, its terminator being the
/// last one.
pub open spec fn definition_at(body: Body, local: Local, block: int, k: int) -> Option<
    DefinitionView,
> {
    let data = body.basic_blocks@[block];
    if k < data.statements@.len() {
        match data.statements@[k] {
            Statement::Assign(assign) => if assign.place.local == local {
                Some(
                    DefinitionView {
                        description: assign.text@,
                        reads: mir_util::rvalue_reads(assign.rvalue),
                    },
                )
            } else {
                None
            },
            Statement::Other => None,
        }
    } else {
        match data.terminator {
            Terminator::Call(call) => if call.destination.local == local {
                Some(
                    DefinitionView {
                        description: "call "@ + call.func_text@,
                        reads: mir_util::read_locals(call.args@),
                    },
                )
            } else {
                None
            },
            _ => None,
        }
    }
}

/// The definitions of `local` in the blocks below `block` and at the first `k`
/// points of `block`.
pub open spec fn definitions_before(body: Body, local: Local, block: nat, k: nat) -> Seq<
    DefinitionView,
>
    decreases block, k,
{
    if k > 0 {
        let before = definitions_before(body, local, block, (k - 1) as nat);
        match definition_at(body, local, block as int, k - 1) {
            Some(definition) => before.push(definition),
            None => before,
        }
    } else if block > 0 {
        definitions_before(
            body,
            local,
            (block - 1) as nat,
            body.basic_blocks@[block - 1].statements@.len() + 1,
        )
    } else {
        Seq::empty()
    }
}

/// The definitions of a local, in program order.
pub open spec fn definitions_of(body: Body, local: Local) -> Seq<DefinitionView> {
    definitions_before(body, local, body.basic_blocks@.len(), 0)
}

/// The locals that definitions read are below `n`.
spec fn reads_exist(found: Seq<Definition>, n: nat) -> bool {
    forall|i: int, j: int|
        0 <= i < found.len() && 0 <= j < found[i].reads@.len() ==> #[trigger] found[i].reads@[j] < n
}

/// Returns the definitions of a local.
#[verifier::loop_isolation(false)]
fn find_definitions(program: &Program, body: &Body, local: Local) -> (found: Vec<Definition>)
    requires
        body.wf(*program),
    ensures
        definition_views(found@) == definitions_of(*body, local),
        reads_exist(found@, body.local_decls@.len()),
{
    let mut found: Vec<Definition> = Vec::new();
    let ghost n = body.local_decls@.len();
    assert(definition_views(found@) =~= Seq::<DefinitionView>::empty());
    for block in 0..body.basic_blocks.len()
        invariant
            definition_views(found@) == definitions_before(*body, local, block as nat, 0),
            reads_exist(found@, n),
    {
        let data = &body.basic_blocks[block];
        assert(data.wf(*program, n, body.basic_blocks@.len()));
        for k in 0..data.statements.len()
            invariant
                definition_views(found@) == definitions_before(
                    *body,
                    local,
                    block as nat,
                    k as nat,
                ),
                reads_exist(found@, n),
        {
            assert(data.statements@[k as int].wf(*program, n));
            if let Statement::Assign(assign) = &data.statements[k] {
                if assign.place.local == local {
                    let definition = Definition {
                        description: assign.text.clone(),
                        reads: mir_util::rvalue_locals(&assign.rvalue),
                    };
                    proof {
                        mir_util::lemma_rvalue_reads_wf(*program, assign.rvalue, n);
                        assert(definition@ =~= definition_at(
                            *body,
                            local,
                            block as int,
                            k as int,
                        )->0);
                    }
                    let ghost before = found@;
                    found.push(definition);
                    proof {
                        assert(definition_views(found@) =~= definition_views(before).push(
                            definition@,
                        ));
                        assert forall|i: int, j: int|
                            0 <= i < found@.len() && 0 <= j < found@[i].reads@.len() implies
                            #[trigger] found@[i].reads@[j] < n by {
                            if i < before.len() {
                                assert(before[i].reads@[j] < n);
                            } else {
                                assert(mir_util::rvalue_reads(assign.rvalue).contains(
                                    found@[i].reads@[j],
                                ));
                            }
                        }
                    }
                }
            }
        }
        if let Terminator::Call(call) = &data.terminator {
            if call.destination.local == local {
                let mut description = text::text_of("call ");
                text::push_text(&mut description, call.func_text.as_str());
                let definition = Definition {
                    description,
                    reads: mir_util::read_operand_locals(&call.args),
                };
                assert(definition@ =~= definition_at(
                    *body,
                    local,
                    block as int,
                    data.statements@.len() as int,
                )->0);
                let ghost before = found@;
                found.push(definition);
                proof {
                    assert(definition_views(found@) =~= definition_views(before).push(definition@));
                    assert forall|i: int, j: int|
                        0 <= i < found@.len() && 0 <= j < found@[i].reads@.len() implies
                        #[trigger] found@[i].reads@[j] < n by {
                        if i < before.len() {
                            assert(before[i].reads@[j] < n);
                        } else {
                            let l = found@[i].reads@[j];
                            assert(mir_util::read_locals(call.args@).contains(l));
                            mir_util::lemma_read_locals(call.args@, l);
                            let a = choose|a: int|
                                0 <= a < call.args@.len() && mir_util::local_of(
                                    #[trigger] call.args@[a],
                                ) == Some(l);
                            assert(call.args@[a].wf(*program, n));
                        }
                    }
                }
            }
        }
        assert(definition_views(found@) == definitions_before(
            *body,
            local,
            block as nat,
            data.statements@.len() + 1,
        ));
    }
    found
}

// ---- the backward trace --------------------------------------------------

/// Whether a local is tainted, as the trace shows it.
pub open spec fn flag_text(tainted: Set<usize>, local: Local) -> Seq<char> {
    if tainted.contains(local) {
        "T"@
    } else {
        " "@
    }
}

/// The indentation of a hop.
pub open spec fn indent_text(depth: nat) -> Seq<char>
    decreases depth,
{
    if depth == 0 {
        ""@
    } else {
        indent_text((depth - 1) as nat) + "  "@
    }
}

/// A read local as the trace shows it; a `*` marks a tainted one.
pub open spec fn read_text(tainted: Set<usize>, local: Local) -> Seq<char> {
    mir_util::local_text(local) + if tainted.contains(local) {
        "*"@
    } else {
        ""@
    }
}

/// Read locals, separated by commas.
pub open spec fn reads_text(tainted: Set<usize>, reads: Seq<Local>) -> Seq<char>
    decreases reads.len(),
{
    if reads.len() == 0 {
        ""@
    } else if reads.len() == 1 {
        read_text(tainted, reads[0])
    } else {
        reads_text(tainted, reads.drop_last()) + ","@ + read_text(tainted, reads.last())
    }
}

/// The beginning of the line of a hop.
pub open spec fn hop_text(tainted: Set<usize>, local: Local, depth: nat) -> Seq<char> {
    "\t[dbg"@ + flag_text(tainted, local) + "] "@ + indent_text(depth) + mir_util::local_text(
        local,
    )
}

/// The line of a definition.
pub open spec fn definition_line(
    tainted: Set<usize>,
    local: Local,
    depth: nat,
    definition: DefinitionView,
) -> Seq<char> {
    hop_text(tainted, local, depth) + " <- "@ + text::shortened(definition.description, 72)
        + "  reads=["@ + reads_text(tainted, definition.reads) + "]"@
}

/// The lines of a hop.
pub open spec fn hop_lines(
    body: Body,
    tainted: Set<usize>,
    local: Local,
    depth: nat,
) -> Seq<Seq<char>> {
    let definitions = definitions_of(body, local);
    if definitions.len() == 0 {
        seq![hop_text(tainted, local, depth) + " (parameter or undefined)"@]
    } else {
        definitions.map_values(
            |definition: DefinitionView| definition_line(tainted, local, depth, definition),
        )
    }
}

/// The hops that the first `count` definitions lead to.
pub open spec fn next_hops(definitions: Seq<DefinitionView>, depth: usize, count: nat) -> Seq<
    (Local, usize),
>
    decreases count,
{
    if count == 0 {
        Seq::empty()
    } else {
        next_hops(definitions, depth, (count - 1) as nat) + definitions[count
            - 1].reads.map_values(|read: Local| (read, (depth + 1) as usize))
    }
}

/// The lines of the backward trace from the hops on a stack, the last one first.
/// No local is shown twice.
pub open spec fn trace_lines(
    body: Body,
    tainted: Set<usize>,
    stack: Seq<(Local, usize)>,
    seen: Set<usize>,
) -> Seq<Seq<char>>
    decreases graph::missing(seen, body.local_decls@.len()), stack.len(),
    via trace_lines_decreases
{
    if stack.len() == 0 {
        Seq::empty()
    } else {
        let (local, depth) = stack.last();
        let rest = stack.drop_last();
        if depth > MAX_TRACE_DEPTH || seen.contains(local) || local >= body.local_decls@.len() {
            trace_lines(body, tainted, rest, seen)
        } else {
            let definitions = definitions_of(body, local);
            hop_lines(body, tainted, local, depth as nat) + trace_lines(
                body,
                tainted,
                rest + next_hops(definitions, depth, definitions.len()),
                seen.insert(local),
            )
        }
    }
}

#[via_fn]
proof fn trace_lines_decreases(
    body: Body,
    tainted: Set<usize>,
    stack: Seq<(Local, usize)>,
    seen: Set<usize>,
) {
    if stack.len() > 0 {
        let (local, depth) = stack.last();
        if !(depth > MAX_TRACE_DEPTH || seen.contains(local) || local >= body.local_decls@.len()) {
            assert(body.local_decls.len() == body.local_decls@.len());
            graph::lemma_missing_grows(
                seen,
                seen.insert(local),
                body.local_decls@.len(),
                local,
            );
        }
    }
}

/// The lines of the backward trace of a value.
pub open spec fn value_trace(body: Body, tainted: Set<usize>, value: Local) -> Seq<Seq<char>> {
    trace_lines(body, tainted, seq![(value, 0usize)], Set::empty())
}

fn push_indent(out: &mut String, depth: usize)
    ensures
        final(out)@ == old(out)@ + indent_text(depth as nat),
{
    let ghost before = out@;
    proof {
        reveal_strlit("");
    }
    assert(out@ =~= before + indent_text(0));
    for i in 0..depth
        invariant
            out@ == before + indent_text(i as nat),
    {
        text::push_text(out, "  ");
        assert(out@ =~= before + indent_text((i + 1) as nat));
    }
}

fn push_hop(out: &mut String, result: &TaintResult, local: Local, depth: usize)
    ensures
        final(out)@ == old(out)@ + hop_text(result.sources().dom(), local, depth as nat),
{
    let flag = if result.is_tainted(local) {
        "T"
    } else {
        " "
    };
    text::push_text(out, "\t[dbg");
    text::push_text(out, flag);
    text::push_text(out, "] ");
    push_indent(out, depth);
    mir_util::push_local(out, local);
    assert(out@ =~= old(out)@ + hop_text(result.sources().dom(), local, depth as nat));
}

#[verifier::loop_isolation(false)]
fn push_reads(out: &mut String, result: &TaintResult, reads: &Vec<Local>)
    ensures
        final(out)@ == old(out)@ + reads_text(result.sources().dom(), reads@),
{
    let ghost before = out@;
    let ghost tainted = result.sources().dom();
    proof {
        reveal_strlit("");
    }
    assert(out@ =~= before + reads_text(tainted, reads@.take(0)));
    for i in 0..reads.len()
        invariant
            out@ == before + reads_text(tainted, reads@.take(i as int)),
    {
        assert(reads@.take(i + 1).drop_last() =~= reads@.take(i as int));
        if i > 0 {
            text::push_text(out, ",");
        }
        mir_util::push_local(out, reads[i]);
        if result.is_tainted(reads[i]) {
            text::push_text(out, "*");
        }
        assert(out@ =~= before + reads_text(tainted, reads@.take(i + 1)));
    }
    assert(reads@.take(reads@.len() as int) =~= reads@);
}

/// Backward trace of the definitions of `value_local`, showing per hop whether
/// the local is tainted (`T`); a `*` marks a tainted read operand.
#[verifier::loop_isolation(false)]
#[verifier::rlimit(40)]
fn trace_value(program: &Program, body: &Body, result: &TaintResult, value_local: Local) -> (
    lines: Vec<String>)
    requires
        body.wf(*program),
        value_local < body.local_decls@.len(),
    ensures
        text::texts(lines@) == value_trace(*body, result.sources().dom(), value_local),
{
    let ghost tainted = result.sources().dom();
    let ghost n = body.local_decls@.len();
    let ghost goal = value_trace(*body, tainted, value_local);
    let mut lines: Vec<String> = Vec::new();
    let mut seen = DenseSet::new();
    let mut stack: Vec<(Local, usize)> = vec![(value_local, 0)];
    assert(stack@ =~= seq![(value_local, 0usize)]);
    assert(text::texts(lines@) + trace_lines(*body, tainted, stack@, seen@) =~= goal);
    while stack.len() > 0
        invariant
            text::texts(lines@) + trace_lines(*body, tainted, stack@, seen@) == goal,
            forall|i: int|
                0 <= i < stack@.len() ==> (#[trigger] stack@[i]).0 < n && stack@[i].1
                    <= MAX_TRACE_DEPTH + 1,
        decreases graph::missing(seen@, n), stack@.len(),
    {
        let ghost stack0 = stack@;
        let ghost seen0 = seen@;
        let ghost lines0 = text::texts(lines@);
        let ghost rest_lines = trace_lines(*body, tainted, stack0, seen0);
        let (local, depth) = stack.pop().unwrap();
        assert(stack0.last() == (local, depth));
        assert(stack@ =~= stack0.drop_last());
        assert(stack0[stack0.len() - 1].0 < n);
        if depth <= MAX_TRACE_DEPTH && seen.insert(local) {
            proof {
                assert(body.local_decls.len() == n);
                graph::lemma_missing_grows(seen0, seen@, n, local);
            }
            let definitions = find_definitions(program, body, local);
            let ghost views = definition_views(definitions@);
            let ghost shown = views.map_values(
                |definition: DefinitionView|
                    definition_line(tainted, local, depth as nat, definition),
            );
            if definitions.len() == 0 {
                let mut line = String::new();
                push_hop(&mut line, result, local, depth);
                text::push_text(&mut line, " (parameter or undefined)");
                assert(line@ =~= hop_text(tainted, local, depth as nat)
                    + " (parameter or undefined)"@);
                report::push_line(&mut lines, line);
                assert(text::texts(lines@) =~= lines0 + hop_lines(
                    *body,
                    tainted,
                    local,
                    depth as nat,
                ));
            }
            let ghost start = stack@;
            assert(start =~= start + next_hops(views, depth, 0));
            assert(definitions@.len() > 0 ==> lines0 =~= lines0 + shown.take(0));
            for i in 0..definitions.len()
                invariant
                    definitions@.len() > 0 ==> text::texts(lines@) == lines0 + shown.take(
                        i as int,
                    ),
                    definitions@.len() == 0 ==> text::texts(lines@) == lines0 + hop_lines(
                        *body,
                        tainted,
                        local,
                        depth as nat,
                    ),
                    stack@ == start + next_hops(views, depth, i as nat),
                    forall|j: int|
                        0 <= j < stack@.len() ==> (#[trigger] stack@[j]).0 < n && stack@[j].1
                            <= MAX_TRACE_DEPTH + 1,
            {
                let definition = &definitions[i];
                assert(views[i as int] == definition@);
                let mut line = String::new();
                push_hop(&mut line, result, local, depth);
                text::push_text(&mut line, " <- ");
                text::push_text(
                    &mut line,
                    text::shorten(definition.description.as_str(), 72).as_str(),
                );
                text::push_text(&mut line, "  reads=[");
                push_reads(&mut line, result, &definition.reads);
                text::push_text(&mut line, "]");
                assert(line@ =~= definition_line(tainted, local, depth as nat, definition@));
                assert(line@ == shown[i as int]);
                report::push_line(&mut lines, line);
                assert(text::texts(lines@) =~= lines0 + shown.take(i + 1));
                let ghost before = stack@;
                let ghost hops = definition.reads@.map_values(
                    |read: Local| (read, (depth + 1) as usize),
                );
                assert(before =~= before + hops.take(0));
                for r in 0..definition.reads.len()
                    invariant
                        stack@ == before + hops.take(r as int),
                        forall|j: int|
                            0 <= j < stack@.len() ==> (#[trigger] stack@[j]).0 < n && stack@[j].1
                                <= MAX_TRACE_DEPTH + 1,
                {
                    assert(definitions@[i as int].reads@[r as int] < n);
                    stack.push((definition.reads[r], depth + 1));
                    assert(stack@ =~= before + hops.take(r + 1));
                }
                assert(hops.take(hops.len() as int) =~= hops);
                assert(stack@ =~= start + next_hops(views, depth, (i + 1) as nat));
            }
            assert(shown.take(shown.len() as int) =~= shown);
            proof {
                let hop = hop_lines(*body, tainted, local, depth as nat);
                assert(text::texts(lines@) == lines0 + hop);
                assert(lines0 + rest_lines =~= text::texts(lines@) + trace_lines(
                    *body,
                    tainted,
                    stack@,
                    seen@,
                ));
            }
        } else {
            assert(seen@ =~= seen0);
        }
    }
    assert(text::texts(lines@) =~= goal);
    lines
}

// ---- the taint trace of a sink -------------------------------------------

/// The lines of a sink whose written value is tainted.
pub open spec fn tainted_sink_lines(
    body: Body,
    tainted: Set<usize>,
    sink: SinkView,
    value: Local,
    param: Local,
    param_ty: Seq<char>,
) -> Seq<Seq<char>> {
    seq![
        "\t[dbg] TAINTED sink "@ + sink.symbolic_name + " @ "@ + mir_util::location_text(
            sink.location,
        ) + ": value="@ + mir_util::local_text(value) + "  origin="@ + mir_util::local_text(param)
            + " : "@ + param_ty,
    ] + value_trace(body, tainted, value)
}

/// A sink whose written value is tainted: names the value, the seed it came
/// from and its type, and traces the chain hop by hop.
pub fn tainted_sink(
    program: &Program,
    body: &Body,
    result: &TaintResult,
    sink: &SensitiveSink,
    value_local: Local,
    param_local: Local,
    param_ty: &str,
) -> (lines: Vec<String>)
    requires
        body.wf(*program),
        value_local < body.local_decls@.len(),
    ensures
        text::texts(lines@) == tainted_sink_lines(
            *body,
            result.sources().dom(),
            sink@,
            value_local,
            param_local,
            param_ty@,
        ),
{
    let mut lines: Vec<String> = Vec::new();
    let mut line = text::text_of("\t[dbg] TAINTED sink ");
    text::push_text(&mut line, sink.symbolic_name.as_str());
    text::push_text(&mut line, " @ ");
    mir_util::push_location(&mut line, sink.location);
    text::push_text(&mut line, ": value=");
    mir_util::push_local(&mut line, value_local);
    text::push_text(&mut line, "  origin=");
    mir_util::push_local(&mut line, param_local);
    text::push_text(&mut line, " : ");
    text::push_text(&mut line, param_ty);
    report::push_line(&mut lines, line);
    report::push_lines(&mut lines, trace_value(program, body, result, value_local));
    assert(text::texts(lines@) =~= tainted_sink_lines(
        *body,
        result.sources().dom(),
        sink@,
        value_local,
        param_local,
        param_ty@,
    ));
    lines
}

/// Locals, separated by commas.
pub open spec fn locals_text(locals: Seq<Local>) -> Seq<char> {
    reads_text(Set::empty(), locals)
}

/// The lines of a sink whose written value is not tainted.
pub open spec fn untainted_sink_lines(
    body: Body,
    tainted: Set<usize>,
    sink: SinkView,
    value: Local,
    seed: Set<usize>,
) -> Seq<Seq<char>> {
    seq![
        "\t[dbg] UNTAINTED sink "@ + sink.symbolic_name + " @ "@ + mir_util::location_text(
            sink.location,
        ) + ": value="@ + mir_util::local_text(value) + "  seed=["@ + locals_text(
            report::members(seed, body.local_decls@.len()),
        ) + "]"@,
    ] + value_trace(body, tainted, value)
}

/// Appends the locals of a set, separated by commas.
#[verifier::loop_isolation(false)]
fn push_locals(out: &mut String, set: &DenseSet, n: usize)
    ensures
        final(out)@ == old(out)@ + locals_text(report::members(set@, n as nat)),
{
    let ghost before = out@;
    let mut first = true;
    proof {
        reveal_strlit("");
    }
    assert(out@ =~= before + locals_text(report::members(set@, 0)));
    for l in 0..n
        invariant
            out@ == before + locals_text(report::members(set@, l as nat)),
            first == (report::members(set@, l as nat).len() == 0),
    {
        if set.contains(l) {
            let ghost listed = report::members(set@, l as nat);
            assert(listed.push(l).drop_last() =~= listed);
            if !first {
                text::push_text(out, ",");
            }
            mir_util::push_local(out, l);
            first = false;
            assert(read_text(Set::empty(), l) =~= mir_util::local_text(l));
            assert(out@ =~= before + locals_text(listed.push(l)));
        }
    }
}

/// A sink whose written value is not tainted although address-typed
/// parameters were seeded: traces the value back to the hop where the chain
/// breaks.
pub fn untainted_sink(
    program: &Program,
    body: &Body,
    result: &TaintResult,
    sink: &SensitiveSink,
    value_local: Local,
    seed: &DenseSet,
) -> (lines: Vec<String>)
    requires
        body.wf(*program),
        value_local < body.local_decls@.len(),
    ensures
        text::texts(lines@) == untainted_sink_lines(
            *body,
            result.sources().dom(),
            sink@,
            value_local,
            seed@,
        ),
{
    let mut lines: Vec<String> = Vec::new();
    let mut line = text::text_of("\t[dbg] UNTAINTED sink ");
    text::push_text(&mut line, sink.symbolic_name.as_str());
    text::push_text(&mut line, " @ ");
    mir_util::push_location(&mut line, sink.location);
    text::push_text(&mut line, ": value=");
    mir_util::push_local(&mut line, value_local);
    text::push_text(&mut line, "  seed=[");
    push_locals(&mut line, seed, body.local_decls.len());
    text::push_text(&mut line, "]");
    report::push_line(&mut lines, line);
    report::push_lines(&mut lines, trace_value(program, body, result, value_local));
    assert(text::texts(lines@) =~= untainted_sink_lines(
        *body,
        result.sources().dom(),
        sink@,
        value_local,
        seed@,
    ));
    lines
}

/// The taint trace of a sink.
pub open spec fn sink_trace(
    program: Program,
    body: Body,
    sources: Map<usize, Local>,
    sink: SinkView,
) -> Seq<Seq<char>> {
    match body.basic_blocks@[sink.location.block as int].terminator {
        Terminator::Call(call) => match taint::data_of(call) {
            Some(value) => if sources.contains_key(value) {
                tainted_sink_lines(
                    body,
                    sources.dom(),
                    sink,
                    value,
                    sources[value],
                    taint::origin_ty_text(program, body, sources[value]),
                )
            } else {
                untainted_sink_lines(
                    body,
                    sources.dom(),
                    sink,
                    value,
                    taint::address_seeds(program, body),
                )
            },
            None => Seq::empty(),
        },
        _ => Seq::empty(),
    }
}

/// The taint trace of the first `count` sinks.
pub open spec fn sink_traces(
    program: Program,
    body: Body,
    sources: Map<usize, Local>,
    sinks: Seq<SinkView>,
    count: nat,
) -> Seq<Seq<char>>
    decreases count,
{
    if count == 0 {
        Seq::empty()
    } else {
        sink_traces(program, body, sources, sinks, (count - 1) as nat) + sink_trace(
            program,
            body,
            sources,
            sinks[count - 1],
        )
    }
}

/// The taint trace of the sinks of a function.
#[verifier::loop_isolation(false)]
pub(crate) fn trace_sinks(
    program: &Program,
    body: &Body,
    sinks: &Vec<SensitiveSink>,
    result: &TaintResult,
) -> (lines: Vec<String>)
    requires
        program.wf(),
        body.wf(*program),
        forall|i: int|
            0 <= i < sinks@.len() ==> (#[trigger] sinks@[i]).location.block
                < body.basic_blocks@.len(),
        forall|l: usize| #[trigger]
            result.sources().contains_key(l) ==> result.sources()[l] < body.local_decls@.len(),
    ensures
        text::texts(lines@) == sink_traces(
            *program,
            *body,
            result.sources(),
            evaluation::sink_views(sinks@),
            sinks@.len(),
        ),
{
    let ghost views = evaluation::sink_views(sinks@);
    let ghost sources = result.sources();
    let ghost n = body.local_decls@.len();
    let seed = taint::address_seed(program, body);
    let mut lines: Vec<String> = Vec::new();
    assert(text::texts(lines@) =~= Seq::<Seq<char>>::empty());
    for i in 0..sinks.len()
        invariant
            text::texts(lines@) == sink_traces(*program, *body, sources, views, i as nat),
    {
        let sink = &sinks[i];
        assert(views[i as int] == sink@);
        let ghost before = text::texts(lines@);
        let data = &body.basic_blocks[sink.location.block];
        assert(data.wf(*program, n, body.basic_blocks@.len()));
        if let Terminator::Call(call) = &data.terminator {
            if call.args.len() > 0 {
                assert(call.args@[call.args@.len() - 1].wf(*program, n));
                if let Some(value_local) = mir_util::operand_local(
                    &call.args[call.args.len() - 1],
                ) {
                    if result.is_tainted(value_local) {
                        let param_local: Local = result.origin_of(value_local);
                        let param_ty = taint::origin_type(program, body, param_local);
                        report::push_lines(
                            &mut lines,
                            tainted_sink(
                                program,
                                body,
                                result,
                                sink,
                                value_local,
                                param_local,
                                param_ty.as_str(),
                            ),
                        );
                    } else {
                        report::push_lines(
                            &mut lines,
                            untainted_sink(program, body, result, sink, value_local, &seed),
                        );
                    }
                }
            }
        }
        assert(text::texts(lines@) =~= before + sink_trace(*program, *body, sources, sink@));
    }
    lines
}

// ---- the closure trace ---------------------------------------------------

/// The line of a closure without a successful return.
pub open spec fn closure_skipped_line(program: Program, f: DefId, comparisons: nat) -> Seq<char> {
    "[closure-ac] SKIP "@ + program.defs@[f as int].path@ + " — comps="@ + text::decimal(
        comparisons,
    ) + " ok_points=0"@
}

/// A closure that was not considered as a guard because it has no successful
/// return.
pub fn closure_skipped(program: &Program, def_id: DefId, comparison_count: usize) -> (line: String)
    requires
        def_id < program.defs@.len(),
    ensures
        line@ == closure_skipped_line(*program, def_id, comparison_count as nat),
{
    let mut line = text::text_of("[closure-ac] SKIP ");
    text::push_text(&mut line, program.defs[def_id].path.as_str());
    text::push_text(&mut line, " — comps=");
    text::push_decimal(&mut line, comparison_count);
    text::push_text(&mut line, " ok_points=0");
    line
}

/// A gating state as the trace shows it.
pub open spec fn state_text(state: AuthState) -> Seq<char> {
    match state {
        AuthState::Unchecked => "Unchecked"@,
        AuthState::Checked => "Checked"@,
    }
}

/// The line of the gating outcome of a closure body.
pub open spec fn closure_result_line(
    program: Program,
    f: DefId,
    comparisons: nat,
    ok_points: nat,
    checks: nat,
    always: AuthState,
) -> Seq<char> {
    "[closure-ac] "@ + program.defs@[f as int].path@ + " — comps="@ + text::decimal(comparisons)
        + " ok_points="@ + text::decimal(ok_points) + " checks="@ + text::decimal(checks)
        + " always="@ + state_text(always)
}

/// The gating outcome of a closure body.
pub fn closure_result(
    program: &Program,
    def_id: DefId,
    comparison_count: usize,
    ok_point_count: usize,
    check_count: u128,
    always: AuthState,
) -> (line: String)
    requires
        def_id < program.defs@.len(),
    ensures
        line@ == closure_result_line(
            *program,
            def_id,
            comparison_count as nat,
            ok_point_count as nat,
            check_count as nat,
            always,
        ),
{
    let mut line = text::text_of("[closure-ac] ");
    text::push_text(&mut line, program.defs[def_id].path.as_str());
    text::push_text(&mut line, " — comps=");
    text::push_decimal(&mut line, comparison_count);
    text::push_text(&mut line, " ok_points=");
    text::push_decimal(&mut line, ok_point_count);
    text::push_text(&mut line, " checks=");
    text::push_count(&mut line, check_count);
    text::push_text(&mut line, " always=");
    let state = match always {
        AuthState::Unchecked => "Unchecked",
        AuthState::Checked => "Checked",
    };
    text::push_text(&mut line, state);
    line
}

/// The line of a closure in the closure trace: closures with sender comparisons
/// are shown.
pub open spec fn closure_line(
    program: Program,
    comparisons: Map<usize, Seq<ComparisonView>>,
    f: DefId,
) -> Seq<Seq<char>> {
    if gating::has_facts(program, comparisons, f) && comparisons[f].len() > 0
        && program.defs@[f as int].kind is Closure {
        let body = cosmwasm::body_at(program, f);
        let ok_points = auth_gate::ok_points_of(program, body);
        let checks = gating::own_guards(program, body, comparisons[f]);
        if ok_points.len() == 0 {
            seq![closure_skipped_line(program, f, comparisons[f].len())]
        } else {
            seq![
                closure_result_line(
                    program,
                    f,
                    comparisons[f].len(),
                    ok_points.len(),
                    checks.points.len(),
                    auth_gate::always_state(body, checks, AuthState::Unchecked, ok_points),
                ),
            ]
        }
    } else {
        Seq::empty()
    }
}

/// The closure trace of the definitions below `n`.
pub open spec fn closure_lines(
    program: Program,
    comparisons: Map<usize, Seq<ComparisonView>>,
    n: nat,
) -> Seq<Seq<char>>
    decreases n,
{
    if n == 0 {
        Seq::empty()
    } else {
        closure_lines(program, comparisons, (n - 1) as nat) + closure_line(
            program,
            comparisons,
            (n - 1) as usize,
        )
    }
}

/// Why closures were or were not accepted as always-checking guards.
#[verifier::loop_isolation(false)]
pub fn trace_closures(
    program: &Program,
    fn_comparisons: &DenseMap<Vec<SenderComparison>>,
    gating: &GatingIndex,
    always_checks: &DenseMap<bool>,
) -> (lines: Vec<String>)
    requires
        program.wf(),
        gating.describes(*program),
        gating.comparisons() == sender_comparisons::comparison_map(fn_comparisons@),
    ensures
        text::texts(lines@) == closure_lines(
            *program,
            gating.comparisons(),
            program.defs@.len(),
        ),
{
    let ghost map = gating.comparisons();
    let no_sites: Vec<CallSite> = Vec::new();
    let mut lines: Vec<String> = Vec::new();
    assert(text::texts(lines@) =~= Seq::<Seq<char>>::empty());
    for f in 0..program.defs.len()
        invariant
            text::texts(lines@) == closure_lines(*program, map, f as nat),
    {
        let ghost before = text::texts(lines@);
        let is_closure = match program.defs[f].kind {
            DefKind::Closure => true,
            _ => false,
        };
        if is_closure {
            if let (Some(comparisons), Some(body), Some(facts)) = (
                fn_comparisons.get(f),
                cosmwasm::body_of(program, f),
                gating.get(f),
            ) {
                assert(map.contains_key(f));
                assert(map[f].len() == comparisons@.len());
                assert(facts.describes(*program, *body, map[f]));
                if comparisons.len() > 0 {
                    let ok_count: usize = facts.ok_points().len();
                    if ok_count == 0 {
                        report::push_line(
                            &mut lines,
                            closure_skipped(program, f, comparisons.len()),
                        );
                    } else {
                        let checks = facts.check_locations(&no_sites, always_checks);
                        assert(gating::checks_with(
                            gating::own_guards(*program, *body, map[f]),
                            call_graph::site_views(no_sites@),
                            gating::holding(always_checks@),
                        ) =~= gating::own_guards(*program, *body, map[f]));
                        let check_count: u128 = checks.len();
                        let solved = facts.solve(
                            program,
                            body,
                            &no_sites,
                            always_checks,
                            AuthState::Unchecked,
                        );
                        report::push_line(
                            &mut lines,
                            closure_result(
                                program,
                                f,
                                comparisons.len(),
                                ok_count,
                                check_count,
                                solved.always(),
                            ),
                        );
                    }
                }
            }
        }
        assert(text::texts(lines@) =~= before + closure_line(*program, map, f));
    }
    lines
}

/// The line of a closure that a write call received.
pub open spec fn closure_sink_line(
    program: Program,
    location: Location,
    closure: DefId,
    accepted: bool,
) -> Seq<char> {
    "[closure-ac] sink @ "@ + mir_util::location_text(location) + " closure-arg "@
        + program.defs@[closure as int].path@ + " in_ac="@ + (if accepted {
        "true"@
    } else {
        "false"@
    })
}

/// The closure a write call received, and whether it is an accepted guard.
pub fn closure_sink(
    program: &Program,
    location: Location,
    closure_def: DefId,
    checking_closures: &DenseSet,
) -> (line: String)
    requires
        closure_def < program.defs@.len(),
    ensures
        line@ == closure_sink_line(
            *program,
            location,
            closure_def,
            checking_closures@.contains(closure_def),
        ),
{
    let mut line = text::text_of("[closure-ac] sink @ ");
    mir_util::push_location(&mut line, location);
    text::push_text(&mut line, " closure-arg ");
    text::push_text(&mut line, program.defs[closure_def].path.as_str());
    text::push_text(&mut line, " in_ac=");
    let accepted = if checking_closures.contains(closure_def) {
        "true"
    } else {
        "false"
    };
    text::push_text(&mut line, accepted);
    line
}

/// The lines of the closures among the arguments of a write call, up to the
/// first accepted one.
pub open spec fn closure_argument_lines(
    program: Program,
    location: Location,
    args: Seq<Operand>,
    closures: Set<usize>,
) -> Seq<Seq<char>>
    decreases args.len(),
{
    if args.len() == 0 {
        Seq::empty()
    } else {
        match program.types@[mir_util::ty_of(args[0]) as int].kind {
            TyKind::Closure(closure) => if closures.contains(closure) {
                seq![closure_sink_line(program, location, closure, true)]
            } else {
                seq![closure_sink_line(program, location, closure, false)]
                    + closure_argument_lines(program, location, args.skip(1), closures)
            },
            _ => closure_argument_lines(program, location, args.skip(1), closures),
        }
    }
}

/// The closure trace of a sink that no check in its own body gates.
pub open spec fn closure_sink_lines(
    program: Program,
    body: Body,
    location: Location,
    closures: Set<usize>,
) -> Seq<Seq<char>> {
    match body.basic_blocks@[location.block as int].terminator {
        Terminator::Call(call) => if closures == Set::<usize>::empty() {
            Seq::empty()
        } else {
            closure_argument_lines(program, location, call.args@, closures)
        },
        _ => Seq::empty(),
    }
}

/// The closure trace of a sink that no check in its own body gates.
#[verifier::loop_isolation(false)]
pub(crate) fn trace_closure_sink(
    program: &Program,
    body: &Body,
    location: Location,
    checking_closures: &DenseSet,
) -> (lines: Vec<String>)
    requires
        program.wf(),
        body.wf(*program),
        location.block < body.basic_blocks@.len(),
    ensures
        text::texts(lines@) == closure_sink_lines(
            *program,
            *body,
            location,
            checking_closures@,
        ),
{
    let ghost n = body.local_decls@.len();
    let mut lines: Vec<String> = Vec::new();
    assert(text::texts(lines@) =~= Seq::<Seq<char>>::empty());
    assert(body.basic_blocks@[location.block as int].wf(*program, n, body.basic_blocks@.len()));
    if let Terminator::Call(call) = &body.basic_blocks[location.block].terminator {
        if checking_closures.is_empty() {
            return lines;
        }
        let ghost goal = closure_argument_lines(
            *program,
            location,
            call.args@,
            checking_closures@,
        );
        assert(call.args@.skip(0) =~= call.args@);
        assert(text::texts(lines@) + goal =~= goal);
        for i in 0..call.args.len()
            invariant
                goal == text::texts(lines@) + closure_argument_lines(
                    *program,
                    location,
                    call.args@.skip(i as int),
                    checking_closures@,
                ),
        {
            assert(call.args@.skip(i as int).skip(1) =~= call.args@.skip(i + 1));
            assert(call.args@[i as int].wf(*program, n));
            let ghost before = text::texts(lines@);
            let ghost rest = closure_argument_lines(
                *program,
                location,
                call.args@.skip(i as int),
                checking_closures@,
            );
            let ghost ty = mir_util::ty_of(call.args@[i as int]);
            if let TyKind::Closure(closure_def) = &program.types[mir_util::operand_ty(
                &call.args[i],
            )].kind {
                assert(program.types@[ty as int].kind.wf(program.defs@.len(), ty as nat));
                report::push_line(
                    &mut lines,
                    closure_sink(program, location, *closure_def, checking_closures),
                );
                if checking_closures.contains(*closure_def) {
                    assert(text::texts(lines@) =~= before + rest);
                    return lines;
                }
                assert(text::texts(lines@) + closure_argument_lines(
                    *program,
                    location,
                    call.args@.skip(i + 1),
                    checking_closures@,
                ) =~= before + rest);
            }
        }
        assert(text::texts(lines@) =~= goal);
    }
    lines
}

// ---- the traces of a function --------------------------------------------

/// The closure trace of the first `count` sinks of a function.
pub open spec fn closure_sink_traces(
    evaluation: Evaluation,
    body: Body,
    f: DefId,
    sites: Seq<CallSiteView>,
    sinks: Seq<SinkView>,
    count: nat,
) -> Seq<Seq<char>>
    decreases count,
{
    if count == 0 {
        Seq::empty()
    } else {
        let before = closure_sink_traces(evaluation, body, f, sites, sinks, (count - 1) as nat);
        let location = sinks[count - 1].location;
        if evaluation::gated_in_body(evaluation, body, f, sites, location) {
            before
        } else {
            before + closure_sink_lines(evaluation.program, body, location, evaluation.closures)
        }
    }
}

/// The traces of a function's sinks.
pub open spec fn function_trace(
    evaluation: Evaluation,
    body: Body,
    f: DefId,
    sites: Seq<CallSiteView>,
    names: Set<Seq<char>>,
    traces: Traces,
) -> Seq<Seq<char>> {
    let sinks = evaluation::sinks_of(evaluation.program, body, names);
    (if traces.taint {
        sink_traces(
            evaluation.program,
            body,
            evaluation::taint_sources(evaluation.program, body, sites, evaluation.flows),
            sinks,
            sinks.len(),
        )
    } else {
        Seq::empty()
    }) + (if traces.closure {
        closure_sink_traces(evaluation, body, f, sites, sinks, sinks.len())
    } else {
        Seq::empty()
    })
}

/// The traces of a function's sinks.
#[verifier::loop_isolation(false)]
pub fn trace_function(
    program: &Program,
    body: &Body,
    def_id: DefId,
    call_sites: &Vec<CallSite>,
    auth_item_names: &Vec<String>,
    ctx: &EvaluationContext<'_>,
    traces: Traces,
) -> (lines: Vec<String>)
    requires
        program.wf(),
        body.wf(*program),
        *body == cosmwasm::body_at(*program, def_id),
        ctx.describes(*program),
    ensures
        text::texts(lines@) == function_trace(
            ctx.evaluation(*program),
            *body,
            def_id,
            call_graph::site_views(call_sites@),
            evaluation::name_set(auth_item_names@),
            traces,
        ),
{
    let ghost evaluation = ctx.evaluation(*program);
    let ghost sites = call_graph::site_views(call_sites@);
    let ghost names = evaluation::name_set(auth_item_names@);
    let mut lines: Vec<String> = Vec::new();
    assert(text::texts(lines@) =~= Seq::<Seq<char>>::empty());
    let const_defs = ConstDefIndex::build(program, body);
    let sinks = evaluation::find_sensitive_sinks(
        program,
        body,
        auth_item_names,
        &const_defs,
        ctx.const_types,
    );
    let ghost views = evaluation::sink_views(sinks@);
    if traces.taint {
        let result = evaluation::function_taint(
            program,
            body,
            call_sites,
            &const_defs,
            ctx.const_types,
            ctx.return_taint_params,
        );
        report::push_lines(&mut lines, trace_sinks(program, body, &sinks, &result));
    }
    let ghost taint_lines = text::texts(lines@);
    if traces.closure {
        let entry = AuthState::of(
            match ctx.entry_checked.get(def_id) {
                Some(checked) => *checked,
                None => false,
            },
        );
        let gating = ctx.gating.solve_for(
            program,
            body,
            def_id,
            call_sites,
            ctx.always_checks,
            entry,
        );
        assert(taint_lines =~= taint_lines + closure_sink_traces(
            evaluation,
            *body,
            def_id,
            sites,
            views,
            0,
        ));
        for i in 0..sinks.len()
            invariant
                text::texts(lines@) == taint_lines + closure_sink_traces(
                    evaluation,
                    *body,
                    def_id,
                    sites,
                    views,
                    i as nat,
                ),
        {
            let location = sinks[i].location;
            assert(views[i as int] == sinks@[i as int]@);
            let gated_here = match &gating {
                Some(g) => g.before(location).is_checked(),
                None => false,
            };
            assert(gated_here == evaluation::gated_in_body(
                evaluation,
                *body,
                def_id,
                sites,
                location,
            ));
            if !gated_here {
                report::push_lines(
                    &mut lines,
                    trace_closure_sink(program, body, location, ctx.checking_closures),
                );
            }
            assert(text::texts(lines@) =~= taint_lines + closure_sink_traces(
                evaluation,
                *body,
                def_id,
                sites,
                views,
                (i + 1) as nat,
            ));
        }
    }
    assert(text::texts(lines@) =~= function_trace(
        evaluation,
        *body,
        def_id,
        sites,
        names,
        traces,
    ));
    lines
}

} // verus!
