//! What is found, and what is made of it.

use crate::auth_gate;
use crate::call_graph;
use crate::cosmwasm;
use crate::debug::Traces;
use crate::evaluation;
use crate::evaluation::FindingView;
use crate::gating;
use crate::laws;
use crate::laws::flows;
use crate::laws::paths;
use crate::mir::{Body, Call, DefId, Local, Location, Operand, Program, Terminator, TyKind};
use crate::mir_util;
use crate::pipeline;
use crate::report;
use crate::report::FunctionFindingView;
use crate::sender_comparisons::ComparisonView;
use crate::storage_inventory;
use crate::taint;
use crate::taint::{TaintContext, TaintNode};
use vstd::prelude::*;

verus! {

/// The point at which a block ends.
pub open spec fn end_of(body: Body, block: int) -> Location {
    Location {
        block: block as usize,
        statement_index: body.basic_blocks@[block].statements@.len() as usize,
    }
}

/// A call receives a closure that crosses a check on every path to its successful
/// return.
pub open spec fn receives_guard(
    program: Program,
    comparisons: Map<usize, Seq<ComparisonView>>,
    call: Call,
) -> bool {
    exists|i: int, closure: DefId|
        #![trigger call.args@[i], paths::closure_vouches(program, comparisons, closure)]
        0 <= i < call.args@.len() && program.types@[laws::type_of(call.args@[i]) as int].kind
            == TyKind::Closure(closure) && paths::closure_vouches(program, comparisons, closure)
}

/// What the checks of the functions that a root reaches are worked out on: their
/// comparisons, which of them vouch for their callers, and which are entered only
/// after a check.
pub open spec fn comparisons_from(program: Program, root: DefId) -> Map<
    usize,
    Seq<ComparisonView>,
> {
    pipeline::all_comparisons(program, call_graph::reachable_from(program, root))
}

/// The functions that vouch for their callers.
pub open spec fn vouching_from(program: Program, root: DefId) -> Set<usize> {
    gating::always_checking(
        program,
        call_graph::reachable_from(program, root),
        comparisons_from(program, root),
    )
}

/// The functions that are entered only after a check.
pub open spec fn entered_from(program: Program, root: DefId) -> Set<usize> {
    gating::entry_checked(
        program,
        root,
        call_graph::reachable_from(program, root),
        comparisons_from(program, root),
        vouching_from(program, root),
    )
}

/// The call at the end of a block of `f` stands behind a check: `f` is entered
/// after one, or every path to the call crosses one, or the call itself receives a
/// closure that checks.
pub open spec fn is_behind_check(
    program: Program,
    root: DefId,
    f: DefId,
    block: int,
    call: Call,
) -> bool {
    let known = comparisons_from(program, root);
    let body = program.defs@[f as int].body->0;
    ||| paths::is_known(program, known, f) && (entered_from(program, root).contains(f)
        || paths::always_crosses(
        body,
        paths::checks_of(program, known, vouching_from(program, root), f),
        end_of(body, block),
    ))
    ||| receives_guard(program, known, call)
}

proof fn lemma_receives_guard(program: Program, root: DefId, body: Body, block: int, call: Call)
    requires
        laws::ends_in(body, block, call),
    ensures
        ({
            let found = pipeline::evaluation_of(program, root);
            evaluation::closure_gates(program, body, block, found.closures) <==> receives_guard(
                program,
                comparisons_from(program, root),
                call,
            )
        }),
{
    let found = pipeline::evaluation_of(program, root);
    assert forall|d: DefId| #[trigger] found.closures.contains(d) <==> paths::closure_vouches(
        program,
        found.comparisons,
        d,
    ) by {
        paths::law_checking_closures(program, found.comparisons, d);
    }
    if evaluation::closure_gates(program, body, block, found.closures) {
        let i = choose|i: int|
            0 <= i < call.args@.len() && (
            program.types@[mir_util::ty_of(#[trigger] call.args@[i]) as int].kind matches TyKind::Closure(
                d,
            ) && found.closures.contains(d));
        if let TyKind::Closure(d) = program.types@[mir_util::ty_of(call.args@[i]) as int].kind {
            assert(found.closures.contains(d));
            assert(paths::closure_vouches(program, found.comparisons, d));
        }
    }
    if receives_guard(program, found.comparisons, call) {
        let (i, closure) = choose|i: int, closure: DefId|
            #![trigger call.args@[i], paths::closure_vouches(program, found.comparisons, closure)]
            0 <= i < call.args@.len() && program.types@[laws::type_of(call.args@[i]) as int].kind
                == TyKind::Closure(closure) && paths::closure_vouches(
                program,
                found.comparisons,
                closure,
            );
        assert(found.closures.contains(closure));
    }
}

/// A call is said to be gated exactly when it stands behind a check.
pub proof fn law_gated_means_behind_a_check(
    program: Program,
    root: DefId,
    f: DefId,
    block: int,
    call: Call,
)
    requires
        f < program.defs@.len(),
        program.defs@[f as int].is_local,
        program.defs@[f as int].body is Some,
        laws::ends_in(program.defs@[f as int].body->0, block, call),
    ensures
        evaluation::gated_at(
            pipeline::evaluation_of(program, root),
            program.defs@[f as int].body->0,
            f,
            call_graph::node_sites(program, f),
            end_of(program.defs@[f as int].body->0, block),
        ) <==> is_behind_check(program, root, f, block, call),
{
    let found = pipeline::evaluation_of(program, root);
    let body = program.defs@[f as int].body->0;
    assert(body.basic_blocks.len() == body.basic_blocks@.len());
    lemma_receives_guard(program, root, body, block, call);
    paths::law_checked_points(
        body,
        paths::checks_of(program, found.comparisons, found.always, f),
        auth_gate::state_of(found.entered.contains(f)),
        end_of(body, block),
    );
}

/// A write is gated by a closure only if the closure checks: where the function
/// may be entered unchecked and a path without a check leads to the write, it is
/// open unless one of the closures that it receives crosses a check on every path
/// to a successful return, and gated if one does.
pub proof fn law_closure_gates_only_if_it_checks(
    program: Program,
    root: DefId,
    f: DefId,
    block: int,
    call: Call,
    path: Seq<usize>,
)
    requires
        f < program.defs@.len(),
        program.defs@[f as int].is_local,
        program.defs@[f as int].body is Some,
        ({
            let body = program.defs@[f as int].body->0;
            let known = comparisons_from(program, root);
            &&& laws::ends_in(body, block, call)
            &&& !entered_from(program, root).contains(f)
            &&& crate::graph::walk(laws::continues(body), path)
            &&& path[0] == 0
            &&& path.last() == block
            &&& !paths::crosses(
                body,
                paths::checks_of(program, known, vouching_from(program, root), f),
                path,
                body.basic_blocks@[block].statements@.len() as usize,
            )
        }),
    ensures
        evaluation::gated_at(
            pipeline::evaluation_of(program, root),
            program.defs@[f as int].body->0,
            f,
            call_graph::node_sites(program, f),
            end_of(program.defs@[f as int].body->0, block),
        ) <==> receives_guard(program, comparisons_from(program, root), call),
{
    law_gated_means_behind_a_check(program, root, f, block, call);
    let body = program.defs@[f as int].body->0;
    assert(body.basic_blocks.len() == body.basic_blocks@.len());
    assert(path.last() == end_of(body, block).block);
}

/// What the taint of a function is worked out on.
pub open spec fn taint_context(program: Program, root: DefId, f: DefId) -> TaintContext {
    let body = program.defs@[f as int].body->0;
    let nodes = call_graph::reachable_from(program, root);
    TaintContext {
        program,
        body,
        callee_at: call_graph::callee_map(call_graph::sites_of(program, body)),
        flows: Map::new(
            |g: usize|
                nodes.contains(g) && g < program.defs@.len() && program.defs@[g as int].is_local
                    && program.defs@[g as int].body is Some,
            |g: usize| Set::new(|p: usize| taint::return_flows(program, nodes).contains((g, p))),
        ),
    }
}

/// The forwarded parameters that the taint is worked out on are those of the
/// functions that the root reaches.
pub proof fn lemma_flows(program: Program, root: DefId)
    ensures
        pipeline::evaluation_of(program, root).flows == taint_context(program, root, root).flows,
{
    let flows = pipeline::evaluation_of(program, root).flows;
    let context = taint_context(program, root, root);
    assert(flows =~= context.flows) by {
        assert forall|g: usize| flows.contains_key(g) implies flows[g] == context.flows[g] by {
            assert(flows[g] =~= context.flows[g]);
        }
    }
}

proof fn lemma_taint_context(program: Program, root: DefId, f: DefId)
    requires
        f < program.defs@.len(),
        program.defs@[f as int].is_local,
        program.defs@[f as int].body is Some,
    ensures
        evaluation::taint_sources(
            program,
            program.defs@[f as int].body->0,
            call_graph::node_sites(program, f),
            pipeline::evaluation_of(program, root).flows,
        ) == taint::settled(
            taint_context(program, root, f),
            taint::address_seeds(program, program.defs@[f as int].body->0),
        ).origin,
{
    let nodes = call_graph::reachable_from(program, root);
    let flows = pipeline::evaluation_of(program, root).flows;
    let context = taint_context(program, root, f);
    assert(flows =~= context.flows) by {
        assert forall|g: usize| flows.contains_key(g) implies flows[g] == context.flows[g] by {
            assert(flows[g] =~= context.flows[g]);
        }
    }
}

/// The value that a call stores, its last argument, carries an address that the
/// sender of a message chose.
pub open spec fn stores_input(program: Program, root: DefId, f: DefId, call: Call) -> bool {
    let body = program.defs@[f as int].body->0;
    call.args@.len() > 0 && exists|value: Local| #[trigger]
        laws::reads(call.args@[call.args@.len() - 1], value) && taint::tainted_locals(
            taint_context(program, root, f),
            taint::address_seeds(program, body),
        ).contains(value)
}

/// A list has a finding for the write at the end of a block of `f`.
pub open spec fn is_finding_of(
    program: Program,
    root: DefId,
    f: DefId,
    block: int,
    call: Call,
    name: Seq<char>,
    entry: FunctionFindingView,
) -> bool {
    let body = program.defs@[f as int].body->0;
    &&& entry.function == program.defs@[f as int].path@
    &&& entry.finding.sink.location == end_of(body, block)
    &&& entry.finding.sink.symbolic_name == name
    &&& entry.finding.gated <==> is_behind_check(program, root, f, block, call)
    &&& entry.finding.taint is Some <==> stores_input(program, root, f, call)
    &&& entry.finding.taint matches Some(source) ==> taint::comes_from(
        taint_context(program, root, f),
        taint::address_seeds(program, body),
        source.param_local,
        TaintNode::Local(stored_local(call)),
    )
}

/// The local that a call stores.
pub open spec fn stored_local(call: Call) -> Local {
    match call.args@[call.args@.len() - 1] {
        Operand::Copy(place) => place.local,
        Operand::Move(place) => place.local,
        _ => 0,
    }
}

/// The name of some item that is compared with the sender.
pub open spec fn is_authority(program: Program, root: DefId, name: Seq<char>) -> bool {
    let items = pipeline::marked_inventory(program, call_graph::reachable_from(program, root));
    exists|i: int| 0 <= i < items.len() && (#[trigger] items[i]).is_auth && items[i].name == name
}

/// The call at the end of a block of an analysed function is a storage write to an
/// item that holds an authority.
pub open spec fn writes_authority(
    program: Program,
    root: DefId,
    f: DefId,
    block: int,
    call: Call,
    receiver: Local,
) -> bool {
    &&& call_graph::reachable_from(program, root).contains(f)
    &&& f < program.defs@.len()
    &&& program.defs@[f as int].is_local
    &&& program.defs@[f as int].body matches Some(body) && {
        &&& laws::ends_in(body, block, call)
        &&& flows::stores(program, call)
        &&& call.args@.len() > 0
        &&& laws::reads(call.args@[0], receiver)
        &&& is_authority(program, root, storage_inventory::storage_name(program, body, receiver))
    }
}

proof fn lemma_finding(
    program: Program,
    root: DefId,
    f: DefId,
    block: int,
    call: Call,
    receiver: Local,
    n: int,
)
    requires
        program.wf(),
        writes_authority(program, root, f, block, call, receiver),
        0 <= n < call_graph::reachable_from(program, root).len(),
        call_graph::reachable_from(program, root)[n] == f,
    ensures
        ({
            let nodes = call_graph::reachable_from(program, root);
            let names = pipeline::auth_names(pipeline::marked_inventory(program, nodes));
            let found = pipeline::evaluation_of(program, root);
            pipeline::finding_at(found, names, nodes, n, block) matches Some(entry)
                && is_finding_of(
                program,
                root,
                f,
                block,
                call,
                storage_inventory::storage_name(
                    program,
                    program.defs@[f as int].body->0,
                    receiver,
                ),
                entry,
            )
        }),
{
    let nodes = call_graph::reachable_from(program, root);
    let names = pipeline::auth_names(pipeline::marked_inventory(program, nodes));
    let found = pipeline::evaluation_of(program, root);
    let body = program.defs@[f as int].body->0;
    let name = storage_inventory::storage_name(program, body, receiver);
    assert(program.defs@[f as int].wf(program, f));
    flows::lemma_storage_calls(program, call);
    assert(names.contains(name));
    assert(mir_util::local_of(call.args@[0]) == Some(receiver));
    assert(evaluation::sink_at(program, body, names, block) is Some);
    law_gated_means_behind_a_check(program, root, f, block, call);
    lemma_taint_context(program, root, f);
    let context = taint_context(program, root, f);
    let seeds = taint::address_seeds(program, body);
    taint::lemma_settled_taint(context, seeds);
    let origin = taint::settled(context, seeds).origin;
    let data = taint::data_of(call);
    if stores_input(program, root, f, call) {
        let value = choose|value: Local| #[trigger]
            laws::reads(call.args@[call.args@.len() - 1], value) && taint::tainted_locals(
                context,
                seeds,
            ).contains(value);
        assert(data == Some(value));
        assert(origin.dom().contains(value));
    }
    if let Some(value) = data {
        assert(laws::reads(call.args@[call.args@.len() - 1], value));
        if origin.contains_key(value) {
            assert(origin.dom().contains(value));
        }
    }
    assert(body.basic_blocks.len() == body.basic_blocks@.len());
}

/// Every storage write to an item that holds an authority, in a function that the
/// root reaches, has a finding that tells where it stands, what it writes, whether
/// it stands behind a check and whether it stores what a message brought.
pub proof fn law_every_authority_write_is_found(
    program: Program,
    root: DefId,
    f: DefId,
    block: int,
    call: Call,
    receiver: Local,
)
    requires
        program.wf(),
        writes_authority(program, root, f, block, call, receiver),
    ensures
        ({
            let nodes = call_graph::reachable_from(program, root);
            let names = pipeline::auth_names(pipeline::marked_inventory(program, nodes));
            let found = pipeline::evaluation_of(program, root);
            let all = pipeline::all_findings(found, names, nodes, nodes.len());
            exists|k: int|
                0 <= k < all.len() && is_finding_of(
                    program,
                    root,
                    f,
                    block,
                    call,
                    storage_inventory::storage_name(
                        program,
                        program.defs@[f as int].body->0,
                        receiver,
                    ),
                    #[trigger] all[k],
                )
        }),
{
    let nodes = call_graph::reachable_from(program, root);
    let names = pipeline::auth_names(pipeline::marked_inventory(program, nodes));
    let found = pipeline::evaluation_of(program, root);
    let all = pipeline::all_findings(found, names, nodes, nodes.len());
    let n = choose|n: int| 0 <= n < nodes.len() && nodes[n] == f;
    lemma_finding(program, root, f, block, call, receiver, n);
    pipeline::lemma_every_write_is_reported(found, names, nodes, nodes.len(), n, block);
    let entry = pipeline::finding_at(found, names, nodes, n, block)->0;
    let k = choose|k: int| 0 <= k < all.len() && all[k] == entry;
    assert(is_finding_of(
        program,
        root,
        f,
        block,
        call,
        storage_inventory::storage_name(program, program.defs@[f as int].body->0, receiver),
        all[k],
    ));
}

/// Nothing but such a write has a finding.
pub proof fn law_only_authority_writes_are_found(program: Program, root: DefId, k: int)
    requires
        program.wf(),
        ({
            let nodes = call_graph::reachable_from(program, root);
            let names = pipeline::auth_names(pipeline::marked_inventory(program, nodes));
            let found = pipeline::evaluation_of(program, root);
            0 <= k < pipeline::all_findings(found, names, nodes, nodes.len()).len()
        }),
    ensures
        ({
            let nodes = call_graph::reachable_from(program, root);
            let names = pipeline::auth_names(pipeline::marked_inventory(program, nodes));
            let found = pipeline::evaluation_of(program, root);
            let entry = pipeline::all_findings(found, names, nodes, nodes.len())[k];
            exists|f: DefId, block: int, call: Call, receiver: Local| #[trigger]
                writes_authority(program, root, f, block, call, receiver) && is_finding_of(
                    program,
                    root,
                    f,
                    block,
                    call,
                    storage_inventory::storage_name(
                        program,
                        program.defs@[f as int].body->0,
                        receiver,
                    ),
                    entry,
                )
        }),
{
    let nodes = call_graph::reachable_from(program, root);
    let names = pipeline::auth_names(pipeline::marked_inventory(program, nodes));
    let found = pipeline::evaluation_of(program, root);
    let all = pipeline::all_findings(found, names, nodes, nodes.len());
    pipeline::lemma_only_writes_are_reported(found, names, nodes, nodes.len(), k);
    let (n, b) = choose|n: int, b: int|
        0 <= n < nodes.len() && #[trigger] pipeline::finding_at(found, names, nodes, n, b) == Some(
            all[k],
        );
    let f = nodes[n];
    let body = program.defs@[f as int].body->0;
    if let Terminator::Call(call) = body.basic_blocks@[b].terminator {
        flows::lemma_storage_calls(program, call);
        let receiver = taint::receiver_of(call)->0;
        assert(laws::ends_in(body, b, call));
        assert(laws::reads(call.args@[0], receiver));
        let name = storage_inventory::storage_name(program, body, receiver);
        assert(names.contains(name));
        assert(nodes.contains(f));
        assert(writes_authority(program, root, f, b, call, receiver));
        lemma_finding(program, root, f, b, call, receiver, n);
    }
}

/// A finding is a vulnerability exactly when an input is stored and no check stands
/// in front; the label tells the three outcomes apart.
pub proof fn law_verdicts(finding: FindingView)
    ensures
        evaluation::vulnerable(finding) <==> finding.taint is Some && !finding.gated,
        evaluation::verdict_text(finding) == "VULN "@ <==> finding.taint is Some && !finding.gated,
        evaluation::verdict_text(finding) == "gated"@ <==> finding.gated,
        evaluation::verdict_text(finding) == "clean"@ <==> finding.taint is None && !finding.gated,
{
    reveal_strlit("VULN ");
    reveal_strlit("gated");
    reveal_strlit("clean");
    assert("VULN "@[0] == 'V');
    assert("gated"@[0] == 'g');
    assert("clean"@[0] == 'c');
}

/// A storage write to an item that holds an authority, which stores what a message
/// brought and stands behind no check, is shown as a vulnerability, with the
/// function, the item and the place.
pub proof fn law_open_write_is_shown(
    program: Program,
    root: DefId,
    traces: Traces,
    f: DefId,
    block: int,
    call: Call,
    receiver: Local,
)
    requires
        program.wf(),
        cosmwasm::execute_from(program, 0) == Some(root),
        writes_authority(program, root, f, block, call, receiver),
        stores_input(program, root, f, call),
        !is_behind_check(program, root, f, block, call),
        ({
            let nodes = call_graph::reachable_from(program, root);
            let names = pipeline::auth_names(pipeline::marked_inventory(program, nodes));
            let found = pipeline::evaluation_of(program, root);
            pipeline::all_findings(found, names, nodes, nodes.len()).len() <= usize::MAX
        }),
    ensures
        ({
            let body = program.defs@[f as int].body->0;
            exists|source: Local, line: Seq<char>|
                #![trigger taint::address_seeds(program, body).contains(source), pipeline::full_report(program, traces).contains(line)]
                taint::address_seeds(program, body).contains(source) && pipeline::full_report(
                    program,
                    traces,
                ).contains(line) && line == "\t["@ + "VULN "@ + "] "@ + program.defs@[f as int].path@
                    + " writes "@ + storage_inventory::storage_name(program, body, receiver) + " @ "@
                    + mir_util::location_text(end_of(body, block)) + (" <- tainted by "@
                    + mir_util::local_text(source) + " : "@ + taint::origin_ty_text(
                    program,
                    body,
                    source,
                ))
        }),
{
    let nodes = call_graph::reachable_from(program, root);
    let names = pipeline::auth_names(pipeline::marked_inventory(program, nodes));
    let found = pipeline::evaluation_of(program, root);
    let body = program.defs@[f as int].body->0;
    let n = choose|n: int| 0 <= n < nodes.len() && nodes[n] == f;
    lemma_finding(program, root, f, block, call, receiver, n);
    pipeline::lemma_report_shows_every_write(program, root, traces, n, block);
    let entry = pipeline::finding_at(found, names, nodes, n, block)->0;
    let line = report::finding_line(entry);
    let source = (entry.finding.taint->0).param_local;
    assert(taint::address_seeds(program, body).contains(source));
    assert(pipeline::full_report(program, traces).contains(line));
}

/// The type of an input is shown as it is declared, less one reference, without
/// regions.
pub proof fn law_type_of_an_input(program: Program, body: Body, local: Local)
    ensures
        ({
            let declared = body.local_decls@[local as int];
            let shown = match program.types@[declared as int].kind {
                TyKind::Ref(inner, _) => inner,
                _ => declared,
            };
            taint::origin_ty_text(program, body, local) == mir_util::normalized(
                program.types@[shown as int].debug@,
            )
        }),
{
}

} // verus!
