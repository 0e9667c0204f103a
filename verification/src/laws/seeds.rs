//! How the sender gets from one function to another.

use crate::call_graph;
use crate::cosmwasm;
use crate::graph;
use crate::laws;
use crate::laws::addresses;
use crate::laws::calls;
use crate::mir::{AggregateKind, Assign, Body, Call, DefId, Local, Location, Operand, Program, Rvalue};
use crate::mir::{Statement, Ty, TyKind};
use crate::mir_util;
use crate::pipeline;
use crate::sender_taint;
use crate::sender_taint::{CaptureView, SeedState, TargetSearch};
use vstd::prelude::*;

verus! {

/// A type, behind any references, can hold an identity: an address, `String` or
/// `str`.
pub open spec fn can_be_identity(program: Program, ty: Ty) -> bool {
    match program.types@[addresses::peeled(program, ty) as int].kind {
        TyKind::Str => true,
        TyKind::Adt(def, _) => laws::is_item(program, def, "cosmwasm_std"@, "Addr"@)
            || laws::is_item(program, def, "cosmwasm_std"@, "CanonicalAddr"@) || laws::is_named(
            program,
            def,
            "String"@,
        ),
        _ => false,
    }
}

/// Statement `k` of a block creates a closure out of the given values.
pub open spec fn creates_at(
    body: Body,
    block: int,
    k: int,
    closure: DefId,
    captured: Seq<Operand>,
) -> bool {
    exists|assign: Assign| #[trigger]
        laws::assigns(body, block, k, assign) && (assign.rvalue matches Rvalue::Aggregate(
            AggregateKind::Closure(created),
            operands,
        ) && created == closure && operands@ == captured)
}

/// What the creation of a closure out of the given values is recorded as.
pub open spec fn capture_of(body: Body, closure: DefId, captured: Seq<Operand>) -> CaptureView {
    CaptureView {
        enclosing: body.def_id,
        closure,
        captures: mir_util::operand_locals_of(captured),
    }
}

proof fn lemma_captures_before(body: Body, block: nat, k: nat, capture: CaptureView)
    requires
        block <= body.basic_blocks@.len(),
        k > 0 ==> block < body.basic_blocks@.len() && k
            <= body.basic_blocks@[block as int].statements@.len(),
    ensures
        sender_taint::captures_before(body, block, k).contains(capture) <==> exists|
            b: int,
            j: int,
            captured: Seq<Operand>,
        | #[trigger]
            creates_at(body, b, j, capture.closure, captured) && capture == capture_of(
                body,
                capture.closure,
                captured,
            ) && (b < block || (b == block && j < k)),
    decreases block, k,
{
    if k > 0 {
        lemma_captures_before(body, block, (k - 1) as nat, capture);
        let before = sender_taint::captures_before(body, block, (k - 1) as nat);
        let statement = body.basic_blocks@[block as int].statements@[k - 1];
        if let Some(found) = sender_taint::capture_at(body, statement) {
            graph::lemma_push_contains(before, found, capture);
            if let Statement::Assign(assign) = statement {
                assert(laws::assigns(body, block as int, k - 1, assign));
                if let Rvalue::Aggregate(AggregateKind::Closure(closure), operands) =
                    assign.rvalue {
                    assert(creates_at(body, block as int, k - 1, closure, operands@));
                }
            }
        }
        if exists|b: int, j: int, captured: Seq<Operand>| #[trigger]
            creates_at(body, b, j, capture.closure, captured) && capture == capture_of(
                body,
                capture.closure,
                captured,
            ) && (b < block || (b == block && j < k)) {
            let (b, j, captured) = choose|b: int, j: int, captured: Seq<Operand>| #[trigger]
                creates_at(body, b, j, capture.closure, captured) && capture == capture_of(
                    body,
                    capture.closure,
                    captured,
                ) && (b < block || (b == block && j < k));
            if b == block && j == k - 1 {
                assert(sender_taint::capture_at(body, statement) == Some(capture));
            } else {
                assert(creates_at(body, b, j, capture.closure, captured));
            }
        }
    } else if block > 0 {
        lemma_captures_before(
            body,
            (block - 1) as nat,
            body.basic_blocks@[block - 1].statements@.len(),
            capture,
        );
        assert forall|b: int, j: int, captured: Seq<Operand>| #[trigger]
            creates_at(body, b, j, capture.closure, captured) implies j
            < body.basic_blocks@[b].statements@.len() by {}
    } else {
        assert forall|b: int, j: int, captured: Seq<Operand>| #[trigger]
            creates_at(body, b, j, capture.closure, captured) implies b >= 0 && j >= 0 by {}
    }
}

proof fn lemma_captures(body: Body, capture: CaptureView)
    ensures
        sender_taint::captures_of(body).contains(capture) <==> exists|
            b: int,
            j: int,
            captured: Seq<Operand>,
        | #[trigger]
            creates_at(body, b, j, capture.closure, captured) && capture == capture_of(
                body,
                capture.closure,
                captured,
            ),
{
    lemma_captures_before(body, body.basic_blocks@.len(), 0, capture);
    assert forall|b: int, j: int, captured: Seq<Operand>| #[trigger]
        creates_at(body, b, j, capture.closure, captured) implies b < body.basic_blocks@.len() by {}
}

/// The body of a function of the crate itself is at hand.
pub open spec fn has_body(program: Program, f: DefId) -> bool {
    f < program.defs@.len() && program.defs@[f as int].is_local && program.defs@[f as int].body is Some
}

/// The body of `f` creates a closure.
pub open spec fn creates(program: Program, f: DefId, closure: DefId) -> bool {
    has_body(program, f) && exists|b: int, j: int, captured: Seq<Operand>| #[trigger]
        creates_at(program.defs@[f as int].body->0, b, j, closure, captured)
}

proof fn lemma_creates(program: Program, f: DefId, closure: DefId)
    ensures
        sender_taint::creates_closure(program)(f, closure) <==> creates(program, f, closure)
            && program.defs@[closure as int].is_local,
{
    let body = program.defs@[f as int].body->0;
    let found = sender_taint::captures_of(body);
    if sender_taint::creates_closure(program)(f, closure) {
        let i = choose|i: int| 0 <= i < found.len() && (#[trigger] found[i]).closure == closure;
        assert(found.contains(found[i]));
        lemma_captures(body, found[i]);
    }
    if creates(program, f, closure) {
        let (b, j, captured) = choose|b: int, j: int, captured: Seq<Operand>| #[trigger]
            creates_at(body, b, j, closure, captured);
        let capture = capture_of(body, closure, captured);
        assert(creates_at(body, b, j, capture.closure, captured));
        lemma_captures(body, capture);
        let i = choose|i: int| 0 <= i < found.len() && found[i] == capture;
        assert(found[i].closure == closure);
    }
}

/// The bodies that are searched for comparisons are those of the functions of the
/// graph and of the closures that such bodies create.
pub proof fn law_searched_bodies(program: Program, nodes: Seq<DefId>, f: DefId)
    ensures
        sender_taint::targets_of(program, nodes).contains(f) <==> has_body(program, f) && (
        nodes.contains(f) || exists|g: DefId| #[trigger]
            creates(program, g, f) && sender_taint::targets_of(program, nodes).contains(g)),
{
    let targets = sender_taint::targets_of(program, nodes);
    let edge = sender_taint::creates_closure(program);
    let starts = call_graph::node_set(nodes);
    sender_taint::lemma_targets_of(program, nodes);
    if targets.contains(f) {
        laws::lemma_last_step(edge, starts, f);
        if !starts.contains(f) {
            let g = choose|g: usize| graph::reaches(edge, starts, g) && #[trigger] edge(g, f);
            lemma_creates(program, g, f);
            assert(targets.contains(g));
            assert(creates(program, g, f));
        }
    }
    if has_body(program, f) {
        if nodes.contains(f) {
            graph::lemma_reaches_start(edge, starts, f);
        }
        if exists|g: DefId| #[trigger] creates(program, g, f) && targets.contains(g) {
            let g = choose|g: DefId| #[trigger] creates(program, g, f) && targets.contains(g);
            lemma_creates(program, g, f);
            graph::lemma_reaches_step(edge, starts, g, f);
        }
    }
}

// ---- what is recorded of closures ----------------------------------------

proof fn lemma_with_found(program: Program, search: TargetSearch, found: Seq<CaptureView>)
    ensures
        ({
            let after = sender_taint::with_closures(program, search, found);
            &&& after.captures == search.captures + found
            &&& forall|f: usize| #[trigger]
                search.targets.contains(f) ==> after.targets.contains(f)
            &&& forall|f: usize| #[trigger]
                search.worklist.contains(f) ==> after.worklist.contains(f)
            &&& forall|f: usize| #[trigger]
                after.targets.contains(f) ==> search.targets.contains(f)
                    || after.worklist.contains(f)
            &&& forall|f: usize| #[trigger]
                after.worklist.contains(f) ==> search.worklist.contains(f)
                    || after.targets.contains(f)
        }),
    decreases found.len(),
{
    let after = sender_taint::with_closures(program, search, found);
    if found.len() > 0 {
        let rest = found.drop_last();
        let before = sender_taint::with_closures(program, search, rest);
        lemma_with_found(program, search, rest);
        assert(after.captures =~= search.captures + found);
        let closure = found.last().closure;
        if program.defs@[closure as int].is_local && !before.targets.contains(closure) {
            assert forall|f: usize| #[trigger] after.targets.contains(f) <==> before.targets.contains(
                f,
            ) || f == closure by {
                graph::lemma_push_contains(before.targets, closure, f);
            }
            assert forall|f: usize| #[trigger]
                after.worklist.contains(f) <==> before.worklist.contains(f) || f == closure by {
                graph::lemma_push_contains(before.worklist, closure, f);
            }
        }
    } else {
        assert(after.captures =~= search.captures + found);
    }
}

/// What was scanned is recorded, and only what targets create is; whatever is not
/// scanned yet is still listed.
spec fn keeps_record(
    program: Program,
    search: TargetSearch,
    scanned: Set<usize>,
) -> bool {
    &&& forall|g: usize, capture: CaptureView|
        scanned.contains(g) && has_body(program, g) && #[trigger] sender_taint::captures_of(
            program.defs@[g as int].body->0,
        ).contains(capture) ==> search.captures.contains(capture)
    &&& forall|capture: CaptureView| #[trigger]
        search.captures.contains(capture) ==> exists|g: usize|
            search.targets.contains(g) && has_body(program, g) && #[trigger]
            sender_taint::captures_of(program.defs@[g as int].body->0).contains(capture)
    &&& forall|g: usize| #[trigger] search.worklist.contains(g) ==> search.targets.contains(g)
    &&& forall|g: usize| #[trigger]
        search.targets.contains(g) ==> scanned.contains(g) || search.worklist.contains(g) || g
            >= program.defs@.len()
}

proof fn lemma_record(program: Program, search: TargetSearch, scanned: Set<usize>)
    requires
        keeps_record(program, search, scanned),
    ensures
        ({
            let done = sender_taint::searched(program, search, scanned);
            &&& forall|g: usize, capture: CaptureView|
                done.targets.contains(g) && has_body(program, g) && #[trigger]
                sender_taint::captures_of(program.defs@[g as int].body->0).contains(capture)
                    ==> done.captures.contains(capture)
            &&& forall|capture: CaptureView| #[trigger]
                done.captures.contains(capture) ==> exists|g: usize|
                    done.targets.contains(g) && has_body(program, g) && #[trigger]
                    sender_taint::captures_of(program.defs@[g as int].body->0).contains(capture)
        }),
    decreases graph::missing(scanned, program.defs@.len()), search.worklist.len(),
{
    if search.worklist.len() == 0 {
        assert forall|g: usize| #[trigger] search.targets.contains(g) implies scanned.contains(g)
            || g >= program.defs@.len() by {
            assert(!search.worklist.contains(g));
        }
        assert(sender_taint::searched(program, search, scanned) == search);
        assert forall|g: usize, capture: CaptureView|
            search.targets.contains(g) && has_body(program, g) && #[trigger]
            sender_taint::captures_of(program.defs@[g as int].body->0).contains(
                capture,
            ) implies search.captures.contains(capture) by {
            assert(scanned.contains(g));
        }
    } else {
        let f = search.worklist.last();
        let rest = TargetSearch { worklist: search.worklist.drop_last(), ..search };
        assert(search.worklist =~= rest.worklist.push(f));
        assert forall|g: usize| #[trigger] search.worklist.contains(g) <==> rest.worklist.contains(
            g,
        ) || g == f by {
            graph::lemma_push_contains(rest.worklist, f, g);
        }
        assert(search.worklist.contains(f));
        assert(search.targets.contains(f));
        if scanned.contains(f) || f >= program.defs@.len() {
            assert(keeps_record(program, rest, scanned)) by {
                assert forall|g: usize| #[trigger] rest.worklist.contains(
                    g,
                ) implies rest.targets.contains(g) by {
                    assert(search.worklist.contains(g));
                }
                assert forall|g: usize| #[trigger] rest.targets.contains(g) implies scanned.contains(
                    g,
                ) || rest.worklist.contains(g) || g >= program.defs@.len() by {
                    assert(search.worklist.contains(g) <==> rest.worklist.contains(g) || g == f);
                    assert(search.targets.contains(g));
                }
            }
            lemma_record(program, rest, scanned);
            assert(sender_taint::searched(program, search, scanned) == sender_taint::searched(
                program,
                rest,
                scanned,
            ));
        } else {
            assert(program.defs.len() == program.defs@.len());
            graph::lemma_missing_grows(scanned, scanned.insert(f), program.defs@.len(), f);
            let found = if cosmwasm::analysable(program, f) {
                sender_taint::captures_of(cosmwasm::body_at(program, f))
            } else {
                Seq::empty()
            };
            let next = sender_taint::with_closures(program, rest, found);
            lemma_with_found(program, rest, found);
            assert(keeps_record(program, next, scanned.insert(f))) by {
                assert forall|g: usize, capture: CaptureView|
                    scanned.insert(f).contains(g) && has_body(program, g) && #[trigger]
                    sender_taint::captures_of(program.defs@[g as int].body->0).contains(
                        capture,
                    ) implies next.captures.contains(capture) by {
                    if g == f {
                        let i = choose|i: int| 0 <= i < found.len() && found[i] == capture;
                        assert(next.captures[search.captures.len() + i] == capture);
                    } else {
                        let i = choose|i: int|
                            0 <= i < search.captures.len() && search.captures[i] == capture;
                        assert(next.captures[i] == capture);
                    }
                }
                assert forall|capture: CaptureView| #[trigger]
                    next.captures.contains(capture) implies exists|g: usize|
                    next.targets.contains(g) && has_body(program, g) && #[trigger]
                    sender_taint::captures_of(program.defs@[g as int].body->0).contains(capture) by {
                    let i = choose|i: int|
                        0 <= i < next.captures.len() && next.captures[i] == capture;
                    if i < search.captures.len() {
                        assert(search.captures[i] == capture);
                        assert(search.captures.contains(capture));
                        let g = choose|g: usize|
                            search.targets.contains(g) && has_body(program, g) && #[trigger]
                            sender_taint::captures_of(program.defs@[g as int].body->0).contains(
                                capture,
                            );
                        assert(rest.targets.contains(g));
                        assert(next.targets.contains(g));
                    } else {
                        assert(found[i - search.captures.len()] == capture);
                        assert(found.contains(capture));
                        assert(rest.targets.contains(f));
                        assert(next.targets.contains(f));
                        assert(sender_taint::captures_of(
                            program.defs@[f as int].body->0,
                        ).contains(capture));
                    }
                }
                assert forall|g: usize| #[trigger] next.worklist.contains(
                    g,
                ) implies next.targets.contains(g) by {
                    if rest.worklist.contains(g) {
                        assert(search.worklist.contains(g));
                        assert(rest.targets.contains(g));
                    }
                }
                assert forall|g: usize| #[trigger]
                    next.targets.contains(g) implies scanned.insert(f).contains(g)
                    || next.worklist.contains(g) || g >= program.defs@.len() by {
                    if rest.targets.contains(g) {
                        assert(search.targets.contains(g));
                        assert(search.worklist.contains(g) <==> rest.worklist.contains(g) || g == f);
                    }
                }
            }
            lemma_record(program, next, scanned.insert(f));
            if !cosmwasm::analysable(program, f) {
                assert(next == rest);
            }
            assert(sender_taint::searched(program, search, scanned) == sender_taint::searched(
                program,
                next,
                scanned.insert(f),
            ));
        }
    }
}

proof fn lemma_recorded(program: Program, nodes: Seq<DefId>)
    ensures
        ({
            let captures = sender_taint::target_search(program, nodes).captures;
            let targets = sender_taint::targets_of(program, nodes);
            &&& forall|g: usize, capture: CaptureView|
                targets.contains(g) && #[trigger] sender_taint::captures_of(
                    program.defs@[g as int].body->0,
                ).contains(capture) ==> captures.contains(capture)
            &&& forall|capture: CaptureView| #[trigger]
                captures.contains(capture) ==> exists|g: usize|
                    targets.contains(g) && #[trigger] sender_taint::captures_of(
                        program.defs@[g as int].body->0,
                    ).contains(capture)
        }),
{
    let start = TargetSearch { targets: nodes, worklist: nodes, captures: Seq::empty() };
    assert(keeps_record(program, start, Set::empty()));
    lemma_record(program, start, Set::empty());
    let done = sender_taint::target_search(program, nodes);
    let targets = sender_taint::targets_of(program, nodes);
    assert forall|g: usize| targets.contains(g) <==> #[trigger] done.targets.contains(g)
        && has_body(program, g) by {
        lemma_with_body(program, done.targets, g);
    }
    assert forall|g: usize, capture: CaptureView|
        targets.contains(g) && #[trigger] sender_taint::captures_of(
            program.defs@[g as int].body->0,
        ).contains(capture) implies done.captures.contains(capture) by {
        assert(done.targets.contains(g));
    }
}

proof fn lemma_with_body(program: Program, defs: Seq<DefId>, g: usize)
    ensures
        sender_taint::with_body(program, defs).contains(g) <==> defs.contains(g) && has_body(
            program,
            g,
        ),
    decreases defs.len(),
{
    if defs.len() > 0 {
        let rest = defs.drop_last();
        lemma_with_body(program, rest, g);
        assert(defs == rest.push(defs.last()));
        graph::lemma_push_contains(rest, defs.last(), g);
        graph::lemma_push_contains(sender_taint::with_body(program, rest), defs.last(), g);
    }
}

// ---- seeding -------------------------------------------------------------

/// A local of `f` carries the sender under the given seeds, and is of a type that
/// can hold an identity.
pub open spec fn hands_over(program: Program, seeds: SeedState, f: DefId, local: Local) -> bool {
    let body = program.defs@[f as int].body->0;
    sender_taint::sender_locals(
        program,
        body,
        Set::new(|p: usize| seeds.params.contains((f, p))),
        Set::new(|u: usize| seeds.upvars.contains((f, u))),
    ).contains(local) && local < body.local_decls@.len() && can_be_identity(
        program,
        body.local_decls@[local as int],
    )
}

proof fn lemma_hands_over(
    program: Program,
    seeds: SeedState,
    f: DefId,
    operand: Operand,
)
    ensures
        sender_taint::passes_sender(
            program,
            program.defs@[f as int].body->0,
            sender_taint::seeded_locals(program, seeds, f),
            mir_util::local_of(operand),
        ) <==> exists|local: Local| #[trigger]
            laws::reads(operand, local) && hands_over(program, seeds, f, local),
{
    let body = program.defs@[f as int].body->0;
    assert(sender_taint::row_of(seeds.params, f) =~= Set::new(
        |p: usize| seeds.params.contains((f, p)),
    ));
    assert(sender_taint::row_of(seeds.upvars, f) =~= Set::new(
        |u: usize| seeds.upvars.contains((f, u)),
    ));
    if let Some(local) = mir_util::local_of(operand) {
        assert(laws::reads(operand, local));
        addresses::lemma_peeled(program, body.local_decls@[local as int]);
    }
}

/// A call inside `f` hands the sender over as the argument at a position.
pub open spec fn call_hands_over(
    program: Program,
    seeds: SeedState,
    f: DefId,
    callee: DefId,
    i: int,
) -> bool {
    exists|block: int, call: Call, local: Local| #[trigger]
        laws::ends_in(program.defs@[f as int].body->0, block, call) && #[trigger] laws::reads(
            call.args@[i],
            local,
        ) && 0 <= i < call.args@.len() && calls::leads_to(program, call, callee) && hands_over(
            program,
            seeds,
            f,
            local,
        )
}

/// The creation of a closure inside `f` hands the sender over as the captured value
/// at a position.
pub open spec fn closure_hands_over(
    program: Program,
    seeds: SeedState,
    f: DefId,
    closure: DefId,
    k: int,
) -> bool {
    exists|b: int, j: int, captured: Seq<Operand>, local: Local| #[trigger]
        creates_at(program.defs@[f as int].body->0, b, j, closure, captured) && #[trigger]
        laws::reads(captured[k], local) && 0 <= k < captured.len() && hands_over(
            program,
            seeds,
            f,
            local,
        )
}

proof fn lemma_params_from(
    program: Program,
    nodes: Seq<DefId>,
    seeds: SeedState,
    f: DefId,
    callee: DefId,
    p: usize,
)
    requires
        has_body(program, f),
    ensures
        sender_taint::params_from(program, nodes, seeds, f).contains((callee, p)) <==> p >= 1
            && nodes.contains(f) && call_hands_over(program, seeds, f, callee, p - 1),
{
    let body = program.defs@[f as int].body->0;
    let sites = call_graph::node_sites(program, f);
    let taint = sender_taint::seeded_locals(program, seeds, f);
    if sender_taint::params_from(program, nodes, seeds, f).contains((callee, p)) {
        let i = choose|i: int|
            0 <= i < sites.len() && sender_taint::site_seeds(
                program,
                body,
                taint,
                #[trigger] sites[i],
            ).contains((callee, p));
        assert(sites.contains(sites[i]));
        calls::law_sites_are_the_calls(program, body, sites[i]);
        let (block, call) = choose|block: int, call: Call| #[trigger]
            calls::is_site_of(program, body, block, call, sites[i]);
        let local = sites[i].arg_locals[p - 1]->0;
        assert(laws::reads(call.args@[p - 1], local));
        lemma_hands_over(program, seeds, f, call.args@[p - 1]);
        assert(mir_util::local_of(call.args@[p - 1]) == Some(local));
        assert(laws::ends_in(body, block, call));
    }
    if p >= 1 && nodes.contains(f) && call_hands_over(program, seeds, f, callee, p - 1) {
        let (block, call, local) = choose|block: int, call: Call, local: Local| #[trigger]
            laws::ends_in(body, block, call) && #[trigger] laws::reads(call.args@[p - 1], local) && 0
                <= p - 1 < call.args@.len() && calls::leads_to(program, call, callee) && hands_over(
                program,
                seeds,
                f,
                local,
            );
        assert(body.basic_blocks.len() == body.basic_blocks@.len());
        let data = body.basic_blocks@[block];
        assert(data.statements.len() == data.statements@.len());
        let site = call_graph::CallSiteView {
            location: Location {
                block: block as usize,
                statement_index: data.statements@.len() as usize,
            },
            caller: body.def_id,
            callee,
            arg_locals: mir_util::operand_locals_of(call.args@),
        };
        assert(calls::is_site_of(program, body, block, call, site));
        calls::law_sites_are_the_calls(program, body, site);
        let i = choose|i: int| 0 <= i < sites.len() && sites[i] == site;
        lemma_hands_over(program, seeds, f, call.args@[p - 1]);
        assert(site.arg_locals[p - 1] == mir_util::local_of(call.args@[p - 1]));
        assert(sender_taint::site_seeds(program, body, taint, sites[i]).contains((callee, p)));
    }
}

proof fn lemma_upvars_from(
    program: Program,
    nodes: Seq<DefId>,
    seeds: SeedState,
    f: DefId,
    closure: DefId,
    u: usize,
)
    requires
        program.wf(),
        sender_taint::targets_of(program, nodes).contains(f),
        has_body(program, f),
    ensures
        sender_taint::upvars_from(
            program,
            sender_taint::target_search(program, nodes).captures,
            seeds,
            f,
        ).contains((closure, u)) <==> closure_hands_over(program, seeds, f, closure, u as int),
{
    let body = program.defs@[f as int].body->0;
    let captures = sender_taint::target_search(program, nodes).captures;
    let targets = sender_taint::targets_of(program, nodes);
    let taint = sender_taint::seeded_locals(program, seeds, f);
    lemma_recorded(program, nodes);
    assert(program.defs@[f as int].wf(program, f));
    if sender_taint::upvars_from(program, captures, seeds, f).contains((closure, u)) {
        let i = choose|i: int|
            0 <= i < captures.len() && (#[trigger] captures[i]).enclosing == f
                && sender_taint::capture_seeds(program, body, taint, captures[i]).contains(
                (closure, u),
            );
        assert(captures.contains(captures[i]));
        let g = choose|g: usize|
            targets.contains(g) && #[trigger] sender_taint::captures_of(
                program.defs@[g as int].body->0,
            ).contains(captures[i]);
        sender_taint::lemma_targets_of(program, nodes);
        assert(has_body(program, g));
        assert(program.defs@[g as int].wf(program, g));
        lemma_captures(program.defs@[g as int].body->0, captures[i]);
        assert(g == f);
        let (b, j, captured) = choose|b: int, j: int, captured: Seq<Operand>| #[trigger]
            creates_at(body, b, j, closure, captured) && captures[i] == capture_of(
                body,
                closure,
                captured,
            );
        lemma_hands_over(program, seeds, f, captured[u as int]);
        assert(captures[i].captures[u as int] == mir_util::local_of(captured[u as int]));
    }
    if closure_hands_over(program, seeds, f, closure, u as int) {
        let (b, j, captured, local) = choose|b: int, j: int, captured: Seq<Operand>, local: Local|
            #[trigger]
            creates_at(body, b, j, closure, captured) && #[trigger] laws::reads(
                captured[u as int],
                local,
            ) && 0 <= u < captured.len() && hands_over(program, seeds, f, local);
        let capture = capture_of(body, closure, captured);
        assert(creates_at(body, b, j, capture.closure, captured));
        lemma_captures(body, capture);
        assert(sender_taint::captures_of(program.defs@[f as int].body->0).contains(capture));
        assert(captures.contains(capture));
        let i = choose|i: int| 0 <= i < captures.len() && captures[i] == capture;
        lemma_hands_over(program, seeds, f, captured[u as int]);
        assert(capture.captures[u as int] == mir_util::local_of(captured[u as int]));
        assert(sender_taint::capture_seeds(program, body, taint, captures[i]).contains(
            (closure, u),
        ));
    }
}

/// One more round of the seeding adds exactly what the bodies hand over under the
/// seeds so far: the argument at position `i` of a call becomes parameter `i + 1`
/// of the function that the call leads to, and the captured value at a position
/// becomes the captured value at that position of the closure.
pub proof fn law_seeding_follows_calls_and_closures(
    program: Program,
    nodes: Seq<DefId>,
    rounds: nat,
    g: DefId,
    at: usize,
)
    requires
        program.wf(),
    ensures
        ({
            let seeds = sender_taint::seed_rounds(program, nodes, rounds);
            let next = sender_taint::seed_rounds(program, nodes, rounds + 1);
            let targets = sender_taint::targets_of(program, nodes);
            &&& next.params.contains((g, at)) <==> seeds.params.contains((g, at)) || (at >= 1
                && exists|f: DefId|
                targets.contains(f) && nodes.contains(f) && #[trigger] call_hands_over(
                    program,
                    seeds,
                    f,
                    g,
                    at - 1,
                ))
            &&& next.upvars.contains((g, at)) <==> seeds.upvars.contains((g, at)) || exists|f: DefId|
                targets.contains(f) && #[trigger] closure_hands_over(
                    program,
                    seeds,
                    f,
                    g,
                    at as int,
                )
        }),
{
    let seeds = sender_taint::seed_rounds(program, nodes, rounds);
    let next = sender_taint::seed_rounds(program, nodes, rounds + 1);
    let targets = sender_taint::targets_of(program, nodes);
    let captures = sender_taint::target_search(program, nodes).captures;
    assert(next == sender_taint::seed_round(program, nodes, seeds));
    sender_taint::lemma_targets_of(program, nodes);
    assert forall|t: int| 0 <= t < targets.len() implies has_body(program, #[trigger] targets[t]) by {
        assert(targets.contains(targets[t]));
    }
    assert forall|t: int| 0 <= t < targets.len() implies (sender_taint::params_from(
        program,
        nodes,
        seeds,
        #[trigger] targets[t],
    ).contains((g, at)) <==> at >= 1 && nodes.contains(targets[t]) && call_hands_over(
        program,
        seeds,
        targets[t],
        g,
        at - 1,
    )) by {
        lemma_params_from(program, nodes, seeds, targets[t], g, at);
    }
    assert forall|t: int| 0 <= t < targets.len() implies (sender_taint::upvars_from(
        program,
        captures,
        seeds,
        #[trigger] targets[t],
    ).contains((g, at)) <==> closure_hands_over(program, seeds, targets[t], g, at as int)) by {
        assert(targets.contains(targets[t]));
        lemma_upvars_from(program, nodes, seeds, targets[t], g, at);
    }
    if next.params.contains((g, at)) && !seeds.params.contains((g, at)) {
        let t = choose|t: int|
            0 <= t < targets.len() && sender_taint::params_from(
                program,
                nodes,
                seeds,
                #[trigger] targets[t],
            ).contains((g, at));
        assert(targets.contains(targets[t]));
        assert(call_hands_over(program, seeds, targets[t], g, at - 1));
    }
    if at >= 1 && exists|f: DefId|
        targets.contains(f) && nodes.contains(f) && #[trigger] call_hands_over(
            program,
            seeds,
            f,
            g,
            at - 1,
        ) {
        let f = choose|f: DefId|
            targets.contains(f) && nodes.contains(f) && #[trigger] call_hands_over(
                program,
                seeds,
                f,
                g,
                at - 1,
            );
        let t = choose|t: int| 0 <= t < targets.len() && targets[t] == f;
        assert(sender_taint::params_from(program, nodes, seeds, targets[t]).contains((g, at)));
    }
    if next.upvars.contains((g, at)) && !seeds.upvars.contains((g, at)) {
        let t = choose|t: int|
            0 <= t < targets.len() && sender_taint::upvars_from(
                program,
                captures,
                seeds,
                #[trigger] targets[t],
            ).contains((g, at));
        assert(targets.contains(targets[t]));
        assert(closure_hands_over(program, seeds, targets[t], g, at as int));
    }
    if exists|f: DefId|
        targets.contains(f) && #[trigger] closure_hands_over(program, seeds, f, g, at as int) {
        let f = choose|f: DefId|
            targets.contains(f) && #[trigger] closure_hands_over(program, seeds, f, g, at as int);
        let t = choose|t: int| 0 <= t < targets.len() && targets[t] == f;
        assert(sender_taint::upvars_from(program, captures, seeds, targets[t]).contains((g, at)));
    }
}

/// The seeding starts from nothing and keeps what it found; what it found after
/// sixteen rounds is what the comparisons are searched with.
pub proof fn law_seeds_are_kept(program: Program, nodes: Seq<DefId>, rounds: nat)
    requires
        rounds <= 16,
    ensures
        sender_taint::seed_rounds(program, nodes, 0).params == Set::<(usize, usize)>::empty(),
        sender_taint::seed_rounds(program, nodes, 0).upvars == Set::<(usize, usize)>::empty(),
        sender_taint::seed_rounds(program, nodes, rounds).params.subset_of(
            pipeline::final_seeds(program, nodes).params,
        ),
        sender_taint::seed_rounds(program, nodes, rounds).upvars.subset_of(
            pipeline::final_seeds(program, nodes).upvars,
        ),
        pipeline::final_seeds(program, nodes) == sender_taint::seed_rounds(program, nodes, 16),
    decreases 16 - rounds,
{
    if rounds < 16 {
        law_seeds_are_kept(program, nodes, rounds + 1);
        assert(sender_taint::seed_rounds(program, nodes, rounds + 1) == sender_taint::seed_round(
            program,
            nodes,
            sender_taint::seed_rounds(program, nodes, rounds),
        ));
    }
}

} // verus!
