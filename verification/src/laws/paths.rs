//! What stands behind a check on every path.

use crate::auth_gate;
use crate::auth_gate::{AuthState, Checks};
use crate::call_graph;
use crate::gating;
use crate::graph;
use crate::laws;
use crate::laws::calls;
use crate::laws::guards;
use crate::mir::{Body, Call, DefId, Location, Program};
use crate::mir_util;
use crate::sender_comparisons::ComparisonView;
use vstd::prelude::*;

verus! {

/// A path crosses a check on the way to point `k` of its last block: it enters a
/// block whose entry is a check, or passes a point that is one.
pub open spec fn crosses(body: Body, checks: Checks, path: Seq<usize>, k: usize) -> bool {
    ||| exists|i: int| 0 <= i < path.len() && checks.entries.contains(#[trigger] path[i])
    ||| exists|i: int, j: usize|
        0 <= i < path.len() - 1 && j <= body.basic_blocks@[path[i] as int].statements@.len()
            && #[trigger] checks.points.contains((path[i], j))
    ||| exists|j: usize| j < k && #[trigger] checks.points.contains((path.last(), j))
}

/// Every path from the start of a body to a point crosses a check.
pub open spec fn always_crosses(body: Body, checks: Checks, at: Location) -> bool {
    forall|path: Seq<usize>| #[trigger]
        graph::walk(laws::continues(body), path) && path[0] == 0 && path.last() == at.block
            ==> crosses(body, checks, path, at.statement_index)
}

proof fn lemma_walks(body: Body, path: Seq<usize>)
    ensures
        graph::walk(laws::continues(body), path) <==> graph::walk(mir_util::flow_edge(body), path),
{
    if graph::walk(laws::continues(body), path) {
        assert forall|i: int| 0 <= i < path.len() - 1 implies mir_util::flow_edge(body)(
            #[trigger] path[i],
            path[i + 1],
        ) by {
            assert(laws::continues(body)(path[i], path[i + 1]));
        }
    }
    if graph::walk(mir_util::flow_edge(body), path) {
        assert forall|i: int| 0 <= i < path.len() - 1 implies laws::continues(body)(
            #[trigger] path[i],
            path[i + 1],
        ) by {
            assert(mir_util::flow_edge(body)(path[i], path[i + 1]));
        }
    }
}

/// A point is checked exactly when the body is entered after a check, or every
/// path from its start to the point crosses one.
pub proof fn law_checked_points(body: Body, checks: Checks, entry: AuthState, at: Location)
    ensures
        auth_gate::state_before(body, checks, entry, at) is Checked <==> entry is Checked
            || always_crosses(body, checks, at),
{
    let edge = auth_gate::unchecked_edge(body, checks);
    if entry is Unchecked {
        if auth_gate::state_before(body, checks, entry, at) is Checked {
            assert forall|path: Seq<usize>| #[trigger]
                graph::walk(laws::continues(body), path) && path[0] == 0 && path.last()
                    == at.block implies crosses(body, checks, path, at.statement_index) by {
                lemma_walks(body, path);
                auth_gate::lemma_checked_point_is_guarded(body, checks, path, at);
                if auth_gate::checked_in_block(checks, at) {
                    if checks.entries.contains(at.block) {
                        assert(checks.entries.contains(path[path.len() - 1]));
                    }
                } else {
                    let i = choose|i: int|
                        0 <= i < path.len() - 1 && !auth_gate::clear_block(
                            body,
                            checks,
                            #[trigger] path[i],
                        );
                    if !checks.entries.contains(path[i]) {
                        let j = choose|j: usize|
                            j <= body.basic_blocks@[path[i] as int].statements@.len()
                                && #[trigger] checks.points.contains((path[i], j));
                        assert(checks.points.contains((path[i], j)));
                    }
                }
            }
        } else {
            let path = choose|path: Seq<usize>| graph::leads(edge, set![0usize], path, at.block);
            assert forall|i: int| 0 <= i < path.len() - 1 implies mir_util::flow_edge(body)(
                #[trigger] path[i],
                path[i + 1],
            ) && auth_gate::clear_block(body, checks, path[i]) by {
                assert(edge(path[i], path[i + 1]));
            }
            assert(graph::walk(mir_util::flow_edge(body), path));
            lemma_walks(body, path);
            assert(!crosses(body, checks, path, at.statement_index)) by {
                assert forall|i: int| 0 <= i < path.len() implies !checks.entries.contains(
                    #[trigger] path[i],
                ) by {
                    if i < path.len() - 1 {
                        assert(auth_gate::clear_block(body, checks, path[i]));
                    }
                }
                assert forall|i: int, j: usize|
                    0 <= i < path.len() - 1 && j
                        <= body.basic_blocks@[path[i] as int].statements@.len() implies !#[trigger]
                checks.points.contains((path[i], j)) by {
                    assert(auth_gate::clear_block(body, checks, path[i]));
                }
            }
        }
    }
}

/// A body crosses a check on every path to a successful return, and has one.
pub open spec fn vouches(program: Program, body: Body, checks: Checks) -> bool {
    &&& exists|at: Location| #[trigger] is_ok_return(program, body, at)
    &&& forall|at: Location| #[trigger]
        is_ok_return(program, body, at) ==> always_crosses(body, checks, at)
}

/// A point makes the function return `Ok`.
pub open spec fn is_ok_return(program: Program, body: Body, at: Location) -> bool {
    laws::returns_ok(program, body, at.block as int, at.statement_index as int)
}

proof fn lemma_always_state(program: Program, body: Body, checks: Checks)
    ensures
        auth_gate::always_state(
            body,
            checks,
            AuthState::Unchecked,
            auth_gate::ok_points_of(program, body),
        ) is Checked <==> vouches(program, body, checks),
{
    let points = auth_gate::ok_points_of(program, body);
    assert forall|at: Location| points.contains(at) <==> #[trigger] is_ok_return(program, body, at) by {
        guards::law_successful_returns(program, body, at);
    }
    if points.len() > 0 {
        assert(points.contains(points[0]));
        assert(is_ok_return(program, body, points[0]));
    }
    if auth_gate::always_state(body, checks, AuthState::Unchecked, points) is Checked {
        assert forall|at: Location| #[trigger]
            is_ok_return(program, body, at) implies always_crosses(body, checks, at) by {
            assert(points.contains(at));
            let i = choose|i: int| 0 <= i < points.len() && points[i] == at;
            law_checked_points(body, checks, AuthState::Unchecked, points[i]);
        }
    }
    if vouches(program, body, checks) {
        assert forall|i: int| 0 <= i < points.len() implies auth_gate::state_before(
            body,
            checks,
            AuthState::Unchecked,
            #[trigger] points[i],
        ) is Checked by {
            assert(points.contains(points[i]));
            assert(is_ok_return(program, body, points[i]));
            law_checked_points(body, checks, AuthState::Unchecked, points[i]);
        }
        let at = choose|at: Location| #[trigger] is_ok_return(program, body, at);
        assert(points.contains(at));
    }
}

/// The checks of a body are its own, and the calls that lead to a function which
/// vouches for its caller.
pub proof fn law_calls_of_vouching_functions_are_checks(
    program: Program,
    body: Body,
    own: Checks,
    vouching: Set<usize>,
    point: (usize, usize),
)
    ensures
        ({
            let all = gating::checks_with(own, call_graph::sites_of(program, body), vouching);
            &&& all.entries == own.entries
            &&& all.points.contains(point) <==> own.points.contains(point) || exists|
                call: Call,
                callee: DefId,
            | #[trigger]
                laws::ends_in(body, point.0 as int, call) && #[trigger] calls::leads_to(
                    program,
                    call,
                    callee,
                ) && vouching.contains(callee) && point.1
                    == body.basic_blocks@[point.0 as int].statements@.len()
        }),
{
    let sites = call_graph::sites_of(program, body);
    let all = gating::checks_with(own, sites, vouching);
    if all.points.contains(point) && !own.points.contains(point) {
        let i = choose|i: int|
            0 <= i < sites.len() && (#[trigger] sites[i]).location.pair() == point
                && vouching.contains(sites[i].callee);
        assert(sites.contains(sites[i]));
        calls::law_sites_are_the_calls(program, body, sites[i]);
        let (block, call) = choose|block: int, call: Call| #[trigger]
            calls::is_site_of(program, body, block, call, sites[i]);
        assert(laws::ends_in(body, point.0 as int, call));
        assert(calls::leads_to(program, call, sites[i].callee));
    }
    if exists|call: Call, callee: DefId| #[trigger]
        laws::ends_in(body, point.0 as int, call) && #[trigger] calls::leads_to(
            program,
            call,
            callee,
        ) && vouching.contains(callee) && point.1
            == body.basic_blocks@[point.0 as int].statements@.len() {
        let (call, callee) = choose|call: Call, callee: DefId| #[trigger]
            laws::ends_in(body, point.0 as int, call) && #[trigger] calls::leads_to(
                program,
                call,
                callee,
            ) && vouching.contains(callee) && point.1
                == body.basic_blocks@[point.0 as int].statements@.len();
        let site = call_graph::CallSiteView {
            location: Location { block: point.0, statement_index: point.1 },
            caller: body.def_id,
            callee,
            arg_locals: mir_util::operand_locals_of(call.args@),
        };
        assert(calls::is_site_of(program, body, point.0 as int, call, site));
        calls::law_sites_are_the_calls(program, body, site);
        let i = choose|i: int| 0 <= i < sites.len() && sites[i] == site;
        assert(sites[i].location.pair() == point);
    }
}

/// The comparisons of a function are known, and its body is at hand.
pub open spec fn is_known(
    program: Program,
    comparisons: Map<usize, Seq<ComparisonView>>,
    f: DefId,
) -> bool {
    comparisons.contains_key(f) && f < program.defs@.len() && program.defs@[f as int].is_local
        && program.defs@[f as int].body is Some
}

/// What counts as a check in the body of a known function, given which functions
/// vouch for their callers.
pub open spec fn checks_of(
    program: Program,
    comparisons: Map<usize, Seq<ComparisonView>>,
    vouching: Set<usize>,
    f: DefId,
) -> Checks {
    let body = program.defs@[f as int].body->0;
    gating::checks_with(
        gating::own_guards(program, body, comparisons[f]),
        call_graph::sites_of(program, body),
        vouching,
    )
}

/// A known function of the graph crosses a check on every path to a successful
/// return, given which functions vouch for their callers.
pub open spec fn vouches_given(
    program: Program,
    nodes: Seq<DefId>,
    comparisons: Map<usize, Seq<ComparisonView>>,
    vouching: Set<usize>,
    f: DefId,
) -> bool {
    nodes.contains(f) && is_known(program, comparisons, f) && vouches(
        program,
        program.defs@[f as int].body->0,
        checks_of(program, comparisons, vouching, f),
    )
}

proof fn lemma_vouches_given(
    program: Program,
    nodes: Seq<DefId>,
    comparisons: Map<usize, Seq<ComparisonView>>,
    vouching: Set<usize>,
    f: DefId,
)
    ensures
        gating::checks_always(program, nodes, comparisons, vouching, f) <==> vouches_given(
            program,
            nodes,
            comparisons,
            vouching,
            f,
        ),
{
    lemma_always_state(
        program,
        program.defs@[f as int].body->0,
        checks_of(program, comparisons, vouching, f),
    );
}

/// The functions that vouch for their callers are those that cross a check on
/// every path to a successful return, a call of such a function being one; and
/// none vouches only because it calls itself, on whatever detour.
pub proof fn law_vouching_functions(
    program: Program,
    nodes: Seq<DefId>,
    comparisons: Map<usize, Seq<ComparisonView>>,
    f: DefId,
    closed: Set<usize>,
)
    requires
        forall|g: DefId| #[trigger]
            vouches_given(program, nodes, comparisons, closed, g) ==> closed.contains(g),
    ensures
        gating::always_checking(program, nodes, comparisons).contains(f) <==> vouches_given(
            program,
            nodes,
            comparisons,
            gating::always_checking(program, nodes, comparisons),
            f,
        ),
        gating::always_checking(program, nodes, comparisons).subset_of(closed),
{
    gating::lemma_always_checking_fixpoint(program, nodes, comparisons, f);
    lemma_vouches_given(
        program,
        nodes,
        comparisons,
        gating::always_checking(program, nodes, comparisons),
        f,
    );
    assert forall|g: DefId| #[trigger]
        gating::checks_always(program, nodes, comparisons, closed, g) implies closed.contains(g) by {
        lemma_vouches_given(program, nodes, comparisons, closed, g);
    }
    assert(gating::always_closed(program, nodes, comparisons, closed));
}

/// A closure that checks is one with comparisons of its own that crosses a check
/// on every path to a successful return.
pub open spec fn closure_vouches(
    program: Program,
    comparisons: Map<usize, Seq<ComparisonView>>,
    f: DefId,
) -> bool {
    &&& is_known(program, comparisons, f)
    &&& comparisons[f].len() > 0
    &&& program.defs@[f as int].kind is Closure
    &&& vouches(
        program,
        program.defs@[f as int].body->0,
        gating::own_guards(program, program.defs@[f as int].body->0, comparisons[f]),
    )
}

/// The closures that are accepted as guards are those that cross a check of their
/// own on every path to a successful return.
pub proof fn law_checking_closures(
    program: Program,
    comparisons: Map<usize, Seq<ComparisonView>>,
    f: DefId,
)
    ensures
        gating::closure_checks(program, comparisons, f) <==> closure_vouches(
            program,
            comparisons,
            f,
        ),
{
    lemma_always_state(
        program,
        program.defs@[f as int].body->0,
        gating::own_guards(program, program.defs@[f as int].body->0, comparisons[f]),
    );
}

/// The call at the end of a block of a known function stands behind a check, given
/// which functions are entered after one.
pub open spec fn call_is_behind_check(
    program: Program,
    comparisons: Map<usize, Seq<ComparisonView>>,
    vouching: Set<usize>,
    entered: Set<usize>,
    caller: DefId,
    block: int,
) -> bool {
    let body = program.defs@[caller as int].body->0;
    entered.contains(caller) || always_crosses(
        body,
        checks_of(program, comparisons, vouching, caller),
        Location {
            block: block as usize,
            statement_index: body.basic_blocks@[block].statements@.len() as usize,
        },
    )
}

/// Functions of the graph other than the root, every known call of which stands
/// behind a check given that they do.
pub open spec fn entered_after_check(
    program: Program,
    root: DefId,
    nodes: Seq<DefId>,
    comparisons: Map<usize, Seq<ComparisonView>>,
    vouching: Set<usize>,
    entered: Set<usize>,
) -> bool {
    &&& !entered.contains(root)
    &&& forall|f: usize| #[trigger] entered.contains(f) ==> nodes.contains(f)
    &&& forall|caller: DefId, block: int, call: Call, callee: DefId|
        nodes.contains(caller) && is_known(program, comparisons, caller) && #[trigger] laws::ends_in(
            program.defs@[caller as int].body->0,
            block,
            call,
        ) && #[trigger] calls::leads_to(program, call, callee) && entered.contains(callee)
            ==> call_is_behind_check(
            program,
            comparisons,
            vouching,
            entered,
            caller,
            block,
        )
}

proof fn lemma_entered(
    program: Program,
    root: DefId,
    nodes: Seq<DefId>,
    comparisons: Map<usize, Seq<ComparisonView>>,
    vouching: Set<usize>,
    entered: Set<usize>,
)
    ensures
        gating::entry_consistent(program, root, nodes, comparisons, vouching, entered)
            <==> entered_after_check(program, root, nodes, comparisons, vouching, entered),
{
    if gating::entry_consistent(program, root, nodes, comparisons, vouching, entered) {
        assert forall|caller: DefId, block: int, call: Call, callee: DefId|
            nodes.contains(caller) && is_known(program, comparisons, caller) && #[trigger]
                laws::ends_in(program.defs@[caller as int].body->0, block, call) && #[trigger]
                calls::leads_to(program, call, callee) && entered.contains(callee) implies
            call_is_behind_check(program, comparisons, vouching, entered, caller, block) by {
            let body = program.defs@[caller as int].body->0;
            assert(body.basic_blocks.len() == body.basic_blocks@.len());
            let data = body.basic_blocks@[block];
            assert(data.statements.len() == data.statements@.len());
            let site = call_graph::CallSiteView {
                location: Location {
                    block: block as usize,
                    statement_index: data.statements@.len() as usize,
                },
                caller: body.def_id,
                callee,
                arg_locals: mir_util::operand_locals_of(call.args@),
            };
            assert(calls::is_site_of(program, body, block, call, site));
            calls::law_sites_are_the_calls(program, body, site);
            let sites = call_graph::sites_of(program, body);
            let i = choose|i: int| 0 <= i < sites.len() && sites[i] == site;
            assert(gating::calls_at(program, nodes, comparisons, caller, i, callee));
            law_checked_points(
                body,
                checks_of(program, comparisons, vouching, caller),
                auth_gate::state_of(entered.contains(caller)),
                site.location,
            );
        }
    }
    if entered_after_check(program, root, nodes, comparisons, vouching, entered) {
        assert forall|caller: DefId, i: int, callee: DefId| #[trigger]
            gating::calls_at(program, nodes, comparisons, caller, i, callee) && entered.contains(
                callee,
            ) implies gating::gated_call(program, comparisons, vouching, entered, caller, i) by {
            let body = program.defs@[caller as int].body->0;
            let sites = call_graph::sites_of(program, body);
            assert(sites.contains(sites[i]));
            calls::law_sites_are_the_calls(program, body, sites[i]);
            let (block, call) = choose|block: int, call: Call| #[trigger]
                calls::is_site_of(program, body, block, call, sites[i]);
            assert(laws::ends_in(program.defs@[caller as int].body->0, block, call));
            assert(calls::leads_to(program, call, callee));
            assert(call_is_behind_check(program, comparisons, vouching, entered, caller, block));
            assert(sites[i].location == (Location {
                block: block as usize,
                statement_index: body.basic_blocks@[block].statements@.len() as usize,
            }));
            law_checked_points(
                body,
                checks_of(program, comparisons, vouching, caller),
                auth_gate::state_of(entered.contains(caller)),
                sites[i].location,
            );
        }
    }
}

/// The functions that are entered only after a check are functions of the graph
/// other than the root, every known call of which stands behind a check; and every
/// set of such functions is among them.
pub proof fn law_functions_entered_after_a_check(
    program: Program,
    root: DefId,
    nodes: Seq<DefId>,
    comparisons: Map<usize, Seq<ComparisonView>>,
    vouching: Set<usize>,
    others: Set<usize>,
)
    requires
        entered_after_check(program, root, nodes, comparisons, vouching, others),
    ensures
        entered_after_check(
            program,
            root,
            nodes,
            comparisons,
            vouching,
            gating::entry_checked(program, root, nodes, comparisons, vouching),
        ),
        others.subset_of(gating::entry_checked(program, root, nodes, comparisons, vouching)),
{
    let entered = gating::entry_checked(program, root, nodes, comparisons, vouching);
    gating::lemma_entry_checked_consistent(program, root, nodes, comparisons, vouching);
    lemma_entered(program, root, nodes, comparisons, vouching, entered);
    lemma_entered(program, root, nodes, comparisons, vouching, others);
    assert(gating::entry_consistent(program, root, nodes, comparisons, vouching, others));
}

} // verus!
