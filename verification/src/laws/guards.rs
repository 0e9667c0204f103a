//! What makes a comparison with the sender a check.

use crate::auth_gate;
use crate::gating;
use crate::graph;
use crate::laws;
use crate::mir::{Assign, Body, Call, DefId, Local, Location, Program, Rvalue};
use crate::mir::{Statement, SwitchInt, Terminator};
use crate::mir_util;
use crate::sender_comparisons;
use crate::sender_comparisons::ComparisonView;
use crate::writes;
use vstd::prelude::*;

verus! {

/// An assignment makes its destination stand for another local: it copies or
/// moves it, applies a unary operator to it, or takes its discriminant.
pub open spec fn assignment_stands_for(assign: Assign, to: Local, from: Local) -> bool {
    assign.place.local == to && match assign.rvalue {
        Rvalue::Use(op) => laws::reads(op, from),
        Rvalue::UnaryOp(_, op) => laws::reads(op, from),
        Rvalue::Discriminant(place) => place.local == from,
        _ => false,
    }
}

/// A call makes its destination stand for its first argument.
pub open spec fn call_stands_for(
    program: Program,
    call: Call,
    callee: DefId,
    to: Local,
    from: Local,
) -> bool {
    call.destination.local == to && laws::unwraps(program.defs@[callee as int].name@)
        && call.args@.len() > 0 && laws::reads(call.args@[0], from)
}

/// Point `k` of a block, its terminator being the last one, makes one local stand
/// for another.
pub open spec fn stands_for_at(
    program: Program,
    body: Body,
    block: int,
    k: int,
    to: Local,
    from: Local,
) -> bool {
    ||| exists|assign: Assign| #[trigger]
        laws::assigns(body, block, k, assign) && assignment_stands_for(assign, to, from)
    ||| exists|call: Call, callee: DefId| #[trigger]
        laws::ends_in(body, block, call) && #[trigger] laws::calls(program, call, callee) && k
            == body.basic_blocks@[block].statements@.len() && call_stands_for(
            program,
            call,
            callee,
            to,
            from,
        )
}

/// A point of a body.
pub open spec fn is_point(body: Body, block: int, k: int) -> bool {
    0 <= block < body.basic_blocks@.len() && 0 <= k <= body.basic_blocks@[block].statements@.len()
}

/// One point stands behind another in the text of a body.
pub open spec fn is_behind(block: int, k: int, first_block: int, first_k: int) -> bool {
    block > first_block || (block == first_block && k > first_k)
}

/// The last point to make `to` stand for something makes it stand for `from`.
pub open spec fn finally_stands_for(
    program: Program,
    body: Body,
    to: Local,
    from: Local,
) -> bool {
    exists|block: int, k: int| #[trigger]
        stands_for_at(program, body, block, k, to, from) && is_point(body, block, k) && forall|
            b: int,
            j: int,
            other: Local,
        |
            is_point(body, b, j) && #[trigger] stands_for_at(program, body, b, j, to, other)
                ==> !is_behind(b, j, block, k)
}

proof fn lemma_alias_at(program: Program, body: Body, block: int, k: int, to: Local, from: Local)
    requires
        is_point(body, block, k),
    ensures
        gating::alias_at(program, body, block, k) == Some((to, from)) <==> stands_for_at(
            program,
            body,
            block,
            k,
            to,
            from,
        ),
{
    let data = body.basic_blocks@[block];
    if k < data.statements@.len() {
        if let Statement::Assign(assign) = data.statements@[k] {
            assert(laws::assigns(body, block, k, assign));
        }
    } else {
        if let Terminator::Call(call) = data.terminator {
            assert(laws::ends_in(body, block, call));
            if let Some(callee) = mir_util::callee_of(program, call.func) {
                assert(laws::calls(program, call, callee));
            }
        }
    }
}

proof fn lemma_alias_kept(
    program: Program,
    body: Body,
    block: nat,
    k: nat,
    b: int,
    j: int,
    to: Local,
    from: Local,
)
    requires
        block <= body.basic_blocks@.len(),
        k > 0 ==> block < body.basic_blocks@.len() && k
            <= body.basic_blocks@[block as int].statements@.len() + 1,
        writes::stands_before(body, b, j, block, k),
        stands_for_at(program, body, b, j, to, from),
        forall|c: int, i: int, other: Local|
            writes::stands_before(body, c, i, block, k) && #[trigger] stands_for_at(
                program,
                body,
                c,
                i,
                to,
                other,
            ) ==> !is_behind(c, i, b, j),
    ensures
        gating::aliases_before(program, body, block, k).contains_key(to),
        gating::aliases_before(program, body, block, k)[to] == from,
    decreases block, k,
{
    if k > 0 {
        let at = gating::alias_at(program, body, block as int, k - 1);
        if b == block && j == k - 1 {
            lemma_alias_at(program, body, b, j, to, from);
        } else {
            if at is Some && (at->0).0 == to {
                lemma_alias_at(program, body, block as int, k - 1, to, (at->0).1);
                assert(stands_for_at(program, body, block as int, k - 1, to, (at->0).1));
            }
            lemma_alias_kept(program, body, block, (k - 1) as nat, b, j, to, from);
        }
    } else if block > 0 {
        lemma_alias_kept(
            program,
            body,
            (block - 1) as nat,
            body.basic_blocks@[block - 1].statements@.len() + 1,
            b,
            j,
            to,
            from,
        );
    }
}

proof fn lemma_alias_made(program: Program, body: Body, block: nat, k: nat, to: Local) -> (at: (
    int,
    int,
))
    requires
        block <= body.basic_blocks@.len(),
        k > 0 ==> block < body.basic_blocks@.len() && k
            <= body.basic_blocks@[block as int].statements@.len() + 1,
        gating::aliases_before(program, body, block, k).contains_key(to),
    ensures
        writes::stands_before(body, at.0, at.1, block, k),
        stands_for_at(
            program,
            body,
            at.0,
            at.1,
            to,
            gating::aliases_before(program, body, block, k)[to],
        ),
        forall|c: int, i: int, other: Local|
            writes::stands_before(body, c, i, block, k) && #[trigger] stands_for_at(
                program,
                body,
                c,
                i,
                to,
                other,
            ) ==> !is_behind(c, i, at.0, at.1),
    decreases block, k,
{
    if k > 0 {
        let at = gating::alias_at(program, body, block as int, k - 1);
        if at is Some && (at->0).0 == to {
            lemma_alias_at(program, body, block as int, k - 1, to, (at->0).1);
            (block as int, k - 1)
        } else {
            let found = lemma_alias_made(program, body, block, (k - 1) as nat, to);
            assert forall|c: int, i: int, other: Local|
                writes::stands_before(body, c, i, block, k) && #[trigger] stands_for_at(
                    program,
                    body,
                    c,
                    i,
                    to,
                    other,
                ) implies !is_behind(c, i, found.0, found.1) by {
                if c == block && i == k - 1 {
                    lemma_alias_at(program, body, c, i, to, other);
                }
            }
            found
        }
    } else {
        lemma_alias_made(
            program,
            body,
            (block - 1) as nat,
            body.basic_blocks@[block - 1].statements@.len() + 1,
            to,
        )
    }
}

/// A local stands for another exactly when the last point that makes it stand for
/// anything copies, moves, negates, discriminates or unwraps that other local.
pub proof fn law_local_stands_for_what_it_was_last_made_of(
    program: Program,
    body: Body,
    to: Local,
    from: Local,
)
    ensures
        gating::aliases_of(program, body).contains_key(to) && gating::aliases_of(program, body)[to]
            == from <==> finally_stands_for(program, body, to, from),
{
    let alias = gating::aliases_of(program, body);
    let n = body.basic_blocks@.len();
    if finally_stands_for(program, body, to, from) {
        let (block, k) = choose|block: int, k: int| #[trigger]
            stands_for_at(program, body, block, k, to, from) && is_point(body, block, k) && forall|
                b: int,
                j: int,
                other: Local,
            |
                is_point(body, b, j) && #[trigger] stands_for_at(program, body, b, j, to, other)
                    ==> !is_behind(b, j, block, k);
        assert forall|c: int, i: int, other: Local|
            writes::stands_before(body, c, i, n, 0) && #[trigger] stands_for_at(
                program,
                body,
                c,
                i,
                to,
                other,
            ) implies !is_behind(c, i, block, k) by {
            assert(is_point(body, c, i));
        }
        lemma_alias_kept(program, body, n, 0, block, k, to, from);
    }
    if alias.contains_key(to) && alias[to] == from {
        let at = lemma_alias_made(program, body, n, 0, to);
        assert(stands_for_at(program, body, at.0, at.1, to, from));
        assert forall|b: int, j: int, other: Local|
            is_point(body, b, j) && #[trigger] stands_for_at(
                program,
                body,
                b,
                j,
                to,
                other,
            ) implies !is_behind(b, j, at.0, at.1) by {
            assert(writes::stands_before(body, b, j, n, 0));
        }
    }
}

/// Each local of a chain finally stands for the one behind it, and none occurs
/// twice.
pub open spec fn is_chain(program: Program, body: Body, chain: Seq<Local>) -> bool {
    &&& chain.len() > 0
    &&& chain.no_duplicates()
    &&& forall|i: int|
        0 <= i < chain.len() ==> #[trigger] chain[i] < body.local_decls@.len()
    &&& forall|i: int|
        0 <= i < chain.len() - 1 ==> finally_stands_for(
            program,
            body,
            #[trigger] chain[i],
            chain[i + 1],
        )
}

proof fn lemma_chain_followed(
    alias: Map<usize, Local>,
    n: nat,
    chain: Seq<Local>,
    seen: Set<usize>,
)
    requires
        n <= usize::MAX,
        chain.len() > 0,
        chain.no_duplicates(),
        forall|i: int| 0 <= i < chain.len() ==> #[trigger] chain[i] < n,
        forall|i: int|
            0 <= i < chain.len() - 1 ==> alias.contains_key(#[trigger] chain[i]) && alias[chain[i]]
                == chain[i + 1],
        forall|i: int| 0 < i < chain.len() ==> !seen.contains(#[trigger] chain[i]),
    ensures
        gating::chain_behind(alias, n, chain[0], seen).len() >= chain.len() - 1,
        forall|i: int|
            0 < i < chain.len() ==> gating::chain_behind(alias, n, chain[0], seen)[i - 1]
                == #[trigger] chain[i],
    decreases chain.len(),
{
    if chain.len() > 1 {
        let rest = chain.skip(1);
        let next = chain[1];
        assert(alias.contains_key(chain[0]) && alias[chain[0]] == chain[1]);
        assert(!seen.contains(chain[1]));
        assert forall|i: int| 0 <= i < rest.len() - 1 implies alias.contains_key(
            #[trigger] rest[i],
        ) && alias[rest[i]] == rest[i + 1] by {
            assert(alias.contains_key(chain[i + 1]));
        }
        assert forall|i: int| 0 < i < rest.len() implies !seen.insert(next).contains(
            #[trigger] rest[i],
        ) by {
            assert(rest[i] == chain[i + 1]);
        }
        lemma_chain_followed(alias, n, rest, seen.insert(next));
        let behind = gating::chain_behind(alias, n, chain[0], seen);
        assert(behind == seq![next] + gating::chain_behind(alias, n, next, seen.insert(next)));
        assert forall|i: int| 0 < i < chain.len() implies behind[i - 1] == #[trigger] chain[i] by {
            if i > 1 {
                assert(rest[i - 1] == chain[i]);
            }
        }
    }
}

/// Everything that a local stands for, step by step, is on its alias chain, in
/// that order: in particular the place whose discriminant it last took.
pub proof fn law_chain_follows_every_step(program: Program, body: Body, chain: Seq<Local>, i: int)
    requires
        is_chain(program, body, chain),
        0 <= i < chain.len(),
    ensures
        gating::chain_of(
            gating::aliases_of(program, body),
            body.local_decls@.len(),
            chain[0],
        ).len() >= chain.len(),
        gating::chain_of(
            gating::aliases_of(program, body),
            body.local_decls@.len(),
            chain[0],
        )[i] == chain[i],
{
    let alias = gating::aliases_of(program, body);
    let n = body.local_decls@.len();
    assert(body.local_decls.len() == n);
    assert forall|j: int| 0 <= j < chain.len() - 1 implies alias.contains_key(#[trigger] chain[j])
        && alias[chain[j]] == chain[j + 1] by {
        law_local_stands_for_what_it_was_last_made_of(program, body, chain[j], chain[j + 1]);
    }
    lemma_chain_followed(alias, n, chain, set![chain[0]]);
}

/// A point writes the result of what it compares into a local.
pub open spec fn yields(body: Body, at: Location, result: Local) -> bool {
    ||| exists|assign: Assign| #[trigger]
        laws::assigns(body, at.block as int, at.statement_index as int, assign)
            && assign.place.local == result
    ||| exists|call: Call| #[trigger]
        laws::ends_in(body, at.block as int, call) && call.destination.local == result
            && at.statement_index >= body.basic_blocks@[at.block as int].statements@.len()
}

/// The last comparison whose result is in a local stands at a point.
pub open spec fn is_result_of(
    body: Body,
    comparisons: Seq<ComparisonView>,
    result: Local,
    at: Location,
) -> bool {
    yields(body, at, result) && exists|m: int|
        0 <= m < comparisons.len() && (#[trigger] comparisons[m]).location == at && forall|i: int|
            m < i < comparisons.len() ==> !yields(
                body,
                (#[trigger] comparisons[i]).location,
                result,
            )
}

/// A local holds the result of no comparison.
pub open spec fn no_result(body: Body, comparisons: Seq<ComparisonView>, local: Local) -> bool {
    forall|i: int|
        0 <= i < comparisons.len() ==> !yields(body, (#[trigger] comparisons[i]).location, local)
}

/// The result of a comparison is where its point puts it.
pub proof fn lemma_yields(body: Body, comparison: ComparisonView, result: Local)
    requires
        comparison.location.block < body.basic_blocks@.len(),
    ensures
        sender_comparisons::result_local(body, comparison) == Some(result) <==> yields(
            body,
            comparison.location,
            result,
        ),
{
    let at = comparison.location;
    let data = body.basic_blocks@[at.block as int];
    if at.statement_index < data.statements@.len() {
        if let Statement::Assign(assign) = data.statements@[at.statement_index as int] {
            assert(laws::assigns(body, at.block as int, at.statement_index as int, assign));
        }
    } else {
        if let Terminator::Call(call) = data.terminator {
            assert(laws::ends_in(body, at.block as int, call));
        }
    }
}

proof fn lemma_result_location(
    body: Body,
    comparisons: Seq<ComparisonView>,
    local: Local,
    m: int,
)
    requires
        sender_comparisons::comparisons_wf(body, comparisons),
        0 <= m < comparisons.len(),
        yields(body, comparisons[m].location, local),
        forall|i: int|
            m < i < comparisons.len() ==> !yields(
                body,
                (#[trigger] comparisons[i]).location,
                local,
            ),
    ensures
        gating::result_locations(body, comparisons).contains_key(local),
        gating::result_locations(body, comparisons)[local] == comparisons[m].location,
    decreases comparisons.len(),
{
    let rest = comparisons.drop_last();
    let last = comparisons.last();
    assert(comparisons[comparisons.len() - 1] == last);
    lemma_yields(body, last, local);
    if m < rest.len() {
        assert forall|i: int| 0 <= i < rest.len() implies (#[trigger] rest[i]).location.block
            < body.basic_blocks@.len() by {
            assert(comparisons[i] == rest[i]);
        }
        assert forall|i: int| m < i < rest.len() implies !yields(
            body,
            (#[trigger] rest[i]).location,
            local,
        ) by {
            assert(comparisons[i] == rest[i]);
        }
        assert(rest[m] == comparisons[m]);
        lemma_result_location(body, rest, local, m);
    }
}

proof fn lemma_no_result(body: Body, comparisons: Seq<ComparisonView>, local: Local)
    requires
        sender_comparisons::comparisons_wf(body, comparisons),
        no_result(body, comparisons, local),
    ensures
        !gating::result_locations(body, comparisons).contains_key(local),
    decreases comparisons.len(),
{
    if comparisons.len() > 0 {
        let rest = comparisons.drop_last();
        let last = comparisons.last();
        assert(comparisons[comparisons.len() - 1] == last);
        lemma_yields(body, last, local);
        assert forall|i: int| 0 <= i < rest.len() implies (#[trigger] rest[i]).location.block
            < body.basic_blocks@.len() by {
            assert(comparisons[i] == rest[i]);
        }
        assert forall|i: int| 0 <= i < rest.len() implies !yields(
            body,
            (#[trigger] rest[i]).location,
            local,
        ) by {
            assert(comparisons[i] == rest[i]);
        }
        lemma_no_result(body, rest, local);
    }
}

proof fn lemma_first_bound<V>(chain: Seq<Local>, map: Map<usize, V>, i: int)
    requires
        0 <= i < chain.len(),
        map.contains_key(chain[i]),
        forall|j: int| 0 <= j < i ==> !map.contains_key(#[trigger] chain[j]),
    ensures
        gating::first_bound(chain, map) == Some(map[chain[i]]),
    decreases i,
{
    if i > 0 {
        assert(!map.contains_key(chain[0]));
        let rest = chain.skip(1);
        assert forall|j: int| 0 <= j < i - 1 implies !map.contains_key(#[trigger] rest[j]) by {
            assert(rest[j] == chain[j + 1]);
        }
        lemma_first_bound(rest, map, i - 1);
    }
}

/// The successful returns that are found are the statements that make the
/// function return `Ok`.
proof fn lemma_ok_points(program: Program, body: Body, block: nat, k: nat, at: Location)
    requires
        block <= body.basic_blocks@.len(),
        k > 0 ==> block < body.basic_blocks@.len() && k
            <= body.basic_blocks@[block as int].statements@.len(),
    ensures
        auth_gate::ok_points_before(program, body, block, k).contains(at) <==> laws::returns_ok(
            program,
            body,
            at.block as int,
            at.statement_index as int,
        ) && (at.block < block || (at.block == block && at.statement_index < k)),
    decreases block, k,
{
    assert(body.basic_blocks.len() == body.basic_blocks@.len());
    if k > 0 {
        let data = body.basic_blocks@[block as int];
        assert(data.statements.len() == data.statements@.len());
        let before = auth_gate::ok_points_before(program, body, block, (k - 1) as nat);
        lemma_ok_points(program, body, block, (k - 1) as nat, at);
        let here = Location { block: block as usize, statement_index: (k - 1) as usize };
        if let Statement::Assign(assign) = data.statements@[k - 1] {
            assert(laws::assigns(body, block as int, k - 1, assign));
        }
        assert(auth_gate::is_ok_assign(program, data.statements@[k - 1]) <==> laws::returns_ok(
            program,
            body,
            block as int,
            k - 1,
        ));
        graph::lemma_push_contains(before, here, at);
    } else if block > 0 {
        lemma_ok_points(
            program,
            body,
            (block - 1) as nat,
            body.basic_blocks@[block - 1].statements@.len(),
            at,
        );
    }
}

/// The successful returns of a body are exactly the statements that assign
/// `Ok(..)` to the return place as a whole.
pub proof fn law_successful_returns(program: Program, body: Body, at: Location)
    ensures
        auth_gate::ok_points_of(program, body).contains(at) <==> laws::returns_ok(
            program,
            body,
            at.block as int,
            at.statement_index as int,
        ),
{
    lemma_ok_points(program, body, body.basic_blocks@.len(), 0, at);
}

/// The arm of a branch leads to no successful return.
proof fn lemma_abandons(program: Program, body: Body, block: usize)
    ensures
        laws::abandons_success(program, body, block) <==> !mir_util::block_reaches(
            body,
            block,
            gating::ok_blocks_of(auth_gate::ok_points_of(program, body)),
        ),
{
    let points = auth_gate::ok_points_of(program, body);
    let ok_blocks = gating::ok_blocks_of(points);
    assert forall|path: Seq<usize>| #[trigger]
        graph::walk(laws::continues(body), path) <==> graph::walk(mir_util::flow_edge(body), path) by {
        if graph::walk(laws::continues(body), path) {
            assert forall|i: int| 0 <= i < path.len() - 1 implies mir_util::flow_edge(body)(
                #[trigger] path[i],
                path[i + 1],
            ) by {
                assert(laws::continues(body)(path[i], path[i + 1]));
            }
        }
        if graph::walk(mir_util::flow_edge(body), path) {
            assert forall|i: int| 0 <= i < path.len() - 1 implies laws::continues(body)(
                #[trigger] path[i],
                path[i + 1],
            ) by {
                assert(mir_util::flow_edge(body)(path[i], path[i + 1]));
            }
        }
    }
    if laws::abandons_success(program, body, block) && mir_util::block_reaches(
        body,
        block,
        ok_blocks,
    ) {
        let path = choose|path: Seq<usize>|
            #![trigger graph::walk(mir_util::flow_edge(body), path)]
            graph::walk(mir_util::flow_edge(body), path) && path[0] == block && ok_blocks.contains(
                path.last(),
            );
        let i = choose|i: int| 0 <= i < points.len() && (#[trigger] points[i]).block == path.last();
        assert(points.contains(points[i]));
        law_successful_returns(program, body, points[i]);
        assert(graph::walk(laws::continues(body), path));
        assert(!laws::returns_ok(
            program,
            body,
            path.last() as int,
            points[i].statement_index as int,
        ));
    }
    if !mir_util::block_reaches(body, block, ok_blocks) {
        assert forall|path: Seq<usize>, k: int|
            #![trigger graph::walk(laws::continues(body), path), laws::returns_ok(program, body, path.last() as int, k)]
            graph::walk(laws::continues(body), path) && path[0] == block implies !laws::returns_ok(
            program,
            body,
            path.last() as int,
            k,
        ) by {
            if laws::returns_ok(program, body, path.last() as int, k) {
                let data = body.basic_blocks@[path.last() as int];
                assert(data.statements.len() == data.statements@.len());
                let at = Location { block: path.last(), statement_index: k as usize };
                law_successful_returns(program, body, at);
                assert(points.contains(at));
                assert(ok_blocks.contains(path.last()));
                assert(graph::walk(mir_util::flow_edge(body), path));
            }
        }
    }
}

/// A comparison is a check where some branch on it abandons the success path: the
/// branch is on its result, or on what stands for its result at the end of a
/// chain of copies, negations, discriminants and unwrapping calls, with the
/// result of no other comparison on the way.
pub proof fn law_enforced_comparison_is_a_check(
    program: Program,
    body: Body,
    comparisons: Seq<ComparisonView>,
    at: Location,
    chain: Seq<Local>,
    block: int,
    switch: SwitchInt,
    arm: int,
)
    requires
        sender_comparisons::comparisons_wf(body, comparisons),
        is_chain(program, body, chain),
        is_result_of(body, comparisons, chain.last(), at),
        forall|i: int|
            0 <= i < chain.len() - 1 ==> no_result(body, comparisons, #[trigger] chain[i]),
        laws::branches(body, block, switch),
        laws::reads(switch.discr, chain[0]),
        0 <= arm < switch.targets@.len(),
        laws::abandons_success(program, body, switch.targets@[arm]),
    ensures
        gating::own_guards(program, body, comparisons).points.contains(at.pair()),
{
    let alias = gating::aliases_of(program, body);
    let ok_blocks = gating::ok_blocks_of(auth_gate::ok_points_of(program, body));
    let n = body.local_decls@.len();
    let all = gating::chain_of(alias, n, chain[0]);
    let map = gating::result_locations(body, comparisons);
    let last = chain.len() - 1;
    law_chain_follows_every_step(program, body, chain, last);
    let m = choose|m: int|
        0 <= m < comparisons.len() && (#[trigger] comparisons[m]).location == at && forall|i: int|
            m < i < comparisons.len() ==> !yields(
                body,
                (#[trigger] comparisons[i]).location,
                chain.last(),
            );
    lemma_result_location(body, comparisons, chain.last(), m);
    assert forall|j: int| 0 <= j < last implies !map.contains_key(#[trigger] all[j]) by {
        law_chain_follows_every_step(program, body, chain, j);
        assert(no_result(body, comparisons, chain[j]));
        lemma_no_result(body, comparisons, chain[j]);
    }
    lemma_first_bound(all, map, last);
    lemma_abandons(program, body, switch.targets@[arm]);
    assert(!mir_util::block_reaches(body, switch.targets@[arm], ok_blocks));
    assert(gating::has_aborting_arm(body, switch, ok_blocks));
    assert(gating::guard_at(body, comparisons, ok_blocks, alias, block) == Some(at));
    assert(gating::effective_guards(body, comparisons, ok_blocks, alias).contains(at.pair()));
}

/// The usual shape of a check behind `?`: a branch on the discriminant of what an
/// adapter made of the result of a comparison.
pub proof fn law_discriminant_of_unwrapped_result_is_a_check(
    program: Program,
    body: Body,
    comparisons: Seq<ComparisonView>,
    at: Location,
    result: Local,
    unwrapped: Local,
    discriminant: Local,
    block: int,
    switch: SwitchInt,
    arm: int,
)
    requires
        body.wf(program),
        sender_comparisons::comparisons_wf(body, comparisons),
        is_result_of(body, comparisons, result, at),
        no_result(body, comparisons, unwrapped),
        no_result(body, comparisons, discriminant),
        finally_stands_for(program, body, unwrapped, result),
        finally_stands_for(program, body, discriminant, unwrapped),
        result != unwrapped && unwrapped != discriminant && discriminant != result,
        laws::branches(body, block, switch),
        laws::reads(switch.discr, discriminant),
        0 <= arm < switch.targets@.len(),
        laws::abandons_success(program, body, switch.targets@[arm]),
    ensures
        gating::own_guards(program, body, comparisons).points.contains(at.pair()),
{
    let chain = seq![discriminant, unwrapped, result];
    lemma_stands_for_local(program, body, unwrapped, result);
    lemma_stands_for_local(program, body, discriminant, unwrapped);
    assert(is_chain(program, body, chain));
    law_enforced_comparison_is_a_check(
        program,
        body,
        comparisons,
        at,
        chain,
        block,
        switch,
        arm,
    );
}

proof fn lemma_stands_for_local(program: Program, body: Body, to: Local, from: Local)
    requires
        body.wf(program),
        finally_stands_for(program, body, to, from),
    ensures
        to < body.local_decls@.len(),
        from < body.local_decls@.len(),
{
    let (block, k) = choose|block: int, k: int| #[trigger]
        stands_for_at(program, body, block, k, to, from) && is_point(body, block, k) && forall|
            b: int,
            j: int,
            other: Local,
        |
            is_point(body, b, j) && #[trigger] stands_for_at(program, body, b, j, to, other)
                ==> !is_behind(b, j, block, k);
    let n = body.local_decls@.len();
    let data = body.basic_blocks@[block];
    assert(data.wf(program, n, body.basic_blocks@.len()));
    if exists|assign: Assign| #[trigger]
        laws::assigns(body, block, k, assign) && assignment_stands_for(assign, to, from) {
        let assign = choose|assign: Assign| #[trigger]
            laws::assigns(body, block, k, assign) && assignment_stands_for(assign, to, from);
        assert(data.statements@[k].wf(program, n));
    } else {
        let (call, callee) = choose|call: Call, callee: DefId| #[trigger]
            laws::ends_in(body, block, call) && #[trigger] laws::calls(program, call, callee) && k
                == body.basic_blocks@[block].statements@.len() && call_stands_for(
                program,
                call,
                callee,
                to,
                from,
            );
        assert(data.terminator.wf(program, n, data.successors@));
        assert(call.args@[0].wf(program, n));
    }
}

/// Nothing but an enforced comparison or the entry of an authorized block is a
/// check of a body's own: a comparison that is one has its result in front of a
/// branch with an arm that abandons the success path.
pub proof fn law_only_enforced_comparisons_are_checks(
    program: Program,
    body: Body,
    comparisons: Seq<ComparisonView>,
    point: (usize, usize),
)
    requires
        sender_comparisons::comparisons_wf(body, comparisons),
        gating::own_guards(program, body, comparisons).points.contains(point),
        !gating::own_guards(program, body, comparisons).entries.contains(point.0),
    ensures
        exists|m: int|
            0 <= m < comparisons.len() && (#[trigger] comparisons[m]).location.pair() == point,
        exists|block: int, switch: SwitchInt, arm: int|
            #![trigger laws::branches(body, block, switch), switch.targets@[arm]]
            laws::branches(body, block, switch) && 0 <= arm < switch.targets@.len()
                && laws::abandons_success(program, body, switch.targets@[arm]),
{
    let alias = gating::aliases_of(program, body);
    let ok_blocks = gating::ok_blocks_of(auth_gate::ok_points_of(program, body));
    let gates = gating::authorized_gates(program, body, comparisons);
    let guards = gating::effective_guards(body, comparisons, ok_blocks, alias);
    if gates.contains(point) {
        assert(gating::first_points(gates).contains(point.0));
    }
    assert(guards.contains(point));
    let block = choose|block: int|
        0 <= block < body.basic_blocks@.len() && (#[trigger] gating::guard_at(
            body,
            comparisons,
            ok_blocks,
            alias,
            block,
        ) matches Some(location) && location.pair() == point);
    if let Terminator::SwitchInt(switch) = body.basic_blocks@[block].terminator {
        assert(laws::branches(body, block, switch));
        let arm = choose|i: int|
            0 <= i < switch.targets@.len() && !mir_util::block_reaches(
                body,
                #[trigger] switch.targets@[i],
                ok_blocks,
            );
        lemma_abandons(program, body, switch.targets@[arm]);
        let discr = mir_util::local_of(switch.discr)->0;
        lemma_bound_is_location(
            body,
            comparisons,
            gating::chain_of(alias, body.local_decls@.len(), discr),
        );
    }
}

proof fn lemma_bound_is_location(
    body: Body,
    comparisons: Seq<ComparisonView>,
    chain: Seq<Local>,
)
    ensures
        gating::first_bound(chain, gating::result_locations(body, comparisons)) matches Some(at)
            ==> exists|m: int|
            0 <= m < comparisons.len() && (#[trigger] comparisons[m]).location == at,
    decreases chain.len(),
{
    if chain.len() > 0 {
        if gating::result_locations(body, comparisons).contains_key(chain[0]) {
            lemma_location_is_compared(body, comparisons, chain[0]);
        } else {
            lemma_bound_is_location(body, comparisons, chain.skip(1));
        }
    }
}

proof fn lemma_location_is_compared(body: Body, comparisons: Seq<ComparisonView>, local: Local)
    requires
        gating::result_locations(body, comparisons).contains_key(local),
    ensures
        exists|m: int|
            0 <= m < comparisons.len() && (#[trigger] comparisons[m]).location
                == gating::result_locations(body, comparisons)[local],
    decreases comparisons.len(),
{
    if comparisons.len() > 0 {
        let rest = comparisons.drop_last();
        let last = comparisons.last();
        assert(comparisons[comparisons.len() - 1] == last);
        if sender_comparisons::result_local(body, last) != Some(local) {
            lemma_location_is_compared(body, rest, local);
            let m = choose|m: int|
                0 <= m < rest.len() && (#[trigger] rest[m]).location == gating::result_locations(
                    body,
                    rest,
                )[local];
            assert(comparisons[m] == rest[m]);
        }
    }
}

} // verus!
