//! Which outcome of a comparison authorizes.

use crate::gating;
use crate::graph;
use crate::laws;
use crate::laws::guards;
use crate::mir::{Assign, BinOp, Body, Call, DefId, Local, Program, Rvalue, Statement};
use crate::mir::{SwitchInt, Terminator, UnOp};
use crate::mir_util;
use crate::sender_comparisons;
use crate::sender_comparisons::ComparisonView;
use crate::writes;
use crate::writes::Written;
use vstd::prelude::*;

verus! {

/// Point `k` of a block, its terminator being the last one, writes a local.
pub open spec fn writes_at(body: Body, block: int, k: int, local: Local) -> bool {
    ||| exists|assign: Assign| #[trigger]
        laws::assigns(body, block, k, assign) && assign.place.local == local
    ||| exists|call: Call| #[trigger]
        laws::ends_in(body, block, call) && k == body.basic_blocks@[block].statements@.len()
            && call.destination.local == local
}

/// Point `k` of a block hands out a pointer to a local that can be written
/// through.
pub open spec fn lends_at(body: Body, block: int, k: int, local: Local) -> bool {
    exists|assign: Assign| #[trigger]
        laws::assigns(body, block, k, assign) && match assign.rvalue {
            Rvalue::Ref(mutable, place) => mutable && place.local == local,
            Rvalue::RawPtr(place) => place.local == local,
            _ => false,
        }
}

/// A local is written at one point only: it is no parameter, no other point writes
/// it, and no pointer to it is handed out that it can be written through.
pub open spec fn is_written_only_at(body: Body, block: int, k: int, local: Local) -> bool {
    &&& guards::is_point(body, block, k)
    &&& writes_at(body, block, k, local)
    &&& !(1 <= local <= body.arg_count)
    &&& forall|b: int, j: int|
        guards::is_point(body, b, j) && #[trigger] writes_at(body, b, j, local) ==> b == block && j
            == k
    &&& forall|b: int, j: int|
        guards::is_point(body, b, j) ==> !#[trigger] lends_at(body, b, j, local)
}

/// A point gives a local the truth value of another one, or the opposite: a copy
/// and an adapter keep it, `!` flips it.
pub open spec fn passes_at(
    program: Program,
    body: Body,
    block: int,
    k: int,
    to: Local,
    from: Local,
    flipped: bool,
) -> bool {
    ||| exists|assign: Assign| #[trigger]
        laws::assigns(body, block, k, assign) && assign.place.local == to && match assign.rvalue {
            Rvalue::Use(op) => laws::reads(op, from) && !flipped,
            Rvalue::UnaryOp(UnOp::Not, op) => laws::reads(op, from) && flipped,
            _ => false,
        }
    ||| exists|call: Call, callee: DefId| #[trigger]
        laws::ends_in(body, block, call) && #[trigger] laws::calls(program, call, callee) && k
            == body.basic_blocks@[block].statements@.len() && guards::call_stands_for(
            program,
            call,
            callee,
            to,
            from,
        ) && !flipped
}

proof fn lemma_written_at(program: Program, body: Body, block: int, k: int, local: Local)
    requires
        guards::is_point(body, block, k),
    ensures
        writes::writes_local(program, body, block, k, local) <==> writes_at(body, block, k, local),
        writes::lent_at(body, block, k) == Some(local) <==> lends_at(body, block, k, local),
        forall|from: Local, flipped: bool| #[trigger]
            passes_at(program, body, block, k, local, from, flipped) ==> writes::written_at(
                program,
                body,
                block,
                k,
            ) == Some((local, Some((from, flipped)))),
{
    let data = body.basic_blocks@[block];
    if k < data.statements@.len() {
        if let Statement::Assign(assign) = data.statements@[k] {
            assert(laws::assigns(body, block, k, assign));
        }
    } else {
        if let Terminator::Call(call) = data.terminator {
            assert(laws::ends_in(body, block, call));
        }
    }
    assert forall|from: Local, flipped: bool| #[trigger]
        passes_at(program, body, block, k, local, from, flipped) implies writes::written_at(
        program,
        body,
        block,
        k,
    ) == Some((local, Some((from, flipped)))) by {
        if exists|assign: Assign| #[trigger]
            laws::assigns(body, block, k, assign) && assign.place.local == local
                && match assign.rvalue {
                Rvalue::Use(op) => laws::reads(op, from) && !flipped,
                Rvalue::UnaryOp(UnOp::Not, op) => laws::reads(op, from) && flipped,
                _ => false,
            } {
        } else {
            let (call, callee) = choose|call: Call, callee: DefId| #[trigger]
                laws::ends_in(body, block, call) && #[trigger] laws::calls(program, call, callee)
                    && k == body.basic_blocks@[block].statements@.len() && guards::call_stands_for(
                    program,
                    call,
                    callee,
                    local,
                    from,
                ) && !flipped;
            assert(mir_util::callee_of(program, call.func) == Some(callee));
        }
    }
}

proof fn lemma_writes_before(
    program: Program,
    body: Body,
    block: nat,
    k: nat,
    b: int,
    j: int,
    local: Local,
)
    requires
        is_written_only_at(body, b, j, local),
        block <= body.basic_blocks@.len(),
        k > 0 ==> block < body.basic_blocks@.len() && k
            <= body.basic_blocks@[block as int].statements@.len() + 1,
    ensures
        ({
            let writes = writes::writes_before(program, body, block, k);
            &&& writes.contains_key(local) <==> writes::stands_before(body, b, j, block, k)
            &&& writes.contains_key(local) ==> writes[local] == Written::Once(
                (writes::written_at(program, body, b, j)->0).1,
            )
        }),
    decreases block, k,
{
    lemma_written_at(program, body, b, j, local);
    if k > 0 {
        lemma_writes_before(program, body, block, (k - 1) as nat, b, j, local);
        lemma_written_at(program, body, block as int, k - 1, local);
        assert(!lends_at(body, block as int, k - 1, local));
        if writes_at(body, block as int, k - 1, local) {
            assert(block == b && k - 1 == j);
        }
    } else if block > 0 {
        lemma_writes_before(
            program,
            body,
            (block - 1) as nat,
            body.basic_blocks@[block - 1].statements@.len() + 1,
            b,
            j,
            local,
        );
    }
}

/// A local that is written at one point only counts as such.
pub proof fn lemma_written_once(program: Program, body: Body, block: int, k: int, local: Local)
    requires
        is_written_only_at(body, block, k, local),
    ensures
        writes::writes_of(program, body).contains_key(local),
        writes::writes_of(program, body)[local] is Once,
        forall|from: Local, flipped: bool| #[trigger]
            passes_at(program, body, block, k, local, from, flipped) ==> writes::writes_of(
                program,
                body,
            )[local] == Written::Once(Some((from, flipped))),
{
    lemma_writes_before(program, body, body.basic_blocks@.len(), 0, block, k, local);
    lemma_written_at(program, body, block, k, local);
}

/// How often a truth value is flipped, as far as that matters.
pub open spec fn is_odd(flips: Seq<bool>) -> bool
    decreases flips.len(),
{
    flips.len() > 0 && (flips[0] != is_odd(flips.skip(1)))
}

/// A point at which a local is written, and nowhere else.
pub open spec fn is_passed(
    program: Program,
    body: Body,
    to: Local,
    from: Local,
    flipped: bool,
) -> bool {
    exists|block: int, k: int| #[trigger]
        passes_at(program, body, block, k, to, from, flipped) && is_written_only_at(
            body,
            block,
            k,
            to,
        )
}

/// A truth value is passed on from the last local of a chain to the first, flipped
/// at the given steps.
pub open spec fn is_truth_chain(
    program: Program,
    body: Body,
    chain: Seq<Local>,
    flips: Seq<bool>,
) -> bool {
    &&& chain.len() == flips.len() + 1
    &&& chain.no_duplicates()
    &&& forall|i: int| 0 <= i < chain.len() ==> #[trigger] chain[i] < body.local_decls@.len()
    &&& forall|i: int|
        0 <= i < flips.len() ==> is_passed(
            program,
            body,
            #[trigger] chain[i],
            chain[i + 1],
            flips[i],
        )
    &&& exists|block: int, k: int| #[trigger] is_written_only_at(body, block, k, chain.last())
}

/// The last comparison with `==` or `!=` whose result is in a local has an operator.
pub open spec fn is_equality_result(
    body: Body,
    comparisons: Seq<ComparisonView>,
    result: Local,
    op: BinOp,
) -> bool {
    (op is Eq || op is Ne) && exists|m: int|
        0 <= m < comparisons.len() && (#[trigger] comparisons[m]).op == op && guards::yields(
            body,
            comparisons[m].location,
            result,
        ) && forall|i: int|
            m < i < comparisons.len() && ((#[trigger] comparisons[i]).op is Eq
                || comparisons[i].op is Ne) ==> !guards::yields(
                body,
                comparisons[i].location,
                result,
            )
}

proof fn lemma_result_op(body: Body, comparisons: Seq<ComparisonView>, local: Local, m: int)
    requires
        sender_comparisons::comparisons_wf(body, comparisons),
        0 <= m < comparisons.len(),
        comparisons[m].op is Eq || comparisons[m].op is Ne,
        guards::yields(body, comparisons[m].location, local),
        forall|i: int|
            m < i < comparisons.len() && ((#[trigger] comparisons[i]).op is Eq
                || comparisons[i].op is Ne) ==> !guards::yields(
                body,
                comparisons[i].location,
                local,
            ),
    ensures
        gating::result_ops(body, comparisons).contains_key(local),
        gating::result_ops(body, comparisons)[local] == comparisons[m].op,
    decreases comparisons.len(),
{
    let rest = comparisons.drop_last();
    let last = comparisons.last();
    assert(comparisons[comparisons.len() - 1] == last);
    guards::lemma_yields(body, last, local);
    if m < rest.len() {
        assert forall|i: int| 0 <= i < rest.len() implies (#[trigger] rest[i]).location.block
            < body.basic_blocks@.len() by {
            assert(comparisons[i] == rest[i]);
        }
        assert forall|i: int|
            m < i < rest.len() && ((#[trigger] rest[i]).op is Eq || rest[i].op is Ne) implies
            !guards::yields(body, rest[i].location, local) by {
            assert(comparisons[i] == rest[i]);
        }
        assert(rest[m] == comparisons[m]);
        lemma_result_op(body, rest, local, m);
    }
}

proof fn lemma_truth_traced(
    writes: Map<usize, Written>,
    ops: Map<usize, BinOp>,
    n: nat,
    chain: Seq<Local>,
    flips: Seq<bool>,
    negated: bool,
    seen: Set<usize>,
)
    requires
        n <= usize::MAX,
        chain.len() == flips.len() + 1,
        chain.no_duplicates(),
        forall|i: int| 0 <= i < chain.len() ==> #[trigger] chain[i] < n,
        forall|i: int|
            0 <= i < flips.len() ==> writes.contains_key(#[trigger] chain[i]) && writes[chain[i]]
                == Written::Once(Some((chain[i + 1], flips[i]))) && !ops.contains_key(chain[i]),
        writes.contains_key(chain.last()),
        writes[chain.last()] is Once,
        ops.contains_key(chain.last()),
        forall|i: int| 0 < i < chain.len() ==> !seen.contains(#[trigger] chain[i]),
    ensures
        gating::truth_behind(writes, ops, n, chain[0], negated, seen) == Some(
            (chain.last(), negated != is_odd(flips)),
        ),
    decreases flips.len(),
{
    if flips.len() > 0 {
        let rest = chain.skip(1);
        let later = flips.skip(1);
        let next = chain[1];
        assert(writes.contains_key(chain[0]) && writes[chain[0]] == Written::Once(
            Some((chain[1], flips[0])),
        ));
        assert(!seen.contains(chain[1]));
        assert forall|i: int| 0 <= i < later.len() implies writes.contains_key(#[trigger] rest[i])
            && writes[rest[i]] == Written::Once(Some((rest[i + 1], later[i])))
            && !ops.contains_key(rest[i]) by {
            assert(writes.contains_key(chain[i + 1]));
        }
        assert forall|i: int| 0 < i < rest.len() implies !seen.insert(next).contains(
            #[trigger] rest[i],
        ) by {
            assert(rest[i] == chain[i + 1]);
        }
        assert(rest.last() == chain.last());
        lemma_truth_traced(
            writes,
            ops,
            n,
            rest,
            later,
            negated != flips[0],
            seen.insert(next),
        );
    }
}

/// Where a branch goes for a truth value: to the first arm where that is the
/// value's own, or else to the other one.
pub open spec fn arm_for(switch: SwitchInt, value: bool) -> usize {
    if switch.values@[0] == (if value {
        1u128
    } else {
        0u128
    }) {
        switch.targets@[0]
    } else {
        switch.targets@[1]
    }
}

/// Where a branch on the outcome of an equality comparison goes, given whether the
/// sender equals the principal. `==` comes out true then and `!=` comes out false.
pub open spec fn arm_taken(switch: SwitchInt, op: BinOp, flips: Seq<bool>, equal: bool) -> usize {
    arm_for(switch, ((op is Eq) == equal) != is_odd(flips))
}

/// A branch on the outcome of an equality comparison, however often it is negated
/// on the way, authorizes exactly those whom it finds equal to the principal.
pub proof fn law_equal_sender_is_authorized(
    program: Program,
    body: Body,
    comparisons: Seq<ComparisonView>,
    block: usize,
    switch: SwitchInt,
    chain: Seq<Local>,
    flips: Seq<bool>,
    op: BinOp,
)
    requires
        sender_comparisons::comparisons_wf(body, comparisons),
        is_truth_chain(program, body, chain, flips),
        is_equality_result(body, comparisons, chain.last(), op),
        forall|i: int|
            0 <= i < flips.len() ==> no_equality_result(body, comparisons, #[trigger] chain[i]),
        laws::branches(body, block as int, switch),
        laws::reads(switch.discr, chain[0]),
        switch.values@.len() == 1,
        switch.values@[0] == 0 || switch.values@[0] == 1,
        switch.targets@.len() == 2,
        switch.targets@[0] != switch.targets@[1],
    ensures
        gating::authorizing_edges(program, body, comparisons).contains(
            (block, arm_taken(switch, op, flips, true)),
        ),
        !gating::authorizing_edges(program, body, comparisons).contains(
            (block, arm_taken(switch, op, flips, false)),
        ),
{
    let writes = writes::writes_of(program, body);
    let ops = gating::result_ops(body, comparisons);
    let n = body.local_decls@.len();
    assert(body.local_decls.len() == n);
    assert(body.basic_blocks.len() == body.basic_blocks@.len());
    let m = choose|m: int|
        0 <= m < comparisons.len() && (#[trigger] comparisons[m]).op == op && guards::yields(
            body,
            comparisons[m].location,
            chain.last(),
        ) && forall|i: int|
            m < i < comparisons.len() && ((#[trigger] comparisons[i]).op is Eq
                || comparisons[i].op is Ne) ==> !guards::yields(
                body,
                comparisons[i].location,
                chain.last(),
            );
    lemma_result_op(body, comparisons, chain.last(), m);
    let (b, j) = choose|b: int, j: int| #[trigger] is_written_only_at(body, b, j, chain.last());
    lemma_written_once(program, body, b, j, chain.last());
    assert forall|i: int| 0 <= i < flips.len() implies writes.contains_key(#[trigger] chain[i])
        && writes[chain[i]] == Written::Once(Some((chain[i + 1], flips[i]))) && !ops.contains_key(
        chain[i],
    ) by {
        assert(is_passed(program, body, chain[i], chain[i + 1], flips[i]));
        let (c, m) = choose|c: int, m: int| #[trigger]
            passes_at(program, body, c, m, chain[i], chain[i + 1], flips[i]) && is_written_only_at(
                body,
                c,
                m,
                chain[i],
            );
        lemma_written_once(program, body, c, m, chain[i]);
        assert(no_equality_result(body, comparisons, chain[i]));
        lemma_no_op(body, comparisons, chain[i]);
    }
    lemma_truth_traced(writes, ops, n, chain, flips, false, set![chain[0]]);
    assert(gating::truth_of(program, body, comparisons, chain[0]) == Some(
        (chain.last(), is_odd(flips)),
    ));
    assert(mir_util::local_of(switch.discr) == Some(chain[0]));
    let at = gating::authorizing_at(program, body, comparisons, block as int);
    assert(at == Some((block, arm_taken(switch, op, flips, true))));
    assert forall|c: int|
        0 <= c < body.basic_blocks@.len() implies #[trigger] gating::authorizing_at(
        program,
        body,
        comparisons,
        c,
    ) != Some((block, arm_taken(switch, op, flips, false))) by {
        if c == block {
        } else {
            assert(c as usize != block);
        }
    }
}

/// Whoever enters a block that only authorizing edges lead to has passed a check.
pub proof fn law_block_behind_authorizing_edges_is_a_check(
    program: Program,
    body: Body,
    comparisons: Seq<ComparisonView>,
    inside: usize,
)
    requires
        comparisons.len() > 0,
        0 < inside < body.basic_blocks@.len(),
        exists|p: usize| #[trigger] laws::continues(body)(p, inside),
        forall|p: usize| #[trigger]
            laws::continues(body)(p, inside) ==> gating::authorizing_edges(
                program,
                body,
                comparisons,
            ).contains((p, inside)),
    ensures
        gating::own_guards(program, body, comparisons).entries.contains(inside),
        gating::own_guards(program, body, comparisons).points.contains((inside, 0)),
{
    let edges = gating::authorizing_edges(program, body, comparisons);
    let some = choose|p: usize| #[trigger] laws::continues(body)(p, inside);
    mir_util::lemma_preds(body, inside, some);
    assert(mir_util::flow_edge(body)(some, inside));
    assert(mir_util::preds_of(body, inside).contains(some));
    assert(mir_util::preds_of(body, inside).len() > 0);
    assert forall|p: usize| #[trigger]
        mir_util::preds_of(body, inside).contains(p) implies edges.contains((p, inside)) by {
        mir_util::lemma_preds(body, inside, p);
        assert(laws::continues(body)(p, inside));
    }
    gating::lemma_authorized_block_equation(body, edges, inside);
    assert(edges.contains((some, inside)));
    assert(edges != Set::<(usize, usize)>::empty());
    assert(gating::authorized_gates(program, body, comparisons).contains((inside, 0)));
}

/// Control may come into a block without leaving another one: it is the first, or no
/// block goes on to it.
pub open spec fn is_start(body: Body, block: usize) -> bool {
    block < body.basic_blocks@.len() && (block == 0 || forall|from: usize|
        !#[trigger] laws::continues(body)(from, block))
}

/// A path from a start that takes no authorizing edge leads to a block.
pub open spec fn is_open_path(
    program: Program,
    body: Body,
    comparisons: Seq<ComparisonView>,
    path: Seq<usize>,
    block: usize,
) -> bool {
    &&& graph::walk(laws::continues(body), path)
    &&& is_start(body, path[0])
    &&& path.last() == block
    &&& forall|i: int|
        0 <= i < path.len() - 1 ==> !gating::authorizing_edges(
            program,
            body,
            comparisons,
        ).contains((#[trigger] path[i], path[i + 1]))
}

proof fn lemma_start(body: Body, block: usize)
    ensures
        gating::open_starts(body).contains(block) <==> is_start(body, block),
{
    let preds = mir_util::preds_of(body, block);
    if preds.len() == 0 {
        assert forall|from: usize| !#[trigger] laws::continues(body)(from, block) by {
            mir_util::lemma_preds(body, block, from);
            assert(!preds.contains(from));
        }
    } else {
        let from = preds[0];
        assert(preds.contains(from));
        mir_util::lemma_preds(body, block, from);
        assert(laws::continues(body)(from, block));
    }
}

proof fn lemma_open_path(
    program: Program,
    body: Body,
    comparisons: Seq<ComparisonView>,
    path: Seq<usize>,
    block: usize,
)
    ensures
        graph::leads(
            gating::open_edge(body, gating::authorizing_edges(program, body, comparisons)),
            gating::open_starts(body),
            path,
            block,
        ) <==> is_open_path(program, body, comparisons, path, block),
{
    let edges = gating::authorizing_edges(program, body, comparisons);
    let open = gating::open_edge(body, edges);
    lemma_start(body, path[0]);
    assert forall|a: usize, b: usize| #[trigger] open(a, b) <==> laws::continues(body)(a, b)
        && !edges.contains((a, b)) by {
    }
    if is_open_path(program, body, comparisons, path, block) {
        assert forall|i: int| 0 <= i < path.len() - 1 implies open(
            #[trigger] path[i],
            path[i + 1],
        ) by {
            assert(laws::continues(body)(path[i], path[i + 1]));
        }
    }
    if graph::walk(open, path) {
        assert forall|i: int| 0 <= i < path.len() - 1 implies laws::continues(body)(
            #[trigger] path[i],
            path[i + 1],
        ) && !edges.contains((path[i], path[i + 1])) by {
            assert(open(path[i], path[i + 1]));
        }
    }
}

proof fn lemma_entries(
    program: Program,
    body: Body,
    comparisons: Seq<ComparisonView>,
    block: usize,
)
    ensures
        gating::own_guards(program, body, comparisons).entries.contains(block) <==> (
        comparisons.len() > 0 && block < body.basic_blocks@.len() && gating::authorizing_edges(
            program,
            body,
            comparisons,
        ) != Set::<(usize, usize)>::empty() && !graph::reaches(
            gating::open_edge(body, gating::authorizing_edges(program, body, comparisons)),
            gating::open_starts(body),
            block,
        )),
{
}

/// Where some branch tells the sender apart, the blocks that are checked from their
/// start on are those that no path without an authorizing edge leads to.
pub proof fn law_open_path_authorizes_nobody(
    program: Program,
    body: Body,
    comparisons: Seq<ComparisonView>,
    block: usize,
)
    ensures
        gating::own_guards(program, body, comparisons).entries.contains(block) <==> (
        comparisons.len() > 0 && block < body.basic_blocks@.len() && (exists|edge: (usize, usize)|
            #[trigger]
            gating::authorizing_edges(program, body, comparisons).contains(edge)) && !exists|
            path: Seq<usize>,
        | #[trigger] is_open_path(program, body, comparisons, path, block)),
{
    let edges = gating::authorizing_edges(program, body, comparisons);
    let open = gating::open_edge(body, edges);
    let starts = gating::open_starts(body);
    lemma_entries(program, body, comparisons, block);
    assert(graph::reaches(open, starts, block) <==> exists|path: Seq<usize>| #[trigger]
        is_open_path(program, body, comparisons, path, block)) by {
        if exists|path: Seq<usize>| #[trigger]
            is_open_path(program, body, comparisons, path, block) {
            let path = choose|path: Seq<usize>| #[trigger]
                is_open_path(program, body, comparisons, path, block);
            lemma_open_path(program, body, comparisons, path, block);
        }
        if graph::reaches(open, starts, block) {
            let path = choose|path: Seq<usize>| graph::leads(open, starts, path, block);
            lemma_open_path(program, body, comparisons, path, block);
        }
    }
    assert(edges != Set::<(usize, usize)>::empty() <==> exists|edge: (usize, usize)| #[trigger]
        edges.contains(edge)) by {
        if forall|edge: (usize, usize)| !#[trigger] edges.contains(edge) {
            assert(edges =~= Set::<(usize, usize)>::empty());
        }
    }
}

/// What counts as written once is written at one point only.
pub proof fn lemma_counts_as_written_once(program: Program, body: Body, local: Local) -> (at: (
    int,
    int,
))
    requires
        writes::writes_of(program, body).contains_key(local),
        writes::writes_of(program, body)[local] is Once,
    ensures
        is_written_only_at(body, at.0, at.1, local),
        writes::written_at(program, body, at.0, at.1) == Some(
            (local, writes::writes_of(program, body)[local]->Once_0),
        ),
{
    let from = writes::writes_of(program, body)[local]->Once_0;
    let n = body.basic_blocks@.len();
    writes::lemma_written_once(program, body, local, from);
    let (b, j) = choose|b: int, j: int|
        #![trigger writes::written_at(program, body, b, j)]
        writes::stands_before(body, b, j, n, 0) && writes::written_at(program, body, b, j) == Some(
            (local, from),
        ) && forall|c: int, i: int|
            writes::stands_before(body, c, i, n, 0) && #[trigger] writes::writes_local(
                program,
                body,
                c,
                i,
                local,
            ) ==> c == b && i == j;
    assert(guards::is_point(body, b, j));
    lemma_written_at(program, body, b, j, local);
    assert(writes::writes_local(program, body, b, j, local));
    assert forall|c: int, i: int|
        guards::is_point(body, c, i) && #[trigger] writes_at(body, c, i, local) implies c == b && i
        == j by {
        lemma_written_at(program, body, c, i, local);
        assert(writes::stands_before(body, c, i, n, 0));
        assert(writes::writes_local(program, body, c, i, local));
    }
    assert forall|c: int, i: int| guards::is_point(body, c, i) implies !#[trigger] lends_at(
        body,
        c,
        i,
        local,
    ) by {
        lemma_written_at(program, body, c, i, local);
        assert(writes::stands_before(body, c, i, n, 0));
        assert(writes::lent_at(body, c, i) != Some(local));
    }
    (b, j)
}

proof fn lemma_passed(program: Program, body: Body, local: Local, from: Local, flipped: bool)
    requires
        writes::writes_of(program, body).contains_key(local),
        writes::writes_of(program, body)[local] == Written::Once(Some((from, flipped))),
    ensures
        is_passed(program, body, local, from, flipped),
{
    let (b, j) = lemma_counts_as_written_once(program, body, local);
    let data = body.basic_blocks@[b];
    if j < data.statements@.len() {
        if let Statement::Assign(assign) = data.statements@[j] {
            assert(laws::assigns(body, b, j, assign));
        }
    } else {
        if let Terminator::Call(call) = data.terminator {
            assert(laws::ends_in(body, b, call));
            let callee = mir_util::callee_of(program, call.func)->0;
            assert(laws::calls(program, call, callee));
            assert(guards::call_stands_for(program, call, callee, local, from));
        }
    }
    assert(passes_at(program, body, b, j, local, from, flipped));
}

/// No comparison with `==` or `!=` puts its result into a local.
pub open spec fn no_equality_result(
    body: Body,
    comparisons: Seq<ComparisonView>,
    local: Local,
) -> bool {
    forall|i: int|
        0 <= i < comparisons.len() && ((#[trigger] comparisons[i]).op is Eq || comparisons[i].op is Ne)
            ==> !guards::yields(body, comparisons[i].location, local)
}

proof fn lemma_no_op(body: Body, comparisons: Seq<ComparisonView>, local: Local)
    requires
        sender_comparisons::comparisons_wf(body, comparisons),
        no_equality_result(body, comparisons, local),
    ensures
        !gating::result_ops(body, comparisons).contains_key(local),
    decreases comparisons.len(),
{
    if comparisons.len() > 0 {
        let rest = comparisons.drop_last();
        let last = comparisons.last();
        assert forall|i: int| 0 <= i < rest.len() implies (#[trigger] rest[i]).location.block
            < body.basic_blocks@.len() by {
            assert(comparisons[i] == rest[i]);
        }
        assert forall|i: int|
            0 <= i < rest.len() && ((#[trigger] rest[i]).op is Eq || rest[i].op is Ne) implies
            !guards::yields(body, rest[i].location, local) by {
            assert(comparisons[i] == rest[i]);
        }
        lemma_no_op(body, rest, local);
        assert(comparisons[comparisons.len() - 1] == last);
        guards::lemma_yields(body, last, local);
    }
}

/// The branch at the end of a block authorizes nobody.
pub open spec fn authorizes_nobody(
    program: Program,
    body: Body,
    comparisons: Seq<ComparisonView>,
    block: usize,
) -> bool {
    forall|to: usize| !#[trigger] gating::authorizing_edges(program, body, comparisons).contains(
        (block, to),
    )
}

proof fn lemma_authorizes_nobody(
    program: Program,
    body: Body,
    comparisons: Seq<ComparisonView>,
    block: usize,
)
    requires
        block < body.basic_blocks@.len(),
        gating::authorizing_at(program, body, comparisons, block as int) is None,
    ensures
        authorizes_nobody(program, body, comparisons, block),
{
    assert(body.basic_blocks.len() == body.basic_blocks@.len());
    assert forall|to: usize| !#[trigger] gating::authorizing_edges(
        program,
        body,
        comparisons,
    ).contains((block, to)) by {
        assert forall|c: int|
            0 <= c < body.basic_blocks@.len() implies #[trigger] gating::authorizing_at(
            program,
            body,
            comparisons,
            c,
        ) != Some((block, to)) by {
            if c != block {
                assert(c as usize != block);
            }
        }
    }
}

/// A branch on a local does not decide on an equality.
pub open spec fn is_undecided(
    program: Program,
    body: Body,
    comparisons: Seq<ComparisonView>,
    switch: SwitchInt,
    local: Local,
) -> bool {
    ||| switch.targets@.len() != 2
    ||| switch.targets@[0] == switch.targets@[1]
    ||| forall|b: int, j: int| !#[trigger] is_written_only_at(body, b, j, local)
    ||| no_equality_result(body, comparisons, local) && forall|from: Local, flipped: bool|
        !#[trigger] is_passed(program, body, local, from, flipped)
}

/// A branch authorizes nobody where it does not decide on an equality: where it has
/// more than two arms, where its arms lead to the same place, or where what it
/// branches on is neither the result of `==` or `!=` written at one point only, nor
/// passed on from one local to the other at one point only.
pub proof fn law_undecided_branch_authorizes_nobody(
    program: Program,
    body: Body,
    comparisons: Seq<ComparisonView>,
    block: usize,
    switch: SwitchInt,
    local: Local,
)
    requires
        sender_comparisons::comparisons_wf(body, comparisons),
        laws::branches(body, block as int, switch),
        laws::reads(switch.discr, local),
        is_undecided(program, body, comparisons, switch, local),
    ensures
        authorizes_nobody(program, body, comparisons, block),
{
    let writes = writes::writes_of(program, body);
    assert(mir_util::local_of(switch.discr) == Some(local));
    assert(body.local_decls.len() == body.local_decls@.len());
    if switch.targets@.len() == 2 && switch.targets@[0] != switch.targets@[1] {
        if forall|b: int, j: int| !#[trigger] is_written_only_at(body, b, j, local) {
            if writes.contains_key(local) && writes[local] is Once {
                let at = lemma_counts_as_written_once(program, body, local);
                assert(is_written_only_at(body, at.0, at.1, local));
            }
        } else {
            lemma_no_op(body, comparisons, local);
            if writes.contains_key(local) {
                if let Written::Once(Some((from, flipped))) = writes[local] {
                    lemma_passed(program, body, local, from, flipped);
                }
            }
        }
        assert(gating::truth_of(program, body, comparisons, local) is None);
    }
    lemma_authorizes_nobody(program, body, comparisons, block);
}

/// A branch on something other than a local, or no branch at all, authorizes nobody.
pub proof fn law_only_branches_authorize(
    program: Program,
    body: Body,
    comparisons: Seq<ComparisonView>,
    block: usize,
)
    requires
        block < body.basic_blocks@.len(),
        forall|switch: SwitchInt, local: Local| #[trigger]
            laws::branches(body, block as int, switch) ==> !#[trigger] laws::reads(
                switch.discr,
                local,
            ),
    ensures
        authorizes_nobody(program, body, comparisons, block),
{
    if let Terminator::SwitchInt(switch) = body.basic_blocks@[block as int].terminator {
        assert(laws::branches(body, block as int, switch));
        if let Some(local) = mir_util::local_of(switch.discr) {
            assert(laws::reads(switch.discr, local));
        }
    }
    lemma_authorizes_nobody(program, body, comparisons, block);
}

} // verus!
