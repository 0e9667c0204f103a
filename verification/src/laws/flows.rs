//! How taint spreads through a body, through storage and out of a function.

use crate::call_graph;
use crate::graph;
use crate::laws;
use crate::laws::addresses;
use crate::mir::{Assign, Body, Call, DefId, Local, Operand, Place, Program, Rvalue, Statement};
use crate::mir::{Terminator, TyKind};
use crate::mir_util;
use crate::storage_inventory;
use crate::taint;
use crate::taint::{TaintContext, TaintNode, TaintState};
use vstd::prelude::*;

verus! {

/// An rvalue depends on a local.
pub open spec fn uses(rvalue: Rvalue, local: Local) -> bool {
    match rvalue {
        Rvalue::Use(op) => laws::reads(op, local),
        Rvalue::Repeat(op) => laws::reads(op, local),
        Rvalue::Cast(op) => laws::reads(op, local),
        Rvalue::UnaryOp(_, op) => laws::reads(op, local),
        Rvalue::BinaryOp(_, left, right) => laws::reads(left, local) || laws::reads(right, local),
        Rvalue::Ref(_, place) => place.local == local,
        Rvalue::RawPtr(place) => place.local == local,
        Rvalue::Discriminant(place) => place.local == local,
        Rvalue::CopyForDeref(place) => place.local == local,
        Rvalue::Aggregate(_, _) => laws::collects(rvalue, local),
        Rvalue::Other => false,
    }
}

/// A call is a `save`, `insert` or `update` of `cw_storage_plus`.
pub open spec fn stores(program: Program, call: Call) -> bool {
    exists|callee: DefId| #[trigger]
        laws::calls(program, call, callee) && (laws::is_item(
            program,
            callee,
            "cw_storage_plus"@,
            "save"@,
        ) || laws::is_item(program, callee, "cw_storage_plus"@, "insert"@) || laws::is_item(
            program,
            callee,
            "cw_storage_plus"@,
            "update"@,
        ))
}

/// A call is a `load`, `may_load` or `get` of `cw_storage_plus`.
pub open spec fn fetches(program: Program, call: Call) -> bool {
    exists|callee: DefId| #[trigger]
        laws::calls(program, call, callee) && (laws::is_item(
            program,
            callee,
            "cw_storage_plus"@,
            "load"@,
        ) || laws::is_item(program, callee, "cw_storage_plus"@, "may_load"@) || laws::is_item(
            program,
            callee,
            "cw_storage_plus"@,
            "get"@,
        ))
}

/// The storage constant behind the first argument of a call, where that is a
/// local and resolves to one.
pub open spec fn item_behind(program: Program, body: Body, call: Call) -> Option<DefId> {
    if call.args@.len() == 0 {
        None
    } else {
        match call.args@[0] {
            Operand::Copy(place) => storage_inventory::storage_def(program, body, place.local),
            Operand::Move(place) => storage_inventory::storage_def(program, body, place.local),
            _ => None,
        }
    }
}

/// Control may get from the end of one block to another one.
pub open spec fn is_later(body: Body, from: usize, to: usize) -> bool {
    exists|path: Seq<usize>| #[trigger]
        graph::walk(laws::continues(body), path) && path.len() > 1 && path[0] == from && path.last()
            == to
}

/// An operand hands the taint of a local to a call: it is the local, or a
/// reference that borrows it.
pub open spec fn hands_in(body: Body, operand: Operand, local: Local) -> bool {
    ||| laws::reads(operand, local)
    ||| exists|reference: Local| #[trigger]
        laws::reads(operand, reference) && taint::borrows_of(body).of.contains_key(reference)
            && taint::borrows_of(body).of[reference] == local
}

/// An operand lets a call write to a local: it is a mutable borrow of it.
pub open spec fn lets_write(body: Body, operand: Operand, local: Local) -> bool {
    exists|reference: Local| #[trigger]
        laws::reads(operand, reference) && taint::borrows_of(body).mutable.contains(reference)
            && taint::borrows_of(body).of.contains_key(reference) && taint::borrows_of(
            body,
        ).of[reference] == local
}

/// The callee of a block's call, where it is known, forwards the argument at a
/// position to its return value.
pub open spec fn position_flows(context: TaintContext, block: int, i: int) -> bool {
    let at = (block as usize, context.body.basic_blocks@[block].statements@.len() as usize);
    context.callee_at.contains_key(at) && context.flows.contains_key(context.callee_at[at])
        ==> context.flows[context.callee_at[at]].contains(i as usize)
}

/// A call moves taint. A storage write moves it from the data, its last argument,
/// into what the block writes. A storage read moves it out of an earlier write to
/// the same item, or to an unknown one, into its destination. Any other call moves
/// it from its arguments to its destination and into what it may write to.
pub open spec fn call_moves(
    context: TaintContext,
    block: int,
    call: Call,
    from: TaintNode,
    to: TaintNode,
) -> bool {
    let program = context.program;
    let body = context.body;
    if stores(program, call) {
        to == TaintNode::Written(block as usize) && (from matches TaintNode::Local(local)
            && call.args@.len() > 0 && laws::reads(call.args@[call.args@.len() - 1], local))
    } else if fetches(program, call) {
        to == TaintNode::Local(call.destination.local) && (from matches TaintNode::Written(writer)
            && is_later(body, writer, block as usize) && exists|write: Call| #[trigger]
            laws::ends_in(body, writer as int, write) && stores(program, write) && (item_behind(
                program,
                body,
                write,
            ) is None || item_behind(program, body, write) == item_behind(program, body, call)))
    } else {
        from matches TaintNode::Local(local) && exists|i: int|
            0 <= i < call.args@.len() && hands_in(body, #[trigger] call.args@[i], local) && ((to
                == TaintNode::Local(call.destination.local) && position_flows(context, block, i))
                || (to matches TaintNode::Local(written) && exists|j: int|
                0 <= j < call.args@.len() && lets_write(
                    body,
                    #[trigger] call.args@[j],
                    written,
                )))
    }
}

/// Point `k` of a block, its terminator being the last one, moves taint.
pub open spec fn moves(
    context: TaintContext,
    block: int,
    k: int,
    from: TaintNode,
    to: TaintNode,
) -> bool {
    ||| exists|assign: Assign| #[trigger]
        laws::assigns(context.body, block, k, assign) && to == TaintNode::Local(assign.place.local)
            && (from matches TaintNode::Local(local) && uses(assign.rvalue, local))
    ||| exists|call: Call| #[trigger]
        laws::ends_in(context.body, block, call) && k
            == context.body.basic_blocks@[block].statements@.len() && call_moves(
            context,
            block,
            call,
            from,
            to,
        )
}

/// The locals that an rvalue reads are those that it depends on.
pub proof fn lemma_uses(rvalue: Rvalue, local: Local)
    ensures
        mir_util::rvalue_reads(rvalue).contains(local) <==> uses(rvalue, local),
{
    match rvalue {
        Rvalue::Use(op) => {
            mir_util::lemma_read_locals(seq![op], local);
            assert(seq![op][0] == op);
        },
        Rvalue::Repeat(op) => {
            mir_util::lemma_read_locals(seq![op], local);
            assert(seq![op][0] == op);
        },
        Rvalue::Cast(op) => {
            mir_util::lemma_read_locals(seq![op], local);
            assert(seq![op][0] == op);
        },
        Rvalue::UnaryOp(_, op) => {
            mir_util::lemma_read_locals(seq![op], local);
            assert(seq![op][0] == op);
        },
        Rvalue::BinaryOp(_, left, right) => {
            mir_util::lemma_read_locals(seq![left, right], local);
            assert(seq![left, right][0] == left);
            assert(seq![left, right][1] == right);
        },
        Rvalue::Aggregate(_, operands) => {
            mir_util::lemma_read_locals(operands@, local);
        },
        Rvalue::Ref(_, place) => {
            assert(seq![place.local][0] == place.local);
        },
        Rvalue::RawPtr(place) => {
            assert(seq![place.local][0] == place.local);
        },
        Rvalue::Discriminant(place) => {
            assert(seq![place.local][0] == place.local);
        },
        Rvalue::CopyForDeref(place) => {
            assert(seq![place.local][0] == place.local);
        },
        Rvalue::Other => {},
    }
}

proof fn lemma_roles(program: Program, body: Body, call: Call)
    ensures
        taint::writes_storage(program, call) <==> stores(program, call),
        taint::loads_storage(program, call) <==> fetches(program, call),
        taint::item_of(program, body, call) == item_behind(program, body, call),
{
    if let Some(callee) = mir_util::callee_of(program, call.func) {
        assert(laws::calls(program, call, callee));
    }
}

/// The storage calls are those that are recognised as such.
pub proof fn lemma_storage_calls(program: Program, call: Call)
    ensures
        taint::writes_storage(program, call) <==> stores(program, call),
        taint::loads_storage(program, call) <==> fetches(program, call),
{
    if let Some(callee) = mir_util::callee_of(program, call.func) {
        assert(laws::calls(program, call, callee));
    }
}

proof fn lemma_later(body: Body, from: usize, to: usize)
    ensures
        mir_util::comes_later(body, from, to) <==> is_later(body, from, to),
{
    let edge = mir_util::flow_edge(body);
    let starts = Set::new(|b: usize| edge(from, b));
    if mir_util::comes_later(body, from, to) {
        let path = choose|path: Seq<usize>| graph::leads(edge, starts, path, to);
        let longer = seq![from] + path;
        assert forall|i: int| 0 <= i < longer.len() - 1 implies laws::continues(body)(
            #[trigger] longer[i],
            longer[i + 1],
        ) by {
            if i == 0 {
                assert(edge(from, path[0]));
            } else {
                assert(edge(path[i - 1], path[i - 1 + 1]));
            }
        }
        assert(graph::walk(laws::continues(body), longer));
    }
    if is_later(body, from, to) {
        let path = choose|path: Seq<usize>| #[trigger]
            graph::walk(laws::continues(body), path) && path.len() > 1 && path[0] == from
                && path.last() == to;
        let shorter = path.skip(1);
        assert(laws::continues(body)(path[0], path[0 + 1int]));
        assert forall|i: int| 0 <= i < shorter.len() - 1 implies edge(
            #[trigger] shorter[i],
            shorter[i + 1],
        ) by {
            assert(laws::continues(body)(path[i + 1], path[i + 1 + 1]));
        }
        assert(graph::leads(edge, starts, shorter, to));
    }
}

proof fn lemma_fed(body: Body, operand: Operand, from: TaintNode, to: TaintNode)
    ensures
        taint::feeds_argument(taint::borrows_of(body), mir_util::local_of(operand), from) <==> (
        from matches TaintNode::Local(local) && hands_in(body, operand, local)),
        taint::writes_back(taint::borrows_of(body), mir_util::local_of(operand), to) <==> (
        to matches TaintNode::Local(local) && lets_write(body, operand, local)),
{
    if let Some(l) = mir_util::local_of(operand) {
        assert(laws::reads(operand, l));
    }
}

proof fn lemma_call_moves(
    context: TaintContext,
    block: int,
    call: Call,
    from: TaintNode,
    to: TaintNode,
)
    requires
        laws::ends_in(context.body, block, call),
    ensures
        taint::carried_at(
            context,
            block,
            context.body.basic_blocks@[block].statements@.len() as int,
            from,
            to,
        ) <==> call_moves(context, block, call, from, to),
{
    let program = context.program;
    let body = context.body;
    lemma_roles(program, body, call);
    if stores(program, call) {
    } else if fetches(program, call) {
        let item = item_behind(program, body, call);
        if let TaintNode::Written(w) = from {
            lemma_later(body, w, block as usize);
            if w < body.basic_blocks@.len() {
                if let Terminator::Call(write) = body.basic_blocks@[w as int].terminator {
                    lemma_roles(program, body, write);
                    assert(laws::ends_in(body, w as int, write));
                }
            }
        }
    } else {
        let borrows = taint::borrows_of(body);
        let args = mir_util::operand_locals_of(call.args@);
        assert forall|i: int| 0 <= i < args.len() implies args[i] == mir_util::local_of(
            #[trigger] call.args@[i],
        ) by {}
        let flow = taint::flow_at(context, block);
        assert forall|i: int| taint::forwards_position(flow, i) <==> position_flows(
            context,
            block,
            i,
        ) by {}
        if taint::carried_by_call(borrows, call, flow, from, to) {
            let i = choose|i: int|
                0 <= i < args.len() && taint::feeds_argument(borrows, #[trigger] args[i], from) && ((
                taint::forwards_position(flow, i) && to == TaintNode::Local(call.destination.local))
                    || exists|j: int|
                    0 <= j < args.len() && taint::writes_back(borrows, #[trigger] args[j], to));
            lemma_fed(body, call.args@[i], from, to);
            if !(taint::forwards_position(flow, i) && to == TaintNode::Local(
                call.destination.local,
            )) {
                let j = choose|j: int|
                    0 <= j < args.len() && taint::writes_back(borrows, #[trigger] args[j], to);
                lemma_fed(body, call.args@[j], from, to);
            }
        }
        if call_moves(context, block, call, from, to) {
            if let TaintNode::Local(local) = from {
                let i = choose|i: int|
                    0 <= i < call.args@.len() && hands_in(body, #[trigger] call.args@[i], local) && ((
                    to == TaintNode::Local(call.destination.local) && position_flows(
                        context,
                        block,
                        i,
                    )) || (to matches TaintNode::Local(written) && exists|j: int|
                        0 <= j < call.args@.len() && lets_write(
                            body,
                            #[trigger] call.args@[j],
                            written,
                        )));
                lemma_fed(body, call.args@[i], from, to);
                assert(taint::feeds_argument(borrows, args[i], from));
                if !(to == TaintNode::Local(call.destination.local) && position_flows(
                    context,
                    block,
                    i,
                )) {
                    if let TaintNode::Local(written) = to {
                        let j = choose|j: int|
                            0 <= j < call.args@.len() && lets_write(
                                body,
                                #[trigger] call.args@[j],
                                written,
                            );
                        lemma_fed(body, call.args@[j], from, to);
                        assert(taint::writes_back(borrows, args[j], to));
                    }
                }
            }
        }
    }
}

proof fn lemma_moves(context: TaintContext, block: int, k: int, from: TaintNode, to: TaintNode)
    ensures
        taint::carried_at(context, block, k, from, to) <==> moves(context, block, k, from, to),
{
    let body = context.body;
    if 0 <= block < body.basic_blocks@.len() {
        let data = body.basic_blocks@[block];
        if 0 <= k < data.statements@.len() {
            if let Statement::Assign(assign) = data.statements@[k] {
                assert(laws::assigns(body, block, k, assign));
                if let TaintNode::Local(local) = from {
                    lemma_uses(assign.rvalue, local);
                }
            }
        } else if k == data.statements@.len() {
            if let Terminator::Call(call) = data.terminator {
                assert(laws::ends_in(body, block, call));
                lemma_call_moves(context, block, call, from, to);
            }
        }
    }
}

/// Taint reaches a local, or what a block writes to storage.
pub open spec fn is_tainted(context: TaintContext, seeds: Set<usize>, node: TaintNode) -> bool {
    graph::reaches(taint::taint_edge(context), taint::seed_nodes(seeds), node)
}

/// Every seed is tainted, and taint goes wherever a point of the body moves it.
pub proof fn law_taint_is_moved(
    context: TaintContext,
    seeds: Set<usize>,
    block: int,
    k: int,
    from: TaintNode,
    to: TaintNode,
)
    requires
        is_tainted(context, seeds, from) || (from matches TaintNode::Local(local) && seeds.contains(
            local,
        )),
        moves(context, block, k, from, to),
    ensures
        is_tainted(context, seeds, from),
        is_tainted(context, seeds, to),
        to matches TaintNode::Local(local) ==> taint::tainted_locals(context, seeds).contains(local),
{
    let edge = taint::taint_edge(context);
    let starts = taint::seed_nodes(seeds);
    if !is_tainted(context, seeds, from) {
        graph::lemma_reaches_start(edge, starts, from);
    }
    lemma_moves(context, block, k, from, to);
    assert(edge(from, to));
    graph::lemma_reaches_step(edge, starts, from, to);
}

/// Nothing is tainted without a reason: it is a seed, or some point of the body
/// moves taint to it.
pub proof fn law_taint_has_a_reason(context: TaintContext, seeds: Set<usize>, to: TaintNode)
    requires
        is_tainted(context, seeds, to),
    ensures
        (to matches TaintNode::Local(local) && seeds.contains(local)) || exists|
            block: int,
            k: int,
            from: TaintNode,
        | #[trigger]
            moves(context, block, k, from, to) && is_tainted(context, seeds, from),
{
    let edge = taint::taint_edge(context);
    let starts = taint::seed_nodes(seeds);
    laws::lemma_last_step(edge, starts, to);
    if !starts.contains(to) {
        let from = choose|from: TaintNode|
            graph::reaches(edge, starts, from) && #[trigger] edge(from, to);
        let (block, k) = choose|block: int, k: int| #[trigger]
            taint::carried_at(context, block, k, from, to);
        lemma_moves(context, block, k, from, to);
        assert(moves(context, block, k, from, to));
    }
}

// ---- borrows -------------------------------------------------------------

/// Statement `k` of a block assigns a local.
pub open spec fn assigns_local(body: Body, block: int, k: int, local: Local) -> bool {
    exists|assign: Assign| #[trigger]
        laws::assigns(body, block, k, assign) && assign.place.local == local
}

/// The statements from `k` of `block` on, and those of the later blocks, leave a
/// local alone.
pub open spec fn left_alone(body: Body, local: Local, block: int, k: int, to: int, end: int) -> bool {
    forall|b: int, j: int| #[trigger]
        assigns_local(body, b, j, local) ==> !((b > block || (b == block && j >= k)) && (b < to || (b
            == to && j < end)))
}

proof fn lemma_borrow_stays(body: Body, b: nat, j: nat, block: nat, k: nat, local: Local)
    requires
        block <= body.basic_blocks@.len(),
        k > 0 ==> block < body.basic_blocks@.len() && k
            <= body.basic_blocks@[block as int].statements@.len(),
        b < block ==> j <= body.basic_blocks@[b as int].statements@.len(),
        b < block || (b == block && j <= k),
        left_alone(body, local, b as int, j as int, block as int, k as int),
    ensures
        taint::borrows_before(body, block, k).of.contains_key(local) == taint::borrows_before(
            body,
            b,
            j,
        ).of.contains_key(local),
        taint::borrows_before(body, block, k).of.contains_key(local) ==> taint::borrows_before(
            body,
            block,
            k,
        ).of[local] == taint::borrows_before(body, b, j).of[local],
        taint::borrows_before(body, b, j).mutable.subset_of(
            taint::borrows_before(body, block, k).mutable,
        ),
        taint::borrows_before(body, block, k).mutable.contains(local)
            ==> taint::borrows_before(body, b, j).mutable.contains(local),
    decreases block, k,
{
    if b == block && j == k {
    } else if k > 0 {
        lemma_borrow_stays(body, b, j, block, (k - 1) as nat, local);
        if let Statement::Assign(assign) = body.basic_blocks@[block as int].statements@[k - 1] {
            assert(laws::assigns(body, block as int, k - 1, assign));
            if assign.place.local == local {
                assert(assigns_local(body, block as int, k - 1, local));
            }
        }
    } else {
        lemma_borrow_stays(
            body,
            b,
            j,
            (block - 1) as nat,
            body.basic_blocks@[block - 1].statements@.len(),
            local,
        );
    }
}

/// A reference borrows the local whose place it was last made a borrow of or a
/// pointer to; a mutable borrow and a pointer let a callee write to it.
pub proof fn law_reference_borrows_its_place(
    body: Body,
    block: usize,
    k: usize,
    assign: Assign,
    place: Place,
)
    requires
        laws::assigns(body, block as int, k as int, assign),
        assign.rvalue == Rvalue::Ref(true, place) || assign.rvalue == Rvalue::Ref(false, place)
            || assign.rvalue == Rvalue::RawPtr(place),
        left_alone(
            body,
            assign.place.local,
            block as int,
            k + 1,
            body.basic_blocks@.len() as int,
            0,
        ),
    ensures
        taint::borrows_of(body).of.contains_key(assign.place.local),
        taint::borrows_of(body).of[assign.place.local] == place.local,
        assign.rvalue == Rvalue::Ref(true, place) || assign.rvalue == Rvalue::RawPtr(place)
            ==> taint::borrows_of(body).mutable.contains(assign.place.local),
{
    lemma_borrow_stays(
        body,
        block as nat,
        (k + 1) as nat,
        body.basic_blocks@.len(),
        0,
        assign.place.local,
    );
}

/// A copy of a reference borrows what the reference borrows, and lets a callee
/// write to it where the reference does.
pub proof fn law_copied_reference_borrows_the_same(
    body: Body,
    first_block: usize,
    first_k: usize,
    first: Assign,
    place: Place,
    mutable: bool,
    block: usize,
    k: usize,
    assign: Assign,
    operand: Operand,
)
    requires
        laws::assigns(body, first_block as int, first_k as int, first),
        first.rvalue == Rvalue::Ref(mutable, place),
        laws::assigns(body, block as int, k as int, assign),
        assign.rvalue == Rvalue::Use(operand),
        laws::reads(operand, first.place.local),
        first_block < block || (first_block == block && first_k < k),
        left_alone(
            body,
            first.place.local,
            first_block as int,
            first_k + 1,
            block as int,
            k as int,
        ),
        left_alone(
            body,
            assign.place.local,
            block as int,
            k + 1,
            body.basic_blocks@.len() as int,
            0,
        ),
    ensures
        taint::borrows_of(body).of.contains_key(assign.place.local),
        taint::borrows_of(body).of[assign.place.local] == place.local,
        mutable ==> taint::borrows_of(body).mutable.contains(assign.place.local),
{
    lemma_borrow_stays(
        body,
        first_block as nat,
        (first_k + 1) as nat,
        block as nat,
        k as nat,
        first.place.local,
    );
    lemma_borrow_stays(
        body,
        block as nat,
        (k + 1) as nat,
        body.basic_blocks@.len(),
        0,
        assign.place.local,
    );
}

/// Only what was made a mutable borrow or a pointer, or a copy of such a
/// reference, lets a callee write; and only references borrow.
pub proof fn law_only_mutable_borrows_let_write(body: Body, local: Local)
    ensures
        taint::borrows_of(body).mutable.contains(local) ==> exists|
            block: int,
            k: int,
            assign: Assign,
        | #[trigger]
            laws::assigns(body, block, k, assign) && assign.place.local == local && (
            assign.rvalue matches Rvalue::Ref(true, _) || assign.rvalue is RawPtr || (
            assign.rvalue matches Rvalue::Use(operand) && exists|from: Local| #[trigger]
                laws::reads(operand, from) && taint::borrows_of(body).mutable.contains(from))),
        taint::borrows_of(body).of.contains_key(local) ==> exists|
            block: int,
            k: int,
            assign: Assign,
        | #[trigger]
            laws::assigns(body, block, k, assign) && assign.place.local == local && (
            assign.rvalue is Ref || assign.rvalue is RawPtr || assign.rvalue is Use),
{
    lemma_mutable_borrows(body, body.basic_blocks@.len(), 0, local);
}

proof fn lemma_mutable_borrows(body: Body, block: nat, k: nat, local: Local)
    requires
        block <= body.basic_blocks@.len(),
        k > 0 ==> block < body.basic_blocks@.len() && k
            <= body.basic_blocks@[block as int].statements@.len(),
    ensures
        taint::borrows_before(body, block, k).mutable.subset_of(taint::borrows_of(body).mutable),
        taint::borrows_before(body, block, k).mutable.contains(local) ==> exists|
            b: int,
            j: int,
            assign: Assign,
        | #[trigger]
            laws::assigns(body, b, j, assign) && assign.place.local == local && (
            assign.rvalue matches Rvalue::Ref(true, _) || assign.rvalue is RawPtr || (
            assign.rvalue matches Rvalue::Use(operand) && exists|from: Local| #[trigger]
                laws::reads(operand, from) && taint::borrows_of(body).mutable.contains(from))),
        taint::borrows_before(body, block, k).of.contains_key(local) ==> exists|
            b: int,
            j: int,
            assign: Assign,
        | #[trigger]
            laws::assigns(body, b, j, assign) && assign.place.local == local && (assign.rvalue is Ref
                || assign.rvalue is RawPtr || assign.rvalue is Use),
    decreases block, k,
{
    // No statement assigns a local that does not exist, so nothing is said of it.
    lemma_mutable_grows(body, block, k, body.basic_blocks@.len(), 0);
    if k > 0 {
        lemma_mutable_borrows(body, block, (k - 1) as nat, local);
        if let Statement::Assign(assign) = body.basic_blocks@[block as int].statements@[k - 1] {
            assert(laws::assigns(body, block as int, k - 1, assign));
            if let Rvalue::Use(operand) = assign.rvalue {
                if let Some(from) = mir_util::local_of(operand) {
                    assert(laws::reads(operand, from));
                }
            }
        }
    } else if block > 0 {
        lemma_mutable_borrows(
            body,
            (block - 1) as nat,
            body.basic_blocks@[block - 1].statements@.len(),
            local,
        );
    }
}

proof fn lemma_mutable_grows(body: Body, b: nat, j: nat, block: nat, k: nat)
    requires
        block <= body.basic_blocks@.len(),
        k > 0 ==> block < body.basic_blocks@.len() && k
            <= body.basic_blocks@[block as int].statements@.len(),
        b < block ==> j <= body.basic_blocks@[b as int].statements@.len(),
        b < block || (b == block && j <= k),
    ensures
        taint::borrows_before(body, b, j).mutable.subset_of(
            taint::borrows_before(body, block, k).mutable,
        ),
    decreases block, k,
{
    if b == block && j == k {
    } else if k > 0 {
        lemma_mutable_grows(body, b, j, block, (k - 1) as nat);
    } else {
        lemma_mutable_grows(
            body,
            b,
            j,
            (block - 1) as nat,
            body.basic_blocks@[block - 1].statements@.len(),
        );
    }
}

// ---- out of a function ---------------------------------------------------

/// A local is a part of a value that a function returns in `Ok`.
pub open spec fn is_part_of_ok(program: Program, body: Body, local: Local) -> bool {
    exists|block: int, k: int, assign: Assign| #[trigger]
        laws::assigns(body, block, k, assign) && laws::returns_ok(program, body, block, k)
            && laws::collects(assign.rvalue, local)
}

/// A local is what a function returns on success: a part of an `Ok` where it
/// returns a `Result` and builds one from locals, or else the return place.
pub open spec fn is_returned(program: Program, body: Body, local: Local) -> bool {
    if (program.types@[body.local_decls@[0] as int].kind matches TyKind::Adt(def, _)
        && program.defs@[def as int].is_result) && exists|part: Local| #[trigger]
        is_part_of_ok(program, body, part) {
        is_part_of_ok(program, body, local)
    } else {
        local == 0
    }
}

proof fn lemma_part_of_ok(program: Program, body: Body, local: Local)
    ensures
        taint::returned_in_ok(program, body, local) <==> is_part_of_ok(program, body, local),
{
    if taint::returned_in_ok(program, body, local) {
        let (block, k) = choose|block: int, k: int|
            0 <= block < body.basic_blocks@.len() && 0 <= k
                < body.basic_blocks@[block].statements@.len() && taint::ok_operand(
                program,
                #[trigger] body.basic_blocks@[block].statements@[k],
                local,
            );
        if let Statement::Assign(assign) = body.basic_blocks@[block].statements@[k] {
            lemma_uses(assign.rvalue, local);
            assert(laws::assigns(body, block, k, assign));
            assert(laws::returns_ok(program, body, block, k));
        }
    }
    if is_part_of_ok(program, body, local) {
        let (block, k, assign) = choose|block: int, k: int, assign: Assign| #[trigger]
            laws::assigns(body, block, k, assign) && laws::returns_ok(program, body, block, k)
                && laws::collects(assign.rvalue, local);
        lemma_uses(assign.rvalue, local);
        let other = choose|other: Assign| #[trigger]
            laws::assigns(body, block, k, other) && other.place.local == 0
                && other.place.projection@.len() == 0 && (
            other.rvalue matches Rvalue::Aggregate(crate::mir::AggregateKind::Adt(def, variant), _)
                && variant == 0 && program.defs@[def as int].is_result);
        assert(other == assign);
        assert(taint::ok_operand(program, body.basic_blocks@[block].statements@[k], local));
    }
}

/// A function forwards a parameter exactly when its body is at hand, the parameter
/// is no plumbing, and the taint of the parameter reaches what the function
/// returns on success; where it calls another function of the graph, the
/// parameters which that one forwards count.
pub proof fn law_forwarded_parameters(program: Program, nodes: Seq<DefId>, f: DefId, i: usize)
    ensures
        taint::return_flows(program, nodes).contains((f, i)) <==> {
            let body = program.defs@[f as int].body->0;
            let context = TaintContext {
                program,
                body,
                callee_at: call_graph::callee_map(call_graph::sites_of(program, body)),
                flows: Map::new(
                    |g: usize|
                        nodes.contains(g) && g < program.defs@.len()
                            && program.defs@[g as int].is_local
                            && program.defs@[g as int].body is Some,
                    |g: usize|
                        Set::new(
                            |p: usize| taint::return_flows(program, nodes).contains((g, p)),
                        ),
                ),
            };
            &&& nodes.contains(f) && f < program.defs@.len()
            &&& program.defs@[f as int].is_local && program.defs@[f as int].body is Some
            &&& i < body.arg_count
            &&& !addresses::is_plumbing(program, body.local_decls@[i + 1])
            &&& exists|local: Local| #[trigger]
                is_returned(program, body, local) && taint::tainted_locals(
                    context,
                    set![(i + 1) as usize],
                ).contains(local)
        },
{
    let flows = taint::return_flows(program, nodes);
    taint::lemma_return_flows_fixpoint(program, nodes, f, i);
    let body = program.defs@[f as int].body->0;
    let context = taint::candidate_context(program, nodes, flows, f);
    let other = TaintContext {
        program,
        body,
        callee_at: call_graph::callee_map(call_graph::sites_of(program, body)),
        flows: Map::new(
            |g: usize|
                nodes.contains(g) && g < program.defs@.len() && program.defs@[g as int].is_local
                    && program.defs@[g as int].body is Some,
            |g: usize| Set::new(|p: usize| flows.contains((g, p))),
        ),
    };
    assert(context.flows =~= other.flows) by {
        assert forall|g: usize| context.flows.contains_key(g) implies context.flows[g]
            == other.flows[g] by {
            assert(context.flows[g] =~= other.flows[g]);
        }
    }
    assert(context == other);
    assert(body.arg_count <= usize::MAX);
    if i < body.arg_count {
        addresses::law_framework_types(program, body, 0, (i + 1) as usize);
    }
    assert forall|l: Local| taint::return_locals_of(program, body).contains(l) <==> #[trigger]
        is_returned(program, body, l) by {
        assert forall|p: Local| #[trigger]
            taint::returned_in_ok(program, body, p) <==> is_part_of_ok(program, body, p) by {
            lemma_part_of_ok(program, body, p);
        }
        lemma_part_of_ok(program, body, l);
        if exists|p: Local| #[trigger] is_part_of_ok(program, body, p) {
            let p = choose|p: Local| #[trigger] is_part_of_ok(program, body, p);
            assert(taint::returned_in_ok(program, body, p));
        }
        if exists|p: Local| #[trigger] taint::returned_in_ok(program, body, p) {
            let p = choose|p: Local| #[trigger] taint::returned_in_ok(program, body, p);
            assert(is_part_of_ok(program, body, p));
        }
    }
    if taint::reaches_return(program, nodes, flows, f, i) {
        let l = choose|l: usize| #[trigger]
            taint::return_locals_of(program, body).contains(l) && taint::tainted_locals(
                context,
                set![(i + 1) as usize],
            ).contains(l);
        assert(is_returned(program, body, l));
    }
}

// ---- which input is named ------------------------------------------------

/// Of two tainted operands the first one names the input that is shown; what was
/// reached before keeps the input that it was reached from.
pub proof fn law_first_operand_names_the_input(
    state: TaintState,
    assign: Assign,
    left: Local,
    right: Local,
)
    requires
        assign.rvalue matches Rvalue::BinaryOp(_, first, second) && laws::reads(first, left)
            && laws::reads(second, right),
    ensures
        ({
            let after = taint::after_statement(state, Statement::Assign(assign));
            let to = assign.place.local;
            &&& state.origin.contains_key(to) ==> after == state
            &&& !state.origin.contains_key(to) && state.origin.contains_key(left)
                ==> after.origin.contains_key(to) && after.origin[to] == state.origin[left]
            &&& !state.origin.contains_key(to) && !state.origin.contains_key(left)
                && state.origin.contains_key(right) ==> after.origin.contains_key(to)
                && after.origin[to] == state.origin[right]
        }),
{
    if let Rvalue::BinaryOp(_, first, second) = assign.rvalue {
        let operands = seq![first, second];
        assert(operands.drop_last() =~= seq![first]);
        assert(seq![first].drop_last() =~= Seq::empty());
        assert(mir_util::read_locals(Seq::<Operand>::empty()) =~= Seq::empty());
        assert(mir_util::read_locals(seq![first]) =~= seq![left]);
        let reads = mir_util::read_locals(operands);
        assert(reads =~= seq![left, right]);
        let rest = reads.skip(1);
        assert(rest =~= seq![right]);
        assert(rest.skip(1) =~= Seq::empty());
        assert(taint::first_origin(state.origin, rest.skip(1)) is None);
        assert(taint::first_origin(state.origin, rest) == (if state.origin.contains_key(right) {
            Some(state.origin[right])
        } else {
            None
        }));
    }
}

/// Of several tainted arguments the first one that the callee forwards names the
/// input that is shown for the result.
pub proof fn law_first_argument_names_the_input(
    context: TaintContext,
    state: TaintState,
    block: int,
    call: Call,
    i: int,
    local: Local,
)
    requires
        laws::ends_in(context.body, block, call),
        !stores(context.program, call),
        !fetches(context.program, call),
        0 <= i < call.args@.len(),
        laws::reads(call.args@[i], local),
        state.origin.contains_key(local),
        position_flows(context, block, i),
        !state.origin.contains_key(call.destination.local),
        forall|j: int, source: Local|
            0 <= j < i && #[trigger] hands_in(context.body, call.args@[j], source)
                ==> !state.origin.contains_key(source),
    ensures
        ({
            let after = taint::after_terminator(context, state, block);
            after.origin.contains_key(call.destination.local)
                && after.origin[call.destination.local] == state.origin[local]
        }),
{
    let borrows = taint::borrows_of(context.body);
    let args = mir_util::operand_locals_of(call.args@);
    let flow = taint::flow_at(context, block);
    lemma_storage_calls(context.program, call);
    assert(taint::forwards_position(flow, i));
    assert(args[i] == Some(local));
    assert forall|j: int| 0 <= j < i implies taint::argument_source(
        state,
        borrows,
        #[trigger] args[j],
    ) is None by {
        if let Some(l) = args[j] {
            assert(mir_util::local_of(call.args@[j]) == Some(l));
            assert(laws::reads(call.args@[j], l));
            assert(hands_in(context.body, call.args@[j], l));
            if borrows.of.contains_key(l) {
                assert(hands_in(context.body, call.args@[j], borrows.of[l]));
            }
        }
    }
    lemma_forwarded(state, borrows, args, flow, 0, i);
    lemma_forwarded(state, borrows, args, None, 0, i);
    let src = state.origin[local];
    let returned = taint::marked(state, call.destination.local, src);
    lemma_written_back_keeps(returned, borrows, args, src, args.len(), call.destination.local);
}

proof fn lemma_forwarded(
    state: TaintState,
    borrows: taint::Borrows,
    args: Seq<Option<Local>>,
    flow: Option<Set<usize>>,
    from: int,
    i: int,
)
    requires
        0 <= from <= i < args.len(),
        taint::forwards_position(flow, i),
        args[i] matches Some(l) && state.origin.contains_key(l),
        forall|j: int|
            from <= j < i ==> taint::argument_source(state, borrows, #[trigger] args[j]) is None,
    ensures
        taint::forwarded_source(state, borrows, args, flow, from) == Some(
            state.origin[args[i]->0],
        ),
    decreases i - from,
{
    if from < i {
        assert(taint::argument_source(state, borrows, args[from]) is None);
        lemma_forwarded(state, borrows, args, flow, from + 1, i);
    }
}

proof fn lemma_written_back_keeps(
    state: TaintState,
    borrows: taint::Borrows,
    args: Seq<Option<Local>>,
    src: Local,
    count: nat,
    local: Local,
)
    requires
        state.origin.contains_key(local),
    ensures
        ({
            let after = taint::written_back(state, borrows, args, src, count);
            after.origin.contains_key(local) && after.origin[local] == state.origin[local]
        }),
    decreases count,
{
    if count > 0 {
        lemma_written_back_keeps(state, borrows, args, src, (count - 1) as nat, local);
    }
}

} // verus!
