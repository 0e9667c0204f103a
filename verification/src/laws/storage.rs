//! Which storage items there are, and which of them hold an authority.

use crate::auth_storage;
use crate::auth_storage::{AuthVariableView, CallReturnView, SourceView};
use crate::call_graph;
use crate::cosmwasm;
use crate::graph;
use crate::laws;
use crate::laws::comparisons;
use crate::mir::{Assign, BasicBlockData, Body, Call, DefId, DefKind, Local, Location};
use crate::mir::{Program, Rvalue, Statement, Terminator, TyKind};
use crate::mir_util;
use crate::pipeline;
use crate::sender_comparisons::ComparisonView;
use crate::sender_taint;
use crate::storage_inventory;
use crate::storage_inventory::{StorageItemKind, StorageItemView};
use vstd::prelude::*;

verus! {

// ---- the inventory -------------------------------------------------------

/// A constant declares a storage item: its type is an `Item` or a `Map` of
/// `cw_storage_plus`.
pub open spec fn declares(program: Program, item: StorageItemView) -> bool {
    program.defs@[item.def_id as int].kind matches DefKind::Const(ty) && (
    program.types@[ty as int].kind matches TyKind::Adt(def, _) && {
        &&& item.name == program.defs@[item.def_id as int].name@
        &&& item.ty_string == mir_util::normalized(program.types@[ty as int].display@)
        &&& !item.is_auth
        &&& {
            ||| laws::is_item(program, def, "cw_storage_plus"@, "Item"@) && item.kind
                == StorageItemKind::Item
            ||| laws::is_item(program, def, "cw_storage_plus"@, "Map"@) && item.kind
                == StorageItemKind::KeyedMap
        }
    })
}

/// The inventory holds exactly the storage items that constants among the given
/// definitions declare, none of them marked.
pub proof fn law_inventory_holds_the_declared_items(
    program: Program,
    defs: Seq<DefId>,
    item: StorageItemView,
)
    ensures
        storage_inventory::declared_items(program, defs).contains(item) <==> defs.contains(
            item.def_id,
        ) && declares(program, item),
    decreases defs.len(),
{
    reveal_strlit("Item");
    reveal_strlit("Map");
    assert("Item"@.len() != "Map"@.len());
    if defs.len() > 0 {
        let rest = defs.drop_last();
        law_inventory_holds_the_declared_items(program, rest, item);
        let before = storage_inventory::declared_items(program, rest);
        assert(defs == rest.push(defs.last()));
        graph::lemma_push_contains(rest, defs.last(), item.def_id);
        if let Some(found) = storage_inventory::declared_item(program, defs.last()) {
            graph::lemma_push_contains(before, found, item);
        }
        assert(storage_inventory::declared_item(program, defs.last()) == Some(item) <==> item.def_id
            == defs.last() && declares(program, item));
    }
}

/// Marking changes no item but for the mark, which it sets exactly on the given
/// definitions.
pub proof fn law_marking(items: Seq<StorageItemView>, auth: Set<usize>, i: int)
    requires
        0 <= i < items.len(),
    ensures
        storage_inventory::marked(items, auth).len() == items.len(),
        storage_inventory::marked(items, auth)[i].name == items[i].name,
        storage_inventory::marked(items, auth)[i].def_id == items[i].def_id,
        storage_inventory::marked(items, auth)[i].ty_string == items[i].ty_string,
        storage_inventory::marked(items, auth)[i].kind == items[i].kind,
        storage_inventory::marked(items, auth)[i].is_auth <==> items[i].is_auth || auth.contains(
            items[i].def_id,
        ),
{
}

// ---- where a value was loaded from ---------------------------------------

/// An rvalue is a copy, a move, a borrow, the address or a cast of a local.
pub open spec fn copies(rvalue: Rvalue, from: Local) -> bool {
    match rvalue {
        Rvalue::Use(op) => laws::reads(op, from),
        Rvalue::Ref(_, place) => place.local == from,
        Rvalue::RawPtr(place) => place.local == from,
        Rvalue::Cast(op) => laws::reads(op, from),
        _ => false,
    }
}

/// Statement `k` of a block copies one local into another.
pub open spec fn copies_at(body: Body, block: int, k: int, to: Local, from: Local) -> bool {
    exists|assign: Assign| #[trigger]
        laws::assigns(body, block, k, assign) && assign.place.local == to && copies(
            assign.rvalue,
            from,
        )
}

/// The block ends in no call whose result goes to a local.
pub open spec fn keeps_at_end(body: Body, block: int, local: Local) -> bool {
    forall|call: Call| #[trigger]
        laws::ends_in(body, block, call) ==> call.destination.local != local
}

/// A block is the last one, in the text of a body, that control may come to another
/// block from.
pub open spec fn last_predecessor(body: Body, block: usize, pred: usize) -> bool {
    laws::continues(body)(pred, block) && forall|p: usize| #[trigger]
        laws::continues(body)(p, block) ==> p <= pred
}

/// The value of a local at the end of a block is looked for in another local at the
/// end of the same or of a preceding block.
pub open spec fn comes_from(
    program: Program,
    body: Body,
    to: (usize, usize),
    from: (usize, usize),
) -> bool {
    &&& to.0 < body.basic_blocks@.len()
    &&& {
        // What an adapter hands on is its first argument.
        ||| from.0 == to.0 && exists|call: Call, callee: DefId| #[trigger]
            laws::ends_in(body, to.0 as int, call) && #[trigger] laws::calls(program, call, callee)
                && call.destination.local == to.1 && laws::unwraps(
                program.defs@[callee as int].name@,
            ) && call.args@.len() > 0 && laws::reads(call.args@[0], from.1)
        // The last copy into a local counts.
        ||| from.0 == to.0 && keeps_at_end(body, to.0 as int, to.1) && exists|k: int| #[trigger]
            copies_at(body, to.0 as int, k, to.1, from.1) && forall|j: int, other: Local|
                j > k ==> !#[trigger] copies_at(body, to.0 as int, j, to.1, other)
        // What a block does not touch was there before.
        ||| from.1 == to.1 && keeps_at_end(body, to.0 as int, to.1) && (forall|
            j: int,
            other: Local,
        |
            !#[trigger] copies_at(body, to.0 as int, j, to.1, other)) && last_predecessor(
            body,
            to.0,
            from.0,
        )
    }
}

/// A record names the callee, the arguments and the place of the call at the end of
/// a block.
pub open spec fn is_record_of(
    program: Program,
    body: Body,
    block: usize,
    call: Call,
    record: CallReturnView,
) -> bool {
    &&& laws::ends_in(body, block as int, call)
    &&& forall|callee: DefId| #[trigger]
        laws::calls(program, call, callee) <==> record.callee == Some(callee)
    &&& record.arg_locals.len() == call.args@.len()
    &&& forall|i: int, l: Local|
        0 <= i < call.args@.len() ==> (#[trigger] laws::reads(call.args@[i], l)
            <==> record.arg_locals[i] == Some(l))
    &&& record.location.block == block
    &&& record.location.statement_index == body.basic_blocks@[block as int].statements@.len()
}

proof fn lemma_record(program: Program, body: Body, block: usize, call: Call)
    requires
        laws::ends_in(body, block as int, call),
    ensures
        is_record_of(
            program,
            body,
            block,
            call,
            CallReturnView {
                callee: mir_util::callee_of(program, call.func),
                arg_locals: mir_util::operand_locals_of(call.args@),
                location: call_graph::terminator_location(body, block as int),
            },
        ),
{
    let data = body.basic_blocks@[block as int];
    assert(data.statements.len() == data.statements@.len());
    assert forall|callee: DefId| #[trigger] laws::calls(program, call, callee)
        <==> mir_util::callee_of(program, call.func) == Some(callee) by {}
    assert forall|i: int, l: Local| 0 <= i < call.args@.len() implies (#[trigger] laws::reads(
        call.args@[i],
        l,
    ) <==> mir_util::operand_locals_of(call.args@)[i] == Some(l)) by {}
}

/// A value comes from the call at the end of a block, which is no adapter.
pub open spec fn is_call_result(
    program: Program,
    body: Body,
    at: (usize, usize),
    call: Call,
) -> bool {
    laws::ends_in(body, at.0 as int, call) && call.destination.local == at.1 && forall|
        callee: DefId,
    |
        #[trigger] laws::calls(program, call, callee) ==> !laws::unwraps(
            program.defs@[callee as int].name@,
        )
}

proof fn lemma_copied_in(data: BasicBlockData, body: Body, block: int, local: Local, count: nat)
    requires
        0 <= block < body.basic_blocks@.len(),
        data == body.basic_blocks@[block],
        count <= data.statements@.len(),
    ensures
        auth_storage::copied_in(data, local, count) is None <==> forall|j: int, other: Local|
            j < count ==> !#[trigger] copies_at(body, block, j, local, other),
        forall|k: int, from: Local|
            k < count && #[trigger] copies_at(body, block, k, local, from) && (forall|
                j: int,
                other: Local,
            |
                k < j < count ==> !#[trigger] copies_at(body, block, j, local, other))
                ==> auth_storage::copied_in(data, local, count) == Some(
                SourceView::CopiedFrom(from),
            ),
    decreases count,
{
    if count > 0 {
        lemma_copied_in(data, body, block, local, (count - 1) as nat);
        let last = count - 1;
        if let Statement::Assign(assign) = data.statements@[last] {
            assert(laws::assigns(body, block, last, assign));
            assert forall|other: Local| auth_storage::copied_local(assign.rvalue) == Some(other)
                <==> #[trigger] copies(assign.rvalue, other) by {}
            if assign.place.local == local {
                if let Some(other) = auth_storage::copied_local(assign.rvalue) {
                    assert(copies(assign.rvalue, other));
                    assert(copies_at(body, block, last, local, other));
                }
            }
        }
        let here = match data.statements@[last] {
            Statement::Assign(assign) => assign.place.local == local && auth_storage::copied_local(
                assign.rvalue,
            ) is Some,
            Statement::Other => false,
        };
        assert forall|other: Local| #[trigger] copies_at(body, block, last, local, other) implies here by {
            let assign = choose|assign: Assign| #[trigger]
                laws::assigns(body, block, last, assign) && assign.place.local == local && copies(
                    assign.rvalue,
                    other,
                );
            assert(data.statements@[last] == Statement::Assign(assign));
        }
        assert forall|k: int, from: Local|
            k < count && #[trigger] copies_at(body, block, k, local, from) && (forall|
                j: int,
                other: Local,
            |
                k < j < count ==> !#[trigger] copies_at(body, block, j, local, other)) implies
            auth_storage::copied_in(data, local, count) == Some(SourceView::CopiedFrom(from)) by {
            if k == last {
                let assign = choose|assign: Assign| #[trigger]
                    laws::assigns(body, block, last, assign) && assign.place.local == local
                        && copies(assign.rvalue, from);
                assert(data.statements@[last] == Statement::Assign(assign));
            } else {
                if here {
                    if let Statement::Assign(assign) = data.statements@[last] {
                        let other = auth_storage::copied_local(assign.rvalue)->0;
                        assert(copies_at(body, block, last, local, other));
                    }
                }
            }
        }
    }
}

proof fn lemma_last_pred(body: Body, block: usize, pred: usize, p: nat, k: nat)
    requires
        last_predecessor(body, block, pred),
        p <= body.basic_blocks@.len() <= usize::MAX,
        k > 0 ==> p < body.basic_blocks@.len() && k
            <= body.basic_blocks@[p as int].successors@.len(),
        pred < p || (pred == p && exists|i: int|
            0 <= i < k && #[trigger] body.basic_blocks@[p as int].successors@[i] == block),
    ensures
        mir_util::preds_partial(body, block, p, k).len() > 0,
        mir_util::preds_partial(body, block, p, k).last() == pred,
    decreases p, k,
{
    if k > 0 {
        let successors = body.basic_blocks@[p as int].successors@;
        assert(mir_util::successors_of(body, p as int)[k - 1] == successors[k - 1]);
        if successors[k - 1] == block {
            assert(successors.contains(block));
            assert(laws::continues(body)(p as usize, block));
        } else {
            if pred == p {
                let i = choose|i: int| 0 <= i < k && #[trigger] successors[i] == block;
                assert(successors[i] == block && i < k - 1);
            }
            lemma_last_pred(body, block, pred, p, (k - 1) as nat);
        }
    } else {
        let successors = body.basic_blocks@[p - 1].successors@;
        if pred == p - 1 {
            let i = choose|i: int| 0 <= i < successors.len() && successors[i] == block;
            assert(successors[i] == block);
        }
        lemma_last_pred(body, block, pred, (p - 1) as nat, successors.len());
    }
}

/// A step of the trace towards where a value comes from.
proof fn lemma_trace_step(
    program: Program,
    body: Body,
    queue: Seq<(usize, usize)>,
    to: (usize, usize),
    from: (usize, usize),
    visited: Set<(usize, usize)>,
    steps: nat,
) -> (rest: Seq<(usize, usize)>)
    requires
        queue.len() > 0,
        queue.last() == to,
        comes_from(program, body, to, from),
        !visited.contains(to),
        steps > 0,
    ensures
        rest.len() > 0,
        rest.last() == from,
        auth_storage::traced(program, body, queue, visited, steps) == auth_storage::traced(
            program,
            body,
            rest,
            visited.insert(to),
            (steps - 1) as nat,
        ),
{
    assert(body.basic_blocks.len() == body.basic_blocks@.len());
    let data = body.basic_blocks@[to.0 as int];
    let local = to.1;
    let others = queue.drop_last();
    lemma_copied_in(data, body, to.0 as int, local, data.statements@.len());
    assert forall|j: int, other: Local| #[trigger]
        copies_at(body, to.0 as int, j, local, other) implies j < data.statements@.len() by {
        let assign = choose|assign: Assign| #[trigger]
            laws::assigns(body, to.0 as int, j, assign) && assign.place.local == local && copies(
                assign.rvalue,
                other,
            );
        assert(laws::assigns(body, to.0 as int, j, assign));
    }
    let source = auth_storage::source_in(program, body, to.0, local);
    if from.0 == to.0 && exists|call: Call, callee: DefId| #[trigger]
        laws::ends_in(body, to.0 as int, call) && #[trigger] laws::calls(program, call, callee)
            && call.destination.local == to.1 && laws::unwraps(program.defs@[callee as int].name@)
            && call.args@.len() > 0 && laws::reads(call.args@[0], from.1) {
        let (call, callee) = choose|call: Call, callee: DefId| #[trigger]
            laws::ends_in(body, to.0 as int, call) && #[trigger] laws::calls(program, call, callee)
                && call.destination.local == to.1 && laws::unwraps(
                program.defs@[callee as int].name@,
            ) && call.args@.len() > 0 && laws::reads(call.args@[0], from.1);
        assert(mir_util::callee_of(program, call.func) == Some(callee));
        assert(mir_util::operand_locals_of(call.args@)[0] == Some(from.1));
        assert(cosmwasm::is_glue(program, callee));
        others.push(from)
    } else {
        if let Terminator::Call(call) = data.terminator {
            assert(laws::ends_in(body, to.0 as int, call));
            assert(call.destination.local != local);
        }
        if from.0 == to.0 && keeps_at_end(body, to.0 as int, to.1) && exists|k: int| #[trigger]
            copies_at(body, to.0 as int, k, to.1, from.1) && forall|j: int, other: Local|
                j > k ==> !#[trigger] copies_at(body, to.0 as int, j, to.1, other) {
            let k = choose|k: int| #[trigger]
                copies_at(body, to.0 as int, k, to.1, from.1) && forall|j: int, other: Local|
                    j > k ==> !#[trigger] copies_at(body, to.0 as int, j, to.1, other);
            assert(copies_at(body, to.0 as int, k, local, from.1));
            assert(source == Some(SourceView::CopiedFrom(from.1)));
            others.push(from)
        } else {
            assert(source is None);
            lemma_last_pred(body, to.0, from.0, body.basic_blocks@.len(), 0);
            let preds = mir_util::preds_of(body, to.0);
            others + preds.map_values(|pred: usize| (pred, local))
        }
    }
}

/// Each value of a history is where the one in front of it comes from, and none
/// occurs twice.
pub open spec fn is_history(
    program: Program,
    body: Body,
    history: Seq<(usize, usize)>,
) -> bool {
    &&& history.len() > 0
    &&& history.no_duplicates()
    &&& forall|i: int|
        0 <= i < history.len() - 1 ==> comes_from(
            program,
            body,
            #[trigger] history[i],
            history[i + 1],
        )
}

proof fn lemma_trace(
    program: Program,
    body: Body,
    queue: Seq<(usize, usize)>,
    history: Seq<(usize, usize)>,
    call: Call,
    visited: Set<(usize, usize)>,
    steps: nat,
)
    requires
        is_history(program, body, history),
        is_call_result(program, body, history.last(), call),
        forall|i: int| 0 <= i < history.len() ==> !visited.contains(#[trigger] history[i]),
        steps >= history.len(),
        queue.len() > 0,
        queue.last() == history[0],
    ensures
        auth_storage::traced(program, body, queue, visited, steps) == Some(
            CallReturnView {
                callee: mir_util::callee_of(program, call.func),
                arg_locals: mir_util::operand_locals_of(call.args@),
                location: call_graph::terminator_location(body, history.last().0 as int),
            },
        ),
    decreases history.len(),
{
    let to = history[0];
    assert(!visited.contains(history[0]));
    if history.len() == 1 {
        assert(history.last() == to);
        if let Some(callee) = mir_util::callee_of(program, call.func) {
            assert(laws::calls(program, call, callee));
            assert(!cosmwasm::is_glue(program, callee));
        }
    } else {
        let rest = history.skip(1);
        assert(comes_from(program, body, history[0], history[0 + 1int]));
        let next = lemma_trace_step(program, body, queue, to, history[1], visited, steps);
        assert forall|i: int| 0 <= i < rest.len() implies !visited.insert(to).contains(
            #[trigger] rest[i],
        ) by {
            assert(rest[i] == history[i + 1]);
        }
        assert forall|i: int| 0 <= i < rest.len() - 1 implies comes_from(
            program,
            body,
            #[trigger] rest[i],
            rest[i + 1],
        ) by {
            assert(comes_from(program, body, history[i + 1], history[i + 1 + 1]));
        }
        lemma_trace(program, body, next, rest, call, visited.insert(to), (steps - 1) as nat);
        assert(rest.last() == history.last());
    }
}

/// A value is traced back to the call it comes from, through copies, borrows,
/// casts, adapters and blocks that do not touch it; where control may come to such a
/// block from several others, the last of them is followed first.
pub proof fn law_value_is_traced_to_its_call(
    program: Program,
    body: Body,
    history: Seq<(usize, usize)>,
    call: Call,
)
    requires
        is_history(program, body, history),
        history.len() <= 24,
        is_call_result(program, body, history.last(), call),
    ensures
        auth_storage::origin_call(program, body, history[0].1, history[0].0) matches Some(found)
            && is_record_of(program, body, history.last().0, call, found),
{
    lemma_trace(
        program,
        body,
        seq![history[0]],
        history,
        call,
        Set::empty(),
        auth_storage::MAX_TRACE_STEPS as nat,
    );
    assert((history[0].0, history[0].1) == history[0]);
    lemma_record(program, body, history.last().0, call);
}

/// The value of a local at the end of a block may be that of another local at the
/// end of the same or of a preceding block.
pub open spec fn may_come_from(
    program: Program,
    body: Body,
) -> spec_fn((usize, usize), (usize, usize)) -> bool {
    |to: (usize, usize), from: (usize, usize)|
        {
            ||| from.0 == to.0 && exists|call: Call, callee: DefId| #[trigger]
                laws::ends_in(body, to.0 as int, call) && #[trigger] laws::calls(
                    program,
                    call,
                    callee,
                ) && call.destination.local == to.1 && laws::unwraps(
                    program.defs@[callee as int].name@,
                ) && call.args@.len() > 0 && laws::reads(call.args@[0], from.1)
            ||| from.0 == to.0 && copies_somewhere(body, to.0 as int, to.1, from.1)
            ||| from.1 == to.1 && laws::continues(body)(from.0, to.0)
        }
}

/// Where the queued values of a trace come from is where the traced value does.
spec fn all_behind(
    program: Program,
    body: Body,
    start: (usize, usize),
    queue: Seq<(usize, usize)>,
) -> bool {
    forall|i: int|
        0 <= i < queue.len() ==> graph::reaches(
            may_come_from(program, body),
            set![start],
            #[trigger] queue[i],
        )
}

/// Some statement of a block copies one local into another.
pub open spec fn copies_somewhere(body: Body, block: int, to: Local, from: Local) -> bool {
    exists|k: int| #[trigger] copies_at(body, block, k, to, from)
}

proof fn lemma_copied_from(body: Body, block: int, local: Local, count: nat)
    requires
        0 <= block < body.basic_blocks@.len(),
        count <= body.basic_blocks@[block].statements@.len(),
    ensures
        auth_storage::copied_in(body.basic_blocks@[block], local, count) matches Some(source)
            ==> source is CopiedFrom,
        forall|from: Local|
            auth_storage::copied_in(body.basic_blocks@[block], local, count) == Some(
                SourceView::CopiedFrom(from),
            ) ==> #[trigger] copies_somewhere(body, block, local, from),
    decreases count,
{
    if count > 0 {
        lemma_copied_from(body, block, local, (count - 1) as nat);
        let data = body.basic_blocks@[block];
        let before = auth_storage::copied_in(data, local, (count - 1) as nat);
        match data.statements@[count - 1] {
            Statement::Assign(assign) => {
                assert(laws::assigns(body, block, count - 1, assign));
                match auth_storage::copied_local(assign.rvalue) {
                    Some(from) => {
                        if assign.place.local == local {
                            assert(copies(assign.rvalue, from));
                            assert(copies_at(body, block, count - 1, local, from));
                            assert(copies_somewhere(body, block, local, from));
                            assert(auth_storage::copied_in(data, local, count) == Some(
                                SourceView::CopiedFrom(from),
                            ));
                        } else {
                            assert(auth_storage::copied_in(data, local, count) == before);
                        }
                    },
                    None => {
                        assert(auth_storage::copied_in(data, local, count) == before);
                    },
                }
            },
            Statement::Other => {
                assert(auth_storage::copied_in(data, local, count) == before);
            },
        }
    }
}

proof fn lemma_traced_back(
    program: Program,
    body: Body,
    start: (usize, usize),
    queue: Seq<(usize, usize)>,
    visited: Set<(usize, usize)>,
    steps: nat,
)
    requires
        all_behind(program, body, start, queue),
    ensures
        auth_storage::traced(program, body, queue, visited, steps) matches Some(found) ==> exists|
            at: (usize, usize),
            call: Call,
        |
            #![trigger is_call_result(program, body, at, call)]
            graph::reaches(may_come_from(program, body), set![start], at) && is_call_result(
                program,
                body,
                at,
                call,
            ) && is_record_of(program, body, at.0, call, found),
    decreases steps,
{
    let edge = may_come_from(program, body);
    if steps > 0 && queue.len() > 0 {
        let to = queue.last();
        let rest = queue.drop_last();
        let left = (steps - 1) as nat;
        assert(queue[queue.len() - 1] == to);
        assert forall|i: int| 0 <= i < rest.len() implies graph::reaches(
            edge,
            set![start],
            #[trigger] rest[i],
        ) by {
            assert(rest[i] == queue[i]);
        }
        if visited.contains(to) {
            lemma_traced_back(program, body, start, rest, visited, left);
        } else {
            let seen = visited.insert(to);
            match auth_storage::source_in(program, body, to.0, to.1) {
                Some(SourceView::CallReturn(record)) => {
                    if let Terminator::Call(call) = body.basic_blocks@[to.0 as int].terminator {
                        assert(laws::ends_in(body, to.0 as int, call));
                        lemma_record(program, body, to.0, call);
                        lemma_copied_from(
                            body,
                            to.0 as int,
                            to.1,
                            body.basic_blocks@[to.0 as int].statements@.len(),
                        );
                        assert(call.destination.local == to.1);
                        let glue = record.callee matches Some(d) && cosmwasm::is_glue(program, d);
                        if !glue {
                            assert(is_call_result(program, body, to, call));
                        } else if record.arg_locals.len() > 0 {
                            if let Some(next) = record.arg_locals[0] {
                                let from = (record.location.block, next);
                                let callee = record.callee->0;
                                assert(laws::calls(program, call, callee));
                                assert(laws::reads(call.args@[0], next));
                                assert(from.0 == to.0);
                                assert(edge(to, from));
                                graph::lemma_reaches_step(edge, set![start], to, from);
                                assert(all_behind(program, body, start, rest.push(from)));
                                lemma_traced_back(
                                    program,
                                    body,
                                    start,
                                    rest.push(from),
                                    seen,
                                    left,
                                );
                            }
                        }
                    } else {
                        lemma_copied_from(
                            body,
                            to.0 as int,
                            to.1,
                            body.basic_blocks@[to.0 as int].statements@.len(),
                        );
                    }
                },
                Some(SourceView::CopiedFrom(next)) => {
                    let from = (to.0, next);
                    lemma_copied_from(
                        body,
                        to.0 as int,
                        to.1,
                        body.basic_blocks@[to.0 as int].statements@.len(),
                    );
                    assert(copies_somewhere(body, to.0 as int, to.1, next));
                    assert(edge(to, from));
                    graph::lemma_reaches_step(edge, set![start], to, from);
                    assert(all_behind(program, body, start, rest.push(from)));
                    lemma_traced_back(program, body, start, rest.push(from), seen, left);
                },
                None => {
                    let preds = mir_util::preds_of(body, to.0);
                    let more = preds.map_values(|pred: usize| (pred, to.1));
                    let next = rest + more;
                    assert forall|i: int| 0 <= i < next.len() implies graph::reaches(
                        edge,
                        set![start],
                        #[trigger] next[i],
                    ) by {
                        if i < rest.len() {
                            assert(next[i] == rest[i]);
                        } else {
                            let pred = preds[i - rest.len()];
                            assert(preds.contains(pred));
                            mir_util::lemma_preds(body, to.0, pred);
                            assert(next[i] == (pred, to.1));
                            assert(laws::continues(body)(pred, to.0));
                            assert(edge(to, next[i]));
                            graph::lemma_reaches_step(edge, set![start], to, next[i]);
                        }
                    }
                    lemma_traced_back(program, body, start, next, seen, left);
                },
            }
        }
    }
}

/// The call that a value is traced to is no adapter, and the value may come from it.
pub proof fn law_traced_call_is_where_the_value_may_come_from(
    program: Program,
    body: Body,
    local: Local,
    block: usize,
)
    ensures
        auth_storage::origin_call(program, body, local, block) matches Some(found) ==> exists|
            at: (usize, usize),
            call: Call,
        |
            #![trigger is_call_result(program, body, at, call)]
            graph::reaches(may_come_from(program, body), set![(block, local)], at)
                && is_call_result(program, body, at, call) && is_record_of(
                program,
                body,
                at.0,
                call,
                found,
            ),
{
    let start = (block, local);
    let queue = seq![start];
    graph::lemma_reaches_start(may_come_from(program, body), set![start], start);
    assert(all_behind(program, body, start, queue));
    lemma_traced_back(
        program,
        body,
        start,
        queue,
        Set::empty(),
        auth_storage::MAX_TRACE_STEPS as nat,
    );
}

// ---- what a comparison marks ---------------------------------------------

/// The counterpart of a comparison was loaded from a storage item: the call its
/// value comes from is a `load`, `may_load` or `get` of `cw_storage_plus` on a
/// receiver that resolves to the item.
pub open spec fn is_loaded_from(
    program: Program,
    body: Body,
    comparison: ComparisonView,
    item: DefId,
) -> bool {
    auth_storage::origin_call(
        program,
        body,
        comparison.compared_local,
        comparison.location.block,
    ) matches Some(call) && (call.callee matches Some(callee) && {
        &&& {
            ||| laws::is_item(program, callee, "cw_storage_plus"@, "load"@)
            ||| laws::is_item(program, callee, "cw_storage_plus"@, "may_load"@)
            ||| laws::is_item(program, callee, "cw_storage_plus"@, "get"@)
        }
        &&& call.arg_locals.len() > 0
        &&& call.arg_locals[0] matches Some(receiver) && storage_inventory::storage_def(
            program,
            body,
            receiver,
        ) == Some(item)
    })
}

proof fn lemma_variables(
    program: Program,
    body: Body,
    comparisons: Seq<ComparisonView>,
    item: DefId,
)
    ensures
        pipeline::variable_defs(
            auth_storage::auth_variables(program, body, comparisons),
        ).contains(item) <==> exists|m: int|
            0 <= m < comparisons.len() && is_loaded_from(
                program,
                body,
                #[trigger] comparisons[m],
                item,
            ),
    decreases comparisons.len(),
{
    let variables = auth_storage::auth_variables(program, body, comparisons);
    if comparisons.len() > 0 {
        let rest = comparisons.drop_last();
        let before = auth_storage::auth_variables(program, body, rest);
        lemma_variables(program, body, rest, item);
        let last = comparisons.last();
        assert(comparisons[comparisons.len() - 1] == last);
        let found = auth_storage::auth_variable(program, body, last);
        assert((found matches Some(v) && v.storage_def_id == Some(item)) <==> is_loaded_from(
            program,
            body,
            last,
            item,
        ));
        if pipeline::variable_defs(before).contains(item) {
            let i = choose|i: int|
                0 <= i < before.len() && (#[trigger] before[i]).storage_def_id == Some(item);
            assert(variables[i] == before[i]);
            let m = choose|m: int|
                0 <= m < rest.len() && is_loaded_from(program, body, #[trigger] rest[m], item);
            assert(comparisons[m] == rest[m]);
        }
        if is_loaded_from(program, body, last, item) {
            assert(variables[variables.len() - 1] == found->0);
        }
        if pipeline::variable_defs(variables).contains(item) {
            let i = choose|i: int|
                0 <= i < variables.len() && (#[trigger] variables[i]).storage_def_id == Some(item);
            if i < before.len() {
                assert(before[i] == variables[i]);
            }
        }
        if exists|m: int|
            0 <= m < comparisons.len() && is_loaded_from(
                program,
                body,
                #[trigger] comparisons[m],
                item,
            ) {
            let m = choose|m: int|
                0 <= m < comparisons.len() && is_loaded_from(
                    program,
                    body,
                    #[trigger] comparisons[m],
                    item,
                );
            if m < rest.len() {
                assert(rest[m] == comparisons[m]);
            }
        }
    } else {
        assert(variables.len() == 0);
    }
}

proof fn lemma_auth_defs(
    program: Program,
    nodes: Seq<DefId>,
    fns: Seq<DefId>,
    count: nat,
    item: DefId,
)
    requires
        count <= fns.len(),
    ensures
        pipeline::auth_defs(program, nodes, fns, count).contains(item) <==> exists|t: int|
            0 <= t < count && pipeline::variable_defs(
                pipeline::variables_in(program, nodes, #[trigger] fns[t]),
            ).contains(item),
    decreases count,
{
    if count > 0 {
        lemma_auth_defs(program, nodes, fns, (count - 1) as nat, item);
        if exists|t: int|
            0 <= t < count && pipeline::variable_defs(
                pipeline::variables_in(program, nodes, #[trigger] fns[t]),
            ).contains(item) {
            let t = choose|t: int|
                0 <= t < count && pipeline::variable_defs(
                    pipeline::variables_in(program, nodes, #[trigger] fns[t]),
                ).contains(item);
            if t == count - 1 {
                assert(fns[count - 1] == fns[t]);
            }
        }
    }
}

/// The inventory of the analysis is that of the declared items, in their order; one
/// of them is marked exactly when some analysed function holds the sender against a
/// value that was loaded from the item.
pub proof fn law_marked_items_are_compared_with_the_sender(
    program: Program,
    nodes: Seq<DefId>,
    i: int,
)
    requires
        0 <= i < pipeline::marked_inventory(program, nodes).len(),
    ensures
        pipeline::marked_inventory(program, nodes).len() == storage_inventory::declared_items(
            program,
            program.free_items@,
        ).len(),
        pipeline::marked_inventory(program, nodes)[i] == (StorageItemView {
            is_auth: pipeline::marked_inventory(program, nodes)[i].is_auth,
            ..storage_inventory::declared_items(program, program.free_items@)[i]
        }),
        pipeline::marked_inventory(program, nodes)[i].is_auth <==> exists|f: DefId, m: int|
            #![trigger pipeline::comparisons_in(program, nodes, f)[m]]
            sender_taint::targets_of(program, nodes).contains(f) && 0 <= m
                < pipeline::comparisons_in(program, nodes, f).len() && is_loaded_from(
                program,
                program.defs@[f as int].body->0,
                pipeline::comparisons_in(program, nodes, f)[m],
                pipeline::marked_inventory(program, nodes)[i].def_id,
            ),
{
    let fns = sender_taint::targets_of(program, nodes);
    let items = storage_inventory::declared_items(program, program.free_items@);
    let auth = pipeline::auth_defs(program, nodes, fns, fns.len());
    let item = items[i].def_id;
    law_marking(items, auth, i);
    assert(items.contains(items[i]));
    law_inventory_holds_the_declared_items(program, program.free_items@, items[i]);
    lemma_auth_defs(program, nodes, fns, fns.len(), item);
    if auth.contains(item) {
        let t = choose|t: int|
            0 <= t < fns.len() && pipeline::variable_defs(
                pipeline::variables_in(program, nodes, #[trigger] fns[t]),
            ).contains(item);
        let f = fns[t];
        let body = program.defs@[f as int].body->0;
        let found = pipeline::comparisons_in(program, nodes, f);
        lemma_variables(program, body, found, item);
        let m = choose|m: int|
            0 <= m < found.len() && is_loaded_from(program, body, #[trigger] found[m], item);
        assert(fns.contains(f));
        assert(is_loaded_from(
            program,
            body,
            pipeline::comparisons_in(program, nodes, f)[m],
            item,
        ));
    }
    if exists|f: DefId, m: int|
        #![trigger pipeline::comparisons_in(program, nodes, f)[m]]
        fns.contains(f) && 0 <= m < pipeline::comparisons_in(program, nodes, f).len()
            && is_loaded_from(
            program,
            program.defs@[f as int].body->0,
            pipeline::comparisons_in(program, nodes, f)[m],
            item,
        ) {
        let (f, m) = choose|f: DefId, m: int|
            #![trigger pipeline::comparisons_in(program, nodes, f)[m]]
            fns.contains(f) && 0 <= m < pipeline::comparisons_in(program, nodes, f).len()
                && is_loaded_from(
                program,
                program.defs@[f as int].body->0,
                pipeline::comparisons_in(program, nodes, f)[m],
                item,
            );
        lemma_variables(
            program,
            program.defs@[f as int].body->0,
            pipeline::comparisons_in(program, nodes, f),
            item,
        );
        let t = choose|t: int| 0 <= t < fns.len() && fns[t] == f;
        assert(pipeline::variable_defs(pipeline::variables_in(program, nodes, fns[t])).contains(item));
    }
}

/// A collection that was loaded from storage and searched for the sender marks its
/// item.
pub proof fn law_searched_collection_marks_its_item(
    program: Program,
    nodes: Seq<DefId>,
    f: DefId,
    block: usize,
    call: Call,
    callee: DefId,
    collection: Local,
    sender: Local,
    history: Seq<(usize, usize)>,
    load: Call,
    loader: DefId,
    receiver: Local,
    i: int,
)
    requires
        sender_taint::targets_of(program, nodes).contains(f),
        ({
            let body = program.defs@[f as int].body->0;
            let seeds = pipeline::final_seeds(program, nodes);
            &&& laws::ends_in(body, block as int, call)
            &&& laws::calls(program, call, callee)
            &&& laws::is_named(program, callee, "contains"@)
            &&& comparisons::pairs(call.args@, 1, sender, 0, collection)
            &&& sender_taint::seeded_locals(program, seeds, f).contains(sender)
            &&& is_history(program, body, history)
            &&& history.len() <= 24
            &&& history[0] == (block, collection)
            &&& is_call_result(program, body, history.last(), load)
            &&& laws::calls(program, load, loader)
            &&& laws::is_item(program, loader, "cw_storage_plus"@, "load"@) || laws::is_item(
                program,
                loader,
                "cw_storage_plus"@,
                "may_load"@,
            ) || laws::is_item(program, loader, "cw_storage_plus"@, "get"@)
            &&& load.args@.len() > 0 && laws::reads(load.args@[0], receiver)
            &&& 0 <= i < pipeline::marked_inventory(program, nodes).len()
            &&& storage_inventory::storage_def(program, body, receiver) == Some(
                pipeline::marked_inventory(program, nodes)[i].def_id,
            )
        }),
    ensures
        pipeline::marked_inventory(program, nodes)[i].is_auth,
{
    let body = program.defs@[f as int].body->0;
    let seeds = pipeline::final_seeds(program, nodes);
    let params = sender_taint::row_of(seeds.params, f);
    let captures = sender_taint::row_of(seeds.upvars, f);
    let found = pipeline::comparisons_in(program, nodes, f);
    comparisons::law_contains_compares_with_the_collection(
        program,
        body,
        params,
        captures,
        block,
        call,
        callee,
        collection,
        sender,
    );
    let at = Location {
        block,
        statement_index: body.basic_blocks@[block as int].statements@.len() as usize,
    };
    assert(comparisons::found(found, at, collection, crate::mir::BinOp::Eq));
    let m = choose|m: int|
        0 <= m < found.len() && (#[trigger] found[m]).location == at && found[m].compared_local
            == collection && found[m].op == crate::mir::BinOp::Eq;
    law_value_is_traced_to_its_call(program, body, history, load);
    assert(laws::calls(program, load, loader));
    assert(laws::reads(load.args@[0], receiver));
    assert(is_loaded_from(
        program,
        body,
        pipeline::comparisons_in(program, nodes, f)[m],
        pipeline::marked_inventory(program, nodes)[i].def_id,
    ));
    law_marked_items_are_compared_with_the_sender(program, nodes, i);
}

/// What is recorded of a comparison whose counterpart was loaded from storage: the
/// item behind the receiver, by name and definition, and the place of the load.
pub open spec fn is_variable_of(
    program: Program,
    body: Body,
    comparison: ComparisonView,
    variable: AuthVariableView,
) -> bool {
    auth_storage::origin_call(
        program,
        body,
        comparison.compared_local,
        comparison.location.block,
    ) matches Some(call) && (call.callee matches Some(callee) && {
        &&& {
            ||| laws::is_item(program, callee, "cw_storage_plus"@, "load"@)
            ||| laws::is_item(program, callee, "cw_storage_plus"@, "may_load"@)
            ||| laws::is_item(program, callee, "cw_storage_plus"@, "get"@)
        }
        &&& call.arg_locals.len() > 0
        &&& call.arg_locals[0] matches Some(receiver) && variable.symbolic_name
            == storage_inventory::storage_name(program, body, receiver) && variable.storage_def_id
            == storage_inventory::storage_def(program, body, receiver)
        &&& variable.load_location == call.location
    })
}

/// The recorded items are exactly those that the counterparts of the comparisons
/// were loaded from.
pub proof fn law_recorded_items_were_loaded(
    program: Program,
    body: Body,
    comparisons: Seq<ComparisonView>,
    variable: AuthVariableView,
)
    ensures
        auth_storage::auth_variables(program, body, comparisons).contains(variable) <==> exists|
            m: int,
        |
            0 <= m < comparisons.len() && is_variable_of(
                program,
                body,
                #[trigger] comparisons[m],
                variable,
            ),
    decreases comparisons.len(),
{
    let variables = auth_storage::auth_variables(program, body, comparisons);
    if comparisons.len() > 0 {
        let rest = comparisons.drop_last();
        let before = auth_storage::auth_variables(program, body, rest);
        law_recorded_items_were_loaded(program, body, rest, variable);
        let last = comparisons.last();
        assert(comparisons[comparisons.len() - 1] == last);
        let found = auth_storage::auth_variable(program, body, last);
        assert(found == Some(variable) <==> is_variable_of(program, body, last, variable));
        if let Some(one) = found {
            graph::lemma_push_contains(before, one, variable);
        }
        if exists|m: int|
            0 <= m < comparisons.len() && is_variable_of(
                program,
                body,
                #[trigger] comparisons[m],
                variable,
            ) {
            let m = choose|m: int|
                0 <= m < comparisons.len() && is_variable_of(
                    program,
                    body,
                    #[trigger] comparisons[m],
                    variable,
                );
            if m < rest.len() {
                assert(rest[m] == comparisons[m]);
            }
        }
        if exists|m: int|
            0 <= m < rest.len() && is_variable_of(program, body, #[trigger] rest[m], variable) {
            let m = choose|m: int|
                0 <= m < rest.len() && is_variable_of(program, body, #[trigger] rest[m], variable);
            assert(comparisons[m] == rest[m]);
        }
    } else {
        assert(variables.len() == 0);
    }
}

} // verus!
