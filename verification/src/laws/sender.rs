//! Where the sender flows inside a body.

use crate::graph;
use crate::laws;
use crate::mir::{Assign, Body, Call, DefId, Local, Place, PlaceElem, Program, Rvalue, TyKind};
use crate::mir_util;
use crate::sender_taint;
use vstd::prelude::*;

verus! {

/// The name of a conversion whose result is the same identity as its argument,
/// in whatever representation.
pub open spec fn keeps_identity(name: Seq<char>) -> bool {
    ||| name == "as_ref"@
    ||| name == "as_str"@
    ||| name == "as_bytes"@
    ||| name == "to_string"@
    ||| name == "to_owned"@
    ||| name == "clone"@
    ||| name == "deref"@
    ||| name == "deref_mut"@
    ||| name == "borrow"@
    ||| name == "addr_validate"@
    ||| name == "addr_canonicalize"@
    ||| name == "addr_humanize"@
}

/// A local is the message info of a call, or a reference to it.
pub open spec fn holds_info(program: Program, body: Body, local: Local, info: DefId) -> bool {
    laws::is_item(program, info, "cosmwasm_std"@, "MessageInfo"@) && match program.types@[
        body.local_decls@[local as int] as int].kind {
        TyKind::Adt(def, _) => def == info,
        TyKind::Ref(inner, _) => program.types@[inner as int].kind matches TyKind::Adt(def, _)
            && def == info,
        _ => false,
    }
}

/// Field `k` of a type has a name.
pub open spec fn field_is(program: Program, def: DefId, k: usize, name: Seq<char>) -> bool {
    program.defs@[def as int].fields matches Some(fields) && k < fields@.len()
        && fields@[k as int]@ == name
}

/// A place is the `sender` field of a message info, or a part of it.
pub open spec fn reads_info_sender(program: Program, body: Body, place: Place) -> bool {
    exists|info: DefId, k: usize| #[trigger]
        holds_info(program, body, place.local, info) && #[trigger] laws::selects(
            place.projection@,
            k,
        ) && field_is(program, info, k, "sender"@)
}

/// A place is a captured value of a closure, one of the given ones.
pub open spec fn reads_capture(place: Place, captures: Set<usize>) -> bool {
    place.local == 1 && exists|k: usize| #[trigger]
        laws::selects(place.projection@, k) && captures.contains(k)
}

/// The first field of a path is the one it selects.
pub proof fn lemma_selects(projection: Seq<PlaceElem>, k: usize)
    ensures
        sender_taint::first_field(projection) == Some(k) <==> laws::selects(projection, k),
    decreases projection.len(),
{
    if projection.len() > 0 {
        let rest = projection.skip(1);
        lemma_selects(rest, k);
        match projection[0] {
            PlaceElem::Field(first) => {
                if laws::selects(projection, k) {
                    let j = choose|j: int|
                        0 <= j < projection.len() && #[trigger] projection[j] == PlaceElem::Field(k)
                            && forall|i: int| 0 <= i < j ==> #[trigger] projection[i] is Other;
                    if j > 0 {
                        assert(projection[0] is Other);
                    }
                }
                if first == k {
                    assert(projection[0] == PlaceElem::Field(k));
                }
            },
            PlaceElem::Other => {
                if laws::selects(projection, k) {
                    let j = choose|j: int|
                        0 <= j < projection.len() && #[trigger] projection[j] == PlaceElem::Field(k)
                            && forall|i: int| 0 <= i < j ==> #[trigger] projection[i] is Other;
                    assert(rest[j - 1] == PlaceElem::Field(k));
                    assert forall|i: int| 0 <= i < j - 1 implies #[trigger] rest[i] is Other by {
                        assert(projection[i + 1] is Other);
                    }
                }
                if laws::selects(rest, k) {
                    let j = choose|j: int|
                        0 <= j < rest.len() && #[trigger] rest[j] == PlaceElem::Field(k)
                            && forall|i: int| 0 <= i < j ==> #[trigger] rest[i] is Other;
                    assert(projection[j + 1] == PlaceElem::Field(k));
                    assert forall|i: int| 0 <= i < j + 1 implies #[trigger] projection[i] is Other by {
                        if i > 0 {
                            assert(rest[i - 1] is Other);
                        }
                    }
                }
            },
        }
    }
}

proof fn lemma_info_sender(program: Program, body: Body, place: Place)
    ensures
        sender_taint::sender_field(program, body, place) <==> reads_info_sender(
            program,
            body,
            place,
        ),
{
    assert forall|k: usize| sender_taint::first_field(place.projection@) == Some(k) <==> #[trigger]
        laws::selects(place.projection@, k) by {
        lemma_selects(place.projection@, k);
    }
    if sender_taint::sender_field(program, body, place) {
        let base = sender_taint::local_base_ty(program, body, place.local);
        match program.types@[base as int].kind {
            TyKind::Adt(info, _) => {
                let k = sender_taint::first_field(place.projection@)->0;
                assert(holds_info(program, body, place.local, info));
                assert(laws::selects(place.projection@, k));
            },
            _ => {},
        }
    }
    if reads_info_sender(program, body, place) {
        let (info, k) = choose|info: DefId, k: usize| #[trigger]
            holds_info(program, body, place.local, info) && #[trigger] laws::selects(
                place.projection@,
                k,
            ) && field_is(program, info, k, "sender"@);
        assert(sender_taint::first_field(place.projection@) == Some(k));
    }
}

proof fn lemma_capture(place: Place, captures: Set<usize>)
    ensures
        sender_taint::reads_upvar(place, captures) <==> reads_capture(place, captures),
{
    assert forall|k: usize| sender_taint::first_field(place.projection@) == Some(k) <==> #[trigger]
        laws::selects(place.projection@, k) by {
        lemma_selects(place.projection@, k);
    }
    if sender_taint::reads_upvar(place, captures) {
        assert(laws::selects(
            place.projection@,
            sender_taint::first_field(place.projection@)->0,
        ));
    }
}

/// Whatever is copied, moved, borrowed or pointed to out of `info.sender`, or out
/// of a captured sender, carries the sender; and so does every parameter that a
/// caller hands the sender to.
pub proof fn law_sender_starts_at_info_sender(
    program: Program,
    body: Body,
    params: Set<usize>,
    captures: Set<usize>,
    block: int,
    k: int,
    assign: Assign,
    place: Place,
)
    requires
        laws::assigns(body, block, k, assign),
        laws::takes(assign.rvalue, place),
        reads_info_sender(program, body, place) || reads_capture(place, captures),
    ensures
        sender_taint::sender_locals(program, body, params, captures).contains(assign.place.local),
{
    lemma_info_sender(program, body, place);
    lemma_capture(place, captures);
    assert(sender_taint::source_at(program, body, captures, block, k, assign.place.local));
    graph::lemma_reaches_start(
        sender_taint::sender_edge(program, body),
        sender_taint::sender_starts(program, body, params, captures),
        assign.place.local,
    );
}

/// A parameter that is handed the sender carries it.
pub proof fn law_seeded_parameters_carry_the_sender(
    program: Program,
    body: Body,
    params: Set<usize>,
    captures: Set<usize>,
    local: Local,
)
    requires
        params.contains(local),
    ensures
        sender_taint::sender_locals(program, body, params, captures).contains(local),
{
    graph::lemma_reaches_start(
        sender_taint::sender_edge(program, body),
        sender_taint::sender_starts(program, body, params, captures),
        local,
    );
}

/// Copying, moving, borrowing and pointing to what carries the sender hands the
/// sender on, and so does every value that has it as a part.
pub proof fn law_assignments_hand_the_sender_on(
    program: Program,
    body: Body,
    params: Set<usize>,
    captures: Set<usize>,
    block: int,
    k: int,
    assign: Assign,
    from: Local,
)
    requires
        sender_taint::sender_locals(program, body, params, captures).contains(from),
        laws::assigns(body, block, k, assign),
        laws::collects(assign.rvalue, from) || exists|place: Place| #[trigger]
            laws::takes(assign.rvalue, place) && place.local == from,
    ensures
        sender_taint::sender_locals(program, body, params, captures).contains(assign.place.local),
{
    if laws::collects(assign.rvalue, from) {
        if let Rvalue::Aggregate(_, operands) = assign.rvalue {
            mir_util::lemma_read_locals(operands@, from);
        }
    }
    assert(sender_taint::handed_at(program, body, block, k, from, assign.place.local));
    graph::lemma_reaches_step(
        sender_taint::sender_edge(program, body),
        sender_taint::sender_starts(program, body, params, captures),
        from,
        assign.place.local,
    );
}

/// Whichever argument of an identity-preserving conversion, or of an adapter that
/// hands a success value on, carries the sender, the result carries it too.
pub proof fn law_conversions_keep_the_sender(
    program: Program,
    body: Body,
    params: Set<usize>,
    captures: Set<usize>,
    block: int,
    call: Call,
    callee: DefId,
    i: int,
    from: Local,
)
    requires
        laws::ends_in(body, block, call),
        laws::calls(program, call, callee),
        keeps_identity(program.defs@[callee as int].name@) || laws::unwraps(
            program.defs@[callee as int].name@,
        ),
        0 <= i < call.args@.len(),
        laws::reads(call.args@[i], from),
        sender_taint::sender_locals(program, body, params, captures).contains(from),
    ensures
        sender_taint::sender_locals(program, body, params, captures).contains(call.destination.local),
{
    mir_util::lemma_read_locals(call.args@, from);
    assert(mir_util::local_of(call.args@[i]) == Some(from));
    assert(sender_taint::forwards(program, call));
    assert(sender_taint::handed_at(
        program,
        body,
        block,
        body.basic_blocks@[block].statements@.len() as int,
        from,
        call.destination.local,
    ));
    graph::lemma_reaches_step(
        sender_taint::sender_edge(program, body),
        sender_taint::sender_starts(program, body, params, captures),
        from,
        call.destination.local,
    );
}

/// An assignment is a reason for its destination to carry the sender.
pub open spec fn assignment_carries(
    program: Program,
    body: Body,
    senders: Set<usize>,
    captures: Set<usize>,
    assign: Assign,
) -> bool {
    ||| exists|place: Place| #[trigger]
        laws::takes(assign.rvalue, place) && (reads_info_sender(program, body, place)
            || reads_capture(place, captures) || senders.contains(place.local))
    ||| exists|from: Local| #[trigger] laws::collects(assign.rvalue, from) && senders.contains(from)
}

/// A call is a reason for its destination to carry the sender.
pub open spec fn call_carries(program: Program, senders: Set<usize>, call: Call) -> bool {
    exists|callee: DefId, i: int, from: Local| #[trigger]
        laws::calls(program, call, callee) && 0 <= i < call.args@.len() && #[trigger] laws::reads(
            call.args@[i],
            from,
        ) && senders.contains(from) && (keeps_identity(program.defs@[callee as int].name@)
            || laws::unwraps(program.defs@[callee as int].name@))
}

/// Nothing else carries the sender: a local that does is a seeded parameter, or
/// some assignment or call gives it the sender.
pub proof fn law_nothing_else_carries_the_sender(
    program: Program,
    body: Body,
    params: Set<usize>,
    captures: Set<usize>,
    local: Local,
)
    requires
        sender_taint::sender_locals(program, body, params, captures).contains(local),
    ensures
        ({
            let senders = sender_taint::sender_locals(program, body, params, captures);
            ||| params.contains(local)
            ||| exists|block: int, k: int, assign: Assign| #[trigger]
                laws::assigns(body, block, k, assign) && assign.place.local == local
                    && assignment_carries(program, body, senders, captures, assign)
            ||| exists|block: int, call: Call| #[trigger]
                laws::ends_in(body, block, call) && call.destination.local == local
                    && call_carries(program, senders, call)
        }),
{
    let senders = sender_taint::sender_locals(program, body, params, captures);
    let edge = sender_taint::sender_edge(program, body);
    let starts = sender_taint::sender_starts(program, body, params, captures);
    laws::lemma_last_step(edge, starts, local);
    if starts.contains(local) {
        if !params.contains(local) {
            let (block, k) = choose|block: int, k: int| #[trigger]
                sender_taint::source_at(program, body, captures, block, k, local);
            if let crate::mir::Statement::Assign(assign) =
                body.basic_blocks@[block].statements@[k] {
                let place = sender_taint::passed_place(assign.rvalue)->0;
                lemma_info_sender(program, body, place);
                lemma_capture(place, captures);
                assert(laws::takes(assign.rvalue, place));
                assert(laws::assigns(body, block, k, assign));
            }
        }
    } else {
        let from = choose|from: usize| graph::reaches(edge, starts, from) && #[trigger] edge(
            from,
            local,
        );
        assert(senders.contains(from));
        let (block, k) = choose|block: int, k: int| #[trigger]
            sender_taint::handed_at(program, body, block, k, from, local);
        let data = body.basic_blocks@[block];
        if k < data.statements@.len() {
            if let crate::mir::Statement::Assign(assign) = data.statements@[k] {
                assert(laws::assigns(body, block, k, assign));
                if let Rvalue::Aggregate(_, operands) = assign.rvalue {
                    mir_util::lemma_read_locals(operands@, from);
                    assert(laws::collects(assign.rvalue, from));
                } else {
                    let place = sender_taint::passed_place(assign.rvalue)->0;
                    assert(laws::takes(assign.rvalue, place));
                }
            }
        } else {
            if let crate::mir::Terminator::Call(call) = data.terminator {
                assert(laws::ends_in(body, block, call));
                mir_util::lemma_read_locals(call.args@, from);
                let i = choose|i: int|
                    0 <= i < call.args@.len() && mir_util::local_of(#[trigger] call.args@[i])
                        == Some(from);
                let callee = mir_util::callee_of(program, call.func)->0;
                assert(laws::calls(program, call, callee));
                assert(laws::reads(call.args@[i], from));
            }
        }
    }
}

} // verus!
