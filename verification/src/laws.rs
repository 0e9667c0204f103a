//! What the analysis promises, stated over the program it reads.
//!
//! The laws here speak of statements, calls, names and types as they stand in a
//! [`Program`](crate::mir::Program), and relate them to the results of the
//! stages: where the sender flows, which comparisons are found, which storage
//! items they mark, what counts as a check and what is reported. The vocabulary
//! they share is spelled out in this module.

pub mod addresses;
pub mod calls;
pub mod comparisons;
pub mod constants;
pub mod findings;
pub mod flows;
pub mod guards;
pub mod invocations;
pub mod paths;
pub mod polarity;
pub mod predicates;
pub mod reports;
pub mod seeds;
pub mod sender;
pub mod storage;
pub mod texts;
pub mod traces;

use crate::mir::{AggregateKind, Assign, Body, Call, DefId, Local, Operand, Place, PlaceElem};
use crate::mir::{Program, Rvalue, Statement, SwitchInt, Terminator, Ty, TyKind};
use vstd::prelude::*;

verus! {

/// The type an operand is declared with.
pub open spec fn type_of(operand: Operand) -> Ty {
    match operand {
        Operand::Copy(place) => place.ty,
        Operand::Move(place) => place.ty,
        Operand::Constant(constant) => constant.ty,
        Operand::Runtime(ty) => ty,
    }
}

/// An operand copies or moves a local, or a part of it.
pub open spec fn reads(operand: Operand, local: Local) -> bool {
    match operand {
        Operand::Copy(place) => place.local == local,
        Operand::Move(place) => place.local == local,
        _ => false,
    }
}

/// A call target is the function item `callee`.
pub open spec fn calls(program: Program, call: Call, callee: DefId) -> bool {
    program.types@[type_of(call.func) as int].kind == TyKind::FnDef(callee)
}

/// A definition has an item name.
pub open spec fn is_named(program: Program, def: DefId, name: Seq<char>) -> bool {
    program.defs@[def as int].name@ == name
}

/// A definition has an item name and a crate.
pub open spec fn is_item(program: Program, def: DefId, krate: Seq<char>, name: Seq<char>) -> bool {
    program.defs@[def as int].name@ == name && program.defs@[def as int].krate@ == krate
}

/// Statement `k` of a block is an assignment.
pub open spec fn assigns(body: Body, block: int, k: int, assign: Assign) -> bool {
    0 <= block < body.basic_blocks@.len() && 0 <= k < body.basic_blocks@[block].statements@.len()
        && body.basic_blocks@[block].statements@[k] == Statement::Assign(assign)
}

/// A block ends in a call.
pub open spec fn ends_in(body: Body, block: int, call: Call) -> bool {
    0 <= block < body.basic_blocks@.len() && body.basic_blocks@[block].terminator
        == Terminator::Call(call)
}

/// A block ends in a branch.
pub open spec fn branches(body: Body, block: int, switch: SwitchInt) -> bool {
    0 <= block < body.basic_blocks@.len() && body.basic_blocks@[block].terminator
        == Terminator::SwitchInt(switch)
}

/// Control may continue in the second block when it leaves the first.
pub open spec fn continues(body: Body) -> spec_fn(usize, usize) -> bool {
    |a: usize, b: usize|
        a < body.basic_blocks@.len() && body.basic_blocks@[a as int].successors@.contains(b)
}

/// Statement `k` of a block makes the function return `Ok`.
pub open spec fn returns_ok(program: Program, body: Body, block: int, k: int) -> bool {
    exists|assign: Assign| #[trigger]
        assigns(body, block, k, assign) && assign.place.local == 0
            && assign.place.projection@.len() == 0 && (
        assign.rvalue matches Rvalue::Aggregate(AggregateKind::Adt(def, variant), _) && variant == 0
            && program.defs@[def as int].is_result)
}

/// No path from a block leads to a block that makes the function return `Ok`.
pub open spec fn abandons_success(program: Program, body: Body, block: usize) -> bool {
    forall|path: Seq<usize>, k: int|
        #![trigger crate::graph::walk(continues(body), path), returns_ok(program, body, path.last() as int, k)]
        crate::graph::walk(continues(body), path) && path[0] == block ==> !returns_ok(
            program,
            body,
            path.last() as int,
            k,
        )
}

/// A path selects field `k` of the local it starts from: no other field is
/// selected in front of it.
pub open spec fn selects(projection: Seq<PlaceElem>, k: usize) -> bool {
    exists|j: int|
        0 <= j < projection.len() && #[trigger] projection[j] == PlaceElem::Field(k) && forall|
            i: int,
        |
            0 <= i < j ==> #[trigger] projection[i] is Other
}

/// An rvalue is a copy, a move, a borrow or the address of a place.
pub open spec fn takes(rvalue: Rvalue, place: Place) -> bool {
    ||| rvalue == Rvalue::Use(Operand::Copy(place))
    ||| rvalue == Rvalue::Use(Operand::Move(place))
    ||| rvalue == Rvalue::Ref(true, place)
    ||| rvalue == Rvalue::Ref(false, place)
    ||| rvalue == Rvalue::RawPtr(place)
}

/// An rvalue puts a value together from parts, `local` among them.
pub open spec fn collects(rvalue: Rvalue, local: Local) -> bool {
    rvalue matches Rvalue::Aggregate(_, operands) && exists|i: int|
        0 <= i < operands@.len() && reads(#[trigger] operands@[i], local)
}

/// The name of an adapter that hands the success value of its first argument on,
/// the desugaring of `?` and the deref coercions among them.
pub open spec fn unwraps(name: Seq<char>) -> bool {
    ||| name == "branch"@
    ||| name == "from_residual"@
    ||| name == "unwrap"@
    ||| name == "expect"@
    ||| name == "ok_or"@
    ||| name == "ok_or_else"@
    ||| name == "map_err"@
    ||| name == "into_ok"@
    ||| name == "deref"@
    ||| name == "deref_mut"@
}

/// A node that is reached is a start, or an edge leads to it from a node that is
/// reached.
pub proof fn lemma_last_step<T>(
    edge: spec_fn(T, T) -> bool,
    starts: Set<T>,
    node: T,
)
    requires
        crate::graph::reaches(edge, starts, node),
    ensures
        starts.contains(node) || exists|from: T|
            crate::graph::reaches(edge, starts, from) && #[trigger] edge(from, node),
{
    let path = choose|path: Seq<T>| crate::graph::leads(edge, starts, path, node);
    if path.len() > 1 {
        let shorter = path.drop_last();
        let from = shorter.last();
        assert(from == path[path.len() - 2]);
        assert forall|i: int| 0 <= i < shorter.len() - 1 implies edge(
            #[trigger] shorter[i],
            shorter[i + 1],
        ) by {
            assert(edge(path[i], path[i + 1]));
        }
        assert(crate::graph::leads(edge, starts, shorter, from));
        assert(edge(path[path.len() - 2], path[path.len() - 2 + 1]));
    }
}

} // verus!
