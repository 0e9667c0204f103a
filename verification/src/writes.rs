//! Where a body writes its locals.
//!
//! A local that is written at a single point holds the value written there
//! wherever it is read. That is what a branch or a return value has to rest on
//! before a comparison is said to decide it.

use crate::cosmwasm;
use crate::dense::DenseMap;
use crate::mir::{Body, Call, Local, Program, Rvalue, Statement, Terminator, UnOp};
use crate::mir_util;
use vstd::prelude::*;

verus! {

/// How a body writes a local.
#[derive(Debug, Clone, Copy)]
pub enum Written {
    /// At a single point. Where that passes the truth value of another local on,
    /// the local and whether it is negated.
    Once(Option<(Local, bool)>),
    /// At several points, through a pointer, or by the caller as well.
    Often,
}

/// The local whose truth value an rvalue passes on, and whether it is negated on
/// the way. A part of a local counts as the local: what is written at a single
/// point has no other part to read. A discriminant has a value of its own.
pub open spec fn passed_truth(rvalue: Rvalue) -> Option<(Local, bool)> {
    match rvalue {
        Rvalue::Use(op) => match mir_util::local_of(op) {
            Some(from) => Some((from, false)),
            None => None,
        },
        Rvalue::UnaryOp(UnOp::Not, op) => match mir_util::local_of(op) {
            Some(from) => Some((from, true)),
            None => None,
        },
        _ => None,
    }
}

/// The local whose truth value a call passes on: forwarding glue hands the
/// payload of its first argument straight through.
pub open spec fn forwarded_truth(program: Program, call: Call) -> Option<(Local, bool)> {
    if (mir_util::callee_of(program, call.func) matches Some(d) && cosmwasm::is_glue(program, d))
        && call.args@.len() > 0 {
        match mir_util::local_of(call.args@[0]) {
            Some(from) => Some((from, false)),
            None => None,
        }
    } else {
        None
    }
}

/// What point `k` of a block, its terminator being the last one, writes: the
/// local, and where it has its truth value from.
pub open spec fn written_at(program: Program, body: Body, block: int, k: int) -> Option<
    (Local, Option<(Local, bool)>),
> {
    let data = body.basic_blocks@[block];
    if k < data.statements@.len() {
        match data.statements@[k] {
            Statement::Assign(assign) => Some((assign.place.local, passed_truth(assign.rvalue))),
            Statement::Other => None,
        }
    } else {
        match data.terminator {
            Terminator::Call(call) => Some(
                (call.destination.local, forwarded_truth(program, call)),
            ),
            _ => None,
        }
    }
}

/// A local is a parameter, which the caller has written already.
pub open spec fn is_parameter(body: Body, local: Local) -> bool {
    1 <= local <= body.arg_count
}

/// The local that point `k` of a block takes a pointer for writing to.
pub open spec fn lent_at(body: Body, block: int, k: int) -> Option<Local> {
    let data = body.basic_blocks@[block];
    if k < data.statements@.len() {
        match data.statements@[k] {
            Statement::Assign(assign) => match assign.rvalue {
                Rvalue::Ref(true, place) => Some(place.local),
                Rvalue::RawPtr(place) => Some(place.local),
                _ => None,
            },
            Statement::Other => None,
        }
    } else {
        None
    }
}

/// How the blocks below `block` and the first `k` points of `block` write each
/// local.
pub open spec fn writes_before(program: Program, body: Body, block: nat, k: nat) -> Map<usize, Written>
    decreases block, k,
{
    if k > 0 {
        let before = writes_before(program, body, block, (k - 1) as nat);
        let assigned = match written_at(program, body, block as int, k - 1) {
            Some((to, from)) => before.insert(
                to,
                if before.contains_key(to) || is_parameter(body, to) {
                    Written::Often
                } else {
                    Written::Once(from)
                },
            ),
            None => before,
        };
        match lent_at(body, block as int, k - 1) {
            Some(lent) => assigned.insert(lent, Written::Often),
            None => assigned,
        }
    } else if block > 0 {
        writes_before(
            program,
            body,
            (block - 1) as nat,
            body.basic_blocks@[block - 1].statements@.len() + 1,
        )
    } else {
        Map::empty()
    }
}

/// How a body writes each local.
pub open spec fn writes_of(program: Program, body: Body) -> Map<usize, Written> {
    writes_before(program, body, body.basic_blocks@.len(), 0)
}

/// Point `j` of block `b` stands in the blocks below `block` or among the first
/// `k` points of `block`.
pub open spec fn stands_before(body: Body, b: int, j: int, block: nat, k: nat) -> bool {
    0 <= j && 0 <= b && ((b < block && j <= body.basic_blocks@[b].statements@.len()) || (b == block
        && j < k))
}

/// Point `j` of block `b` writes `local`.
pub open spec fn writes_local(program: Program, body: Body, b: int, j: int, local: Local) -> bool {
    written_at(program, body, b, j) matches Some((to, _)) && to == local
}

/// A local that counts as written once is written at one point of the body and at
/// no other, no point takes a pointer for writing to it, and it is no parameter.
pub proof fn lemma_written_once(
    program: Program,
    body: Body,
    local: Local,
    from: Option<(Local, bool)>,
)
    requires
        writes_of(program, body).contains_key(local),
        writes_of(program, body)[local] == Written::Once(from),
    ensures
        exists|b: int, j: int|
            #![trigger written_at(program, body, b, j)]
            stands_before(body, b, j, body.basic_blocks@.len(), 0) && written_at(program, body, b, j)
                == Some((local, from)) && forall|c: int, i: int|
                stands_before(body, c, i, body.basic_blocks@.len(), 0) && #[trigger] writes_local(
                    program,
                    body,
                    c,
                    i,
                    local,
                ) ==> c == b && i == j,
        forall|c: int, i: int|
            stands_before(body, c, i, body.basic_blocks@.len(), 0) ==> #[trigger] lent_at(
                body,
                c,
                i,
            ) != Some(local),
        !is_parameter(body, local),
{
    lemma_writes_before(program, body, body.basic_blocks@.len(), 0, local);
}

proof fn lemma_writes_before(program: Program, body: Body, block: nat, k: nat, local: Local)
    ensures
        writes_before(program, body, block, k).contains_key(local) && writes_before(
            program,
            body,
            block,
            k,
        )[local] is Once ==> !is_parameter(body, local),
        !writes_before(program, body, block, k).contains_key(local) ==> forall|c: int, i: int|
            stands_before(body, c, i, block, k) ==> !#[trigger] writes_local(program, body, c, i, local),
        !writes_before(program, body, block, k).contains_key(local) ==> forall|c: int, i: int|
            stands_before(body, c, i, block, k) ==> #[trigger] lent_at(body, c, i) != Some(local),
        writes_before(program, body, block, k).contains_key(local) ==> (writes_before(
            program,
            body,
            block,
            k,
        )[local] matches Written::Once(from) ==> (exists|b: int, j: int|
            #![trigger written_at(program, body, b, j)]
            stands_before(body, b, j, block, k) && written_at(program, body, b, j) == Some((local, from))
                && forall|c: int, i: int|
                stands_before(body, c, i, block, k) && #[trigger] writes_local(program, body, c, i, local)
                    ==> c == b && i == j) && forall|c: int, i: int|
            stands_before(body, c, i, block, k) ==> #[trigger] lent_at(body, c, i) != Some(local)),
    decreases block, k,
{
    if k > 0 {
        let last = (k - 1) as nat;
        lemma_writes_before(program, body, block, last, local);
        let before = writes_before(program, body, block, last);
        let after = writes_before(program, body, block, k);
        assert forall|c: int, i: int| #[trigger]
            stands_before(body, c, i, block, k) implies stands_before(body, c, i, block, last) || (c
            == block && i == last) by {}
        if after.contains_key(local) {
            if let Written::Once(from) = after[local] {
                if before.contains_key(local) {
                    let (b, j) = choose|b: int, j: int|
                        #![trigger written_at(program, body, b, j)]
                        stands_before(body, b, j, block, last) && written_at(program, body, b, j) == Some(
                            (local, from),
                        ) && forall|c: int, i: int|
                            stands_before(body, c, i, block, last) && #[trigger] writes_local(
                                program,
                                body,
                                c,
                                i,
                                local,
                            ) ==> c == b && i == j;
                    assert(stands_before(body, b, j, block, k));
                    assert(!writes_local(program, body, block as int, last as int, local));
                } else {
                    assert(written_at(program, body, block as int, last as int) == Some((local, from)));
                    assert(stands_before(body, block as int, last as int, block, k));
                }
            }
        }
    } else if block > 0 {
        let last = (block - 1) as nat;
        let end = body.basic_blocks@[last as int].statements@.len() + 1;
        lemma_writes_before(program, body, last, end, local);
        assert forall|c: int, i: int|
            stands_before(body, c, i, block, k) == #[trigger] stands_before(
                body,
                c,
                i,
                last,
                end,
            ) by {}
        if writes_before(program, body, block, k).contains_key(local) {
            if let Written::Once(from) = writes_before(program, body, block, k)[local] {
                let (b, j) = choose|b: int, j: int|
                    #![trigger written_at(program, body, b, j)]
                    stands_before(body, b, j, last, end) && written_at(program, body, b, j) == Some(
                        (local, from),
                    ) && forall|c: int, i: int|
                        stands_before(body, c, i, last, end) && #[trigger] writes_local(
                            program,
                            body,
                            c,
                            i,
                            local,
                        ) ==> c == b && i == j;
                assert(stands_before(body, b, j, block, k));
                assert(written_at(program, body, b, j) == Some((local, from)));
            }
        }
    }
}

/// Returns the local whose truth value an rvalue passes on, and whether it is
/// negated on the way.
fn passed_truth_value(rvalue: &Rvalue) -> (from: Option<(Local, bool)>)
    ensures
        from == passed_truth(*rvalue),
{
    match rvalue {
        Rvalue::Use(op) => match mir_util::operand_local(op) {
            Some(from) => Some((from, false)),
            None => None,
        },
        Rvalue::UnaryOp(UnOp::Not, op) => match mir_util::operand_local(op) {
            Some(from) => Some((from, true)),
            None => None,
        },
        _ => None,
    }
}

/// Returns the local whose truth value a call passes on.
fn forwarded_truth_value(program: &Program, call: &Call, locals: Ghost<nat>) -> (from: Option<
    (Local, bool),
>)
    requires
        program.wf(),
        call.func.wf(*program, locals@),
    ensures
        from == forwarded_truth(*program, *call),
{
    proof {
        mir_util::lemma_operand_wf(*program, call.func, locals@);
    }
    let is_glue = match mir_util::callee_def_id(program, &call.func) {
        Some(d) => cosmwasm::is_forwarding_glue_fn(program, d),
        None => false,
    };
    if is_glue && call.args.len() > 0 {
        match mir_util::operand_local(&call.args[0]) {
            Some(from) => Some((from, false)),
            None => None,
        }
    } else {
        None
    }
}

/// Records another write of `to`.
fn record_write(
    body: &Body,
    writes: &mut DenseMap<Written>,
    to: Local,
    from: Option<(Local, bool)>,
)
    ensures
        final(writes)@ == old(writes)@.insert(
            to,
            if old(writes)@.contains_key(to) || is_parameter(*body, to) {
                Written::Often
            } else {
                Written::Once(from)
            },
        ),
{
    if writes.contains_key(to) || (1 <= to && to <= body.arg_count) {
        writes.insert(to, Written::Often);
    } else {
        writes.insert(to, Written::Once(from));
    }
}

/// Records how a body writes each local, so that a value can be traced back to
/// where it comes from without losing a negation. A local that is written at
/// several points need not hold what one of them wrote when it is read.
#[verifier::loop_isolation(false)]
pub(crate) fn build_write_map(program: &Program, body: &Body) -> (writes: DenseMap<Written>)
    requires
        program.wf(),
        body.wf(*program),
    ensures
        writes@ == writes_of(*program, *body),
{
    let mut writes: DenseMap<Written> = DenseMap::new();
    let ghost n = body.local_decls@.len();
    for block in 0..body.basic_blocks.len()
        invariant
            writes@ == writes_before(*program, *body, block as nat, 0),
    {
        let data = &body.basic_blocks[block];
        assert(data.wf(*program, n, body.basic_blocks@.len()));
        for k in 0..data.statements.len()
            invariant
                writes@ == writes_before(*program, *body, block as nat, k as nat),
        {
            if let Statement::Assign(assign) = &data.statements[k] {
                let from = passed_truth_value(&assign.rvalue);
                record_write(body, &mut writes, assign.place.local, from);
                match &assign.rvalue {
                    Rvalue::Ref(true, place) => {
                        writes.insert(place.local, Written::Often);
                    },
                    Rvalue::RawPtr(place) => {
                        writes.insert(place.local, Written::Often);
                    },
                    _ => {},
                }
            }
            assert(writes@ == writes_before(*program, *body, block as nat, (k + 1) as nat));
        }
        if let Terminator::Call(call) = &data.terminator {
            let from = forwarded_truth_value(program, call, Ghost(n));
            record_write(body, &mut writes, call.destination.local, from);
        }
        assert(writes@ == writes_before(
            *program,
            *body,
            block as nat,
            data.statements@.len() + 1,
        ));
    }
    writes
}

} // verus!
