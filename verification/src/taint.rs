//! Taint propagation: attacker-controlled values.
//!
//! Access control only matters where the written value comes from the message
//! the caller sent. This module answers that question in two parts:
//!
//! * [`propagate_taint_forward`] is the intraprocedural forward taint over a
//!   single body, seeded with the address-typed parameters of the handler;
//! * [`compute_return_taint_params`] is the interprocedural summary of
//!   stage 5: which parameter positions of a function reach its return value,
//!   so that a call to a helper forwards taint precisely instead of
//!   conservatively tainting everything it touches.
//!
//! Storage is modelled per item rather than through the `deps` handle: a value
//! read from storage is attacker-controlled only if that *same* item was
//! written with tainted data earlier in the handler, that is, in a block control
//! passes from to the load. Tainting the handle
//! instead would let an unrelated write (an IBC transfer with a user-supplied
//! recipient, say) contaminate every later load.

use crate::auth_gate;
use crate::call_graph;
use crate::call_graph::{callee_locations, CallGraph};
use crate::cosmwasm;
use crate::dense::{DenseMap, DenseSet, PairMap};
use crate::graph;
use crate::mir::{
    AggregateKind, Assign, Body, Call, DefId, Local, Operand, Program, Rvalue, Statement,
    Terminator, Ty, TyKind,
};
use crate::mir_util;
use crate::sender_taint;
use crate::storage_inventory;
use crate::storage_inventory::{resolve_storage_def_id, ConstDefIndex, ConstTypeIndex};
use vstd::prelude::*;

verus! {

// ---- borrows -------------------------------------------------------------

/// For each reference local the local it borrows, and which of the borrows are
/// mutable.
#[verifier::ext_equal]
pub ghost struct Borrows {
    pub of: Map<usize, Local>,
    pub mutable: Set<usize>,
}

/// The borrows after one more statement.
pub open spec fn borrows_after(borrows: Borrows, statement: Statement) -> Borrows {
    match statement {
        Statement::Assign(assign) => {
            let to = assign.place.local;
            match assign.rvalue {
                Rvalue::Ref(mutable, place) => Borrows {
                    of: borrows.of.insert(to, place.local),
                    mutable: if mutable {
                        borrows.mutable.insert(to)
                    } else {
                        borrows.mutable
                    },
                },
                // A raw pointer is treated conservatively as a mutable borrow.
                Rvalue::RawPtr(place) => Borrows {
                    of: borrows.of.insert(to, place.local),
                    mutable: borrows.mutable.insert(to),
                },
                // A reborrow through a copy or move of an existing reference.
                Rvalue::Use(op) => match mir_util::local_of(op) {
                    Some(from) => if borrows.of.contains_key(from) {
                        Borrows {
                            of: borrows.of.insert(to, borrows.of[from]),
                            mutable: if borrows.mutable.contains(from) {
                                borrows.mutable.insert(to)
                            } else {
                                borrows.mutable
                            },
                        }
                    } else {
                        borrows
                    },
                    None => borrows,
                },
                _ => borrows,
            }
        },
        Statement::Other => borrows,
    }
}

/// The borrows after the blocks below `block` and the first `k` statements of
/// `block`.
pub open spec fn borrows_before(body: Body, block: nat, k: nat) -> Borrows
    decreases block, k,
{
    if k > 0 {
        borrows_after(
            borrows_before(body, block, (k - 1) as nat),
            body.basic_blocks@[block as int].statements@[k - 1],
        )
    } else if block > 0 {
        borrows_before(body, (block - 1) as nat, body.basic_blocks@[block - 1].statements@.len())
    } else {
        Borrows { of: Map::empty(), mutable: Set::empty() }
    }
}

/// The borrows of a body.
pub open spec fn borrows_of(body: Body) -> Borrows {
    borrows_before(body, body.basic_blocks@.len(), 0)
}

/// Every borrowed local is below `n`.
pub open spec fn borrows_in(of: Map<usize, Local>, n: nat) -> bool {
    forall|l: usize| #[trigger] of.contains_key(l) ==> of[l] < n
}

/// Maps each reference local to the local it borrows, recording whether the
/// borrow is mutable.
#[verifier::loop_isolation(false)]
fn build_borrow_maps(program: &Program, body: &Body) -> (maps: (DenseMap<Local>, DenseSet))
    requires
        body.wf(*program),
    ensures
        maps.0@ == borrows_of(*body).of,
        maps.1@ == borrows_of(*body).mutable,
        borrows_in(maps.0@, body.local_decls@.len()),
{
    let mut borrow_of: DenseMap<Local> = DenseMap::new();
    let mut mut_borrow = DenseSet::new();
    let ghost n = body.local_decls@.len();
    for block in 0..body.basic_blocks.len()
        invariant
            borrow_of@ == borrows_before(*body, block as nat, 0).of,
            mut_borrow@ == borrows_before(*body, block as nat, 0).mutable,
            borrows_in(borrow_of@, n),
    {
        let data = &body.basic_blocks[block];
        assert(data.wf(*program, n, body.basic_blocks@.len()));
        for k in 0..data.statements.len()
            invariant
                borrow_of@ == borrows_before(*body, block as nat, k as nat).of,
                mut_borrow@ == borrows_before(*body, block as nat, k as nat).mutable,
                borrows_in(borrow_of@, n),
        {
            assert(data.statements@[k as int].wf(*program, n));
            if let Statement::Assign(assign) = &data.statements[k] {
                let to: Local = assign.place.local;
                match &assign.rvalue {
                    Rvalue::Ref(mutable, place) => {
                        borrow_of.insert(to, place.local);
                        if *mutable {
                            mut_borrow.insert(to);
                        }
                    },
                    Rvalue::RawPtr(place) => {
                        borrow_of.insert(to, place.local);
                        mut_borrow.insert(to);
                    },
                    Rvalue::Use(op) => {
                        if let Some(from) = mir_util::operand_local(op) {
                            let base = match borrow_of.get(from) {
                                Some(base) => Some(*base),
                                None => None,
                            };
                            if let Some(base) = base {
                                borrow_of.insert(to, base);
                                if mut_borrow.contains(from) {
                                    mut_borrow.insert(to);
                                }
                            }
                        }
                    },
                    _ => {},
                }
            }
        }
    }
    (borrow_of, mut_borrow)
}

/// The parts of a body the taint propagation needs but that do not depend on
/// the seed, so they can be built once and reused across the seeds of a
/// function and across the rounds of the interprocedural fixpoint.
#[derive(Debug)]
pub struct TaintFacts {
    /// For each reference local, the local it borrows.
    borrow_of: DenseMap<Local>,
    /// The reference locals that are mutable borrows, through which a callee
    /// can write back into the caller.
    mut_borrow: DenseSet,
    /// The storage constant behind each load or write receiver.
    item_def_of: DenseMap<Option<DefId>>,
    /// The storage write each writing block ends in.
    writes: DenseMap<StorageWrite>,
}

/// A storage write: the constant it writes, where that could be resolved, and
/// the blocks control may pass to after it.
#[derive(Debug)]
struct StorageWrite {
    item: Option<DefId>,
    later: DenseSet,
}

/// A call is a `cw-storage-plus` write.
pub open spec fn writes_storage(program: Program, call: Call) -> bool {
    mir_util::callee_of(program, call.func) matches Some(d) && cosmwasm::is_write(program, d)
}

/// A call is a `cw-storage-plus` load.
pub open spec fn loads_storage(program: Program, call: Call) -> bool {
    mir_util::callee_of(program, call.func) matches Some(d) && cosmwasm::is_load(program, d)
}

/// The local behind the first argument of a call.
pub open spec fn receiver_of(call: Call) -> Option<Local> {
    if call.args@.len() > 0 {
        mir_util::local_of(call.args@[0])
    } else {
        None
    }
}

/// The local behind the last argument of a call.
pub open spec fn data_of(call: Call) -> Option<Local> {
    if call.args@.len() > 0 {
        mir_util::local_of(call.args@[call.args@.len() - 1])
    } else {
        None
    }
}

/// A block ends in a storage operation on `receiver`.
pub open spec fn storage_op_at(program: Program, body: Body, block: int, receiver: Local) -> bool {
    0 <= block < body.basic_blocks@.len() && (
    body.basic_blocks@[block].terminator matches Terminator::Call(call) && (writes_storage(
        program,
        call,
    ) || loads_storage(program, call)) && receiver_of(call) == Some(receiver))
}

/// The item behind the receiver of a storage operation.
pub open spec fn item_of(program: Program, body: Body, call: Call) -> Option<DefId> {
    match receiver_of(call) {
        Some(receiver) => storage_inventory::storage_def(program, body, receiver),
        None => None,
    }
}

/// A block ends in a storage write to `item`, or to one that could not be
/// resolved where `item` is `None`.
pub open spec fn writes_item(
    program: Program,
    body: Body,
    block: int,
    item: Option<DefId>,
) -> bool {
    0 <= block < body.basic_blocks@.len() && (
    body.basic_blocks@[block].terminator matches Terminator::Call(call) && writes_storage(
        program,
        call,
    ) && item_of(program, body, call) == item)
}

/// What the block `from` writes to `item` can be there when control is at the
/// end of the block `to`: it passes from the one to the other.
pub open spec fn write_lasts(
    program: Program,
    body: Body,
    from: usize,
    item: Option<DefId>,
    to: int,
) -> bool {
    writes_item(program, body, from as int, item) && mir_util::comes_later(body, from, to as usize)
}

/// `writes` holds the storage writes of the first `count` blocks.
spec fn describe_writes(
    writes: Map<usize, StorageWrite>,
    program: Program,
    body: Body,
    count: nat,
) -> bool {
    &&& forall|b: usize, item: Option<DefId>| #[trigger]
        writes_item(program, body, b as int, item) && b < count ==> writes.contains_key(b)
    &&& forall|b: usize| #[trigger]
        writes.contains_key(b) ==> b < count && writes[b].describes(program, body, b)
}

impl StorageWrite {
    spec fn describes(self, program: Program, body: Body, block: usize) -> bool {
        &&& writes_item(program, body, block as int, self.item)
        &&& forall|b: usize| #[trigger]
            self.later@.contains(b) == mir_util::comes_later(body, block, b)
    }
}

impl TaintFacts {
    /// The facts are those of the body.
    pub closed spec fn describes(self, program: Program, body: Body) -> bool {
        &&& self.borrow_of@ == borrows_of(body).of
        &&& self.mut_borrow@ == borrows_of(body).mutable
        &&& borrows_in(self.borrow_of@, body.local_decls@.len())
        &&& forall|block: int, receiver: Local| #[trigger]
            storage_op_at(program, body, block, receiver)
                ==> self.item_def_of@.contains_key(receiver) && self.item_def_of@[receiver]
                == storage_inventory::storage_def(program, body, receiver)
        &&& describe_writes(self.writes@, program, body, body.basic_blocks@.len())
    }

    #[verifier::loop_isolation(false)]
    pub fn build(
        program: &Program,
        body: &Body,
        const_defs: &ConstDefIndex,
        const_types: &ConstTypeIndex,
    ) -> (facts: Self)
        requires
            program.wf(),
            body.wf(*program),
            const_defs.indexes(*program, *body),
            const_types.indexes(*program),
        ensures
            facts.describes(*program, *body),
    {
        let (borrow_of, mut_borrow) = build_borrow_maps(program, body);
        let mut item_def_of: DenseMap<Option<DefId>> = DenseMap::new();
        let ghost n = body.local_decls@.len();
        for block in 0..body.basic_blocks.len()
            invariant
                forall|b: int, receiver: Local|
                    b < block && #[trigger] storage_op_at(*program, *body, b, receiver)
                        ==> item_def_of@.contains_key(receiver),
                forall|receiver: Local| #[trigger]
                    item_def_of@.contains_key(receiver) ==> item_def_of@[receiver]
                        == storage_inventory::storage_def(*program, *body, receiver),
        {
            let data = &body.basic_blocks[block];
            assert(data.wf(*program, n, body.basic_blocks@.len()));
            if let Terminator::Call(call) = &data.terminator {
                proof {
                    mir_util::lemma_operand_wf(*program, call.func, n);
                }
                let is_storage_op = match mir_util::callee_def_id(program, &call.func) {
                    Some(d) => cosmwasm::is_storage_write_fn(program, d)
                        || cosmwasm::is_storage_load_fn(program, d),
                    None => false,
                };
                if is_storage_op && call.args.len() > 0 {
                    assert(call.args@[0].wf(*program, n));
                    if let Some(receiver) = mir_util::operand_local(&call.args[0]) {
                        if !item_def_of.contains_key(receiver) {
                            let item = resolve_storage_def_id(
                                program,
                                body,
                                receiver,
                                const_defs,
                                const_types,
                            );
                            item_def_of.insert(receiver, item);
                        }
                    }
                }
            }
        }
        let writes = build_writes(program, body, &item_def_of);
        TaintFacts { borrow_of, mut_borrow, item_def_of, writes }
    }

    /// Returns the seed of the tainted data that the first block from which
    /// control passes to `block` wrote to `item`.
    #[verifier::loop_isolation(false)]
    fn stored_taint(
        &self,
        item: Option<DefId>,
        block: usize,
        written: &DenseMap<Local>,
        program: Ghost<Program>,
        body: &Body,
    ) -> (src: Option<Local>)
        requires
            self.describes(program@, *body),
        ensures
            src == stored_source(program@, *body, written@, block as int, item, 0),
    {
        for from in 0..body.basic_blocks.len()
            invariant
                stored_source(program@, *body, written@, block as int, item, 0) == stored_source(
                    program@,
                    *body,
                    written@,
                    block as int,
                    item,
                    from as nat,
                ),
        {
            let lasts = match self.writes.get(from) {
                Some(write) => same_item(write.item, item) && write.later.contains(block),
                None => false,
            };
            proof {
                assert(self.writes@.contains_key(from) || !writes_item(
                    program@,
                    *body,
                    from as int,
                    item,
                ));
                assert(lasts == write_lasts(program@, *body, from, item, block as int));
            }
            if lasts {
                if let Some(src) = written.get(from) {
                    return Some(*src);
                }
            }
        }
        None
    }
}

fn same_item(a: Option<DefId>, b: Option<DefId>) -> (same: bool)
    ensures
        same == (a == b),
{
    match (a, b) {
        (Some(x), Some(y)) => x == y,
        (None, None) => true,
        _ => false,
    }
}

/// Returns the storage constant behind the receiver of a storage operation.
fn item_behind(item_def_of: &DenseMap<Option<DefId>>, call: &Call) -> (item: Option<DefId>)
    ensures
        item == (match receiver_of(*call) {
            Some(receiver) => if item_def_of@.contains_key(receiver) {
                item_def_of@[receiver]
            } else {
                None
            },
            None => None,
        }),
{
    if call.args.len() > 0 {
        if let Some(receiver) = mir_util::operand_local(&call.args[0]) {
            return match item_def_of.get(receiver) {
                Some(item) => *item,
                None => None,
            };
        }
    }
    None
}

/// Collects the storage write each writing block ends in.
#[verifier::loop_isolation(false)]
fn build_writes(
    program: &Program,
    body: &Body,
    item_def_of: &DenseMap<Option<DefId>>,
) -> (writes: DenseMap<StorageWrite>)
    requires
        program.wf(),
        body.wf(*program),
        forall|block: int, receiver: Local| #[trigger]
            storage_op_at(*program, *body, block, receiver) ==> item_def_of@.contains_key(receiver)
                && item_def_of@[receiver] == storage_inventory::storage_def(
                *program,
                *body,
                receiver,
            ),
    ensures
        describe_writes(writes@, *program, *body, body.basic_blocks@.len()),
{
    let mut writes: DenseMap<StorageWrite> = DenseMap::new();
    let ghost n = body.local_decls@.len();
    for block in 0..body.basic_blocks.len()
        invariant
            describe_writes(writes@, *program, *body, block as nat),
    {
        let data = &body.basic_blocks[block];
        assert(data.wf(*program, n, body.basic_blocks@.len()));
        if let Terminator::Call(call) = &data.terminator {
            proof {
                mir_util::lemma_operand_wf(*program, call.func, n);
            }
            let is_write = match mir_util::callee_def_id(program, &call.func) {
                Some(d) => cosmwasm::is_storage_write_fn(program, d),
                None => false,
            };
            if is_write {
                let item = item_behind(item_def_of, call);
                proof {
                    if let Some(receiver) = receiver_of(*call) {
                        assert(storage_op_at(*program, *body, block as int, receiver));
                    }
                }
                let later = mir_util::blocks_after(program, body, block);
                let write = StorageWrite { item, later };
                assert(write.describes(*program, *body, block));
                writes.insert(block, write);
            }
        }
    }
    writes
}

// ---- one body, point by point --------------------------------------------

/// What a propagation runs on besides its seed: the body, the callees its calls
/// resolve to, and the parameters that known functions forward to their return
/// value.
pub ghost struct TaintContext {
    pub program: Program,
    pub body: Body,
    pub callee_at: Map<(usize, usize), DefId>,
    pub flows: Map<usize, Set<usize>>,
}

/// The state of a propagation: for each tainted local the seed its taint came
/// from, and the same for each block that writes tainted data to storage.
#[verifier::ext_equal]
pub ghost struct TaintState {
    pub origin: Map<usize, Local>,
    pub writes: Map<usize, Local>,
}

/// The state after `local` was reached by taint from the seed `src`. What was
/// reached before keeps its seed.
pub open spec fn marked(state: TaintState, local: Local, src: Local) -> TaintState {
    if state.origin.contains_key(local) {
        state
    } else {
        TaintState { origin: state.origin.insert(local, src), ..state }
    }
}

/// The seed of the first tainted local of a list.
pub open spec fn first_origin(origin: Map<usize, Local>, locals: Seq<Local>) -> Option<Local>
    decreases locals.len(),
{
    if locals.len() == 0 {
        None
    } else if origin.contains_key(locals[0]) {
        Some(origin[locals[0]])
    } else {
        first_origin(origin, locals.skip(1))
    }
}

/// The state after a statement: an assignment passes on the taint of the first
/// tainted local it reads.
pub open spec fn after_statement(state: TaintState, statement: Statement) -> TaintState {
    match statement {
        Statement::Assign(assign) => match first_origin(
            state.origin,
            mir_util::rvalue_reads(assign.rvalue),
        ) {
            Some(src) => marked(state, assign.place.local, src),
            None => state,
        },
        Statement::Other => state,
    }
}

/// The seed an argument's taint came from, directly or through the local it
/// borrows.
pub open spec fn argument_source(
    state: TaintState,
    borrows: Borrows,
    argument: Option<Local>,
) -> Option<Local> {
    match argument {
        Some(l) => if state.origin.contains_key(l) {
            Some(state.origin[l])
        } else if borrows.of.contains_key(l) && state.origin.contains_key(borrows.of[l]) {
            Some(state.origin[borrows.of[l]])
        } else {
            None
        },
        None => None,
    }
}

/// An argument position forwards its taint to the return value: every position
/// does where nothing is known of the callee.
pub open spec fn forwards_position(flow: Option<Set<usize>>, i: int) -> bool {
    match flow {
        Some(positions) => positions.contains(i as usize),
        None => true,
    }
}

/// The seed of the first tainted argument from position `i` on that forwards its
/// taint.
pub open spec fn forwarded_source(
    state: TaintState,
    borrows: Borrows,
    args: Seq<Option<Local>>,
    flow: Option<Set<usize>>,
    i: int,
) -> Option<Local>
    decreases args.len() - i,
{
    if i < 0 || i >= args.len() {
        None
    } else if forwards_position(flow, i) && argument_source(state, borrows, args[i]) is Some {
        argument_source(state, borrows, args[i])
    } else {
        forwarded_source(state, borrows, args, flow, i + 1)
    }
}

/// The state after the callee wrote tainted data back through the mutable
/// borrows among the first `count` arguments.
pub open spec fn written_back(
    state: TaintState,
    borrows: Borrows,
    args: Seq<Option<Local>>,
    src: Local,
    count: nat,
) -> TaintState
    decreases count,
{
    if count == 0 {
        state
    } else {
        let before = written_back(state, borrows, args, src, (count - 1) as nat);
        match args[count - 1] {
            Some(l) => if borrows.mutable.contains(l) && borrows.of.contains_key(l) {
                marked(before, borrows.of[l], src)
            } else {
                before
            },
            None => before,
        }
    }
}

/// The parameters the callee of a block's call forwards, where they are known.
pub open spec fn flow_at(context: TaintContext, block: int) -> Option<Set<usize>> {
    let location = call_graph::terminator_location(context.body, block).pair();
    if context.callee_at.contains_key(location) && context.flows.contains_key(
        context.callee_at[location],
    ) {
        Some(context.flows[context.callee_at[location]])
    } else {
        None
    }
}

/// The state after a storage write: it persists its *data* argument, the last
/// one, into the item named by argument 0. The storage handle itself stays
/// clean.
pub open spec fn after_write(state: TaintState, block: int, call: Call) -> TaintState {
    match data_of(call) {
        Some(l) => if state.origin.contains_key(l) && !state.writes.contains_key(block as usize) {
            TaintState {
                writes: state.writes.insert(block as usize, state.origin[l]),
                ..state
            }
        } else {
            state
        },
        None => state,
    }
}

/// The seed of the data that the first tainted write to `item`, among the blocks
/// from `from` on, leaves behind for `block`. Only a write that control passes
/// from to `block` does.
pub open spec fn stored_source(
    program: Program,
    body: Body,
    writes: Map<usize, Local>,
    block: int,
    item: Option<DefId>,
    from: nat,
) -> Option<Local>
    decreases body.basic_blocks@.len() - from,
{
    if from >= body.basic_blocks@.len() {
        None
    } else if writes.contains_key(from as usize) && write_lasts(
        program,
        body,
        from as usize,
        item,
        block,
    ) {
        Some(writes[from as usize])
    } else {
        stored_source(program, body, writes, block, item, from + 1)
    }
}

/// The seed of the data that a storage load reads: what an earlier write to the
/// item left behind, or else an earlier write to an unresolved one.
pub open spec fn load_source(
    context: TaintContext,
    state: TaintState,
    block: int,
    call: Call,
) -> Option<Local> {
    let item = item_of(context.program, context.body, call);
    match stored_source(context.program, context.body, state.writes, block, item, 0) {
        Some(src) => Some(src),
        None => stored_source(context.program, context.body, state.writes, block, None, 0),
    }
}

/// The state after a call that is no storage operation.
pub open spec fn after_call(
    context: TaintContext,
    state: TaintState,
    call: Call,
    flow: Option<Set<usize>>,
) -> TaintState {
    let borrows = borrows_of(context.body);
    let args = mir_util::operand_locals_of(call.args@);
    let returned = match forwarded_source(state, borrows, args, flow, 0) {
        Some(src) => marked(state, call.destination.local, src),
        None => state,
    };
    match forwarded_source(state, borrows, args, None, 0) {
        Some(src) => written_back(returned, borrows, args, src, args.len()),
        None => returned,
    }
}

/// The state after the terminator of a block.
pub open spec fn after_terminator(
    context: TaintContext,
    state: TaintState,
    block: int,
) -> TaintState {
    match context.body.basic_blocks@[block].terminator {
        Terminator::Call(call) => if writes_storage(context.program, call) {
            after_write(state, block, call)
        } else if loads_storage(context.program, call) {
            match load_source(context, state, block, call) {
                Some(src) => marked(state, call.destination.local, src),
                None => state,
            }
        } else {
            after_call(context, state, call, flow_at(context, block))
        },
        _ => state,
    }
}

/// The state after point `k` of a block, its terminator being the last one.
pub open spec fn after_point(
    context: TaintContext,
    state: TaintState,
    block: int,
    k: int,
) -> TaintState {
    let data = context.body.basic_blocks@[block];
    if k < data.statements@.len() {
        after_statement(state, data.statements@[k])
    } else {
        after_terminator(context, state, block)
    }
}

/// The state after the blocks below `block` and the first `k` points of `block`.
pub open spec fn after_points(
    context: TaintContext,
    state: TaintState,
    block: nat,
    k: nat,
) -> TaintState
    decreases block, k,
{
    if k > 0 {
        after_point(
            context,
            after_points(context, state, block, (k - 1) as nat),
            block as int,
            k - 1,
        )
    } else if block > 0 {
        after_points(
            context,
            state,
            (block - 1) as nat,
            context.body.basic_blocks@[block - 1].statements@.len() + 1,
        )
    } else {
        state
    }
}

/// The state after a pass over the whole body.
pub open spec fn after_pass(context: TaintContext, state: TaintState) -> TaintState {
    after_points(context, state, context.body.basic_blocks@.len(), 0)
}

/// The state a propagation starts from: every seed is its own origin.
pub open spec fn seed_state(seed: Set<usize>) -> TaintState {
    TaintState {
        origin: Map::new(|l: usize| seed.contains(l), |l: usize| l),
        writes: Map::empty(),
    }
}

/// The state after a number of passes.
pub open spec fn after_passes(context: TaintContext, seed: Set<usize>, passes: nat) -> TaintState
    decreases passes,
{
    if passes == 0 {
        seed_state(seed)
    } else {
        after_pass(context, after_passes(context, seed, (passes - 1) as nat))
    }
}

/// A further pass changes nothing.
pub open spec fn settled_after(context: TaintContext, seed: Set<usize>, passes: nat) -> bool {
    after_passes(context, seed, passes + 1) == after_passes(context, seed, passes)
}

/// The state in which the propagation settles.
pub open spec fn settled(context: TaintContext, seed: Set<usize>) -> TaintState {
    after_passes(context, seed, choose|passes: nat| #[trigger] settled_after(context, seed, passes))
}

// ---- growth and settling -------------------------------------------------

/// The program and the body are valid.
pub open spec fn context_wf(context: TaintContext) -> bool {
    context.program.wf() && context.body.wf(context.program)
}

/// `after` has everything `before` has, with the same seeds, and beyond that
/// only locals and blocks that exist.
spec fn extends(context: TaintContext, before: TaintState, after: TaintState) -> bool {
    &&& forall|l: usize| #[trigger]
        before.origin.contains_key(l) ==> after.origin.contains_key(l) && after.origin[l]
            == before.origin[l]
    &&& forall|l: usize| #[trigger]
        after.origin.contains_key(l) && !before.origin.contains_key(l) ==> l
            < context.body.local_decls@.len()
    &&& forall|d: usize| #[trigger]
        before.writes.contains_key(d) ==> after.writes.contains_key(d) && after.writes[d]
            == before.writes[d]
    &&& forall|d: usize| #[trigger]
        after.writes.contains_key(d) && !before.writes.contains_key(d) ==> d
            < context.body.basic_blocks@.len()
}

proof fn lemma_extends_both(context: TaintContext, a: TaintState, b: TaintState)
    requires
        extends(context, a, b),
        extends(context, b, a),
    ensures
        a == b,
{
    assert(a.origin =~= b.origin);
    assert(a.writes =~= b.writes);
}

/// How much a state still lacks.
spec fn lacking(context: TaintContext, state: TaintState) -> nat {
    graph::missing(state.origin.dom(), context.body.local_decls@.len()) + graph::missing(
        state.writes.dom(),
        context.body.basic_blocks@.len(),
    )
}

proof fn lemma_extends_lacking(context: TaintContext, before: TaintState, after: TaintState)
    requires
        extends(context, before, after),
    ensures
        lacking(context, after) <= lacking(context, before),
        before != after ==> lacking(context, after) < lacking(context, before),
{
    let locals = context.body.local_decls@.len();
    let blocks = context.body.basic_blocks@.len();
    assert(context.body.local_decls.len() == locals);
    assert(context.body.basic_blocks.len() == blocks);
    graph::lemma_missing_monotone(before.origin.dom(), after.origin.dom(), locals);
    graph::lemma_missing_monotone(before.writes.dom(), after.writes.dom(), blocks);
    if before != after {
        if exists|l: usize| #[trigger]
            after.origin.contains_key(l) && !before.origin.contains_key(l) {
            let l = choose|l: usize| #[trigger]
                after.origin.contains_key(l) && !before.origin.contains_key(l);
            graph::lemma_missing_grows(before.origin.dom(), after.origin.dom(), locals, l);
        } else if exists|d: usize| #[trigger]
            after.writes.contains_key(d) && !before.writes.contains_key(d) {
            let d = choose|d: usize| #[trigger]
                after.writes.contains_key(d) && !before.writes.contains_key(d);
            graph::lemma_missing_grows(before.writes.dom(), after.writes.dom(), blocks, d);
        } else {
            assert(before.origin =~= after.origin);
            assert(before.writes =~= after.writes);
        }
    }
}

proof fn lemma_borrows_exist(program: Program, body: Body, block: nat, k: nat)
    requires
        body.wf(program),
        block <= body.basic_blocks@.len(),
        k > 0 ==> block < body.basic_blocks@.len() && k
            <= body.basic_blocks@[block as int].statements@.len(),
    ensures
        borrows_in(borrows_before(body, block, k).of, body.local_decls@.len()),
    decreases block, k,
{
    if k > 0 {
        lemma_borrows_exist(program, body, block, (k - 1) as nat);
        let data = body.basic_blocks@[block as int];
        assert(data.wf(program, body.local_decls@.len(), body.basic_blocks@.len()));
        assert(data.statements@[k - 1].wf(program, body.local_decls@.len()));
    } else if block > 0 {
        lemma_borrows_exist(
            program,
            body,
            (block - 1) as nat,
            body.basic_blocks@[block - 1].statements@.len(),
        );
    }
}

proof fn lemma_written_back_extends(
    context: TaintContext,
    state: TaintState,
    args: Seq<Option<Local>>,
    src: Local,
    count: nat,
)
    requires
        borrows_in(borrows_of(context.body).of, context.body.local_decls@.len()),
    ensures
        extends(
            context,
            state,
            written_back(state, borrows_of(context.body), args, src, count),
        ),
    decreases count,
{
    if count > 0 {
        lemma_written_back_extends(context, state, args, src, (count - 1) as nat);
    }
}

proof fn lemma_point_extends(context: TaintContext, state: TaintState, block: int, k: int)
    requires
        context_wf(context),
        0 <= block < context.body.basic_blocks@.len(),
        0 <= k <= context.body.basic_blocks@[block].statements@.len(),
    ensures
        extends(context, state, after_point(context, state, block, k)),
{
    let body = context.body;
    let n = body.local_decls@.len();
    let data = body.basic_blocks@[block];
    assert(data.wf(context.program, n, body.basic_blocks@.len()));
    if k < data.statements@.len() {
        assert(data.statements@[k].wf(context.program, n));
    } else if let Terminator::Call(call) = data.terminator {
        lemma_borrows_exist(context.program, body, body.basic_blocks@.len(), 0);
        assert(body.basic_blocks.len() == body.basic_blocks@.len());
        let borrows = borrows_of(body);
        let args = mir_util::operand_locals_of(call.args@);
        let flow = flow_at(context, block);
        let returned = match forwarded_source(state, borrows, args, flow, 0) {
            Some(src) => marked(state, call.destination.local, src),
            None => state,
        };
        assert(call.destination.local < n);
        assert(extends(context, state, returned));
        if let Some(src) = forwarded_source(state, borrows, args, None, 0) {
            lemma_written_back_extends(context, returned, args, src, args.len());
        }
        if writes_storage(context.program, call) {
            assert(extends(context, state, after_write(state, block, call)));
        } else if !loads_storage(context.program, call) {
            assert(extends(context, state, after_call(context, state, call, flow)));
        }
    }
}

proof fn lemma_points_extend(context: TaintContext, state: TaintState, block: nat, k: nat)
    requires
        context_wf(context),
        block <= context.body.basic_blocks@.len(),
        k > 0 ==> block < context.body.basic_blocks@.len() && k
            <= context.body.basic_blocks@[block as int].statements@.len() + 1,
    ensures
        extends(context, state, after_points(context, state, block, k)),
    decreases block, k,
{
    if k > 0 {
        lemma_points_extend(context, state, block, (k - 1) as nat);
        lemma_point_extends(
            context,
            after_points(context, state, block, (k - 1) as nat),
            block as int,
            k - 1,
        );
    } else if block > 0 {
        lemma_points_extend(
            context,
            state,
            (block - 1) as nat,
            context.body.basic_blocks@[block - 1].statements@.len() + 1,
        );
    }
}

proof fn lemma_points_to_end(context: TaintContext, state: TaintState, block: nat, k: nat)
    requires
        context_wf(context),
        block < context.body.basic_blocks@.len(),
        k <= context.body.basic_blocks@[block as int].statements@.len() + 1,
    ensures
        extends(
            context,
            after_points(context, state, block, k),
            after_pass(context, state),
        ),
    decreases
            context.body.basic_blocks@.len() - block,
            context.body.basic_blocks@[block as int].statements@.len() + 1 - k,
{
    let last = context.body.basic_blocks@[block as int].statements@.len() + 1;
    if k < last {
        lemma_points_to_end(context, state, block, k + 1);
        lemma_point_extends(
            context,
            after_points(context, state, block, k),
            block as int,
            k as int,
        );
    } else if block + 1 < context.body.basic_blocks@.len() {
        lemma_points_to_end(context, state, block + 1, 0);
    }
}

/// Where a pass changes nothing, no point of it does.
proof fn lemma_pass_identity(context: TaintContext, state: TaintState, block: int, k: int)
    requires
        context_wf(context),
        after_pass(context, state) == state,
        0 <= block < context.body.basic_blocks@.len(),
        0 <= k <= context.body.basic_blocks@[block].statements@.len(),
    ensures
        after_point(context, state, block, k) == state,
{
    lemma_points_extend(context, state, block as nat, k as nat);
    lemma_points_to_end(context, state, block as nat, k as nat);
    lemma_extends_both(context, state, after_points(context, state, block as nat, k as nat));
    lemma_points_extend(context, state, block as nat, (k + 1) as nat);
    lemma_points_to_end(context, state, block as nat, (k + 1) as nat);
    lemma_extends_both(context, state, after_points(context, state, block as nat, (k + 1) as nat));
}

/// Once settled, the state stays as it is.
proof fn lemma_settled_stays(context: TaintContext, seed: Set<usize>, passes: nat, more: nat)
    requires
        settled_after(context, seed, passes),
        passes <= more,
    ensures
        after_passes(context, seed, more) == after_passes(context, seed, passes),
    decreases more,
{
    if passes < more {
        lemma_settled_stays(context, seed, passes, (more - 1) as nat);
    }
}

/// The propagation settles.
proof fn lemma_settles(context: TaintContext, seed: Set<usize>, passes: nat)
    requires
        context_wf(context),
    ensures
        exists|p: nat| #[trigger] settled_after(context, seed, p),
    decreases lacking(context, after_passes(context, seed, passes)),
{
    let state = after_passes(context, seed, passes);
    if !settled_after(context, seed, passes) {
        lemma_points_extend(context, state, context.body.basic_blocks@.len(), 0);
        lemma_extends_lacking(context, state, after_pass(context, state));
        lemma_settles(context, seed, passes + 1);
    }
}

/// The settled state is the one after any number of passes that suffices.
proof fn lemma_settled_is(context: TaintContext, seed: Set<usize>, passes: nat)
    requires
        settled_after(context, seed, passes),
    ensures
        settled(context, seed) == after_passes(context, seed, passes),
{
    let chosen = choose|p: nat| #[trigger] settled_after(context, seed, p);
    if chosen <= passes {
        lemma_settled_stays(context, seed, chosen, passes);
    } else {
        lemma_settled_stays(context, seed, passes, chosen);
    }
}

// ---- what taint reaches --------------------------------------------------

/// What taint can reach: a local, or what a block writes to storage.
pub ghost enum TaintNode {
    Local(usize),
    Written(usize),
}

/// A load of `item` at the end of `block` reads what a node wrote: to the same
/// item or to one that could not be resolved, and earlier.
pub open spec fn feeds_load(
    program: Program,
    body: Body,
    item: Option<DefId>,
    block: int,
    from: TaintNode,
) -> bool {
    from matches TaintNode::Written(w) && (write_lasts(program, body, w, item, block)
        || write_lasts(program, body, w, None, block))
}

/// An argument has its taint from a local: from itself or from what it borrows.
pub open spec fn feeds_argument(
    borrows: Borrows,
    argument: Option<Local>,
    from: TaintNode,
) -> bool {
    argument matches Some(l) && (from == TaintNode::Local(l) || (borrows.of.contains_key(l) && from
        == TaintNode::Local(borrows.of[l])))
}

/// A callee may write back into a local through an argument.
pub open spec fn writes_back(borrows: Borrows, argument: Option<Local>, to: TaintNode) -> bool {
    argument matches Some(l) && borrows.mutable.contains(l) && borrows.of.contains_key(l) && to
        == TaintNode::Local(borrows.of[l])
}

/// A call carries taint from an argument to its destination or back into a
/// borrowed local.
pub open spec fn carried_by_call(
    borrows: Borrows,
    call: Call,
    flow: Option<Set<usize>>,
    from: TaintNode,
    to: TaintNode,
) -> bool {
    let args = mir_util::operand_locals_of(call.args@);
    exists|i: int|
        0 <= i < args.len() && feeds_argument(borrows, #[trigger] args[i], from) && ((
        forwards_position(flow, i) && to == TaintNode::Local(call.destination.local)) || exists|
            j: int,
        |
            0 <= j < args.len() && writes_back(borrows, #[trigger] args[j], to))
}

/// Point `k` of a block, its terminator being the last one, carries taint.
pub open spec fn carried_at(
    context: TaintContext,
    block: int,
    k: int,
    from: TaintNode,
    to: TaintNode,
) -> bool {
    let data = context.body.basic_blocks@[block];
    0 <= block < context.body.basic_blocks@.len() && if 0 <= k < data.statements@.len() {
        data.statements@[k] matches Statement::Assign(assign) && to == TaintNode::Local(
            assign.place.local,
        ) && (from matches TaintNode::Local(l) && mir_util::rvalue_reads(
            assign.rvalue,
        ).contains(l))
    } else {
        k == data.statements@.len() && match data.terminator {
            Terminator::Call(call) => if writes_storage(context.program, call) {
                (data_of(call) matches Some(l) && from == TaintNode::Local(l)) && to
                    == TaintNode::Written(block as usize)
            } else if loads_storage(context.program, call) {
                to == TaintNode::Local(call.destination.local) && feeds_load(
                    context.program,
                    context.body,
                    item_of(context.program, context.body, call),
                    block,
                    from,
                )
            } else {
                carried_by_call(
                    borrows_of(context.body),
                    call,
                    flow_at(context, block),
                    from,
                    to,
                )
            },
            _ => false,
        }
    }
}

/// Taint is carried from one node to the other somewhere in the body.
pub open spec fn taint_edge(context: TaintContext) -> spec_fn(TaintNode, TaintNode) -> bool {
    |from: TaintNode, to: TaintNode|
        exists|block: int, k: int| #[trigger] carried_at(context, block, k, from, to)
}

/// A value read from storage is tainted only by a write to the item it is read
/// from, or to one that could not be resolved, that control passes from to the
/// load; never by the storage handle or another argument of the load.
pub proof fn lemma_load_is_tainted_by_its_item(
    context: TaintContext,
    block: int,
    call: Call,
    k: int,
    from: TaintNode,
    to: TaintNode,
)
    requires
        context.body.basic_blocks@[block].terminator == Terminator::Call(call),
        loads_storage(context.program, call),
        k >= context.body.basic_blocks@[block].statements@.len(),
        carried_at(context, block, k, from, to),
    ensures
        to == TaintNode::Local(call.destination.local),
        from matches TaintNode::Written(w) && mir_util::comes_later(
            context.body,
            w,
            block as usize,
        ) && exists|item: Option<DefId>| #[trigger]
            writes_item(context.program, context.body, w as int, item) && (item is None || item
                == item_of(context.program, context.body, call)),
{
    cosmwasm::lemma_storage_roles_disjoint(
        context.program,
        mir_util::callee_of(context.program, call.func)->0,
    );
}

/// A load that control cannot pass to from a write is not tainted by the write,
/// whatever item either of them names.
pub proof fn lemma_load_before_write_is_clean(
    context: TaintContext,
    write: usize,
    block: int,
    call: Call,
    to: TaintNode,
)
    requires
        0 <= block < context.body.basic_blocks@.len(),
        context.body.basic_blocks@[block].terminator == Terminator::Call(call),
        loads_storage(context.program, call),
        !mir_util::comes_later(context.body, write, block as usize),
    ensures
        !exists|k: int| #[trigger] carried_at(context, block, k, TaintNode::Written(write), to),
{
    cosmwasm::lemma_storage_roles_disjoint(
        context.program,
        mir_util::callee_of(context.program, call.func)->0,
    );
}

/// A storage write carries taint from its data into what it writes and nowhere
/// else, so the storage handle stays clean.
pub proof fn lemma_write_taints_its_item_only(
    context: TaintContext,
    block: int,
    call: Call,
    k: int,
    from: TaintNode,
    to: TaintNode,
)
    requires
        context.body.basic_blocks@[block].terminator == Terminator::Call(call),
        writes_storage(context.program, call),
        k >= context.body.basic_blocks@[block].statements@.len(),
        carried_at(context, block, k, from, to),
    ensures
        data_of(call) matches Some(data) && from == TaintNode::Local(data),
        to == TaintNode::Written(block as usize),
        writes_item(
            context.program,
            context.body,
            block,
            item_of(context.program, context.body, call),
        ),
{
}

/// The seeds as nodes.
pub open spec fn seed_nodes(seed: Set<usize>) -> Set<TaintNode> {
    Set::new(|n: TaintNode| n matches TaintNode::Local(l) && seed.contains(l))
}

/// The locals that taint reaches from the seeds.
pub open spec fn tainted_locals(context: TaintContext, seed: Set<usize>) -> Set<usize> {
    Set::new(
        |l: usize| graph::reaches(taint_edge(context), seed_nodes(seed), TaintNode::Local(l)),
    )
}

/// `src` is a seed that taint reaches `node` from.
pub open spec fn comes_from(
    context: TaintContext,
    seed: Set<usize>,
    src: Local,
    node: TaintNode,
) -> bool {
    seed.contains(src) && graph::reaches(
        taint_edge(context),
        set![TaintNode::Local(src)],
        node,
    )
}

/// Every seed a state names is one that taint comes from.
spec fn sound(context: TaintContext, seed: Set<usize>, state: TaintState) -> bool {
    &&& forall|l: usize| #[trigger]
        state.origin.contains_key(l) ==> comes_from(
            context,
            seed,
            state.origin[l],
            TaintNode::Local(l),
        )
    &&& forall|w: usize| #[trigger]
        state.writes.contains_key(w) ==> comes_from(
            context,
            seed,
            state.writes[w],
            TaintNode::Written(w),
        )
}

/// The seed a load takes over is that of a tainted write it reads, and there is
/// one wherever it reads a tainted write.
proof fn lemma_stored_source(
    program: Program,
    body: Body,
    writes: Map<usize, Local>,
    block: int,
    item: Option<DefId>,
    from: nat,
)
    requires
        body.basic_blocks@.len() <= usize::MAX,
    ensures
        stored_source(program, body, writes, block, item, from) matches Some(src) ==> exists|
            w: usize,
        | #[trigger]
            writes.contains_key(w) && writes[w] == src && write_lasts(
                program,
                body,
                w,
                item,
                block,
            ),
        forall|w: usize| #[trigger]
            writes.contains_key(w) && from <= w && write_lasts(program, body, w, item, block)
                ==> stored_source(program, body, writes, block, item, from) is Some,
    decreases body.basic_blocks@.len() - from,
{
    if from < body.basic_blocks@.len() {
        lemma_stored_source(program, body, writes, block, item, from + 1);
        if writes.contains_key(from as usize) && write_lasts(
            program,
            body,
            from as usize,
            item,
            block,
        ) {
            assert(writes.contains_key(from as usize));
        }
    }
}

proof fn lemma_carried(
    context: TaintContext,
    seed: Set<usize>,
    src: Local,
    block: int,
    k: int,
    from: TaintNode,
    to: TaintNode,
)
    requires
        comes_from(context, seed, src, from),
        carried_at(context, block, k, from, to),
    ensures
        comes_from(context, seed, src, to),
{
    assert(taint_edge(context)(from, to));
    graph::lemma_reaches_step(taint_edge(context), set![TaintNode::Local(src)], from, to);
}

proof fn lemma_first_origin(origin: Map<usize, Local>, locals: Seq<Local>)
    ensures
        first_origin(origin, locals) matches Some(src) ==> exists|l: Local| #[trigger]
            locals.contains(l) && origin.contains_key(l) && origin[l] == src,
        forall|l: Local| #[trigger]
            locals.contains(l) && origin.contains_key(l) ==> first_origin(origin, locals) is Some,
    decreases locals.len(),
{
    if locals.len() > 0 {
        let rest = locals.skip(1);
        lemma_first_origin(origin, rest);
        assert(locals.contains(locals[0]));
        assert forall|l: Local| #[trigger] rest.contains(l) implies locals.contains(l) by {
            let k = choose|k: int| 0 <= k < rest.len() && rest[k] == l;
            assert(locals[k + 1] == l);
        }
        assert forall|l: Local| #[trigger] locals.contains(l) implies l == locals[0]
            || rest.contains(l) by {
            let k = choose|k: int| 0 <= k < locals.len() && locals[k] == l;
            if k > 0 {
                assert(rest[k - 1] == l);
            }
        }
        if !origin.contains_key(locals[0]) {
            if let Some(src) = first_origin(origin, rest) {
                let l = choose|l: Local| #[trigger]
                    rest.contains(l) && origin.contains_key(l) && origin[l] == src;
                assert(locals.contains(l));
            }
        }
    }
}

proof fn lemma_forwarded_source(
    state: TaintState,
    borrows: Borrows,
    args: Seq<Option<Local>>,
    flow: Option<Set<usize>>,
    i: int,
)
    requires
        0 <= i,
    ensures
        forwarded_source(state, borrows, args, flow, i) matches Some(src) ==> exists|j: int|
            i <= j < args.len() && forwards_position(flow, j) && argument_source(
                state,
                borrows,
                #[trigger] args[j],
            ) == Some(src),
        forall|j: int|
            i <= j < args.len() && forwards_position(flow, j) && argument_source(
                state,
                borrows,
                #[trigger] args[j],
            ) is Some ==> forwarded_source(state, borrows, args, flow, i) is Some,
    decreases args.len() - i,
{
    if i < args.len() {
        lemma_forwarded_source(state, borrows, args, flow, i + 1);
        if forwards_position(flow, i) && argument_source(state, borrows, args[i]) is Some {
        } else if let Some(src) = forwarded_source(state, borrows, args, flow, i + 1) {
            let j = choose|j: int|
                i + 1 <= j < args.len() && forwards_position(flow, j) && argument_source(
                    state,
                    borrows,
                    #[trigger] args[j],
                ) == Some(src);
            assert(args[j] == args[j]);
        }
    }
}

/// A tainted argument is fed by a tainted local with the same seed.
proof fn lemma_argument_fed(
    context: TaintContext,
    seed: Set<usize>,
    state: TaintState,
    argument: Option<Local>,
) -> (from: TaintNode)
    requires
        sound(context, seed, state),
        argument_source(state, borrows_of(context.body), argument) is Some,
    ensures
        feeds_argument(borrows_of(context.body), argument, from),
        comes_from(
            context,
            seed,
            argument_source(state, borrows_of(context.body), argument)->0,
            from,
        ),
{
    let borrows = borrows_of(context.body);
    let l = argument->0;
    if state.origin.contains_key(l) {
        TaintNode::Local(l)
    } else {
        assert(state.origin.contains_key(borrows.of[l]));
        TaintNode::Local(borrows.of[l])
    }
}

proof fn lemma_written_back_sound(
    context: TaintContext,
    seed: Set<usize>,
    state: TaintState,
    block: int,
    call: Call,
    i: int,
    from: TaintNode,
    src: Local,
    count: nat,
)
    requires
        sound(context, seed, state),
        0 <= block < context.body.basic_blocks@.len(),
        context.body.basic_blocks@[block].terminator == Terminator::Call(call),
        !writes_storage(context.program, call),
        !loads_storage(context.program, call),
        0 <= i < mir_util::operand_locals_of(call.args@).len(),
        feeds_argument(
            borrows_of(context.body),
            mir_util::operand_locals_of(call.args@)[i],
            from,
        ),
        comes_from(context, seed, src, from),
        count <= mir_util::operand_locals_of(call.args@).len(),
    ensures
        sound(
            context,
            seed,
            written_back(
                state,
                borrows_of(context.body),
                mir_util::operand_locals_of(call.args@),
                src,
                count,
            ),
        ),
    decreases count,
{
    if count > 0 {
        let borrows = borrows_of(context.body);
        let args = mir_util::operand_locals_of(call.args@);
        lemma_written_back_sound(
            context,
            seed,
            state,
            block,
            call,
            i,
            from,
            src,
            (count - 1) as nat,
        );
        if let Some(l) = args[count - 1] {
            if borrows.mutable.contains(l) && borrows.of.contains_key(l) {
                let to = TaintNode::Local(borrows.of[l]);
                let k = context.body.basic_blocks@[block].statements@.len() as int;
                assert(writes_back(borrows, args[count - 1], to));
                assert(feeds_argument(borrows, args[i], from));
                assert(carried_by_call(borrows, call, flow_at(context, block), from, to));
                assert(carried_at(context, block, k, from, to));
                lemma_carried(context, seed, src, block, k, from, to);
            }
        }
    }
}

proof fn lemma_point_sound(
    context: TaintContext,
    seed: Set<usize>,
    state: TaintState,
    block: int,
    k: int,
)
    requires
        sound(context, seed, state),
        0 <= block < context.body.basic_blocks@.len(),
        0 <= k <= context.body.basic_blocks@[block].statements@.len(),
    ensures
        sound(context, seed, after_point(context, state, block, k)),
{
    let data = context.body.basic_blocks@[block];
    if k < data.statements@.len() {
        if let Statement::Assign(assign) = data.statements@[k] {
            let reads = mir_util::rvalue_reads(assign.rvalue);
            lemma_first_origin(state.origin, reads);
            if let Some(src) = first_origin(state.origin, reads) {
                let l = choose|l: Local| #[trigger]
                    reads.contains(l) && state.origin.contains_key(l) && state.origin[l] == src;
                let to = TaintNode::Local(assign.place.local);
                assert(carried_at(context, block, k, TaintNode::Local(l), to));
                lemma_carried(context, seed, src, block, k, TaintNode::Local(l), to);
            }
        }
    } else if let Terminator::Call(call) = data.terminator {
        if writes_storage(context.program, call) {
            if let Some(l) = data_of(call) {
                if state.origin.contains_key(l) {
                    let to = TaintNode::Written(block as usize);
                    assert(carried_at(context, block, k, TaintNode::Local(l), to));
                    lemma_carried(
                        context,
                        seed,
                        state.origin[l],
                        block,
                        k,
                        TaintNode::Local(l),
                        to,
                    );
                }
            }
        } else if loads_storage(context.program, call) {
            if let Some(src) = load_source(context, state, block, call) {
                let (program, body) = (context.program, context.body);
                let item = item_of(program, body, call);
                let to = TaintNode::Local(call.destination.local);
                assert(body.basic_blocks.len() == body.basic_blocks@.len());
                lemma_stored_source(program, body, state.writes, block, item, 0);
                lemma_stored_source(program, body, state.writes, block, None, 0);
                let w = choose|w: usize| #[trigger]
                    state.writes.contains_key(w) && state.writes[w] == src && (write_lasts(
                        program,
                        body,
                        w,
                        item,
                        block,
                    ) || write_lasts(program, body, w, None, block));
                let from = TaintNode::Written(w);
                assert(carried_at(context, block, k, from, to));
                lemma_carried(context, seed, src, block, k, from, to);
            }
        } else {
            let borrows = borrows_of(context.body);
            let args = mir_util::operand_locals_of(call.args@);
            let flow = flow_at(context, block);
            let returned = match forwarded_source(state, borrows, args, flow, 0) {
                Some(src) => marked(state, call.destination.local, src),
                None => state,
            };
            lemma_forwarded_source(state, borrows, args, flow, 0);
            lemma_forwarded_source(state, borrows, args, None, 0);
            if let Some(src) = forwarded_source(state, borrows, args, flow, 0) {
                let i = choose|i: int|
                    0 <= i < args.len() && forwards_position(flow, i) && argument_source(
                        state,
                        borrows,
                        #[trigger] args[i],
                    ) == Some(src);
                let from = lemma_argument_fed(context, seed, state, args[i]);
                let to = TaintNode::Local(call.destination.local);
                assert(carried_by_call(borrows, call, flow, from, to));
                assert(carried_at(context, block, k, from, to));
                lemma_carried(context, seed, src, block, k, from, to);
            }
            assert(sound(context, seed, returned));
            if let Some(src) = forwarded_source(state, borrows, args, None, 0) {
                let i = choose|i: int|
                    0 <= i < args.len() && forwards_position(None, i) && argument_source(
                        state,
                        borrows,
                        #[trigger] args[i],
                    ) == Some(src);
                let from = lemma_argument_fed(context, seed, state, args[i]);
                lemma_written_back_sound(
                    context,
                    seed,
                    returned,
                    block,
                    call,
                    i,
                    from,
                    src,
                    args.len(),
                );
            }
        }
    }
}

proof fn lemma_points_sound(
    context: TaintContext,
    seed: Set<usize>,
    state: TaintState,
    block: nat,
    k: nat,
)
    requires
        sound(context, seed, state),
        block <= context.body.basic_blocks@.len(),
        k > 0 ==> block < context.body.basic_blocks@.len() && k
            <= context.body.basic_blocks@[block as int].statements@.len() + 1,
    ensures
        sound(context, seed, after_points(context, state, block, k)),
    decreases block, k,
{
    if k > 0 {
        lemma_points_sound(context, seed, state, block, (k - 1) as nat);
        lemma_point_sound(
            context,
            seed,
            after_points(context, state, block, (k - 1) as nat),
            block as int,
            k - 1,
        );
    } else if block > 0 {
        lemma_points_sound(
            context,
            seed,
            state,
            (block - 1) as nat,
            context.body.basic_blocks@[block - 1].statements@.len() + 1,
        );
    }
}

proof fn lemma_passes_sound(context: TaintContext, seed: Set<usize>, passes: nat)
    ensures
        sound(context, seed, after_passes(context, seed, passes)),
    decreases passes,
{
    if passes == 0 {
        assert forall|l: usize| #[trigger] seed_state(seed).origin.contains_key(l) implies comes_from(
            context,
            seed,
            seed_state(seed).origin[l],
            TaintNode::Local(l),
        ) by {
            graph::lemma_reaches_start(
                taint_edge(context),
                set![TaintNode::Local(l)],
                TaintNode::Local(l),
            );
        }
    } else {
        lemma_passes_sound(context, seed, (passes - 1) as nat);
        lemma_points_sound(
            context,
            seed,
            after_passes(context, seed, (passes - 1) as nat),
            context.body.basic_blocks@.len(),
            0,
        );
    }
}

/// What a state says is tainted.
spec fn nodes_of(state: TaintState) -> Set<TaintNode> {
    Set::new(
        |n: TaintNode|
            match n {
                TaintNode::Local(l) => state.origin.contains_key(l),
                TaintNode::Written(w) => state.writes.contains_key(w),
            },
    )
}

proof fn lemma_written_back_marks(
    state: TaintState,
    borrows: Borrows,
    args: Seq<Option<Local>>,
    src: Local,
    count: nat,
    j: int,
    to: Local,
)
    requires
        count <= args.len(),
        0 <= j < count,
        writes_back(borrows, args[j], TaintNode::Local(to)),
    ensures
        written_back(state, borrows, args, src, count).origin.contains_key(to),
    decreases count,
{
    if j < count - 1 {
        lemma_written_back_marks(state, borrows, args, src, (count - 1) as nat, j, to);
    }
}

/// A state that no point changes is closed under what carries taint.
proof fn lemma_identity_closed(
    context: TaintContext,
    state: TaintState,
    block: int,
    k: int,
    from: TaintNode,
    to: TaintNode,
)
    requires
        context_wf(context),
        after_point(context, state, block, k) == state,
        carried_at(context, block, k, from, to),
        nodes_of(state).contains(from),
    ensures
        nodes_of(state).contains(to),
{
    let data = context.body.basic_blocks@[block];
    if 0 <= k < data.statements@.len() {
        if let Statement::Assign(assign) = data.statements@[k] {
            lemma_first_origin(state.origin, mir_util::rvalue_reads(assign.rvalue));
        }
    } else if let Terminator::Call(call) = data.terminator {
        let (program, body) = (context.program, context.body);
        if loads_storage(program, call) && !writes_storage(program, call) {
            let item = item_of(program, body, call);
            assert(body.basic_blocks.len() == body.basic_blocks@.len());
            lemma_stored_source(program, body, state.writes, block, item, 0);
            lemma_stored_source(program, body, state.writes, block, None, 0);
            assert(state.writes.contains_key(from->Written_0));
        } else if !writes_storage(program, call) {
            let borrows = borrows_of(context.body);
            let args = mir_util::operand_locals_of(call.args@);
            let flow = flow_at(context, block);
            let i = choose|i: int|
                0 <= i < args.len() && feeds_argument(borrows, #[trigger] args[i], from) && ((
                forwards_position(flow, i) && to == TaintNode::Local(call.destination.local))
                    || exists|j: int|
                    0 <= j < args.len() && writes_back(borrows, #[trigger] args[j], to));
            assert(argument_source(state, borrows, args[i]) is Some);
            lemma_forwarded_source(state, borrows, args, flow, 0);
            lemma_forwarded_source(state, borrows, args, None, 0);
            assert(forwards_position(None, i));
            let src = forwarded_source(state, borrows, args, None, 0)->0;
            let returned = match forwarded_source(state, borrows, args, flow, 0) {
                Some(src) => marked(state, call.destination.local, src),
                None => state,
            };
            lemma_borrows_exist(
                context.program,
                context.body,
                context.body.basic_blocks@.len(),
                0,
            );
            lemma_written_back_extends(context, returned, args, src, args.len());
            if forwards_position(flow, i) && to == TaintNode::Local(call.destination.local) {
                assert(returned.origin.contains_key(call.destination.local));
            } else {
                let j = choose|j: int|
                    0 <= j < args.len() && writes_back(borrows, #[trigger] args[j], to);
                lemma_written_back_marks(
                    returned,
                    borrows,
                    args,
                    src,
                    args.len(),
                    j,
                    borrows.of[args[j]->0],
                );
            }
        }
    }
}

/// Taint propagation finds exactly the locals that taint reaches from the seeds,
/// and names for each of them a seed that it reaches the local from.
pub proof fn lemma_settled_taint(context: TaintContext, seed: Set<usize>)
    requires
        context_wf(context),
    ensures
        settled(context, seed).origin.dom() == tainted_locals(context, seed),
        forall|l: usize| #[trigger]
            settled(context, seed).origin.contains_key(l) ==> comes_from(
                context,
                seed,
                settled(context, seed).origin[l],
                TaintNode::Local(l),
            ),
        forall|l: usize| #[trigger]
            seed.contains(l) ==> settled(context, seed).origin.contains_key(l) && settled(
                context,
                seed,
            ).origin[l] == l,
{
    lemma_settles(context, seed, 0);
    let passes = choose|p: nat| #[trigger] settled_after(context, seed, p);
    let state = settled(context, seed);
    lemma_settled_is(context, seed, passes);
    lemma_passes_sound(context, seed, passes);
    lemma_passes_keep_seeds(context, seed, passes);
    let edge = taint_edge(context);
    let starts = seed_nodes(seed);
    assert forall|l: usize| #[trigger] state.origin.dom().contains(l) == tainted_locals(
        context,
        seed,
    ).contains(l) by {
        if state.origin.contains_key(l) {
            let src = state.origin[l];
            let path = choose|path: Seq<TaintNode>|
                graph::leads(edge, set![TaintNode::Local(src)], path, TaintNode::Local(l));
            assert(graph::leads(edge, starts, path, TaintNode::Local(l)));
        }
        if graph::reaches(edge, starts, TaintNode::Local(l)) {
            assert forall|a: TaintNode, b: TaintNode|
                nodes_of(state).contains(a) && #[trigger] edge(a, b) implies nodes_of(
                state,
            ).contains(b) by {
                let (block, k) = choose|block: int, k: int| #[trigger]
                    carried_at(context, block, k, a, b);
                lemma_pass_identity(context, state, block, k);
                lemma_identity_closed(context, state, block, k, a, b);
            }
            graph::lemma_reaches_closed(edge, starts, nodes_of(state), TaintNode::Local(l));
        }
    }
    assert(state.origin.dom() =~= tainted_locals(context, seed));
}

proof fn lemma_passes_keep_seeds(context: TaintContext, seed: Set<usize>, passes: nat)
    requires
        context_wf(context),
    ensures
        forall|l: usize| #[trigger]
            seed.contains(l) ==> after_passes(context, seed, passes).origin.contains_key(l)
                && after_passes(context, seed, passes).origin[l] == l,
    decreases passes,
{
    if passes > 0 {
        lemma_passes_keep_seeds(context, seed, (passes - 1) as nat);
        lemma_points_extend(
            context,
            after_passes(context, seed, (passes - 1) as nat),
            context.body.basic_blocks@.len(),
            0,
        );
    }
}

// ---- the propagation -----------------------------------------------------

/// Result of a taint propagation over one body.
#[derive(Debug)]
pub struct TaintResult {
    /// For each local reached by the taint, the seed it originates from.
    origin: DenseMap<Local>,
}

impl TaintResult {
    /// For each tainted local the seed it originates from.
    pub closed spec fn sources(self) -> Map<usize, Local> {
        self.origin@
    }

    pub fn is_tainted(&self, local: Local) -> (tainted: bool)
        ensures
            tainted == self.sources().contains_key(local),
    {
        self.origin.contains_key(local)
    }

    /// The seed a tainted local originates from; the local itself if it is
    /// not part of a chain.
    pub fn origin_of(&self, local: Local) -> (origin: Local)
        ensures
            origin == (if self.sources().contains_key(local) {
                self.sources()[local]
            } else {
                local
            }),
    {
        match self.origin.get(local) {
            Some(origin) => *origin,
            None => local,
        }
    }
}

/// The sets a map of sets holds.
pub open spec fn sets_of(map: Map<usize, DenseSet>) -> Map<usize, Set<usize>> {
    map.map_values(|set: DenseSet| set@)
}

/// A block ends in the storage load `call`.
spec fn storage_load_at(program: Program, body: Body, block: int, call: Call) -> bool {
    0 <= block < body.basic_blocks@.len() && body.basic_blocks@[block].terminator
        == Terminator::Call(call) && loads_storage(program, call)
}

/// A propagation under way.
struct Propagation {
    origin: DenseMap<Local>,
    /// The blocks that write tainted data to storage, and the seed that data
    /// came from.
    writes: DenseMap<Local>,
}

impl View for Propagation {
    type V = TaintState;

    closed spec fn view(&self) -> TaintState {
        TaintState { origin: self.origin@, writes: self.writes@ }
    }
}

impl Propagation {
    /// Marks `local` as reached from the seed `src` and returns whether it was
    /// not reached before.
    fn mark(&mut self, local: Local, src: Local) -> (newly: bool)
        ensures
            final(self)@ == marked(old(self)@, local, src),
            newly == !old(self)@.origin.contains_key(local),
            newly == (final(self)@ != old(self)@),
    {
        if self.origin.contains_key(local) {
            false
        } else {
            self.origin.insert(local, src);
            assert(self@.origin.contains_key(local));
            true
        }
    }

    /// The effect of a statement.
    #[verifier::loop_isolation(false)]
    fn statement(&mut self, statement: &Statement) -> (changed: bool)
        ensures
            final(self)@ == after_statement(old(self)@, *statement),
            changed == (final(self)@ != old(self)@),
    {
        if let Statement::Assign(assign) = statement {
            let reads = mir_util::rvalue_locals(&assign.rvalue);
            assert(reads@.skip(0) =~= reads@);
            for i in 0..reads.len()
                invariant
                    self@ == old(self)@,
                    first_origin(self@.origin, reads@) == first_origin(
                        self@.origin,
                        reads@.skip(i as int),
                    ),
            {
                assert(reads@.skip(i as int).skip(1) =~= reads@.skip(i + 1));
                let src = match self.origin.get(reads[i]) {
                    Some(src) => Some(*src),
                    None => None,
                };
                if let Some(src) = src {
                    return self.mark(assign.place.local, src);
                }
            }
        }
        false
    }

    /// Per argument, the seed its taint came from, directly or through the
    /// local it borrows.
    fn argument_taint(&self, facts: &TaintFacts, arg_locals: &Vec<Option<Local>>) -> (
        sources: Vec<Option<Local>>)
        ensures
            sources@.len() == arg_locals@.len(),
            forall|i: int|
                0 <= i < sources@.len() ==> #[trigger] sources@[i] == argument_source(
                    self@,
                    Borrows { of: facts.borrow_of@, mutable: facts.mut_borrow@ },
                    arg_locals@[i],
                ),
    {
        let mut sources: Vec<Option<Local>> = Vec::new();
        for i in 0..arg_locals.len()
            invariant
                sources@.len() == i,
                forall|j: int|
                    0 <= j < i ==> #[trigger] sources@[j] == argument_source(
                        self@,
                        Borrows { of: facts.borrow_of@, mutable: facts.mut_borrow@ },
                        arg_locals@[j],
                    ),
        {
            let source = match arg_locals[i] {
                Some(l) => match self.origin.get(l) {
                    Some(src) => Some(*src),
                    None => match facts.borrow_of.get(l) {
                        Some(base) => match self.origin.get(*base) {
                            Some(src) => Some(*src),
                            None => None,
                        },
                        None => None,
                    },
                },
                None => None,
            };
            sources.push(source);
        }
        sources
    }

    /// The effect of a storage write.
    fn storage_write(&mut self, block: usize, call: &Call) -> (changed: bool)
        ensures
            final(self)@ == after_write(old(self)@, block as int, *call),
            changed == (final(self)@ != old(self)@),
    {
        if call.args.len() == 0 {
            return false;
        }
        let data_src = match mir_util::operand_local(&call.args[call.args.len() - 1]) {
            Some(l) => match self.origin.get(l) {
                Some(src) => Some(*src),
                None => None,
            },
            None => None,
        };
        if let Some(src) = data_src {
            if !self.writes.contains_key(block) {
                self.writes.insert(block, src);
                assert(self@.writes.contains_key(block));
                return true;
            }
        }
        false
    }

    /// The effect of a storage load: a loaded value is tainted only where an
    /// earlier write left attacker data in this item. A written item that could
    /// not be resolved to a constant is the conservative fallback: a later load
    /// is then tainted as well, which errs towards a false positive and never
    /// towards a missed vulnerability. The value never inherits taint from the
    /// storage handle it was read through.
    fn storage_load(
        &mut self,
        body: &Body,
        block: usize,
        call: &Call,
        facts: &TaintFacts,
        context: Ghost<TaintContext>,
    ) -> (changed: bool)
        requires
            *body == context@.body,
            facts.describes(context@.program, *body),
            storage_load_at(context@.program, *body, block as int, *call),
        ensures
            final(self)@ == (match load_source(context@, old(self)@, block as int, *call) {
                Some(src) => marked(old(self)@, call.destination.local, src),
                None => old(self)@,
            }),
            changed == (final(self)@ != old(self)@),
    {
        let ghost program = context@.program;
        let item = item_behind(&facts.item_def_of, call);
        proof {
            if let Some(receiver) = receiver_of(*call) {
                assert(storage_op_at(program, *body, block as int, receiver));
            }
        }
        let load_src = match facts.stored_taint(item, block, &self.writes, Ghost(program), body) {
            Some(src) => Some(src),
            None => facts.stored_taint(None, block, &self.writes, Ghost(program), body),
        };
        match load_src {
            Some(src) => self.mark(call.destination.local, src),
            None => false,
        }
    }

    /// The effect of an ordinary call. Where a return-taint summary exists, only
    /// the parameters that actually reach the return value forward their taint;
    /// otherwise any tainted argument does. A callee that receives a mutable
    /// borrow may write tainted data back into the borrowed local.
    #[verifier::loop_isolation(false)]
    fn ordinary_call(
        &mut self,
        call: &Call,
        facts: &TaintFacts,
        flow: Option<&DenseSet>,
        context: Ghost<TaintContext>,
    ) -> (changed: bool)
        requires
            facts.describes(context@.program, context@.body),
        ensures
            final(self)@ == after_call(
                context@,
                old(self)@,
                *call,
                match flow {
                    Some(positions) => Some(positions@),
                    None => None,
                },
            ),
            changed == (final(self)@ != old(self)@),
    {
        let ghost borrows = borrows_of(context@.body);
        let ghost positions = match flow {
            Some(positions) => Some(positions@),
            None => None,
        };
        let ghost start = self@;
        assert((Borrows { of: facts.borrow_of@, mutable: facts.mut_borrow@ }) == borrows);
        let arg_locals = mir_util::operand_locals(&call.args);
        let arg_taint = self.argument_taint(facts, &arg_locals);
        let first_src = first_forwarded(&arg_taint, None, Ghost(start), Ghost(borrows), &arg_locals);
        let dest_src = first_forwarded(&arg_taint, flow, Ghost(start), Ghost(borrows), &arg_locals);
        let mut changed = false;
        if let Some(src) = dest_src {
            changed = self.mark(call.destination.local, src);
            assert(changed ==> self@.origin.contains_key(call.destination.local)
                && !start.origin.contains_key(call.destination.local));
        }
        let ghost returned = self@;
        if let Some(src) = first_src {
            for i in 0..arg_locals.len()
                invariant
                    self@ == written_back(returned, borrows, arg_locals@, src, i as nat),
                    forall|l: usize| #[trigger]
                        start.origin.contains_key(l) ==> self@.origin.contains_key(l),
                    changed ==> exists|l: usize| #[trigger]
                        self@.origin.contains_key(l) && !start.origin.contains_key(l),
                    !changed ==> self@ == start,
            {
                if let Some(l) = arg_locals[i] {
                    if facts.mut_borrow.contains(l) {
                        let base = match facts.borrow_of.get(l) {
                            Some(base) => Some(*base),
                            None => None,
                        };
                        if let Some(base) = base {
                            let ghost before = self@;
                            let newly = self.mark(base, src);
                            proof {
                                if newly {
                                    assert(self@.origin.contains_key(base)
                                        && !start.origin.contains_key(base));
                                } else if changed {
                                    let m = choose|m: usize| #[trigger]
                                        before.origin.contains_key(m)
                                            && !start.origin.contains_key(m);
                                    assert(self@.origin.contains_key(m));
                                }
                            }
                            if newly {
                                changed = true;
                            }
                        }
                    }
                }
            }
        }
        changed
    }
}

/// Returns the seed of the first tainted argument that forwards its taint.
#[verifier::loop_isolation(false)]
fn first_forwarded(
    sources: &Vec<Option<Local>>,
    flow: Option<&DenseSet>,
    state: Ghost<TaintState>,
    borrows: Ghost<Borrows>,
    arg_locals: &Vec<Option<Local>>,
) -> (src: Option<Local>)
    requires
        sources@.len() == arg_locals@.len(),
        forall|i: int|
            0 <= i < sources@.len() ==> #[trigger] sources@[i] == argument_source(
                state@,
                borrows@,
                arg_locals@[i],
            ),
    ensures
        src == forwarded_source(
            state@,
            borrows@,
            arg_locals@,
            match flow {
                Some(positions) => Some(positions@),
                None => None,
            },
            0,
        ),
{
    let ghost positions = match flow {
        Some(positions) => Some(positions@),
        None => None,
    };
    for i in 0..sources.len()
        invariant
            forwarded_source(state@, borrows@, arg_locals@, positions, 0) == forwarded_source(
                state@,
                borrows@,
                arg_locals@,
                positions,
                i as int,
            ),
    {
        let forwards = match flow {
            Some(positions) => positions.contains(i),
            None => true,
        };
        assert(forwards == forwards_position(positions, i as int));
        if forwards && sources[i].is_some() {
            return sources[i];
        }
    }
    None
}

/// Forward taint fixpoint over one body, starting from `seed`.
#[verifier::loop_isolation(false)]
#[verifier::rlimit(40)]
pub fn propagate_taint_forward(
    program: &Program,
    body: &Body,
    seed: &DenseSet,
    facts: &TaintFacts,
    callee_at: &PairMap<DefId>,
    return_taint_params: &DenseMap<DenseSet>,
) -> (result: TaintResult)
    requires
        program.wf(),
        body.wf(*program),
        facts.describes(*program, *body),
    ensures
        ({
            let context = TaintContext {
                program: *program,
                body: *body,
                callee_at: callee_at@,
                flows: sets_of(return_taint_params@),
            };
            &&& result.sources() == settled(context, seed@).origin
            &&& result.sources().dom() == tainted_locals(context, seed@)
        }),
{
    let ghost context = TaintContext {
        program: *program,
        body: *body,
        callee_at: callee_at@,
        flows: sets_of(return_taint_params@),
    };
    let ghost n = body.local_decls@.len();
    let mut state = Propagation { origin: DenseMap::new(), writes: DenseMap::new() };
    let bound: usize = seed.bound();
    for local in 0..bound
        invariant
            state@.origin =~= Map::new(
                |l: usize| l < local && seed@.contains(l),
                |l: usize| l,
            ),
            state@.writes == Map::<usize, Local>::empty(),
    {
        if seed.contains(local) {
            state.origin.insert(local, local);
        }
    }
    assert(state@ =~= seed_state(seed@));

    let ghost mut passes: nat = 0;
    let mut changed = true;
    while changed
        invariant
            state@ == after_passes(context, seed@, passes),
            !changed ==> settled_after(context, seed@, passes),
        decreases
                lacking(context, state@),
                if changed {
                    1int
                } else {
                    0int
                },
    {
        changed = false;
        let ghost start = state@;
        for block in 0..body.basic_blocks.len()
            invariant
                state@ == after_points(context, start, block as nat, 0),
                !changed ==> state@ == start,
                changed ==> state@ != start,
        {
            let data = &body.basic_blocks[block];
            assert(data.wf(*program, n, body.basic_blocks@.len()));
            for k in 0..data.statements.len()
                invariant
                    state@ == after_points(context, start, block as nat, k as nat),
                    !changed ==> state@ == start,
                    changed ==> state@ != start,
            {
                let ghost before = state@;
                let newly = state.statement(&data.statements[k]);
                proof {
                    assert(state@ == after_points(context, start, block as nat, (k + 1) as nat));
                    lemma_change_lasts(context, start, block as nat, k as nat);
                }
                if newly {
                    changed = true;
                }
            }
            let ghost last = data.statements@.len();
            if let Terminator::Call(call) = &data.terminator {
                proof {
                    mir_util::lemma_operand_wf(*program, call.func, n);
                }
                let callee = mir_util::callee_def_id(program, &call.func);
                let writes = match callee {
                    Some(d) => cosmwasm::is_storage_write_fn(program, d),
                    None => false,
                };
                let loads = match callee {
                    Some(d) => cosmwasm::is_storage_load_fn(program, d),
                    None => false,
                };
                let newly = if writes {
                    state.storage_write(block, call)
                } else if loads {
                    state.storage_load(body, block, call, facts, Ghost(context))
                } else {
                    let flow = match callee_at.get(block, data.statements.len()) {
                        Some(target) => return_taint_params.get(*target),
                        None => None,
                    };
                    assert(flow_at(context, block as int) == (match flow {
                        Some(positions) => Some(positions@),
                        None => None,
                    }));
                    state.ordinary_call(call, facts, flow, Ghost(context))
                };
                if newly {
                    changed = true;
                }
            }
            proof {
                assert(state@ == after_points(context, start, block as nat, last + 1));
                lemma_change_lasts(context, start, block as nat, last);
            }
        }
        proof {
            lemma_points_extend(context, start, body.basic_blocks@.len(), 0);
            lemma_extends_lacking(context, start, state@);
            if changed {
                passes = passes + 1;
            }
        }
    }
    proof {
        lemma_settled_is(context, seed@, passes);
        lemma_settled_taint(context, seed@);
    }
    TaintResult { origin: state.origin }
}

/// What a pass has changed stays changed.
proof fn lemma_change_lasts(context: TaintContext, start: TaintState, block: nat, k: nat)
    requires
        context_wf(context),
        block < context.body.basic_blocks@.len(),
        k <= context.body.basic_blocks@[block as int].statements@.len(),
    ensures
        after_points(context, start, block, k) != start ==> after_points(
            context,
            start,
            block,
            k + 1,
        ) != start,
{
    let before = after_points(context, start, block, k);
    let after = after_points(context, start, block, k + 1);
    lemma_points_extend(context, start, block, k);
    lemma_point_extends(context, before, block as int, k as int);
    assert(after == after_point(context, before, block as int, k as int));
    if after == start {
        lemma_extends_both(context, start, before);
    }
}

// ---- what a function returns ---------------------------------------------

/// A parameter is framework plumbing.
pub open spec fn framework_param(program: Program, body: Body, local: Local) -> bool {
    let ty = body.local_decls@[local as int];
    !cosmwasm::message_info_ty(program, ty) && cosmwasm::framework_ty(program, ty)
}

/// Parameters excluded from taint seeding: framework plumbing such as `Deps`,
/// `Env` or `dyn Storage`.
///
/// `MessageInfo` is deliberately *not* excluded even though it is a framework
/// type. It carries `info.sender`, and helpers that take the whole `info` and
/// return sender-derived data are exactly the flows the sender taint needs.
fn is_framework_param(program: &Program, body: &Body, local: Local) -> (framework: bool)
    requires
        program.wf(),
        body.wf(*program),
        local < body.local_decls@.len(),
    ensures
        framework == framework_param(*program, *body, local),
{
    let ty: Ty = body.local_decls[local];
    !cosmwasm::is_message_info_ty(program, ty) && cosmwasm::is_framework_ty(program, ty)
}

/// A statement is `_0 = Ok(..)` with `local` among the operands.
pub open spec fn ok_operand(program: Program, statement: Statement, local: Local) -> bool {
    auth_gate::is_ok_assign(program, statement) && (statement matches Statement::Assign(assign)
        && mir_util::rvalue_reads(assign.rvalue).contains(local))
}

/// Some `_0 = Ok(..)` of the body has `local` among its operands.
pub open spec fn returned_in_ok(program: Program, body: Body, local: Local) -> bool {
    exists|block: int, k: int|
        0 <= block < body.basic_blocks@.len() && 0 <= k
            < body.basic_blocks@[block].statements@.len() && ok_operand(
            program,
            #[trigger] body.basic_blocks@[block].statements@[k],
            local,
        )
}

/// The locals that make up a function's successful return value. A function that
/// returns no `Result`, or never builds an `Ok(..)` from locals, returns `_0`.
pub open spec fn return_locals_of(program: Program, body: Body) -> Set<usize> {
    if cosmwasm::result_ty(program, body.local_decls@[0]) && exists|l: Local| #[trigger]
        returned_in_ok(program, body, l) {
        Set::new(|l: usize| returned_in_ok(program, body, l))
    } else {
        set![0usize]
    }
}

/// Returns the operands of a statement that is `_0 = Ok(..)`.
fn ok_operands(program: &Program, statement: &Statement, locals: Ghost<nat>) -> (
    operands: Vec<Local>)
    requires
        statement.wf(*program, locals@),
    ensures
        forall|l: Local| #[trigger] operands@.contains(l) == ok_operand(*program, *statement, l),
{
    if let Statement::Assign(assign) = statement {
        if assign.place.local == 0 && assign.place.projection.len() == 0 {
            if let Rvalue::Aggregate(AggregateKind::Adt(def, variant), operands) = &assign.rvalue {
                // `Result::Ok` is variant 0.
                if *variant == 0 && cosmwasm::is_result_def(program, *def) {
                    return mir_util::read_operand_locals(operands);
                }
            }
        }
    }
    Vec::new()
}

/// The locals that make up a function's *successful* return value: the
/// operands of `_0 = Ok(..)` for a `Result`-returning function, `_0` itself
/// otherwise.
#[verifier::loop_isolation(false)]
fn return_value_locals(program: &Program, body: &Body) -> (locals: DenseSet)
    requires
        program.wf(),
        body.wf(*program),
    ensures
        locals@ == return_locals_of(*program, *body),
{
    let mut locals = DenseSet::new();
    if !cosmwasm::is_result_ty(program, body.local_decls[0]) {
        locals.insert(0);
        assert(locals@ =~= set![0usize]);
        return locals;
    }
    let ghost n = body.local_decls@.len();
    for block in 0..body.basic_blocks.len()
        invariant
            forall|l: Local| #[trigger]
                locals@.contains(l) ==> returned_in_ok(*program, *body, l),
            forall|l: Local, b: int, k: int|
                0 <= b < block && 0 <= k < body.basic_blocks@[b].statements@.len() && #[trigger]
                    ok_operand(*program, body.basic_blocks@[b].statements@[k], l)
                    ==> locals@.contains(l),
    {
        let data = &body.basic_blocks[block];
        assert(data.wf(*program, n, body.basic_blocks@.len()));
        for k in 0..data.statements.len()
            invariant
                forall|l: Local| #[trigger]
                    locals@.contains(l) ==> returned_in_ok(*program, *body, l),
                forall|l: Local, b: int, j: int|
                    0 <= b <= block && 0 <= j < (if b == block {
                        k as int
                    } else {
                        body.basic_blocks@[b].statements@.len() as int
                    }) && #[trigger] ok_operand(
                        *program,
                        body.basic_blocks@[b].statements@[j],
                        l,
                    ) ==> locals@.contains(l),
        {
            let ghost here = body.basic_blocks@[block as int].statements@[k as int];
            assert(data.statements@[k as int].wf(*program, n));
            let operands = ok_operands(program, &data.statements[k], Ghost(n));
            for i in 0..operands.len()
                invariant
                    forall|l: Local| #[trigger]
                        locals@.contains(l) ==> returned_in_ok(*program, *body, l),
                    forall|l: Local, b: int, j: int|
                        0 <= b <= block && 0 <= j < (if b == block {
                            k as int
                        } else {
                            body.basic_blocks@[b].statements@.len() as int
                        }) && #[trigger] ok_operand(
                            *program,
                            body.basic_blocks@[b].statements@[j],
                            l,
                        ) ==> locals@.contains(l),
                    forall|j: int| 0 <= j < i ==> locals@.contains(#[trigger] operands@[j]),
            {
                assert(operands@.contains(operands@[i as int]));
                assert(ok_operand(*program, here, operands@[i as int]));
                locals.insert(operands[i]);
            }
            assert forall|l: Local| ok_operand(*program, here, l) implies locals@.contains(l) by {
                assert(operands@.contains(l));
                let j = choose|j: int| 0 <= j < operands@.len() && operands@[j] == l;
                assert(locals@.contains(operands@[j]));
            }
        }
    }
    proof {
        assert forall|l: Local| #[trigger] locals@.contains(l) == returned_in_ok(
            *program,
            *body,
            l,
        ) by {
            if returned_in_ok(*program, *body, l) {
                let (block, k) = choose|block: int, k: int|
                    0 <= block < body.basic_blocks@.len() && 0 <= k
                        < body.basic_blocks@[block].statements@.len() && ok_operand(
                        *program,
                        #[trigger] body.basic_blocks@[block].statements@[k],
                        l,
                    );
                assert(ok_operand(*program, body.basic_blocks@[block].statements@[k], l));
            }
        }
    }
    // A tail-call return such as `fn h(x) -> Result<T> { inner(x) }` writes
    // `_0` directly from a call and never builds an `Ok(..)` aggregate. Falling
    // back to `_0` over-approximates by including error flows, which errs in
    // the conservative direction.
    if locals.is_empty() {
        assert forall|l: Local| !#[trigger] returned_in_ok(*program, *body, l) by {
            assert(!locals@.contains(l));
        }
        locals.insert(0);
        assert(locals@ =~= set![0usize]);
    } else {
        proof {
            if forall|l: Local| !#[trigger] returned_in_ok(*program, *body, l) {
                assert(locals@ =~= Set::<usize>::empty());
            }
            assert(locals@ =~= return_locals_of(*program, *body));
        }
    }
    locals
}

/// A function of the graph whose body is at hand.
pub open spec fn is_candidate(program: Program, nodes: Seq<DefId>, f: DefId) -> bool {
    nodes.contains(f) && f < program.defs@.len() && cosmwasm::analysable(program, f)
}

/// The forwarded parameters of every candidate, out of pairs of a function and a
/// parameter position.
pub open spec fn flow_map(program: Program, nodes: Seq<DefId>, pairs: Set<(usize, usize)>) -> Map<
    usize,
    Set<usize>,
> {
    Map::new(
        |f: usize| is_candidate(program, nodes, f),
        |f: usize| sender_taint::row_of(pairs, f),
    )
}

/// What the propagation over a candidate runs on.
pub open spec fn candidate_context(
    program: Program,
    nodes: Seq<DefId>,
    pairs: Set<(usize, usize)>,
    f: DefId,
) -> TaintContext {
    let body = cosmwasm::body_at(program, f);
    TaintContext {
        program,
        body,
        callee_at: call_graph::callee_map(call_graph::sites_of(program, body)),
        flows: flow_map(program, nodes, pairs),
    }
}

/// The taint of parameter `i` of a function reaches its return value, given the
/// parameters that every candidate forwards.
pub open spec fn reaches_return(
    program: Program,
    nodes: Seq<DefId>,
    pairs: Set<(usize, usize)>,
    f: DefId,
    i: usize,
) -> bool {
    let body = cosmwasm::body_at(program, f);
    is_candidate(program, nodes, f) && i < body.arg_count && !framework_param(
        program,
        body,
        (i + 1) as usize,
    ) && exists|l: usize| #[trigger]
        return_locals_of(program, body).contains(l) && tainted_locals(
            candidate_context(program, nodes, pairs, f),
            set![(i + 1) as usize],
        ).contains(l)
}

/// A set holds every parameter whose taint reaches the return value given the
/// set.
pub open spec fn flows_closed(
    program: Program,
    nodes: Seq<DefId>,
    pairs: Set<(usize, usize)>,
) -> bool {
    forall|f: DefId, i: usize| #[trigger]
        reaches_return(program, nodes, pairs, f, i) ==> pairs.contains((f, i))
}

/// The parameters whose taint reaches the return value: the least set that holds
/// every parameter of which that is so given the set.
pub open spec fn return_flows(program: Program, nodes: Seq<DefId>) -> Set<(usize, usize)> {
    Set::new(
        |p: (usize, usize)|
            forall|s: Set<(usize, usize)>| #[trigger]
                flows_closed(program, nodes, s) ==> s.contains(p),
    )
}

/// More forwarded parameters never take a flow to the return value away.
pub proof fn lemma_reaches_return_monotone(
    program: Program,
    nodes: Seq<DefId>,
    fewer: Set<(usize, usize)>,
    more: Set<(usize, usize)>,
    f: DefId,
    i: usize,
)
    requires
        fewer.subset_of(more),
        reaches_return(program, nodes, fewer, f, i),
    ensures
        reaches_return(program, nodes, more, f, i),
{
    let body = cosmwasm::body_at(program, f);
    let small = candidate_context(program, nodes, fewer, f);
    let large = candidate_context(program, nodes, more, f);
    let seed = set![(i + 1) as usize];
    let l = choose|l: usize| #[trigger]
        return_locals_of(program, body).contains(l) && tainted_locals(small, seed).contains(l);
    let goal = TaintNode::Local(l);
    let path = choose|path: Seq<TaintNode>|
        graph::leads(taint_edge(small), seed_nodes(seed), path, goal);
    assert forall|j: int| 0 <= j < path.len() - 1 implies taint_edge(large)(
        #[trigger] path[j],
        path[j + 1],
    ) by {
        assert(taint_edge(small)(path[j], path[j + 1]));
        let (block, k) = choose|block: int, k: int| #[trigger]
            carried_at(small, block, k, path[j], path[j + 1]);
        lemma_carried_monotone(program, nodes, fewer, more, f, block, k, path[j], path[j + 1]);
        assert(carried_at(large, block, k, path[j], path[j + 1]));
    }
    assert(graph::leads(taint_edge(large), seed_nodes(seed), path, goal));
    assert(tainted_locals(large, seed).contains(l));
}

proof fn lemma_carried_monotone(
    program: Program,
    nodes: Seq<DefId>,
    fewer: Set<(usize, usize)>,
    more: Set<(usize, usize)>,
    f: DefId,
    block: int,
    k: int,
    from: TaintNode,
    to: TaintNode,
)
    requires
        fewer.subset_of(more),
        carried_at(candidate_context(program, nodes, fewer, f), block, k, from, to),
    ensures
        carried_at(candidate_context(program, nodes, more, f), block, k, from, to),
{
    let small = candidate_context(program, nodes, fewer, f);
    let large = candidate_context(program, nodes, more, f);
    let data = small.body.basic_blocks@[block];
    if !(0 <= k < data.statements@.len()) {
        if let Terminator::Call(call) = data.terminator {
            if !writes_storage(program, call) && !loads_storage(program, call) {
                let borrows = borrows_of(small.body);
                let args = mir_util::operand_locals_of(call.args@);
                let i = choose|i: int|
                    0 <= i < args.len() && feeds_argument(borrows, #[trigger] args[i], from) && ((
                    forwards_position(flow_at(small, block), i) && to == TaintNode::Local(
                        call.destination.local,
                    )) || exists|j: int|
                        0 <= j < args.len() && writes_back(borrows, #[trigger] args[j], to));
                if forwards_position(flow_at(small, block), i) {
                    assert(forwards_position(flow_at(large, block), i));
                }
                assert(feeds_argument(borrows, args[i], from));
            }
        }
    }
}

/// The parameters whose taint reaches the return value are exactly those of
/// which that is so given that set of parameters itself.
pub proof fn lemma_return_flows_fixpoint(
    program: Program,
    nodes: Seq<DefId>,
    f: DefId,
    i: usize,
)
    ensures
        return_flows(program, nodes).contains((f, i)) <==> reaches_return(
            program,
            nodes,
            return_flows(program, nodes),
            f,
            i,
        ),
{
    let least = return_flows(program, nodes);
    assert forall|g: DefId, j: usize| #[trigger]
        reaches_return(program, nodes, least, g, j) implies least.contains((g, j)) by {
        assert forall|s: Set<(usize, usize)>| #[trigger]
            flows_closed(program, nodes, s) implies s.contains((g, j)) by {
            assert forall|p: (usize, usize)| least.contains(p) implies s.contains(p) by {}
            lemma_reaches_return_monotone(program, nodes, least, s, g, j);
        }
    }
    let kept = Set::new(
        |p: (usize, usize)| reaches_return(program, nodes, least, p.0, p.1),
    );
    assert forall|g: DefId, j: usize| #[trigger]
        reaches_return(program, nodes, kept, g, j) implies kept.contains((g, j)) by {
        assert forall|p: (usize, usize)| kept.contains(p) implies least.contains(p) by {
            assert(reaches_return(program, nodes, least, p.0, p.1));
        }
        lemma_reaches_return_monotone(program, nodes, kept, least, g, j);
    }
    assert(flows_closed(program, nodes, kept));
    if least.contains((f, i)) {
        assert(kept.contains((f, i)));
    }
}

/// Per-function inputs of the return-taint fixpoint, resolved once rather
/// than rebuilt in every round.
struct TaintCandidate<'a> {
    def_id: DefId,
    body: &'a Body,
    facts: TaintFacts,
    callee_at: PairMap<DefId>,
    return_locals: DenseSet,
    /// Parameter positions eligible as taint sources, i.e. everything but
    /// framework plumbing.
    params: Vec<usize>,
}

/// Parameter `i` of a body is eligible as a taint source.
spec fn eligible(program: Program, body: Body, i: usize) -> bool {
    i < body.arg_count && !framework_param(program, body, (i + 1) as usize)
}

impl<'a> TaintCandidate<'a> {
    spec fn describes(self, program: Program, nodes: Seq<DefId>) -> bool {
        &&& is_candidate(program, nodes, self.def_id)
        &&& *self.body == cosmwasm::body_at(program, self.def_id)
        &&& self.body.wf(program)
        &&& self.facts.describes(program, *self.body)
        &&& self.callee_at@ == call_graph::callee_map(call_graph::sites_of(program, *self.body))
        &&& self.return_locals@ == return_locals_of(program, *self.body)
        &&& forall|i: usize| #[trigger]
            self.params@.contains(i) <==> eligible(program, *self.body, i)
    }

    #[verifier::loop_isolation(false)]
    fn build(
        program: &'a Program,
        body: &'a Body,
        def_id: DefId,
        call_graph: &CallGraph,
        const_types: &ConstTypeIndex,
    ) -> (candidate: Self)
        requires
            program.wf(),
            call_graph.describes(*program),
            const_types.indexes(*program),
            is_candidate(*program, call_graph.node_list(), def_id),
            *body == cosmwasm::body_at(*program, def_id),
            body.wf(*program),
        ensures
            candidate.describes(*program, call_graph.node_list()),
            candidate.def_id == def_id,
    {
        let const_defs = ConstDefIndex::build(program, body);
        let facts = TaintFacts::build(program, body, &const_defs, const_types);
        let mut params: Vec<usize> = Vec::new();
        for i in 0..body.arg_count
            invariant
                forall|j: usize| #[trigger]
                    params@.contains(j) <==> j < i && eligible(*program, *body, j),
        {
            let ghost before = params@;
            if !is_framework_param(program, body, i + 1) {
                params.push(i);
            }
            assert forall|j: usize| #[trigger]
                params@.contains(j) <==> j < i + 1 && eligible(*program, *body, j) by {
                graph::lemma_push_contains(before, i, j);
            }
        }
        assert(call_graph.sites(def_id) == call_graph::sites_of(*program, *body));
        TaintCandidate {
            def_id,
            body,
            facts,
            callee_at: callee_locations(call_graph.call_sites_in(def_id)),
            return_locals: return_value_locals(program, body),
            params,
        }
    }

    /// Returns whether the taint of parameter `i` reaches the return value.
    #[verifier::loop_isolation(false)]
    fn param_reaches_return(
        &self,
        program: &Program,
        i: usize,
        summary: &DenseMap<DenseSet>,
        nodes: Ghost<Seq<DefId>>,
        pairs: Ghost<Set<(usize, usize)>>,
    ) -> (reaches: bool)
        requires
            program.wf(),
            self.describes(*program, nodes@),
            eligible(*program, *self.body, i),
            sets_of(summary@) == flow_map(*program, nodes@, pairs@),
        ensures
            reaches == reaches_return(*program, nodes@, pairs@, self.def_id, i),
    {
        let mut seed = DenseSet::new();
        seed.insert(i + 1);
        assert(seed@ =~= set![(i + 1) as usize]);
        let result = propagate_taint_forward(
            program,
            self.body,
            &seed,
            &self.facts,
            &self.callee_at,
            summary,
        );
        let ghost context = candidate_context(*program, nodes@, pairs@, self.def_id);
        assert(result.sources().dom() == tainted_locals(context, seed@));
        let bound: usize = self.return_locals.bound();
        for l in 0..bound
            invariant
                forall|m: usize|
                    m < l ==> !(#[trigger] self.return_locals@.contains(m)
                        && result.sources().contains_key(m)),
        {
            if self.return_locals.contains(l) && result.is_tainted(l) {
                assert(return_locals_of(*program, *self.body).contains(l));
                assert(result.sources().dom().contains(l));
                return true;
            }
        }
        proof {
            if reaches_return(*program, nodes@, pairs@, self.def_id, i) {
                let l = choose|l: usize| #[trigger]
                    return_locals_of(*program, *self.body).contains(l) && tainted_locals(
                        context,
                        set![(i + 1) as usize],
                    ).contains(l);
                assert(self.return_locals@.contains(l));
                assert(result.sources().dom().contains(l));
            }
        }
        false
    }
}

/// The pairs of a function and a position that a summary holds.
pub open spec fn pairs_of(summary: Map<usize, DenseSet>) -> Set<(usize, usize)> {
    Set::new(|p: (usize, usize)| summary.contains_key(p.0) && summary[p.0]@.contains(p.1))
}

/// How many parameters of the first `count` functions a set of pairs lacks.
spec fn pairs_missing(
    program: Program,
    fns: Seq<DefId>,
    pairs: Set<(usize, usize)>,
    count: nat,
) -> nat
    decreases count,
{
    if count == 0 {
        0
    } else {
        pairs_missing(program, fns, pairs, (count - 1) as nat) + graph::missing(
            sender_taint::row_of(pairs, fns[count - 1]),
            cosmwasm::body_at(program, fns[count - 1]).arg_count as nat,
        )
    }
}

proof fn lemma_pairs_missing_monotone(
    program: Program,
    fns: Seq<DefId>,
    small: Set<(usize, usize)>,
    large: Set<(usize, usize)>,
    count: nat,
)
    requires
        small.subset_of(large),
    ensures
        pairs_missing(program, fns, large, count) <= pairs_missing(program, fns, small, count),
    decreases count,
{
    if count > 0 {
        lemma_pairs_missing_monotone(program, fns, small, large, (count - 1) as nat);
        graph::lemma_missing_monotone(
            sender_taint::row_of(small, fns[count - 1]),
            sender_taint::row_of(large, fns[count - 1]),
            cosmwasm::body_at(program, fns[count - 1]).arg_count as nat,
        );
    }
}

proof fn lemma_pairs_missing_grows(
    program: Program,
    fns: Seq<DefId>,
    small: Set<(usize, usize)>,
    large: Set<(usize, usize)>,
    count: nat,
    c: int,
    i: usize,
)
    requires
        small.subset_of(large),
        0 <= c < count <= fns.len(),
        i < cosmwasm::body_at(program, fns[c]).arg_count,
        large.contains((fns[c], i)),
        !small.contains((fns[c], i)),
    ensures
        pairs_missing(program, fns, large, count) < pairs_missing(program, fns, small, count),
    decreases count,
{
    let arg_count = cosmwasm::body_at(program, fns[count - 1]).arg_count as nat;
    let small_row = sender_taint::row_of(small, fns[count - 1]);
    let large_row = sender_taint::row_of(large, fns[count - 1]);
    if c < count - 1 {
        lemma_pairs_missing_grows(program, fns, small, large, (count - 1) as nat, c, i);
        graph::lemma_missing_monotone(small_row, large_row, arg_count);
    } else {
        lemma_pairs_missing_monotone(program, fns, small, large, (count - 1) as nat);
        graph::lemma_missing_grows(small_row, large_row, arg_count, i);
    }
}

/// Determines, for every function of the call graph, the parameter positions
/// whose taint reaches the function's return value.
///
/// Solved as a least fixpoint: a summary that grows may make a caller's
/// parameter reach its own return value, until nothing changes any more.
#[verifier::loop_isolation(false)]
#[verifier::rlimit(60)]
pub fn compute_return_taint_params(
    program: &Program,
    call_graph: &CallGraph,
    const_types: &ConstTypeIndex,
) -> (summary: DenseMap<DenseSet>)
    requires
        program.wf(),
        call_graph.describes(*program),
        const_types.indexes(*program),
    ensures
        sets_of(summary@) == flow_map(
            *program,
            call_graph.node_list(),
            return_flows(*program, call_graph.node_list()),
        ),
{
    let nodes = call_graph.nodes();
    let ghost least = return_flows(*program, nodes@);
    let mut candidates: Vec<TaintCandidate<'_>> = Vec::new();
    let mut summary: DenseMap<DenseSet> = DenseMap::new();
    let ghost mut fns: Seq<DefId> = Seq::empty();
    for n in 0..nodes.len()
        invariant
            forall|c: int|
                0 <= c < candidates@.len() ==> (#[trigger] candidates@[c]).describes(
                    *program,
                    nodes@,
                ),
            fns.len() == candidates@.len(),
            forall|c: int|
                0 <= c < candidates@.len() ==> #[trigger] fns[c] == candidates@[c].def_id,
            forall|m: int|
                0 <= m < n && is_candidate(*program, nodes@, #[trigger] nodes@[m]) ==> fns.contains(
                    nodes@[m],
                ),
            forall|f: usize| #[trigger] summary@.contains_key(f) <==> fns.contains(f),
            forall|f: usize| #[trigger]
                summary@.contains_key(f) ==> summary@[f]@ == Set::<usize>::empty(),
    {
        let f: DefId = nodes[n];
        assert(nodes@.contains(f));
        if let Some(body) = cosmwasm::body_of(program, f) {
            let ghost fns0 = fns;
            summary.insert(f, DenseSet::new());
            candidates.push(TaintCandidate::build(program, body, f, call_graph, const_types));
            proof {
                fns = fns.push(f);
                assert forall|g: usize| #[trigger] fns.contains(g) <==> fns0.contains(g) || g
                    == f by {
                    graph::lemma_push_contains(fns0, f, g);
                }
                assert forall|m: int|
                    0 <= m < n + 1 && is_candidate(
                        *program,
                        nodes@,
                        #[trigger] nodes@[m],
                    ) implies fns.contains(nodes@[m]) by {
                    if m < n {
                        assert(fns0.contains(nodes@[m]));
                    }
                }
            }
        }
    }
    proof {
        assert forall|f: usize| #[trigger] summary@.contains_key(f) <==> is_candidate(
            *program,
            nodes@,
            f,
        ) by {
            if fns.contains(f) {
                let c = choose|c: int| 0 <= c < fns.len() && fns[c] == f;
                assert(candidates@[c].describes(*program, nodes@));
            }
            if is_candidate(*program, nodes@, f) {
                let m = choose|m: int| 0 <= m < nodes@.len() && nodes@[m] == f;
                assert(fns.contains(nodes@[m]));
            }
        }
    }

    let mut changed = true;
    while changed
        invariant
            forall|f: usize| #[trigger]
                summary@.contains_key(f) <==> is_candidate(*program, nodes@, f),
            pairs_of(summary@).subset_of(least),
            !changed ==> flows_closed(*program, nodes@, pairs_of(summary@)),
        decreases
                pairs_missing(*program, fns, pairs_of(summary@), fns.len()),
                if changed {
                    1int
                } else {
                    0int
                },
    {
        changed = false;
        let ghost round = pairs_of(summary@);
        for c in 0..candidates.len()
            invariant
                forall|f: usize| #[trigger]
                    summary@.contains_key(f) <==> is_candidate(*program, nodes@, f),
                pairs_of(summary@).subset_of(least),
                round.subset_of(pairs_of(summary@)),
                !changed ==> pairs_of(summary@) == round,
                changed ==> pairs_missing(*program, fns, pairs_of(summary@), fns.len())
                    < pairs_missing(*program, fns, round, fns.len()),
                !changed ==> forall|d: int, i: usize|
                    0 <= d < c && #[trigger] reaches_return(*program, nodes@, round, fns[d], i)
                        ==> round.contains((fns[d], i)),
        {
            let candidate = &candidates[c];
            assert(candidate.describes(*program, nodes@));
            let f: DefId = candidate.def_id;
            assert(fns[c as int] == f);
            let ghost pairs = pairs_of(summary@);
            assert(sets_of(summary@) =~= flow_map(*program, nodes@, pairs)) by {
                assert forall|g: usize| #[trigger] sets_of(summary@).contains_key(g) implies sets_of(
                    summary@,
                )[g] == flow_map(*program, nodes@, pairs)[g] by {
                    assert(sets_of(summary@)[g] =~= sender_taint::row_of(pairs, g));
                }
            }
            assert(summary@.contains_key(f));
            let mut flow = match summary.get(f) {
                Some(flow) => flow.clone(),
                None => DenseSet::new(),
            };
            let ghost flow0 = flow@;
            let mut grew = false;
            for k in 0..candidate.params.len()
                invariant
                    flow0.subset_of(flow@),
                    forall|i: usize| #[trigger]
                        flow@.contains(i) && !flow0.contains(i) ==> reaches_return(
                            *program,
                            nodes@,
                            pairs,
                            f,
                            i,
                        ),
                    forall|j: int|
                        0 <= j < k && reaches_return(
                            *program,
                            nodes@,
                            pairs,
                            f,
                            #[trigger] candidate.params@[j],
                        ) ==> flow@.contains(candidate.params@[j]),
                    !grew ==> flow@ == flow0,
                    grew ==> exists|i: usize| #[trigger] flow@.contains(i) && !flow0.contains(i),
            {
                let i: usize = candidate.params[k];
                assert(candidate.params@.contains(i));
                let ghost before = flow@;
                if !flow.contains(i) {
                    if candidate.param_reaches_return(
                        program,
                        i,
                        &summary,
                        Ghost(nodes@),
                        Ghost(pairs),
                    ) {
                        flow.insert(i);
                        grew = true;
                        assert(flow@.contains(i) && !flow0.contains(i));
                    }
                }
            }
            let ghost summary0 = summary@;
            let ghost wider = flow@;
            summary.insert(f, flow);
            proof {
                let after = pairs_of(summary@);
                assert forall|p: (usize, usize)| #[trigger] after.contains(p) <==> pairs.contains(
                    p,
                ) || (p.0 == f && wider.contains(p.1)) by {}
                assert forall|p: (usize, usize)| after.contains(p) implies least.contains(p) by {
                    if !pairs.contains(p) {
                        assert(reaches_return(*program, nodes@, pairs, f, p.1));
                        assert forall|s: Set<(usize, usize)>| #[trigger]
                            flows_closed(*program, nodes@, s) implies s.contains(p) by {
                            assert forall|q: (usize, usize)| pairs.contains(q) implies s.contains(
                                q,
                            ) by {
                                assert(least.contains(q));
                            }
                            lemma_reaches_return_monotone(
                                *program,
                                nodes@,
                                pairs,
                                s,
                                f,
                                p.1,
                            );
                        }
                    }
                }
                if grew {
                    let i = choose|i: usize| #[trigger] wider.contains(i) && !flow0.contains(i);
                    assert(reaches_return(*program, nodes@, pairs, f, i));
                    lemma_pairs_missing_grows(
                        *program,
                        fns,
                        pairs,
                        after,
                        fns.len(),
                        c as int,
                        i,
                    );
                    lemma_pairs_missing_monotone(*program, fns, round, pairs, fns.len());
                } else {
                    assert(after =~= pairs);
                    assert forall|i: usize| #[trigger]
                        reaches_return(*program, nodes@, pairs, f, i) implies pairs.contains(
                        (f, i),
                    ) by {
                        assert(eligible(*program, *candidate.body, i));
                        assert(candidate.params@.contains(i));
                        let j = choose|j: int|
                            0 <= j < candidate.params@.len() && candidate.params@[j] == i;
                        assert(reaches_return(
                            *program,
                            nodes@,
                            pairs,
                            f,
                            candidate.params@[j],
                        ));
                        assert(wider.contains(i));
                    }
                }
            }
            if grew {
                changed = true;
            }
        }
        proof {
            if !changed {
                assert forall|f: DefId, i: usize| #[trigger]
                    reaches_return(*program, nodes@, round, f, i) implies round.contains(
                    (f, i),
                ) by {
                    let m = choose|m: int| 0 <= m < nodes@.len() && nodes@[m] == f;
                    assert(fns.contains(nodes@[m]));
                    let d = choose|d: int| 0 <= d < fns.len() && fns[d] == f;
                    assert(reaches_return(*program, nodes@, round, fns[d], i));
                }
            }
        }
    }
    proof {
        let pairs = pairs_of(summary@);
        assert(pairs =~= least);
        assert(sets_of(summary@) =~= flow_map(*program, nodes@, least)) by {
            assert forall|g: usize| #[trigger] sets_of(summary@).contains_key(g) implies sets_of(
                summary@,
            )[g] == flow_map(*program, nodes@, least)[g] by {
                assert(sets_of(summary@)[g] =~= sender_taint::row_of(pairs, g));
            }
        }
    }
    summary
}

// ---- seeds ---------------------------------------------------------------

/// A definition is an address type or `String`.
pub open spec fn address_def(program: Program, def_id: DefId) -> bool {
    cosmwasm::string_def(program, def_id) || program.defs@[def_id as int].is_string
        || cosmwasm::addr_def(program, def_id)
}

/// A type is, contains, or references an address type. A type is built from
/// types with smaller indices.
pub open spec fn mentions_address(program: Program, ty: Ty) -> bool
    decreases ty as nat, 1nat, 0nat,
{
    match program.types@[ty as int].kind {
        // Bare `str`, behind a `&str` reference, is address-bearing text.
        TyKind::Str => true,
        TyKind::Ref(inner, _) => inner < ty && mentions_address(program, inner),
        TyKind::Slice(inner) => inner < ty && mentions_address(program, inner),
        TyKind::Array(inner) => inner < ty && mentions_address(program, inner),
        TyKind::Tuple(tys) => some_mention_address(program, tys@, ty),
        TyKind::Adt(def, args) => address_def(program, def) || some_mention_address(
            program,
            args@,
            ty,
        ),
        _ => false,
    }
}

/// One of the given types below `below` mentions an address.
pub open spec fn some_mention_address(program: Program, tys: Seq<Ty>, below: Ty) -> bool
    decreases below as nat, 0nat, tys.len(),
{
    tys.len() > 0 && (some_mention_address(program, tys.drop_last(), below) || (tys.last() < below
        && mentions_address(program, tys.last())))
}

/// Returns whether `ty` is, contains, or references an address type
/// (`cosmwasm_std::Addr` or `String`).
pub fn ty_mentions_address(program: &Program, ty: Ty) -> (mentions: bool)
    requires
        program.wf(),
        ty < program.types@.len(),
    ensures
        mentions == mentions_address(*program, ty),
    decreases ty, 1nat, 0nat,
{
    assert(program.types@[ty as int].kind.wf(program.defs@.len(), ty as nat));
    match &program.types[ty].kind {
        TyKind::Str => true,
        TyKind::Ref(inner, _) => ty_mentions_address(program, *inner),
        TyKind::Slice(inner) => ty_mentions_address(program, *inner),
        TyKind::Array(inner) => ty_mentions_address(program, *inner),
        TyKind::Tuple(tys) => {
            assert(tys@.take(tys@.len() as int) =~= tys@);
            some_ty_mentions_address(program, tys, tys.len(), ty)
        },
        TyKind::Adt(def, args) => {
            assert(args@.take(args@.len() as int) =~= args@);
            // `String` is matched by crate and item name first, with the
            // diagnostic item only as a fallback: the diagnostic-item lookup
            // does not resolve on every toolchain, which would leave `String`
            // and `Option<String>` message fields carrying owner or admin
            // addresses unseeded.
            cosmwasm::is_std_string(program, *def) || program.defs[*def].is_string
                || cosmwasm::is_cosmwasm_addr(program, *def) || some_ty_mentions_address(
                program,
                args,
                args.len(),
                ty,
            )
        },
        _ => false,
    }
}

/// Returns whether one of the first `count` types mentions an address.
fn some_ty_mentions_address(program: &Program, tys: &Vec<Ty>, count: usize, below: Ty) -> (
    mentions: bool)
    requires
        program.wf(),
        below < program.types@.len(),
        count <= tys@.len(),
        forall|i: int| 0 <= i < tys@.len() ==> #[trigger] tys@[i] < below,
    ensures
        mentions == some_mention_address(*program, tys@.take(count as int), below),
    decreases below, 0nat, count,
{
    if count == 0 {
        return false;
    }
    assert(tys@.take(count as int).drop_last() =~= tys@.take(count - 1));
    let last: Ty = tys[count - 1];
    some_ty_mentions_address(program, tys, count - 1, below) || ty_mentions_address(program, last)
}

/// A statement reads an address out of an address-bearing parameter: a field,
/// not the parameter itself, and not out of framework plumbing. A `&mut T`
/// parameter is an in-out buffer for internal state, never attacker input.
pub open spec fn reads_address(program: Program, body: Body, statement: Statement) -> Option<Local> {
    match statement {
        Statement::Assign(assign) => {
            let source = match assign.rvalue {
                Rvalue::Use(Operand::Copy(place)) => Some(place),
                Rvalue::Use(Operand::Move(place)) => Some(place),
                Rvalue::Ref(_, place) => Some(place),
                _ => None,
            };
            match source {
                Some(place) => if 1 <= place.local <= body.arg_count && place.projection@.len() > 0
                    && !framework_param(program, body, place.local) && !(
                program.types@[body.local_decls@[place.local as int] as int].kind matches TyKind::Ref(
                    _,
                    mutable,
                ) && mutable) && mentions_address(program, place.ty) {
                    Some(assign.place.local)
                } else {
                    None
                },
                None => None,
            }
        },
        Statement::Other => None,
    }
}

/// The taint seed of a handler.
pub open spec fn address_seeds(program: Program, body: Body) -> Set<usize> {
    Set::new(
        |l: usize|
            (1 <= l <= body.arg_count && mentions_address(program, body.local_decls@[l as int]))
                || exists|block: int, k: int|
                0 <= block < body.basic_blocks@.len() && 0 <= k
                    < body.basic_blocks@[block].statements@.len() && reads_address(
                    program,
                    body,
                    #[trigger] body.basic_blocks@[block].statements@[k],
                ) == Some(l),
    )
}

/// Returns the local a statement reads an address out of a parameter into.
fn address_read(program: &Program, body: &Body, assign: &Assign) -> (local: Option<Local>)
    requires
        program.wf(),
        body.wf(*program),
        assign.rvalue.wf(*program, body.local_decls@.len()),
    ensures
        local == reads_address(*program, *body, Statement::Assign(*assign)),
{
    let source = match &assign.rvalue {
        Rvalue::Use(Operand::Copy(place)) => place,
        Rvalue::Use(Operand::Move(place)) => place,
        Rvalue::Ref(_, place) => place,
        _ => {
            return None;
        },
    };
    // Only a *field read* out of a parameter, not the parameter itself (already
    // covered by its type).
    let root: Local = source.local;
    if root < 1 || root > body.arg_count || source.projection.len() == 0 {
        return None;
    }
    // Framework parameters are not attacker-controlled sources.

    if is_framework_param(program, body, root) {
        return None;
    }
    // A `&mut T` parameter is an in-out buffer for internal state (a struct the
    // caller loaded from storage and threads in for mutation, as in
    // `cfg: &mut Config`), never attacker input. CosmWasm message data always
    // arrives as owned leaf parameters, never behind `&mut`, so reading an
    // address field out of such a struct must not seed attacker taint.

    if let TyKind::Ref(_, mutable) = &program.types[body.local_decls[root]].kind {
        if *mutable {
            return None;
        }
    }
    if ty_mentions_address(program, source.ty) {
        Some(assign.place.local)
    } else {
        None
    }
}

/// The taint seed of a handler: its address-typed parameters, plus the locals
/// that read an address out of an address-bearing parameter.
#[verifier::loop_isolation(false)]
pub fn address_seed(program: &Program, body: &Body) -> (seed: DenseSet)
    requires
        program.wf(),
        body.wf(*program),
    ensures
        seed@ == address_seeds(*program, *body),
{
    let mut seed = DenseSet::new();
    let ghost n = body.local_decls@.len();

    // Address-typed parameters are the direct sources. The framework types
    // need no exclusion here: none of them mentions an address, because
    // `MessageInfo`, `Deps` and `Env` carry their addresses in fields rather
    // than in type arguments.
    for idx in 0..body.arg_count
        invariant
            forall|l: usize| #[trigger]
                seed@.contains(l) <==> 1 <= l <= idx && mentions_address(
                    *program,
                    body.local_decls@[l as int],
                ),
    {
        let local: Local = idx + 1;
        if ty_mentions_address(program, body.local_decls[local]) {
            seed.insert(local);
        }
    }

    for block in 0..body.basic_blocks.len()
        invariant
            forall|l: usize| #[trigger]
                seed@.contains(l) ==> address_seeds(*program, *body).contains(l),
            forall|l: usize|
                1 <= l <= body.arg_count && mentions_address(
                    *program,
                    body.local_decls@[l as int],
                ) ==> #[trigger] seed@.contains(l),
            forall|b: int, k: int|
                0 <= b < block && 0 <= k < body.basic_blocks@[b].statements@.len() ==> (reads_address(
                    *program,
                    *body,
                    #[trigger] body.basic_blocks@[b].statements@[k],
                ) matches Some(l) ==> seed@.contains(l)),
    {
        let data = &body.basic_blocks[block];
        assert(data.wf(*program, n, body.basic_blocks@.len()));
        for k in 0..data.statements.len()
            invariant
                forall|l: usize| #[trigger]
                    seed@.contains(l) ==> address_seeds(*program, *body).contains(l),
                forall|l: usize|
                    1 <= l <= body.arg_count && mentions_address(
                        *program,
                        body.local_decls@[l as int],
                    ) ==> #[trigger] seed@.contains(l),
                forall|b: int, j: int|
                    0 <= b <= block && 0 <= j < (if b == block {
                        k as int
                    } else {
                        body.basic_blocks@[b].statements@.len() as int
                    }) ==> (reads_address(
                        *program,
                        *body,
                        #[trigger] body.basic_blocks@[b].statements@[j],
                    ) matches Some(l) ==> seed@.contains(l)),
        {
            let ghost here = body.basic_blocks@[block as int].statements@[k as int];
            assert(data.statements@[k as int].wf(*program, n));
            if let Statement::Assign(assign) = &data.statements[k] {
                if let Some(local) = address_read(program, body, assign) {
                    assert(reads_address(*program, *body, here) == Some(local));
                    seed.insert(local);
                }
            }
        }
    }
    assert(seed@ =~= address_seeds(*program, *body));
    seed
}

/// The type of a taint origin as a report shows it.
pub open spec fn origin_ty_text(program: Program, body: Body, local: Local) -> Seq<char> {
    mir_util::normalized(
        program.types@[sender_taint::local_base_ty(program, body, local) as int].debug@,
    )
}

/// The normalized type of a taint origin, for the report.
pub fn origin_type(program: &Program, body: &Body, local: Local) -> (shown: String)
    requires
        program.wf(),
        body.wf(*program),
        local < body.local_decls@.len(),
    ensures
        shown@ == origin_ty_text(*program, *body, local),
{
    let ty: Ty = body.local_decls[local];
    assert(program.types@[ty as int].kind.wf(program.defs@.len(), ty as nat));
    let base_ty: Ty = match program.types[ty].kind {
        TyKind::Ref(inner, _) => inner,
        _ => ty,
    };
    mir_util::normalize_ty_str(program.types[base_ty].debug.as_str())
}

} // verus!
