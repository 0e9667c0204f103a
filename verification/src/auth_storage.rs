//! Stage 4: auth-storage marking.
//!
//! A sender comparison names the principal the caller is checked against, but
//! only indirectly: as a local. This stage traces that counterpart backwards
//! through copies, references and `?` glue to the call it came from. Where that
//! call is a `cw-storage-plus` load, the storage constant it reads is the
//! authorization state of the contract, and the corresponding inventory item is
//! marked authorization-relevant.
//!
//! Stage 6 reports only writes to items marked here, which is what keeps the
//! analysis focused on access control rather than on every storage write.

use crate::call_graph;
use crate::cosmwasm;
use crate::dense::{PairMap, PairSet};
use crate::mir::{
    BasicBlock, BasicBlockData, Body, DefId, Local, Location, Operand, Program, Rvalue, Statement,
    Terminator,
};
use crate::mir_util;
use crate::sender_comparisons;
use crate::sender_comparisons::{ComparisonView, SenderComparison};
use crate::storage_inventory;
use crate::storage_inventory::{resolve_storage_item, ConstDefIndex, ConstTypeIndex};
use vstd::prelude::*;

verus! {

/// A storage item that a sender comparison was seen to read.
#[derive(Debug, Clone)]
pub struct AuthStateVariable {
    /// Name of the storage constant, or its type when the constant could not
    /// be resolved.
    pub symbolic_name: String,
    /// The resolved storage constant. `None` when only the type-based fallback
    /// applied, in which case no inventory item can be marked.
    pub storage_def_id: Option<DefId>,
    /// Location of the load the comparison's counterpart originates from.
    pub load_location: Location,
}

/// What an [`AuthStateVariable`] holds.
#[verifier::ext_equal]
pub ghost struct AuthVariableView {
    pub symbolic_name: Seq<char>,
    pub storage_def_id: Option<DefId>,
    pub load_location: Location,
}

impl View for AuthStateVariable {
    type V = AuthVariableView;

    open spec fn view(&self) -> AuthVariableView {
        AuthVariableView {
            symbolic_name: self.symbolic_name@,
            storage_def_id: self.storage_def_id,
            load_location: self.load_location,
        }
    }
}

/// What a list of auth-state variables holds.
pub open spec fn variable_views(variables: Seq<AuthStateVariable>) -> Seq<AuthVariableView> {
    variables.map_values(|variable: AuthStateVariable| variable@)
}

// ---- value sources -------------------------------------------------------

/// Where the value in a local came from, as far as the backward trace needs to
/// distinguish it.
#[derive(Debug)]
enum LocalSource {
    /// The local copies, moves, borrows or casts another local.
    CopiedFrom(Local),
    /// The local receives the return value of a call.
    CallReturn {
        callee: Option<DefId>,
        arg_locals: Vec<Option<Local>>,
        location: Location,
    },
}

/// The return value of a call as a value source.
#[verifier::ext_equal]
pub ghost struct CallReturnView {
    pub callee: Option<DefId>,
    pub arg_locals: Seq<Option<Local>>,
    pub location: Location,
}

/// Where the value in a local came from.
pub ghost enum SourceView {
    CopiedFrom(Local),
    CallReturn(CallReturnView),
}

impl View for LocalSource {
    type V = SourceView;

    closed spec fn view(&self) -> SourceView {
        match self {
            LocalSource::CopiedFrom(local) => SourceView::CopiedFrom(*local),
            LocalSource::CallReturn { callee, arg_locals, location } => SourceView::CallReturn(
                CallReturnView {
                    callee: *callee,
                    arg_locals: arg_locals@,
                    location: *location,
                },
            ),
        }
    }
}

/// The local an rvalue copies, moves, borrows or casts.
pub open spec fn copied_local(rvalue: Rvalue) -> Option<Local> {
    match rvalue {
        Rvalue::Use(Operand::Copy(place)) => Some(place.local),
        Rvalue::Use(Operand::Move(place)) => Some(place.local),
        Rvalue::Ref(_, place) => Some(place.local),
        Rvalue::RawPtr(place) => Some(place.local),
        Rvalue::Cast(op) => mir_util::local_of(op),
        _ => None,
    }
}

/// The source that the last of the first `count` statements of a block to copy
/// something into `local` gives it.
pub open spec fn copied_in(data: BasicBlockData, local: Local, count: nat) -> Option<SourceView>
    decreases count,
{
    if count == 0 {
        None
    } else {
        match data.statements@[count - 1] {
            Statement::Assign(assign) => match copied_local(assign.rvalue) {
                Some(from) => if assign.place.local == local {
                    Some(SourceView::CopiedFrom(from))
                } else {
                    copied_in(data, local, (count - 1) as nat)
                },
                None => copied_in(data, local, (count - 1) as nat),
            },
            Statement::Other => copied_in(data, local, (count - 1) as nat),
        }
    }
}

/// Where the value of `local` at the end of a block came from, as far as the
/// block itself tells.
pub open spec fn source_in(
    program: Program,
    body: Body,
    block: BasicBlock,
    local: Local,
) -> Option<SourceView> {
    if block >= body.basic_blocks@.len() {
        None
    } else {
        let data = body.basic_blocks@[block as int];
        let copied = copied_in(data, local, data.statements@.len());
        match data.terminator {
            Terminator::Call(call) => if call.destination.local == local {
                Some(
                    SourceView::CallReturn(
                        CallReturnView {
                            callee: mir_util::callee_of(program, call.func),
                            arg_locals: mir_util::operand_locals_of(call.args@),
                            location: call_graph::terminator_location(body, block as int),
                        },
                    ),
                )
            } else {
                copied
            },
            _ => copied,
        }
    }
}

/// Upper bound on the backward trace: how many local-and-block steps are
/// followed before the search for the originating load is abandoned.
pub const MAX_TRACE_STEPS: usize = 24;

/// The call that the value of one of the queued locals came from, found within
/// `steps` steps. The last entry of the queue is followed first, and none is
/// followed twice. A copy leads to the copied local, forwarding glue to its
/// first argument, and a local that the block does not define to every
/// predecessor of the block.
pub open spec fn traced(
    program: Program,
    body: Body,
    queue: Seq<(usize, usize)>,
    visited: Set<(usize, usize)>,
    steps: nat,
) -> Option<CallReturnView>
    decreases steps,
{
    if steps == 0 || queue.len() == 0 {
        None
    } else {
        let (block, local) = queue.last();
        let rest = queue.drop_last();
        let left = (steps - 1) as nat;
        if visited.contains((block, local)) {
            traced(program, body, rest, visited, left)
        } else {
            let seen = visited.insert((block, local));
            match source_in(program, body, block, local) {
                Some(SourceView::CallReturn(call)) => {
                    let glue = call.callee matches Some(d) && cosmwasm::is_glue(program, d);
                    if !glue {
                        Some(call)
                    } else if call.arg_locals.len() == 0 {
                        None
                    } else {
                        match call.arg_locals[0] {
                            Some(next) => traced(
                                program,
                                body,
                                rest.push((call.location.block, next)),
                                seen,
                                left,
                            ),
                            None => None,
                        }
                    }
                },
                Some(SourceView::CopiedFrom(next)) => traced(
                    program,
                    body,
                    rest.push((block, next)),
                    seen,
                    left,
                ),
                None => traced(
                    program,
                    body,
                    rest + mir_util::preds_of(body, block).map_values(
                        |pred: BasicBlock| (pred, local),
                    ),
                    seen,
                    left,
                ),
            }
        }
    }
}

/// The call that the value of `local` in `block` came from.
pub open spec fn origin_call(
    program: Program,
    body: Body,
    local: Local,
    block: BasicBlock,
) -> Option<CallReturnView> {
    traced(program, body, seq![(block, local)], Set::empty(), MAX_TRACE_STEPS as nat)
}

/// The backward trace never ends at forwarding glue: it steps through it to the
/// call behind, and stops at every other call, a storage load among them.
pub proof fn lemma_trace_steps_through_glue(
    program: Program,
    body: Body,
    queue: Seq<(usize, usize)>,
    visited: Set<(usize, usize)>,
    steps: nat,
)
    ensures
        traced(program, body, queue, visited, steps) matches Some(call) ==> !(
        call.callee matches Some(d) && cosmwasm::is_glue(program, d)),
    decreases steps,
{
    if steps > 0 && queue.len() > 0 {
        let (block, local) = queue.last();
        let rest = queue.drop_last();
        let left = (steps - 1) as nat;
        if visited.contains((block, local)) {
            lemma_trace_steps_through_glue(program, body, rest, visited, left);
        } else {
            let seen = visited.insert((block, local));
            match source_in(program, body, block, local) {
                Some(SourceView::CallReturn(call)) => {
                    let glue = call.callee matches Some(d) && cosmwasm::is_glue(program, d);
                    if glue && call.arg_locals.len() > 0 {
                        if let Some(next) = call.arg_locals[0] {
                            lemma_trace_steps_through_glue(
                                program,
                                body,
                                rest.push((call.location.block, next)),
                                seen,
                                left,
                            );
                        }
                    }
                },
                Some(SourceView::CopiedFrom(next)) => {
                    lemma_trace_steps_through_glue(
                        program,
                        body,
                        rest.push((block, next)),
                        seen,
                        left,
                    );
                },
                None => {
                    lemma_trace_steps_through_glue(
                        program,
                        body,
                        rest + mir_util::preds_of(body, block).map_values(
                            |pred: BasicBlock| (pred, local),
                        ),
                        seen,
                        left,
                    );
                },
            }
        }
    }
}

/// Per-body index of the value sources of each local, kept per basic block
/// because the trace walks the control-flow graph backwards.
struct LocalSourceMap {
    by_block_local: PairMap<LocalSource>,
}

impl LocalSourceMap {
    /// The index belongs to this body.
    spec fn indexes(self, program: Program, body: Body) -> bool {
        forall|block: usize, local: usize|
            (#[trigger] self.by_block_local@.contains_key((block, local)) <==> source_in(
                program,
                body,
                block,
                local,
            ) is Some) && (self.by_block_local@.contains_key((block, local)) ==> source_in(
                program,
                body,
                block,
                local,
            ) == Some(self.by_block_local@[(block, local)]@))
    }

    #[verifier::loop_isolation(false)]
    fn build(program: &Program, body: &Body) -> (sources: Self)
        requires
            program.wf(),
            body.wf(*program),
        ensures
            sources.indexes(*program, *body),
    {
        let mut by_block_local: PairMap<LocalSource> = PairMap::new();
        for block in 0..body.basic_blocks.len()
            invariant
                forall|b: usize, l: usize|
                    (#[trigger] by_block_local@.contains_key((b, l)) <==> b < block && source_in(
                        *program,
                        *body,
                        b,
                        l,
                    ) is Some) && (by_block_local@.contains_key((b, l)) ==> source_in(
                        *program,
                        *body,
                        b,
                        l,
                    ) == Some(by_block_local@[(b, l)]@)),
        {
            let data = &body.basic_blocks[block];
            assert(data.wf(*program, body.local_decls@.len(), body.basic_blocks@.len()));
            for k in 0..data.statements.len()
                invariant
                    forall|b: usize, l: usize|
                        (#[trigger] by_block_local@.contains_key((b, l)) <==> (b < block
                            && source_in(*program, *body, b, l) is Some) || (b == block
                            && copied_in(*data, l, k as nat) is Some)) && (
                        by_block_local@.contains_key((b, l)) ==> (if b < block {
                            source_in(*program, *body, b, l)
                        } else {
                            copied_in(*data, l, k as nat)
                        }) == Some(by_block_local@[(b, l)]@)),
            {
                if let Statement::Assign(assign) = &data.statements[k] {
                    let from = match &assign.rvalue {
                        Rvalue::Use(Operand::Copy(place)) => Some(place.local),
                        Rvalue::Use(Operand::Move(place)) => Some(place.local),
                        Rvalue::Ref(_, place) => Some(place.local),
                        Rvalue::RawPtr(place) => Some(place.local),
                        Rvalue::Cast(op) => mir_util::operand_local(op),
                        _ => None,
                    };
                    assert(from == copied_local(assign.rvalue));
                    if let Some(from) = from {
                        by_block_local.insert(
                            block,
                            assign.place.local,
                            LocalSource::CopiedFrom(from),
                        );
                    }
                }
            }
            if let Terminator::Call(call) = &data.terminator {
                proof {
                    mir_util::lemma_operand_wf(*program, call.func, body.local_decls@.len());
                }
                by_block_local.insert(
                    block,
                    call.destination.local,
                    LocalSource::CallReturn {
                        callee: mir_util::callee_def_id(program, &call.func),
                        arg_locals: mir_util::operand_locals(&call.args),
                        location: Location { block, statement_index: data.statements.len() },
                    },
                );
            }
        }
        LocalSourceMap { by_block_local }
    }

    /// Follows `start_local` backwards from `start_block` until it reaches the
    /// call that produced its value, and returns that call's callee, arguments
    /// and location.
    ///
    /// Within a block the assignment chain is followed directly; where the
    /// local is not defined in the block, the search continues in all
    /// predecessors. Forwarding glue (the `?` desugaring, `unwrap`, `map_err`,
    /// deref coercions) is stepped through by continuing with the call's first
    /// argument, so that a load behind `STATE.load(store)?` is still found.
    #[verifier::loop_isolation(false)]
    fn trace_to_call(
        &self,
        program: &Program,
        start_local: Local,
        start_block: BasicBlock,
        body: &Body,
    ) -> (found: Option<(Option<DefId>, &Vec<Option<Local>>, Location)>)
        requires
            program.wf(),
            body.wf(*program),
            self.indexes(*program, *body),
            start_block < body.basic_blocks@.len(),
        ensures
            (match found {
                Some((callee, arg_locals, location)) => Some(
                    CallReturnView { callee, arg_locals: arg_locals@, location },
                ),
                None => None,
            }) == origin_call(*program, *body, start_local, start_block),
    {
        proof {
            mir_util::lemma_successors_exist(*program, *body);
        }
        let predecessors = mir_util::predecessors(body);
        let mut queue: Vec<(BasicBlock, Local)> = vec![(start_block, start_local)];
        let mut visited = PairSet::new();
        assert(queue@ =~= seq![(start_block, start_local)]);
        for step in 0..MAX_TRACE_STEPS
            invariant
                traced(
                    *program,
                    *body,
                    queue@,
                    visited@,
                    (MAX_TRACE_STEPS - step) as nat,
                ) == origin_call(*program, *body, start_local, start_block),
                forall|i: int|
                    0 <= i < queue@.len() ==> (#[trigger] queue@[i]).0 < body.basic_blocks@.len(),
        {
            let ghost queue0 = queue@;
            let ghost visited0 = visited@;
            if queue.len() == 0 {
                return None;
            }
            let (block, local) = queue.pop().unwrap();
            assert(queue0.last() == (block, local));
            assert(queue0[queue0.len() - 1].0 < body.basic_blocks@.len());
            assert(queue@ =~= queue0.drop_last());
            if visited.insert(block, local) {
                match self.by_block_local.get(block, local) {
                    Some(LocalSource::CallReturn { callee, arg_locals, location }) => {
                        assert(source_in(*program, *body, block, local) == Some(
                            SourceView::CallReturn(
                                CallReturnView {
                                    callee: *callee,
                                    arg_locals: arg_locals@,
                                    location: *location,
                                },
                            ),
                        ));
                        proof {
                            lemma_source_wf(*program, *body, block, local);
                        }
                        let glue = match callee {
                            Some(d) => cosmwasm::is_forwarding_glue_fn(program, *d),
                            None => false,
                        };
                        if glue {
                            if arg_locals.len() == 0 {
                                return None;
                            }
                            match arg_locals[0] {
                                Some(next) => {
                                    queue.push((location.block, next));
                                },
                                None => {
                                    return None;
                                },
                            }
                        } else {
                            return Some((*callee, arg_locals, *location));
                        }
                    },
                    Some(LocalSource::CopiedFrom(next)) => {
                        queue.push((block, *next));
                    },
                    None => {
                        // Not defined in this block: continue in every
                        // predecessor.
                        let ghost start = queue@;
                        let preds = &predecessors[block];
                        let ghost entries = mir_util::preds_of(*body, block).map_values(
                            |pred: BasicBlock| (pred, local),
                        );
                        assert(start =~= start + entries.take(0));
                        for i in 0..preds.len()
                            invariant
                                queue@ == start + entries.take(i as int),
                                forall|k: int|
                                    0 <= k < queue@.len() ==> (#[trigger] queue@[k]).0
                                        < body.basic_blocks@.len(),
                        {
                            proof {
                                mir_util::lemma_preds(*body, block, preds@[i as int]);
                                assert(mir_util::preds_of(*body, block).contains(preds@[i as int]));
                            }
                            queue.push((preds[i], local));
                            assert(queue@ =~= start + entries.take(i + 1));
                        }
                        assert(entries.take(entries.len() as int) =~= entries);
                    },
                }
            } else {
                assert(visited@ =~= visited0);
            }
        }
        None
    }
}

/// A call as a value source names a callee, a block and locals that exist.
proof fn lemma_source_wf(program: Program, body: Body, block: BasicBlock, local: Local)
    requires
        program.wf(),
        body.wf(program),
    ensures
        source_in(program, body, block, local) matches Some(SourceView::CallReturn(call)) ==> {
            &&& call.location.block < body.basic_blocks@.len()
            &&& call.callee matches Some(d) ==> d < program.defs@.len()
            &&& forall|i: int|
                0 <= i < call.arg_locals.len() ==> (#[trigger] call.arg_locals[i] matches Some(l)
                    ==> l < body.local_decls@.len())
        },
{
    if block < body.basic_blocks@.len() {
        let data = body.basic_blocks@[block as int];
        assert(data.wf(program, body.local_decls@.len(), body.basic_blocks@.len()));
        lemma_copied_in(data, local, data.statements@.len());
        if let Terminator::Call(call) = data.terminator {
            mir_util::lemma_operand_wf(program, call.func, body.local_decls@.len());
            let args = mir_util::operand_locals_of(call.args@);
            assert forall|i: int| 0 <= i < args.len() implies (#[trigger] args[i] matches Some(l)
                ==> l < body.local_decls@.len()) by {
                assert(call.args@[i].wf(program, body.local_decls@.len()));
            }
        }
    }
}

/// Statements give copies as value sources only.
proof fn lemma_copied_in(data: BasicBlockData, local: Local, count: nat)
    ensures
        copied_in(data, local, count) matches Some(source) ==> source is CopiedFrom,
    decreases count,
{
    if count > 0 {
        lemma_copied_in(data, local, (count - 1) as nat);
    }
}

/// What a traced call names exists.
proof fn lemma_traced_wf(
    program: Program,
    body: Body,
    queue: Seq<(usize, usize)>,
    visited: Set<(usize, usize)>,
    steps: nat,
)
    requires
        program.wf(),
        body.wf(program),
    ensures
        traced(program, body, queue, visited, steps) matches Some(call) ==> {
            &&& call.callee matches Some(d) ==> d < program.defs@.len()
            &&& forall|i: int|
                0 <= i < call.arg_locals.len() ==> (#[trigger] call.arg_locals[i] matches Some(l)
                    ==> l < body.local_decls@.len())
        },
    decreases steps,
{
    if steps > 0 && queue.len() > 0 {
        let (block, local) = queue.last();
        let rest = queue.drop_last();
        let left = (steps - 1) as nat;
        if visited.contains((block, local)) {
            lemma_traced_wf(program, body, rest, visited, left);
        } else {
            let seen = visited.insert((block, local));
            match source_in(program, body, block, local) {
                Some(SourceView::CallReturn(call)) => {
                    lemma_source_wf(program, body, block, local);
                    if call.arg_locals.len() > 0 {
                        if let Some(next) = call.arg_locals[0] {
                            lemma_traced_wf(
                                program,
                                body,
                                rest.push((call.location.block, next)),
                                seen,
                                left,
                            );
                        }
                    }
                },
                Some(SourceView::CopiedFrom(next)) => {
                    lemma_traced_wf(program, body, rest.push((block, next)), seen, left);
                },
                None => {
                    lemma_traced_wf(
                        program,
                        body,
                        rest + mir_util::preds_of(body, block).map_values(
                            |pred: BasicBlock| (pred, local),
                        ),
                        seen,
                        left,
                    );
                },
            }
        }
    }
}

// ---- the items comparisons read ------------------------------------------

/// The storage item that the counterpart of a comparison was loaded from.
pub open spec fn auth_variable(
    program: Program,
    body: Body,
    comparison: ComparisonView,
) -> Option<AuthVariableView> {
    match origin_call(program, body, comparison.compared_local, comparison.location.block) {
        Some(call) => if (call.callee matches Some(d) && cosmwasm::is_load(program, d))
            && call.arg_locals.len() > 0 {
            match call.arg_locals[0] {
                Some(receiver) => Some(
                    AuthVariableView {
                        symbolic_name: storage_inventory::storage_name(program, body, receiver),
                        storage_def_id: storage_inventory::storage_def(program, body, receiver),
                        load_location: call.location,
                    },
                ),
                None => None,
            }
        } else {
            None
        },
        None => None,
    }
}

/// The storage items that the counterparts of the comparisons were loaded from.
pub open spec fn auth_variables(
    program: Program,
    body: Body,
    comparisons: Seq<ComparisonView>,
) -> Seq<AuthVariableView>
    decreases comparisons.len(),
{
    if comparisons.len() == 0 {
        Seq::empty()
    } else {
        let before = auth_variables(program, body, comparisons.drop_last());
        match auth_variable(program, body, comparisons.last()) {
            Some(variable) => before.push(variable),
            None => before,
        }
    }
}

/// Traces the counterpart of every comparison in `comparisons` back to a
/// storage load and reports the items those loads read.
#[verifier::loop_isolation(false)]
pub fn find_auth_state_variables(
    program: &Program,
    body: &Body,
    comparisons: &Vec<SenderComparison>,
    const_defs: &ConstDefIndex,
    const_types: &ConstTypeIndex,
) -> (variables: Vec<AuthStateVariable>)
    requires
        program.wf(),
        body.wf(*program),
        sender_comparisons::comparisons_wf(
            *body,
            sender_comparisons::comparison_views(comparisons@),
        ),
        const_defs.indexes(*program, *body),
        const_types.indexes(*program),
    ensures
        variable_views(variables@) == auth_variables(
            *program,
            *body,
            sender_comparisons::comparison_views(comparisons@),
        ),
{
    let ghost views = sender_comparisons::comparison_views(comparisons@);
    let mut result: Vec<AuthStateVariable> = Vec::new();
    assert(variable_views(result@) =~= Seq::<AuthVariableView>::empty());
    assert(views.take(0) =~= Seq::<ComparisonView>::empty());
    if comparisons.len() == 0 {
        assert(views =~= Seq::<ComparisonView>::empty());
        return result;
    }
    let sources = LocalSourceMap::build(program, body);
    for i in 0..comparisons.len()
        invariant
            variable_views(result@) == auth_variables(*program, *body, views.take(i as int)),
    {
        let comparison = &comparisons[i];
        assert(views[i as int] == comparison@);
        assert(views.take(i + 1).drop_last() =~= views.take(i as int));
        assert(views.take(i + 1).last() == comparison@);
        proof {
            lemma_traced_wf(
                *program,
                *body,
                seq![(comparison.location.block, comparison.compared_local)],
                Set::empty(),
                MAX_TRACE_STEPS as nat,
            );
        }
        let traced = sources.trace_to_call(
            program,
            comparison.compared_local,
            comparison.location.block,
            body,
        );
        if let Some((callee, arg_locals, location)) = traced {
            // Only a `cw-storage-plus` load yields an authorization state.
            let loads = match callee {
                Some(d) => cosmwasm::is_storage_load_fn(program, d),
                None => false,
            };
            if loads && arg_locals.len() > 0 {
                // Argument 0 of the load is the receiver, i.e. the storage
                // constant.
                if let Some(receiver) = arg_locals[0] {
                    let (symbolic_name, storage_def_id) = resolve_storage_item(
                        program,
                        body,
                        receiver,
                        const_defs,
                        const_types,
                    );
                    let variable = AuthStateVariable {
                        symbolic_name,
                        storage_def_id,
                        load_location: location,
                    };
                    assert(Some(variable@) == auth_variable(*program, *body, comparison@));
                    let ghost before = result@;
                    result.push(variable);
                    assert(variable_views(result@) =~= variable_views(before).push(variable@));
                }
            }
        }
    }
    assert(views.take(views.len() as int) =~= views);
    result
}

} // verus!
