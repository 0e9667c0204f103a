//! Stage 3, second half: sender checks hidden behind a predicate.
//!
//! Not every authorization check is a comparison in the handler itself. The
//! dominant CosmWasm idioms put it behind a boolean helper
//! (`if !is_trusted(&info.sender, &config) { return Err(..) }`) or inside the
//! closure of an `Option` combinator
//! (`config.owner.map_or(true, |o| o != info.sender)`). In both cases the
//! comparison is found by stage 3, but in the *helper's* body, while the branch
//! that enforces it sits in the caller.
//!
//! This module bridges that gap by synthesising a [`SenderComparison`] at the
//! call site, whose result local is the call's destination. The gating of
//! stage 5 treats the branch on that result exactly like a direct
//! `if info.sender != owner` guard.

use crate::call_graph;
use crate::cosmwasm;
use crate::dense::{DenseMap, DenseSet};
use crate::mir::{
    AggregateKind, Assign, BinOp, Body, Call, DefId, Local, Location, Operand, Program, Rvalue,
    Statement, Terminator, Ty, TyKind,
};
use crate::mir_util;
use crate::sender_comparisons;
use crate::sender_comparisons::{comparison_result_local, ComparisonView, SenderComparison};
use crate::text;
use crate::text::str_eq;
use crate::writes;
use crate::writes::{build_write_map, Written};
use vstd::prelude::*;

verus! {

// ---- functions whose result is a comparison ------------------------------

/// A statement assigns `_0` as a whole from a value that `local` is, or that is
/// built from `local`.
pub open spec fn feeds_at(statement: Statement, local: Local) -> bool {
    match statement {
        Statement::Assign(assign) => assign.place.local == 0 && assign.place.projection@.len() == 0
            && match assign.rvalue {
            Rvalue::Use(op) => mir_util::local_of(op) == Some(local),
            Rvalue::Aggregate(_, operands) => mir_util::read_locals(operands@).contains(local),
            _ => false,
        },
        Statement::Other => false,
    }
}

/// A local flows into the return place in one hop.
pub open spec fn feeds_return(body: Body, local: Local) -> bool {
    exists|block: int, k: int|
        0 <= block < body.basic_blocks@.len() && 0 <= k
            < body.basic_blocks@[block].statements@.len() && feeds_at(
            #[trigger] body.basic_blocks@[block].statements@[k],
            local,
        )
}

/// The locals that flow into the return place in one hop, either directly
/// (`_0 = move _tmp`) or wrapped in an aggregate. The latter covers the very
/// common `fn is_owner(..) -> StdResult<bool>` shape, where the comparison
/// result is returned as `_0 = Ok(_tmp)`.
#[verifier::loop_isolation(false)]
fn return_value_feeders(body: &Body) -> (feeders: DenseSet)
    ensures
        forall|l: Local| #[trigger] feeders@.contains(l) == feeds_return(*body, l),
{
    let mut feeders = DenseSet::new();
    for block in 0..body.basic_blocks.len()
        invariant
            forall|l: Local| #[trigger] feeders@.contains(l) ==> feeds_return(*body, l),
            forall|l: Local, b: int, k: int|
                0 <= b < block && 0 <= k < body.basic_blocks@[b].statements@.len() && #[trigger]
                    feeds_at(body.basic_blocks@[b].statements@[k], l) ==> feeders@.contains(l),
    {
        let data = &body.basic_blocks[block];
        for k in 0..data.statements.len()
            invariant
                forall|l: Local| #[trigger] feeders@.contains(l) ==> feeds_return(*body, l),
                forall|l: Local, b: int, j: int|
                    0 <= b <= block && 0 <= j < (if b == block {
                        k as int
                    } else {
                        body.basic_blocks@[b].statements@.len() as int
                    }) && #[trigger] feeds_at(body.basic_blocks@[b].statements@[j], l)
                        ==> feeders@.contains(l),
        {
            let ghost here = body.basic_blocks@[block as int].statements@[k as int];
            if let Statement::Assign(assign) = &data.statements[k] {
                if assign.place.local == 0 && assign.place.projection.len() == 0 {
                    let locals = match &assign.rvalue {
                        Rvalue::Use(op) => match mir_util::operand_local(op) {
                            Some(l) => vec![l],
                            None => Vec::new(),
                        },
                        // `Ok(cmp)` / `Some(cmp)`: predicate helpers that return
                        // a fallible bool and are called with `?`.
                        Rvalue::Aggregate(_, operands) => mir_util::read_operand_locals(operands),
                        _ => Vec::new(),
                    };
                    proof {
                        assert forall|l: Local| #[trigger] locals@.contains(l) == feeds_at(
                            here,
                            l,
                        ) by {
                            if feeds_at(here, l) && assign.rvalue is Use {
                                assert(locals@[0] == l);
                            }
                        }
                    }
                    for i in 0..locals.len()
                        invariant
                            forall|l: Local| #[trigger]
                                feeders@.contains(l) ==> feeds_return(*body, l),
                            forall|l: Local, b: int, j: int|
                                0 <= b <= block && 0 <= j < (if b == block {
                                    k as int
                                } else {
                                    body.basic_blocks@[b].statements@.len() as int
                                }) && #[trigger] feeds_at(body.basic_blocks@[b].statements@[j], l)
                                    ==> feeders@.contains(l),
                            forall|j: int|
                                0 <= j < i ==> feeders@.contains(#[trigger] locals@[j]),
                    {
                        assert(locals@.contains(locals@[i as int]));
                        assert(feeds_at(here, locals@[i as int]));
                        feeders.insert(locals[i]);
                    }
                    assert forall|l: Local| feeds_at(here, l) implies feeders@.contains(l) by {
                        assert(locals@.contains(l));
                        let j = choose|j: int| 0 <= j < locals@.len() && locals@[j] == l;
                        assert(feeders@.contains(locals@[j]));
                    }
                }
            }
        }
    }
    assert forall|l: Local| #[trigger] feeders@.contains(l) == feeds_return(*body, l) by {
        if feeds_return(*body, l) {
            let (block, k) = choose|block: int, k: int|
                0 <= block < body.basic_blocks@.len() && 0 <= k
                    < body.basic_blocks@[block].statements@.len() && feeds_at(
                    #[trigger] body.basic_blocks@[block].statements@[k],
                    l,
                );
            assert(feeds_at(body.basic_blocks@[block].statements@[k], l));
        }
    }
    feeders
}

/// A value holds no boolean of its own: it has no fields, or it reports a failure.
pub open spec fn holds_no_answer(program: Program, rvalue: Rvalue) -> bool {
    rvalue matches Rvalue::Aggregate(kind, operands) && (operands@.len() == 0 || (
    kind matches AggregateKind::Adt(def, variant) && variant != 0
        && program.defs@[def as int].is_result))
}

/// A call passes a failure on, as the desugaring of `?` does.
pub open spec fn passes_failure_on(program: Program, call: Call) -> bool {
    mir_util::callee_of(program, call.func) matches Some(d) && cosmwasm::name_of(program, d)
        == "from_residual"@
}

/// An assignment leaves the answer of the function to `result`: it does not write
/// the return place, makes it of `result`, or gives it no boolean.
pub open spec fn assign_leaves_answer(program: Program, assign: Assign, result: Local) -> bool {
    assign.place.local != 0 || feeds_at(Statement::Assign(assign), result) || (
    assign.place.projection@.len() == 0 && holds_no_answer(program, assign.rvalue))
}

/// Point `k` of a block, its terminator being the last one, leaves the answer of
/// the function to `result`.
pub open spec fn leaves_answer(
    program: Program,
    body: Body,
    block: int,
    k: int,
    result: Local,
) -> bool {
    let data = body.basic_blocks@[block];
    if k < data.statements@.len() {
        writes::lent_at(body, block, k) != Some(0usize) && match data.statements@[k] {
            Statement::Assign(assign) => assign_leaves_answer(program, assign, result),
            Statement::Other => true,
        }
    } else {
        match data.terminator {
            Terminator::Call(call) => call.destination.local != 0 || passes_failure_on(
                program,
                call,
            ),
            _ => true,
        }
    }
}

/// Every point of the blocks below `block`, and of the first `k` points of
/// `block`, leaves the answer of the function to `result`.
pub open spec fn answer_left(
    program: Program,
    body: Body,
    result: Local,
    block: nat,
    k: nat,
) -> bool {
    forall|b: int, j: int|
        writes::stands_before(body, b, j, block, k) ==> #[trigger] leaves_answer(
            program,
            body,
            b,
            j,
            result,
        )
}

/// The answer of a function is `result`: that is written at a single point, and
/// it is the return place or all the return place is made of, failures aside.
pub open spec fn answers_with(program: Program, body: Body, result: Local) -> bool {
    &&& writes::writes_of(program, body).contains_key(result) && writes::writes_of(program, body)[result] is Once
    &&& result == 0 || (feeds_return(body, result) && answer_left(
        program,
        body,
        result,
        body.basic_blocks@.len(),
        0,
    ))
}

/// A comparison is an equality comparison whose result is what the function
/// returns.
pub open spec fn decides_return(
    program: Program,
    body: Body,
    comparison: ComparisonView,
) -> bool {
    (comparison.op is Eq || comparison.op is Ne) && (sender_comparisons::result_local(
        body,
        comparison,
    ) matches Some(result) && answers_with(program, body, result))
}

/// Returns whether an assignment leaves the answer of the function to `result`.
#[verifier::loop_isolation(false)]
fn assignment_leaves_answer(
    program: &Program,
    assign: &Assign,
    result: Local,
    locals: Ghost<nat>,
) -> (leaves: bool)
    requires
        Statement::Assign(*assign).wf(*program, locals@),
    ensures
        leaves == assign_leaves_answer(*program, *assign, result),
{
    if assign.place.local != 0 {
        return true;
    }
    if assign.place.projection.len() != 0 {
        return false;
    }
    match &assign.rvalue {
        Rvalue::Use(op) => match mir_util::operand_local(op) {
            Some(from) => from == result,
            None => false,
        },
        Rvalue::Aggregate(kind, operands) => {
            if operands.len() == 0 {
                return true;
            }
            if let AggregateKind::Adt(def, variant) = kind {
                if *variant != 0 && cosmwasm::is_result_def(program, *def) {
                    return true;
                }
            }
            let read = mir_util::read_operand_locals(operands);
            for i in 0..read.len()
                invariant
                    forall|j: int| 0 <= j < i ==> read@[j] != result,
            {
                if read[i] == result {
                    assert(read@.contains(result));
                    return true;
                }
            }
            false
        },
        _ => false,
    }
}

/// Returns whether nothing but `result` answers for the function.
#[verifier::loop_isolation(false)]
fn leaves_answer_to(program: &Program, body: &Body, result: Local) -> (leaves: bool)
    requires
        program.wf(),
        body.wf(*program),
    ensures
        leaves == answer_left(*program, *body, result, body.basic_blocks@.len(), 0),
{
    let ghost n = body.local_decls@.len();
    for block in 0..body.basic_blocks.len()
        invariant
            answer_left(*program, *body, result, block as nat, 0),
    {
        let data = &body.basic_blocks[block];
        assert(data.wf(*program, n, body.basic_blocks@.len()));
        for k in 0..data.statements.len()
            invariant
                answer_left(*program, *body, result, block as nat, k as nat),
        {
            assert(data.statements@[k as int].wf(*program, n));
            let leaves = match &data.statements[k] {
                Statement::Assign(assign) => assignment_leaves_answer(
                    program,
                    assign,
                    result,
                    Ghost(n),
                ) && match &assign.rvalue {
                    Rvalue::Ref(true, place) => place.local != 0,
                    Rvalue::RawPtr(place) => place.local != 0,
                    _ => true,
                },
                Statement::Other => true,
            };
            assert(leaves == leaves_answer(*program, *body, block as int, k as int, result));
            if !leaves {
                assert(writes::stands_before(
                    *body,
                    block as int,
                    k as int,
                    body.basic_blocks@.len(),
                    0,
                ));
                return false;
            }
        }
        let leaves = match &data.terminator {
            Terminator::Call(call) => {
                proof {
                    mir_util::lemma_operand_wf(*program, call.func, n);
                }
                call.destination.local != 0 || match mir_util::callee_def_id(program, &call.func) {
                    Some(d) => str_eq(program.defs[d].name.as_str(), "from_residual"),
                    None => false,
                }
            },
            _ => true,
        };
        let ghost end = data.statements@.len();
        assert(leaves == leaves_answer(*program, *body, block as int, end as int, result));
        if !leaves {
            assert(writes::stands_before(
                *body,
                block as int,
                end as int,
                body.basic_blocks@.len(),
                0,
            ));
            return false;
        }
        assert(answer_left(*program, *body, result, (block + 1) as nat, 0));
    }
    true
}

/// The operator of the first comparison that is what the function returns, from
/// position `i` on.
pub open spec fn deciding_op(
    program: Program,
    body: Body,
    comparisons: Seq<ComparisonView>,
    i: int,
) -> Option<BinOp>
    decreases comparisons.len() - i,
{
    if i < 0 || i >= comparisons.len() {
        None
    } else if decides_return(program, body, comparisons[i]) {
        Some(comparisons[i].op)
    } else {
        deciding_op(program, body, comparisons, i + 1)
    }
}

/// The operator of the sender comparison a function's boolean result is.
pub open spec fn predicate_op(
    program: Program,
    comparisons: Map<usize, Seq<ComparisonView>>,
    f: DefId,
) -> Option<BinOp> {
    if comparisons.contains_key(f) && cosmwasm::analysable(program, f) {
        deciding_op(program, cosmwasm::body_at(program, f), comparisons[f], 0)
    } else {
        None
    }
}

/// A function whose result is said to be a comparison has one that it answers
/// with and by nothing else.
pub proof fn lemma_predicate_answers_by_comparison(
    program: Program,
    comparisons: Map<usize, Seq<ComparisonView>>,
    f: DefId,
) -> (i: int)
    requires
        predicate_op(program, comparisons, f) is Some,
    ensures
        0 <= i < comparisons[f].len(),
        comparisons[f][i].op is Eq || comparisons[f][i].op is Ne,
        predicate_op(program, comparisons, f) == Some(comparisons[f][i].op),
        sender_comparisons::result_local(
            cosmwasm::body_at(program, f),
            comparisons[f][i],
        ) matches Some(result) && answers_with(program, cosmwasm::body_at(program, f), result),
{
    lemma_deciding_op(program, cosmwasm::body_at(program, f), comparisons[f], 0)
}

proof fn lemma_deciding_op(
    program: Program,
    body: Body,
    comparisons: Seq<ComparisonView>,
    from: int,
) -> (i: int)
    requires
        deciding_op(program, body, comparisons, from) is Some,
    ensures
        0 <= i < comparisons.len(),
        decides_return(program, body, comparisons[i]),
        deciding_op(program, body, comparisons, from) == Some(comparisons[i].op),
    decreases comparisons.len() - from,
{
    if decides_return(program, body, comparisons[from]) {
        from
    } else {
        lemma_deciding_op(program, body, comparisons, from + 1)
    }
}

/// Functions and closures whose boolean result *is* an `info.sender` equality
/// comparison, keyed by that comparison's operator.
///
/// Consumed by [`option_predicate_comparisons`]: to decide whether an
/// `Option` combinator authorises, the polarity of the comparison inside its
/// closure has to be known. A function that may also answer with something else,
/// an early constant say, is not among them.
#[verifier::loop_isolation(false)]
pub fn sender_predicate_summary(
    program: &Program,
    fn_comparisons: &DenseMap<Vec<SenderComparison>>,
) -> (summary: DenseMap<BinOp>)
    requires
        program.wf(),
        sender_comparisons::comparison_map_wf(
            *program,
            sender_comparisons::comparison_map(fn_comparisons@),
        ),
    ensures
        forall|f: DefId| #[trigger]
            summary@.contains_key(f) <==> predicate_op(
                *program,
                sender_comparisons::comparison_map(fn_comparisons@),
                f,
            ) is Some,
        forall|f: DefId| #[trigger]
            summary@.contains_key(f) ==> predicate_op(
                *program,
                sender_comparisons::comparison_map(fn_comparisons@),
                f,
            ) == Some(summary@[f]),
{
    let ghost map = sender_comparisons::comparison_map(fn_comparisons@);
    let mut out: DenseMap<BinOp> = DenseMap::new();
    let bound: usize = fn_comparisons.bound();
    for f in 0..bound
        invariant
            forall|g: DefId| #[trigger]
                out@.contains_key(g) <==> g < f && predicate_op(*program, map, g) is Some,
            forall|g: DefId| #[trigger]
                out@.contains_key(g) ==> predicate_op(*program, map, g) == Some(out@[g]),
    {
        if let Some(comparisons) = fn_comparisons.get(f) {
            assert(map.contains_key(f));
            let ghost views = map[f];
            if let Some(body) = cosmwasm::body_of(program, f) {
                let feeders = return_value_feeders(body);
                let writes = build_write_map(program, body);
                let mut found = false;
                let mut i: usize = 0;
                while i < comparisons.len() && !found
                    invariant
                        i <= comparisons@.len(),
                        forall|g: DefId| #[trigger]
                            out@.contains_key(g) <==> (g < f && predicate_op(
                                *program,
                                map,
                                g,
                            ) is Some) || (g == f && found),
                        forall|g: DefId| #[trigger]
                            out@.contains_key(g) ==> predicate_op(*program, map, g) == Some(
                                out@[g],
                            ),
                        !found ==> deciding_op(*program, *body, views, 0) == deciding_op(
                            *program,
                            *body,
                            views,
                            i as int,
                        ),
                        found ==> predicate_op(*program, map, f) is Some,
                    decreases comparisons@.len() - i,
                {
                    let comparison = &comparisons[i];
                    assert(views[i as int] == comparison@);
                    let equality = match comparison.op {
                        BinOp::Eq => true,
                        BinOp::Ne => true,
                        _ => false,
                    };
                    if equality {
                        if let Some(result) = comparison_result_local(body, comparison) {
                            let once = match writes.get(result) {
                                Some(Written::Once(_)) => true,
                                _ => false,
                            };
                            if once && (result == 0 || (feeders.contains(result)
                                && leaves_answer_to(program, body, result))) {
                                out.insert(f, comparison.op);
                                found = true;
                            }
                        }
                    }
                    i = i + 1;
                }
            }
        }
    }
    out
}

/// A type is `bool`, or its first type argument is.
pub open spec fn bool_like(program: Program, ty: Ty) -> bool {
    match program.types@[ty as int].kind {
        TyKind::Bool => true,
        TyKind::Adt(_, args) => args@.len() > 0 && program.types@[args@[0] as int].kind is Bool,
        _ => false,
    }
}

fn is_bool_like(program: &Program, ty: Ty) -> (answer: bool)
    requires
        program.wf(),
        ty < program.types@.len(),
    ensures
        answer == bool_like(*program, ty),
{
    assert(program.types@[ty as int].kind.wf(program.defs@.len(), ty as nat));
    match &program.types[ty].kind {
        TyKind::Bool => true,
        // `Result<bool, E>` / `Option<bool>`: the payload is the first type
        // argument.
        TyKind::Adt(_, args) => if args.len() > 0 {
            assert(args@[0] < ty);
            match program.types[args[0]].kind {
                TyKind::Bool => true,
                _ => false,
            }
        } else {
            false
        },
        _ => false,
    }
}

/// A function returns a boolean and compares the sender.
pub open spec fn bool_predicate(
    program: Program,
    comparisons: Map<usize, Seq<ComparisonView>>,
    f: DefId,
) -> bool {
    comparisons.contains_key(f) && comparisons[f].len() > 0 && cosmwasm::analysable(program, f)
        && bool_like(program, cosmwasm::body_at(program, f).local_decls@[0])
}

/// Local functions that return a boolean *and* compare `info.sender`
/// somewhere in their body: the relaxed criterion behind
/// [`predicate_call_comparisons`].
///
/// [`sender_predicate_summary`] requires the comparison result to flow into
/// the return value, which only holds for single-expression predicates such as
/// `|o| o != sender`. Real authorization helpers usually branch instead: they
/// set a flag, or return a constant early.
///
/// Requiring only "boolean return plus a sender comparison in the body" is
/// looser, but the decisive restriction sits on the caller side: the result
/// must feed a branch that abandons the success path. A boolean helper that
/// inspects the sender and whose result triggers an early `Err` is an
/// authorization check for all practical purposes, whereas one whose result
/// merely selects a fee never becomes a gate.
#[verifier::loop_isolation(false)]
pub fn bool_predicate_fns(
    program: &Program,
    fn_comparisons: &DenseMap<Vec<SenderComparison>>,
) -> (fns: DenseSet)
    requires
        program.wf(),
        sender_comparisons::comparison_map_wf(
            *program,
            sender_comparisons::comparison_map(fn_comparisons@),
        ),
    ensures
        forall|f: DefId| #[trigger]
            fns@.contains(f) == bool_predicate(
                *program,
                sender_comparisons::comparison_map(fn_comparisons@),
                f,
            ),
{
    let ghost map = sender_comparisons::comparison_map(fn_comparisons@);
    let mut out = DenseSet::new();
    let bound: usize = fn_comparisons.bound();
    for f in 0..bound
        invariant
            forall|g: DefId| #[trigger]
                out@.contains(g) <==> g < f && bool_predicate(*program, map, g),
    {
        if let Some(comparisons) = fn_comparisons.get(f) {
            assert(map.contains_key(f));
            assert(map[f].len() == comparisons@.len());
            if comparisons.len() > 0 {
                if let Some(body) = cosmwasm::body_of(program, f) {
                    if is_bool_like(program, body.local_decls[0]) {
                        out.insert(f);
                    }
                }
            }
        }
    }
    out
}

// ---- calls of predicate helpers ------------------------------------------

/// The comparison that a call of a boolean predicate stands for.
pub open spec fn predicate_call_at(
    program: Program,
    body: Body,
    predicates: Set<usize>,
    block: int,
) -> Option<ComparisonView> {
    match body.basic_blocks@[block].terminator {
        Terminator::Call(call) => match mir_util::callee_of(program, call.func) {
            Some(callee) => if predicates.contains(callee) {
                Some(
                    ComparisonView {
                        location: call_graph::terminator_location(body, block),
                        compared_local: call.destination.local,
                        op: BinOp::Ge,
                        description: "sender-predicate helper '"@ + cosmwasm::name_of(
                            program,
                            callee,
                        ) + "': result branches as an authorization guard"@,
                    },
                )
            } else {
                None
            },
            None => None,
        },
        _ => None,
    }
}

/// The comparisons that the predicate calls of the blocks below `block` stand
/// for.
pub open spec fn predicate_calls_before(
    program: Program,
    body: Body,
    predicates: Set<usize>,
    block: nat,
) -> Seq<ComparisonView>
    decreases block,
{
    if block == 0 {
        Seq::empty()
    } else {
        let before = predicate_calls_before(program, body, predicates, (block - 1) as nat);
        match predicate_call_at(program, body, predicates, block - 1) {
            Some(comparison) => before.push(comparison),
            None => before,
        }
    }
}

/// A call to a boolean helper never authorizes by itself: its comparison has no
/// polarity, so it can only gate through a branch that abandons the success path.
pub proof fn lemma_helper_calls_have_no_polarity(
    program: Program,
    body: Body,
    predicates: Set<usize>,
    block: nat,
)
    ensures
        forall|i: int|
            0 <= i < predicate_calls_before(program, body, predicates, block).len() ==> !((
            #[trigger] predicate_calls_before(program, body, predicates, block)[i]).op is Eq
                || predicate_calls_before(program, body, predicates, block)[i].op is Ne),
    decreases block,
{
    if block > 0 {
        lemma_helper_calls_have_no_polarity(program, body, predicates, (block - 1) as nat);
        let before = predicate_calls_before(program, body, predicates, (block - 1) as nat);
        let all = predicate_calls_before(program, body, predicates, block);
        assert forall|i: int| 0 <= i < all.len() implies !((#[trigger] all[i]).op is Eq
            || all[i].op is Ne) by {
            if i < before.len() {
                assert(all[i] == before[i]);
            }
        }
    }
}

/// Recognises a direct call to a boolean sender-predicate helper (per
/// [`bool_predicate_fns`]) and records it as a detected sender check, as in
/// `if !is_trusted(&info.sender, &config) { return Err(Unauthorized {}) }`.
///
/// The synthetic comparison uses a non-equality operator on purpose. The
/// edge-sensitive gating of stage 5 only considers `Eq`/`Ne` and therefore
/// skips these, which is required for soundness: for a boolean helper the
/// polarity is not recoverable, since `if is_owner` and `if !is_owner` alias to
/// the same local once the negation is erased. Such a comparison may only drive
/// the divergence-based gating, which is polarity-independent because it
/// demands a branch that abandons the success path.
#[verifier::loop_isolation(false)]
pub fn predicate_call_comparisons(
    program: &Program,
    body: &Body,
    bool_predicates: &DenseSet,
) -> (out: Vec<SenderComparison>)
    requires
        program.wf(),
        body.wf(*program),
    ensures
        sender_comparisons::comparison_views(out@) == predicate_calls_before(
            *program,
            *body,
            bool_predicates@,
            body.basic_blocks@.len(),
        ),
        sender_comparisons::comparisons_wf(*body, sender_comparisons::comparison_views(out@)),
        forall|i: int| 0 <= i < out@.len() ==> (#[trigger] out@[i]).op is Ge,
{
    let mut out: Vec<SenderComparison> = Vec::new();
    assert(sender_comparisons::comparison_views(out@) =~= Seq::<ComparisonView>::empty());
    for block in 0..body.basic_blocks.len()
        invariant
            sender_comparisons::comparison_views(out@) == predicate_calls_before(
                *program,
                *body,
                bool_predicates@,
                block as nat,
            ),
            forall|i: int|
                0 <= i < out@.len() ==> (#[trigger] out@[i]).op is Ge && out@[i].location.block
                    < body.basic_blocks@.len(),
    {
        let data = &body.basic_blocks[block];
        assert(data.wf(*program, body.local_decls@.len(), body.basic_blocks@.len()));
        if let Terminator::Call(call) = &data.terminator {
            proof {
                mir_util::lemma_operand_wf(*program, call.func, body.local_decls@.len());
            }
            if let Some(callee) = mir_util::callee_def_id(program, &call.func) {
                if bool_predicates.contains(callee) {
                    let mut description = text::text_of("sender-predicate helper '");
                    text::push_text(&mut description, program.defs[callee].name.as_str());
                    text::push_text(
                        &mut description,
                        "': result branches as an authorization guard",
                    );
                    let comparison = SenderComparison {
                        location: Location { block, statement_index: data.statements.len() },
                        compared_local: call.destination.local,
                        op: BinOp::Ge,
                        description,
                    };
                    assert(Some(comparison@) == predicate_call_at(
                        *program,
                        *body,
                        bool_predicates@,
                        block as int,
                    ));
                    let ghost before = out@;
                    out.push(comparison);
                    assert(sender_comparisons::comparison_views(out@)
                        =~= sender_comparisons::comparison_views(before).push(comparison@));
                }
            }
        }
    }
    out
}

// ---- Option combinators --------------------------------------------------

/// The names of the combinators that test an optional principal.
pub open spec fn combinator_name(name: Seq<char>) -> bool {
    name == "map_or"@ || name == "is_some_and"@ || name == "is_none_or"@
}

/// The comparison operator of the last argument that is a predicate closure.
pub open spec fn closure_op(
    program: Program,
    args: Seq<Operand>,
    predicates: Map<usize, BinOp>,
) -> Option<BinOp>
    decreases args.len(),
{
    if args.len() == 0 {
        None
    } else {
        let before = closure_op(program, args.drop_last(), predicates);
        match program.types@[mir_util::ty_of(args.last()) as int].kind {
            TyKind::Closure(closure) => if predicates.contains_key(closure) {
                Some(predicates[closure])
            } else {
                before
            },
            _ => before,
        }
    }
}

/// The value of a constant operand that is a known `bool`.
pub open spec fn constant_bool(operand: Operand) -> Option<bool> {
    match operand {
        Operand::Constant(constant) => constant.bool_value,
        _ => None,
    }
}

/// A statement assigns a constant to `local` as a whole.
pub open spec fn assigns_constant(statement: Statement, local: Local) -> bool {
    statement matches Statement::Assign(assign) && assign.place.local == local
        && assign.place.projection@.len() == 0 && (assign.rvalue matches Rvalue::Use(op)
        && op is Constant)
}

/// The constant that the assignment of a constant assigns, as a `bool`.
pub open spec fn assigned_bool(statement: Statement) -> Option<bool> {
    match statement {
        Statement::Assign(assign) => match assign.rvalue {
            Rvalue::Use(op) => constant_bool(op),
            _ => None,
        },
        Statement::Other => None,
    }
}

/// The constant of the first assignment of a constant to `local`, from statement
/// `k` of `block` on.
pub open spec fn assigned_bool_from(body: Body, local: Local, block: nat, k: nat) -> Option<bool>
    decreases
            body.basic_blocks@.len() - block,
            body.basic_blocks@[block as int].statements@.len() - k,
{
    if block >= body.basic_blocks@.len() {
        None
    } else {
        let statements = body.basic_blocks@[block as int].statements@;
        if k >= statements.len() {
            assigned_bool_from(body, local, block + 1, 0)
        } else if assigns_constant(statements[k as int], local) {
            assigned_bool(statements[k as int])
        } else {
            assigned_bool_from(body, local, block, k + 1)
        }
    }
}

/// The constant `bool` an operand is, directly or through a temporary that is
/// written at a single point.
pub open spec fn operand_bool(program: Program, body: Body, operand: Operand) -> Option<bool> {
    match operand {
        Operand::Constant(constant) => constant.bool_value,
        _ => match mir_util::local_of(operand) {
            Some(local) => if writes::writes_of(program, body).contains_key(local) && writes::writes_of(
                program,
                body,
            )[local] is Once {
                assigned_bool_from(body, local, 0, 0)
            } else {
                None
            },
            None => None,
        },
    }
}

/// Reads a constant `bool` from an operand, following one hop through a
/// `_x = const <bool>` assignment for the case where the literal was
/// materialised into a temporary, as optimized bodies frequently do for call
/// arguments. A variable that is set more than once is no such temporary.
#[verifier::loop_isolation(false)]
fn const_bool_operand(program: &Program, body: &Body, op: &Operand) -> (value: Option<bool>)
    requires
        program.wf(),
        body.wf(*program),
    ensures
        value == operand_bool(*program, *body, *op),
{
    if let Operand::Constant(constant) = op {
        return constant.bool_value;
    }
    let local: Local = match mir_util::operand_local(op) {
        Some(local) => local,
        None => {
            return None;
        },
    };
    match build_write_map(program, body).get(local) {
        Some(Written::Once(_)) => {},
        _ => {
            return None;
        },
    }
    for block in 0..body.basic_blocks.len()
        invariant
            assigned_bool_from(*body, local, 0, 0) == assigned_bool_from(
                *body,
                local,
                block as nat,
                0,
            ),
    {
        let data = &body.basic_blocks[block];
        for k in 0..data.statements.len()
            invariant
                assigned_bool_from(*body, local, 0, 0) == assigned_bool_from(
                    *body,
                    local,
                    block as nat,
                    k as nat,
                ),
        {
            if let Statement::Assign(assign) = &data.statements[k] {
                if assign.place.local == local && assign.place.projection.len() == 0 {
                    if let Rvalue::Use(Operand::Constant(constant)) = &assign.rvalue {
                        return constant.bool_value;
                    }
                }
            }
        }
    }
    None
}

/// The value of the last `bool`-typed argument.
pub open spec fn default_value(program: Program, body: Body, args: Seq<Operand>) -> Option<bool>
    decreases args.len(),
{
    if args.len() == 0 {
        None
    } else if program.types@[mir_util::ty_of(args.last()) as int].kind is Bool {
        operand_bool(program, body, args.last())
    } else {
        default_value(program, body, args.drop_last())
    }
}

/// The value a combinator yields when the principal is absent.
pub open spec fn absent_value(
    program: Program,
    body: Body,
    combinator: Seq<char>,
    args: Seq<Operand>,
) -> Option<bool> {
    if combinator == "is_some_and"@ {
        Some(false)
    } else if combinator == "is_none_or"@ {
        Some(true)
    } else {
        default_value(program, body, args)
    }
}

/// An absent principal yields the outcome that does not authorise. For `Ne` the
/// authorising result is `false`, so absence has to yield `true`; for `Eq` it is
/// the other way round.
pub open spec fn absence_rejects(op: BinOp, absent: bool) -> bool {
    match op {
        BinOp::Ne => absent,
        BinOp::Eq => !absent,
        _ => false,
    }
}

/// The comparison that an `Option` combinator with a predicate closure stands
/// for.
pub open spec fn option_call_at(
    program: Program,
    body: Body,
    predicates: Map<usize, BinOp>,
    block: int,
) -> Option<ComparisonView> {
    match body.basic_blocks@[block].terminator {
        Terminator::Call(call) => match mir_util::callee_of(program, call.func) {
            Some(callee) => {
                let combinator = cosmwasm::name_of(program, callee);
                match (
                    closure_op(program, call.args@, predicates),
                    absent_value(program, body, combinator, call.args@),
                ) {
                    (Some(op), Some(absent)) => if combinator_name(combinator) && absence_rejects(
                        op,
                        absent,
                    ) {
                        Some(
                            ComparisonView {
                                location: call_graph::terminator_location(body, block),
                                compared_local: call.destination.local,
                                op,
                                description: "Option::"@ + combinator
                                    + " sender-predicate gate"@,
                            },
                        )
                    } else {
                        None
                    },
                    _ => None,
                }
            },
            None => None,
        },
        _ => None,
    }
}

/// The comparisons that the `Option` combinators of the blocks below `block`
/// stand for.
pub open spec fn option_calls_before(
    program: Program,
    body: Body,
    predicates: Map<usize, BinOp>,
    block: nat,
) -> Seq<ComparisonView>
    decreases block,
{
    if block == 0 {
        Seq::empty()
    } else {
        let before = option_calls_before(program, body, predicates, (block - 1) as nat);
        match option_call_at(program, body, predicates, block - 1) {
            Some(comparison) => before.push(comparison),
            None => before,
        }
    }
}

/// A missing principal never authorises: whatever a recognised combinator yields
/// for an absent principal is not the outcome its comparison authorises on.
pub proof fn lemma_absence_never_authorises(
    program: Program,
    body: Body,
    predicates: Map<usize, BinOp>,
    block: int,
)
    requires
        option_call_at(program, body, predicates, block) is Some,
    ensures
        ({
            let call = body.basic_blocks@[block].terminator->Call_0;
            let callee = mir_util::callee_of(program, call.func)->0;
            let absent = absent_value(
                program,
                body,
                cosmwasm::name_of(program, callee),
                call.args@,
            )->0;
            let op = option_call_at(program, body, predicates, block)->0.op;
            &&& op is Eq || op is Ne
            &&& op is Eq ==> !absent
            &&& op is Ne ==> absent
        }),
{
}

/// Returns the operator of the last argument that is a predicate closure.
#[verifier::loop_isolation(false)]
fn closure_argument_op(
    program: &Program,
    call: &Call,
    sender_predicate: &DenseMap<BinOp>,
    locals: Ghost<nat>,
) -> (op: Option<BinOp>)
    requires
        crate::mir::operands_wf(call.args@, *program, locals@),
    ensures
        op == closure_op(*program, call.args@, sender_predicate@),
{
    let mut op: Option<BinOp> = None;
    assert(call.args@.take(0) =~= Seq::<Operand>::empty());
    for i in 0..call.args.len()
        invariant
            op == closure_op(*program, call.args@.take(i as int), sender_predicate@),
    {
        assert(call.args@.take(i + 1).drop_last() =~= call.args@.take(i as int));
        assert(call.args@[i as int].wf(*program, locals@));
        if let TyKind::Closure(closure) = &program.types[mir_util::operand_ty(&call.args[i])].kind {
            if let Some(found) = sender_predicate.get(*closure) {
                op = Some(*found);
            }
        }
    }
    assert(call.args@.take(call.args@.len() as int) =~= call.args@);
    op
}

/// Returns the value of the last `bool`-typed argument.
#[verifier::loop_isolation(false)]
fn default_argument(
    program: &Program,
    body: &Body,
    call: &Call,
    locals: Ghost<nat>,
) -> (value: Option<bool>)
    requires
        program.wf(),
        body.wf(*program),
        crate::mir::operands_wf(call.args@, *program, locals@),
    ensures
        value == default_value(*program, *body, call.args@),
{
    let mut value: Option<bool> = None;
    assert(call.args@.take(0) =~= Seq::<Operand>::empty());
    for i in 0..call.args.len()
        invariant
            value == default_value(*program, *body, call.args@.take(i as int)),
    {
        assert(call.args@.take(i + 1).drop_last() =~= call.args@.take(i as int));
        assert(call.args@[i as int].wf(*program, locals@));
        if let TyKind::Bool = &program.types[mir_util::operand_ty(&call.args[i])].kind {
            value = const_bool_operand(program, body, &call.args[i]);
        }
    }
    assert(call.args@.take(call.args@.len() as int) =~= call.args@);
    value
}

/// Recognises an `Option` combinator whose closure argument is a sender
/// predicate (per [`sender_predicate_summary`]) and synthesises a comparison
/// at the call.
///
/// Only the sound shapes are emitted: the value the combinator yields when the
/// principal is absent, the `None` case, must be the **non-authorising**
/// outcome, so that a missing owner can never silently authorise a write:
///
/// ```ignore
/// x.map_or(true,  |o| o != sender)   // None -> true  -> reject, op = Ne
/// x.is_none_or(   |o| o != sender)   // None -> true  -> reject, op = Ne
/// x.map_or(false, |o| o == sender)   // None -> false -> reject, op = Eq
/// x.is_some_and(  |o| o == sender)   // None -> false -> reject, op = Eq
/// ```
///
/// Any other pairing of default value and operator is skipped, which keeps the
/// rule strictly false-positive-reducing and never vulnerability-hiding.
#[verifier::loop_isolation(false)]
pub fn option_predicate_comparisons(
    program: &Program,
    body: &Body,
    sender_predicate: &DenseMap<BinOp>,
) -> (out: Vec<SenderComparison>)
    requires
        program.wf(),
        body.wf(*program),
    ensures
        sender_comparisons::comparison_views(out@) == option_calls_before(
            *program,
            *body,
            sender_predicate@,
            body.basic_blocks@.len(),
        ),
        sender_comparisons::comparisons_wf(*body, sender_comparisons::comparison_views(out@)),
{
    let mut out: Vec<SenderComparison> = Vec::new();
    assert(sender_comparisons::comparison_views(out@) =~= Seq::<ComparisonView>::empty());
    for block in 0..body.basic_blocks.len()
        invariant
            sender_comparisons::comparison_views(out@) == option_calls_before(
                *program,
                *body,
                sender_predicate@,
                block as nat,
            ),
            forall|i: int|
                0 <= i < out@.len() ==> (#[trigger] out@[i]).location.block
                    < body.basic_blocks@.len(),
    {
        let data = &body.basic_blocks[block];
        let ghost locals = body.local_decls@.len();
        assert(data.wf(*program, locals, body.basic_blocks@.len()));
        if let Terminator::Call(call) = &data.terminator {
            proof {
                mir_util::lemma_operand_wf(*program, call.func, locals);
            }
            if let Some(callee) = mir_util::callee_def_id(program, &call.func) {
                let combinator = program.defs[callee].name.as_str();
                let is_some_and = str_eq(combinator, "is_some_and");
                let is_none_or = str_eq(combinator, "is_none_or");
                if is_some_and || is_none_or || str_eq(combinator, "map_or") {
                    let op = closure_argument_op(program, call, sender_predicate, Ghost(locals));
                    // The value the combinator produces when the principal is
                    // absent.
                    let none_value = if is_some_and {
                        Some(false)
                    } else if is_none_or {
                        Some(true)
                    } else {
                        // `map_or(default, f)`: the `bool`-typed argument.
                        default_argument(program, body, call, Ghost(locals))
                    };
                    if let (Some(op), Some(none_value)) = (op, none_value) {
                        let sound = match op {
                            BinOp::Ne => none_value,
                            BinOp::Eq => !none_value,
                            _ => false,
                        };
                        if sound {
                            let mut description = text::text_of("Option::");
                            text::push_text(&mut description, combinator);
                            text::push_text(&mut description, " sender-predicate gate");
                            let comparison = SenderComparison {
                                location: Location { block, statement_index: data.statements.len() },
                                // A nominal counterpart: the gating keys off the
                                // operator and the comparison result, the call
                                // destination, not off this local.
                                compared_local: call.destination.local,
                                op,
                                description,
                            };
                            assert(Some(comparison@) == option_call_at(
                                *program,
                                *body,
                                sender_predicate@,
                                block as int,
                            ));
                            let ghost before = out@;
                            out.push(comparison);
                            assert(sender_comparisons::comparison_views(out@)
                                =~= sender_comparisons::comparison_views(before).push(comparison@));
                        }
                    }
                }
            }
        }
    }
    out
}

} // verus!
