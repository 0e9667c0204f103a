//! Comparisons that a call stands for.

use crate::laws;
use crate::laws::comparisons;
use crate::laws::findings;
use crate::laws::guards;
use crate::laws::polarity;
use crate::laws::seeds;
use crate::mir::{AggregateKind, Assign, BinOp, Body, Call, DefId, Local, Location, Operand};
use crate::mir::{Program, Rvalue, Statement, Terminator, TyKind};
use crate::mir_util;
use crate::pipeline;
use crate::predicates;
use crate::sender_comparisons;
use crate::sender_comparisons::ComparisonView;
use crate::sender_taint;
use crate::writes;
use vstd::prelude::*;

verus! {

// ---- helpers that return a boolean ---------------------------------------

/// A function is a boolean helper: its body is at hand and holds the sender against
/// something, and it returns `bool`, or a type with `bool` as its first argument.
pub open spec fn is_helper(
    program: Program,
    comparisons: Map<usize, Seq<ComparisonView>>,
    f: DefId,
) -> bool {
    &&& comparisons.contains_key(f)
    &&& comparisons[f].len() > 0
    &&& program.defs@[f as int].is_local
    &&& program.defs@[f as int].body matches Some(body) && match program.types@[
        body.local_decls@[0] as int].kind {
        TyKind::Bool => true,
        TyKind::Adt(_, args) => args@.len() > 0 && program.types@[args@[0] as int].kind is Bool,
        _ => false,
    }
}

proof fn lemma_helper_calls(
    program: Program,
    body: Body,
    helpers: Set<usize>,
    count: nat,
    at: Location,
    counterpart: Local,
    op: BinOp,
)
    requires
        count <= body.basic_blocks@.len(),
    ensures
        comparisons::found(
            predicates::predicate_calls_before(program, body, helpers, count),
            at,
            counterpart,
            op,
        ) <==> op is Ge && exists|block: int, call: Call, callee: DefId| #[trigger]
            laws::ends_in(body, block, call) && #[trigger] laws::calls(program, call, callee)
                && block < count && helpers.contains(callee) && at == findings::end_of(body, block)
                && counterpart == call.destination.local,
    decreases count,
{
    if count > 0 {
        let b = count - 1;
        lemma_helper_calls(program, body, helpers, b as nat, at, counterpart, op);
        let before = predicates::predicate_calls_before(program, body, helpers, b as nat);
        let here = predicates::predicate_call_at(program, body, helpers, b);
        if let Some(one) = here {
            assert(before.push(one) =~= before + seq![one]);
            comparisons::lemma_found_add(before, seq![one], at, counterpart, op);
            comparisons::lemma_found_one(one, at, counterpart, op);
            if let Terminator::Call(call) = body.basic_blocks@[b].terminator {
                let callee = mir_util::callee_of(program, call.func)->0;
                assert(laws::ends_in(body, b, call));
                assert(laws::calls(program, call, callee));
            }
        }
        if op is Ge && exists|block: int, call: Call, callee: DefId| #[trigger]
            laws::ends_in(body, block, call) && #[trigger] laws::calls(program, call, callee)
                && block < count && helpers.contains(callee) && at == findings::end_of(body, block)
                && counterpart == call.destination.local {
            let (block, call, callee) = choose|block: int, call: Call, callee: DefId| #[trigger]
                laws::ends_in(body, block, call) && #[trigger] laws::calls(program, call, callee)
                    && block < count && helpers.contains(callee) && at == findings::end_of(
                    body,
                    block,
                ) && counterpart == call.destination.local;
            assert(mir_util::callee_of(program, call.func) == Some(callee));
            if block == b {
                assert(here is Some);
            }
        }
    } else {
        assert(!comparisons::found(Seq::empty(), at, counterpart, op));
    }
}

/// Every call of a boolean helper counts as a comparison, one without a polarity:
/// it is found at the call with the result of the call, and nothing else is.
pub proof fn law_helper_calls_are_comparisons(
    program: Program,
    body: Body,
    known: Map<usize, Seq<ComparisonView>>,
    at: Location,
    counterpart: Local,
    op: BinOp,
)
    ensures
        comparisons::found(
            predicates::predicate_calls_before(
                program,
                body,
                pipeline::bool_predicates(program, known),
                body.basic_blocks@.len(),
            ),
            at,
            counterpart,
            op,
        ) <==> op is Ge && exists|block: int, call: Call, callee: DefId| #[trigger]
            laws::ends_in(body, block, call) && #[trigger] laws::calls(program, call, callee)
                && is_helper(program, known, callee) && at == findings::end_of(body, block)
                && counterpart == call.destination.local,
{
    let helpers = pipeline::bool_predicates(program, known);
    lemma_helper_calls(program, body, helpers, body.basic_blocks@.len(), at, counterpart, op);
    assert forall|f: DefId| #[trigger] helpers.contains(f) <==> is_helper(program, known, f) by {}
}

// ---- functions that answer with a comparison -----------------------------

/// An assignment gives the return place as a whole a local, or a value put together
/// from it.
pub open spec fn gives_back(assign: Assign, result: Local) -> bool {
    assign.place.local == 0 && assign.place.projection@.len() == 0 && match assign.rvalue {
        Rvalue::Use(op) => laws::reads(op, result),
        Rvalue::Aggregate(_, _) => laws::collects(assign.rvalue, result),
        _ => false,
    }
}

/// An assignment gives the return place as a whole a value without a boolean in it:
/// one without fields, or an error.
pub open spec fn gives_no_answer(program: Program, assign: Assign) -> bool {
    assign.place.local == 0 && assign.place.projection@.len() == 0 && (
    assign.rvalue matches Rvalue::Aggregate(kind, operands) && (operands@.len() == 0 || (
    kind matches AggregateKind::Adt(def, variant) && variant != 0
        && program.defs@[def as int].is_result)))
}

/// A function returns the result of what it compares, and nothing but that where it
/// does not fail: the result is written at one point only, and is the return place
/// itself, or is given back; and whatever else writes the return place reports a
/// failure.
pub open spec fn is_answer(program: Program, body: Body, result: Local) -> bool {
    &&& exists|block: int, k: int| #[trigger]
        polarity::is_written_only_at(body, block, k, result)
    &&& result == 0 || {
        &&& exists|block: int, k: int, assign: Assign| #[trigger]
            laws::assigns(body, block, k, assign) && gives_back(assign, result)
        &&& forall|block: int, k: int| !#[trigger] polarity::lends_at(body, block, k, 0)
        &&& forall|block: int, k: int, assign: Assign| #[trigger]
            laws::assigns(body, block, k, assign) && assign.place.local == 0 ==> gives_back(
                assign,
                result,
            ) || gives_no_answer(program, assign)
        &&& forall|block: int, call: Call| #[trigger]
            laws::ends_in(body, block, call) && call.destination.local == 0 ==> exists|
                callee: DefId,
            | #[trigger]
                laws::calls(program, call, callee) && laws::is_named(
                    program,
                    callee,
                    "from_residual"@,
                )
    }
}

proof fn lemma_gives_back(assign: Assign, result: Local)
    ensures
        predicates::feeds_at(Statement::Assign(assign), result) <==> gives_back(assign, result),
{
    if let Rvalue::Aggregate(_, operands) = assign.rvalue {
        mir_util::lemma_read_locals(operands@, result);
    }
}

proof fn lemma_leaves_answer(program: Program, body: Body, block: int, k: int, result: Local)
    requires
        guards::is_point(body, block, k),
    ensures
        predicates::leaves_answer(program, body, block, k, result) <==> {
            &&& !polarity::lends_at(body, block, k, 0)
            &&& forall|assign: Assign| #[trigger]
                laws::assigns(body, block, k, assign) && assign.place.local == 0 ==> gives_back(
                    assign,
                    result,
                ) || gives_no_answer(program, assign)
            &&& forall|call: Call| #[trigger]
                laws::ends_in(body, block, call) && k
                    == body.basic_blocks@[block].statements@.len() && call.destination.local == 0
                    ==> exists|callee: DefId| #[trigger]
                    laws::calls(program, call, callee) && laws::is_named(
                        program,
                        callee,
                        "from_residual"@,
                    )
        },
{
    let data = body.basic_blocks@[block];
    if k < data.statements@.len() {
        if let Statement::Assign(assign) = data.statements@[k] {
            assert(laws::assigns(body, block, k, assign));
            lemma_gives_back(assign, result);
        }
    } else {
        if let Terminator::Call(call) = data.terminator {
            assert(laws::ends_in(body, block, call));
            if let Some(callee) = mir_util::callee_of(program, call.func) {
                assert(laws::calls(program, call, callee));
            }
        }
    }
}

proof fn lemma_answer(program: Program, body: Body, result: Local)
    ensures
        predicates::answers_with(program, body, result) <==> is_answer(program, body, result),
{
    let n = body.basic_blocks@.len();
    if predicates::answers_with(program, body, result) {
        let at = polarity::lemma_counts_as_written_once(program, body, result);
        assert(polarity::is_written_only_at(body, at.0, at.1, result));
        if result != 0 {
            let (block, k) = choose|block: int, k: int|
                0 <= block < n && 0 <= k < body.basic_blocks@[block].statements@.len()
                    && predicates::feeds_at(
                    #[trigger] body.basic_blocks@[block].statements@[k],
                    result,
                );
            if let Statement::Assign(assign) = body.basic_blocks@[block].statements@[k] {
                lemma_gives_back(assign, result);
                assert(laws::assigns(body, block, k, assign));
            }
            assert forall|b: int, j: int| guards::is_point(body, b, j) implies #[trigger]
            predicates::leaves_answer(program, body, b, j, result) by {
                assert(writes::stands_before(body, b, j, n, 0));
            }
            assert forall|b: int, j: int| !#[trigger] polarity::lends_at(body, b, j, 0) by {
                if polarity::lends_at(body, b, j, 0) {
                    assert(guards::is_point(body, b, j));
                    assert(predicates::leaves_answer(program, body, b, j, result));
                    lemma_leaves_answer(program, body, b, j, result);
                }
            }
            assert forall|b: int, j: int, assign: Assign| #[trigger]
                laws::assigns(body, b, j, assign) && assign.place.local == 0 implies gives_back(
                assign,
                result,
            ) || gives_no_answer(program, assign) by {
                assert(guards::is_point(body, b, j));
                assert(predicates::leaves_answer(program, body, b, j, result));
                lemma_leaves_answer(program, body, b, j, result);
            }
            assert forall|b: int, call: Call| #[trigger]
                laws::ends_in(body, b, call) && call.destination.local == 0 implies exists|
                callee: DefId,
            | #[trigger]
                laws::calls(program, call, callee) && laws::is_named(
                    program,
                    callee,
                    "from_residual"@,
                ) by {
                let j = body.basic_blocks@[b].statements@.len() as int;
                assert(guards::is_point(body, b, j));
                assert(predicates::leaves_answer(program, body, b, j, result));
                lemma_leaves_answer(program, body, b, j, result);
            }
        }
    }
    if is_answer(program, body, result) {
        let (b, j) = choose|b: int, j: int| #[trigger]
            polarity::is_written_only_at(body, b, j, result);
        polarity::lemma_written_once(program, body, b, j, result);
        if result != 0 {
            let (block, k, assign) = choose|block: int, k: int, assign: Assign| #[trigger]
                laws::assigns(body, block, k, assign) && gives_back(assign, result);
            lemma_gives_back(assign, result);
            assert(predicates::feeds_at(body.basic_blocks@[block].statements@[k], result));
            assert(predicates::feeds_return(body, result));
            assert forall|c: int, i: int|
                writes::stands_before(body, c, i, n, 0) implies #[trigger]
            predicates::leaves_answer(program, body, c, i, result) by {
                assert(guards::is_point(body, c, i));
                lemma_leaves_answer(program, body, c, i, result);
            }
        }
    }
}

proof fn lemma_deciding(
    program: Program,
    body: Body,
    list: Seq<ComparisonView>,
    from: int,
    m: int,
)
    requires
        0 <= from <= m < list.len(),
        predicates::decides_return(program, body, list[m]),
    ensures
        predicates::deciding_op(program, body, list, from) is Some,
    decreases m - from,
{
    if !predicates::decides_return(program, body, list[from]) {
        lemma_deciding(program, body, list, from + 1, m);
    }
}

/// A comparison with `==` or `!=` is what a function answers with.
pub open spec fn is_answered_with(
    program: Program,
    body: Body,
    comparison: ComparisonView,
) -> bool {
    (comparison.op is Eq || comparison.op is Ne) && exists|result: Local| #[trigger]
        guards::yields(body, comparison.location, result) && is_answer(program, body, result)
}

proof fn lemma_decides(program: Program, body: Body, comparison: ComparisonView)
    requires
        comparison.location.block < body.basic_blocks@.len(),
    ensures
        predicates::decides_return(program, body, comparison) <==> is_answered_with(
            program,
            body,
            comparison,
        ),
{
    assert forall|result: Local| sender_comparisons::result_local(body, comparison) == Some(result)
        <==> #[trigger] guards::yields(body, comparison.location, result) by {
        guards::lemma_yields(body, comparison, result);
    }
    if let Some(result) = sender_comparisons::result_local(body, comparison) {
        assert(guards::yields(body, comparison.location, result));
        lemma_answer(program, body, result);
    }
}

/// A function stands for a comparison exactly when it answers with the result of
/// one, and by the operator of such a one.
pub proof fn law_function_stands_for_the_comparison_it_answers_with(
    program: Program,
    known: Map<usize, Seq<ComparisonView>>,
    f: DefId,
)
    requires
        known.contains_key(f),
        program.defs@[f as int].is_local,
        program.defs@[f as int].body is Some,
        sender_comparisons::comparisons_wf(program.defs@[f as int].body->0, known[f]),
    ensures
        pipeline::predicate_ops(program, known).contains_key(f) <==> exists|m: int|
            0 <= m < known[f].len() && is_answered_with(
                program,
                program.defs@[f as int].body->0,
                #[trigger] known[f][m],
            ),
        pipeline::predicate_ops(program, known).contains_key(f) ==> exists|m: int|
            0 <= m < known[f].len() && is_answered_with(
                program,
                program.defs@[f as int].body->0,
                #[trigger] known[f][m],
            ) && pipeline::predicate_ops(program, known)[f] == known[f][m].op,
{
    let body = program.defs@[f as int].body->0;
    let ops = pipeline::predicate_ops(program, known);
    if ops.contains_key(f) {
        let i = predicates::lemma_predicate_answers_by_comparison(program, known, f);
        lemma_decides(program, body, known[f][i]);
    }
    if exists|m: int|
        0 <= m < known[f].len() && is_answered_with(program, body, #[trigger] known[f][m]) {
        let m = choose|m: int|
            0 <= m < known[f].len() && is_answered_with(program, body, #[trigger] known[f][m]);
        lemma_decides(program, body, known[f][m]);
        lemma_deciding(program, body, known[f], 0, m);
    }
}

// ---- optional principals -------------------------------------------------

/// The argument at a position is the last one that is a closure standing for a
/// comparison.
pub open spec fn is_last_predicate(
    program: Program,
    args: Seq<Operand>,
    known: Map<usize, BinOp>,
    i: int,
    closure: DefId,
) -> bool {
    &&& 0 <= i < args.len()
    &&& program.types@[laws::type_of(args[i]) as int].kind == TyKind::Closure(closure)
    &&& known.contains_key(closure)
    &&& forall|j: int, other: DefId|
        #![trigger args[j], known.contains_key(other)]
        i < j < args.len() && program.types@[laws::type_of(args[j]) as int].kind == TyKind::Closure(
            other,
        ) ==> !known.contains_key(other)
}

proof fn lemma_closure_op(
    program: Program,
    args: Seq<Operand>,
    known: Map<usize, BinOp>,
    i: int,
    closure: DefId,
)
    requires
        is_last_predicate(program, args, known, i, closure),
    ensures
        predicates::closure_op(program, args, known) == Some(known[closure]),
    decreases args.len(),
{
    let last = args.len() - 1;
    if i < last {
        let rest = args.drop_last();
        if let TyKind::Closure(other) = program.types@[mir_util::ty_of(args.last()) as int].kind {
            assert(args[last] == args.last());
            assert(!known.contains_key(other));
        }
        assert forall|j: int, other: DefId|
            #![trigger rest[j], known.contains_key(other)]
            i < j < rest.len() && program.types@[laws::type_of(rest[j]) as int].kind
                == TyKind::Closure(other) implies !known.contains_key(other) by {
            assert(args[j] == rest[j]);
        }
        assert(rest[i] == args[i]);
        lemma_closure_op(program, rest, known, i, closure);
    }
}

/// An operand is a known `bool`: a constant, or a temporary whose only write gives
/// it one.
pub open spec fn is_bool(body: Body, operand: Operand, value: bool) -> bool {
    ||| operand matches Operand::Constant(constant) && constant.bool_value == Some(value)
    ||| exists|block: int, k: int, assign: Assign| #[trigger]
        laws::assigns(body, block, k, assign) && laws::reads(operand, assign.place.local)
            && polarity::is_written_only_at(body, block, k, assign.place.local)
            && assign.place.projection@.len() == 0 && (assign.rvalue matches Rvalue::Use(
            Operand::Constant(constant),
        ) && constant.bool_value == Some(value))
}

proof fn lemma_assigned_bool(
    body: Body,
    local: Local,
    block: nat,
    k: nat,
    b: int,
    j: int,
    assign: Assign,
)
    requires
        laws::assigns(body, b, j, assign),
        assign.place.local == local,
        polarity::is_written_only_at(body, b, j, local),
        predicates::assigns_constant(Statement::Assign(assign), local),
        block < b || (block == b && k <= j),
    ensures
        predicates::assigned_bool_from(body, local, block, k) == predicates::assigned_bool(
            Statement::Assign(assign),
        ),
    decreases
            body.basic_blocks@.len() - block,
            body.basic_blocks@[block as int].statements@.len() - k,
{
    let statements = body.basic_blocks@[block as int].statements@;
    if block == b && k == j {
    } else if k >= statements.len() {
        lemma_assigned_bool(body, local, block + 1, 0, b, j, assign);
    } else {
        if predicates::assigns_constant(statements[k as int], local) {
            if let Statement::Assign(other) = statements[k as int] {
                assert(laws::assigns(body, block as int, k as int, other));
                assert(polarity::writes_at(body, block as int, k as int, local));
                assert(guards::is_point(body, block as int, k as int));
            }
        }
        lemma_assigned_bool(body, local, block, k + 1, b, j, assign);
    }
}

proof fn lemma_bool(program: Program, body: Body, operand: Operand, value: bool)
    requires
        is_bool(body, operand, value),
    ensures
        predicates::operand_bool(program, body, operand) == Some(value),
{
    if !(operand is Constant) {
        let (block, k, assign) = choose|block: int, k: int, assign: Assign| #[trigger]
            laws::assigns(body, block, k, assign) && laws::reads(operand, assign.place.local)
                && polarity::is_written_only_at(body, block, k, assign.place.local)
                && assign.place.projection@.len() == 0 && (assign.rvalue matches Rvalue::Use(
                Operand::Constant(constant),
            ) && constant.bool_value == Some(value));
        polarity::lemma_written_once(program, body, block, k, assign.place.local);
        lemma_assigned_bool(body, assign.place.local, 0, 0, block, k, assign);
    }
}

/// What a combinator yields for an absent principal: `is_some_and` yields false and
/// `is_none_or` true, and `map_or` yields its last `bool` argument.
pub open spec fn yields_when_absent(
    program: Program,
    body: Body,
    name: Seq<char>,
    args: Seq<Operand>,
    value: bool,
) -> bool {
    ||| name == "is_some_and"@ && !value
    ||| name == "is_none_or"@ && value
    ||| name == "map_or"@ && exists|i: int|
        0 <= i < args.len() && program.types@[laws::type_of(#[trigger] args[i]) as int].kind is Bool
            && is_bool(body, args[i], value) && forall|j: int|
            i < j < args.len() ==> !(program.types@[laws::type_of(
                #[trigger] args[j],
            ) as int].kind is Bool)
}

proof fn lemma_default(program: Program, body: Body, args: Seq<Operand>, i: int, value: bool)
    requires
        0 <= i < args.len(),
        program.types@[laws::type_of(args[i]) as int].kind is Bool,
        is_bool(body, args[i], value),
        forall|j: int|
            i < j < args.len() ==> !(program.types@[laws::type_of(
                #[trigger] args[j],
            ) as int].kind is Bool),
    ensures
        predicates::default_value(program, body, args) == Some(value),
    decreases args.len(),
{
    lemma_bool(program, body, args[i], value);
    let last = args.len() - 1;
    if i < last {
        let rest = args.drop_last();
        assert(!(program.types@[laws::type_of(args[last]) as int].kind is Bool));
        assert(args[last] == args.last());
        assert forall|j: int| i < j < rest.len() implies !(program.types@[laws::type_of(
            #[trigger] rest[j],
        ) as int].kind is Bool) by {
            assert(args[j] == rest[j]);
        }
        assert(rest[i] == args[i]);
        lemma_default(program, body, rest, i, value);
    } else {
        assert(args[i] == args.last());
    }
}

proof fn lemma_option_calls(
    program: Program,
    body: Body,
    known: Map<usize, BinOp>,
    count: nat,
    block: int,
    counterpart: Local,
    op: BinOp,
)
    requires
        count <= body.basic_blocks@.len(),
        0 <= block < body.basic_blocks@.len(),
    ensures
        comparisons::found(
            predicates::option_calls_before(program, body, known, count),
            findings::end_of(body, block),
            counterpart,
            op,
        ) <==> block < count && (predicates::option_call_at(program, body, known, block) matches Some(
            one,
        ) && one.compared_local == counterpart && one.op == op),
    decreases count,
{
    assert(body.basic_blocks.len() == body.basic_blocks@.len());
    let at = findings::end_of(body, block);
    if count > 0 {
        let b = count - 1;
        lemma_option_calls(program, body, known, b as nat, block, counterpart, op);
        let before = predicates::option_calls_before(program, body, known, b as nat);
        if let Some(one) = predicates::option_call_at(program, body, known, b) {
            assert(before.push(one) =~= before + seq![one]);
            comparisons::lemma_found_add(before, seq![one], at, counterpart, op);
            comparisons::lemma_found_one(one, at, counterpart, op);
            assert(one.location == findings::end_of(body, b));
        }
    } else {
        assert(!comparisons::found(Seq::empty(), at, counterpart, op));
    }
}

/// A combinator over an optional principal, with a closure that stands for an
/// equality comparison, is that comparison exactly when an absent principal is
/// turned away: `==` has to come out false then, and `!=` true. Any other call of
/// that shape is none.
pub proof fn law_absent_principal_is_turned_away(
    program: Program,
    body: Body,
    known: Map<usize, BinOp>,
    block: int,
    call: Call,
    callee: DefId,
    i: int,
    closure: DefId,
    absent: bool,
)
    requires
        laws::ends_in(body, block, call),
        laws::calls(program, call, callee),
        is_last_predicate(program, call.args@, known, i, closure),
        yields_when_absent(
            program,
            body,
            program.defs@[callee as int].name@,
            call.args@,
            absent,
        ),
    ensures
        comparisons::found(
            predicates::option_calls_before(program, body, known, body.basic_blocks@.len()),
            findings::end_of(body, block),
            call.destination.local,
            known[closure],
        ) <==> (known[closure] is Eq && !absent) || (known[closure] is Ne && absent),
{
    let name = program.defs@[callee as int].name@;
    reveal_strlit("is_some_and");
    reveal_strlit("is_none_or");
    reveal_strlit("map_or");
    assert("is_some_and"@.len() == 11 && "is_none_or"@.len() == 10 && "map_or"@.len() == 6);
    assert(mir_util::callee_of(program, call.func) == Some(callee));
    lemma_closure_op(program, call.args@, known, i, closure);
    if name == "map_or"@ {
        let j = choose|j: int|
            0 <= j < call.args@.len() && program.types@[laws::type_of(
                #[trigger] call.args@[j],
            ) as int].kind is Bool && is_bool(body, call.args@[j], absent) && forall|m: int|
                j < m < call.args@.len() ==> !(program.types@[laws::type_of(
                    #[trigger] call.args@[m],
                ) as int].kind is Bool);
        lemma_default(program, body, call.args@, j, absent);
    }
    lemma_option_calls(
        program,
        body,
        known,
        body.basic_blocks@.len(),
        block,
        call.destination.local,
        known[closure],
    );
}

/// No call but one of the three combinators over an optional principal stands for a
/// comparison in this way.
pub proof fn law_only_combinators_over_options(
    program: Program,
    body: Body,
    known: Map<usize, BinOp>,
    block: int,
    call: Call,
    callee: DefId,
    counterpart: Local,
    op: BinOp,
)
    requires
        laws::ends_in(body, block, call),
        laws::calls(program, call, callee),
        !laws::is_named(program, callee, "map_or"@),
        !laws::is_named(program, callee, "is_some_and"@),
        !laws::is_named(program, callee, "is_none_or"@),
    ensures
        !comparisons::found(
            predicates::option_calls_before(program, body, known, body.basic_blocks@.len()),
            findings::end_of(body, block),
            counterpart,
            op,
        ),
{
    assert(mir_util::callee_of(program, call.func) == Some(callee));
    lemma_option_calls(
        program,
        body,
        known,
        body.basic_blocks@.len(),
        block,
        counterpart,
        op,
    );
}

// ---- all of them together ------------------------------------------------

/// What gating works with are the comparisons that a body makes itself, where it is
/// searched for any, together with those that its calls stand for, where it is the
/// body of a function of the graph.
pub proof fn law_all_comparisons(
    program: Program,
    nodes: Seq<DefId>,
    f: DefId,
    at: Location,
    counterpart: Local,
    op: BinOp,
)
    ensures
        ({
            let all = pipeline::all_comparisons(program, nodes);
            let targets = sender_taint::targets_of(program, nodes);
            let direct = Map::new(
                |g: usize| targets.contains(g),
                |g: usize| pipeline::comparisons_in(program, nodes, g),
            );
            let body = program.defs@[f as int].body->0;
            all.contains_key(f) && comparisons::found(all[f], at, counterpart, op) <==> {
                ||| targets.contains(f) && comparisons::found(
                    pipeline::comparisons_in(program, nodes, f),
                    at,
                    counterpart,
                    op,
                )
                ||| nodes.contains(f) && seeds::has_body(program, f) && (comparisons::found(
                    predicates::option_calls_before(
                        program,
                        body,
                        pipeline::predicate_ops(program, direct),
                        body.basic_blocks@.len(),
                    ),
                    at,
                    counterpart,
                    op,
                ) || comparisons::found(
                    predicates::predicate_calls_before(
                        program,
                        body,
                        pipeline::bool_predicates(program, direct),
                        body.basic_blocks@.len(),
                    ),
                    at,
                    counterpart,
                    op,
                ))
            }
        }),
{
    let all = pipeline::all_comparisons(program, nodes);
    let targets = sender_taint::targets_of(program, nodes);
    let direct = pipeline::direct_comparisons(program, nodes, targets);
    assert(direct =~= Map::new(
        |g: usize| targets.contains(g),
        |g: usize| pipeline::comparisons_in(program, nodes, g),
    ));
    let body = program.defs@[f as int].body->0;
    let options = predicates::option_calls_before(
        program,
        body,
        pipeline::predicate_ops(program, direct),
        body.basic_blocks@.len(),
    );
    let helpers = predicates::predicate_calls_before(
        program,
        body,
        pipeline::bool_predicates(program, direct),
        body.basic_blocks@.len(),
    );
    let synthetic = pipeline::synthetic_comparisons(program, direct, f);
    comparisons::lemma_found_add(options, helpers, at, counterpart, op);
    let first = if direct.contains_key(f) {
        direct[f]
    } else {
        Seq::empty()
    };
    let second = if pipeline::has_synthetic(program, nodes, direct, f) {
        synthetic
    } else {
        Seq::empty()
    };
    comparisons::lemma_found_add(first, second, at, counterpart, op);
    assert(!comparisons::found(Seq::empty(), at, counterpart, op));
    if all.contains_key(f) {
        assert(all[f] == first + second);
    }
}

} // verus!
