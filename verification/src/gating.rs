//! Stage 5: gating summaries.
//!
//! Decides which program points are protected by an authorization check, and
//! turns that into two interprocedural summaries over the call graph:
//!
//! * [`compute_always_checks`]: which functions check on every path from their
//!   entry to a successful return. A call to such a function is itself a check
//!   in the caller.
//! * [`compute_entry_checked`]: which functions are entered only from an already
//!   checked context, so a write inside them is gated even though their own body
//!   contains no comparison.
//!
//! What counts as a check within one body is decided by two complementary
//! criteria, both derived from the comparisons of stage 3:
//!
//! * **divergence** ([`effective_guard_locations`]): a comparison whose result
//!   feeds a branch of which at least one arm abandons the success path;
//! * **edge sensitivity** ([`authorized_gate_locations`]): the blocks that can
//!   only be reached through authorizing comparison edges, which is what
//!   recovers a disjunctive guard such as
//!   `if sender != owner && sender != manager { return Err(..) }`.
//!
//! The dataflow that propagates the result through a body lives in
//! [`crate::auth_gate`].

use crate::auth_gate;
use crate::auth_gate::{AuthState, Checks, Gating};
use crate::call_graph;
use crate::call_graph::{CallGraph, CallSite, CallSiteView};
use crate::cosmwasm;
use crate::dense::{DenseMap, DenseSet, PairSet};
use crate::graph;
use crate::mir::{
    BasicBlock, BinOp, Body, DefId, DefKind, Local, Location, Program, Rvalue, Statement, SwitchInt,
    Terminator,
};
use crate::mir_util;
use crate::sender_comparisons;
use crate::sender_comparisons::{comparison_result_local, ComparisonView, SenderComparison};
use crate::writes;
use crate::writes::{build_write_map, Written};
use vstd::prelude::*;

verus! {

// ---- aliases of comparison results ---------------------------------------

/// The alias that point `k` of a block, its terminator being the last one,
/// establishes: the local assigned and the local it is a copy of.
pub open spec fn alias_at(program: Program, body: Body, block: int, k: int) -> Option<
    (Local, Local),
> {
    let data = body.basic_blocks@[block];
    if k < data.statements@.len() {
        match data.statements@[k] {
            Statement::Assign(assign) => {
                let source = match assign.rvalue {
                    Rvalue::Use(op) => mir_util::local_of(op),
                    Rvalue::UnaryOp(_, op) => mir_util::local_of(op),
                    Rvalue::Discriminant(place) => Some(place.local),
                    _ => None,
                };
                match source {
                    Some(from) => Some((assign.place.local, from)),
                    None => None,
                }
            },
            Statement::Other => None,
        }
    } else {
        match data.terminator {
            Terminator::Call(call) => if (mir_util::callee_of(program, call.func) matches Some(d)
                && cosmwasm::is_glue(program, d)) && call.args@.len() > 0 {
                match mir_util::local_of(call.args@[0]) {
                    Some(from) => Some((call.destination.local, from)),
                    None => None,
                }
            } else {
                None
            },
            _ => None,
        }
    }
}

/// The aliases established in the blocks below `block` and at the first `k`
/// points of `block`, a later one replacing an earlier one.
pub open spec fn aliases_before(program: Program, body: Body, block: nat, k: nat) -> Map<
    usize,
    Local,
>
    decreases block, k,
{
    if k > 0 {
        let before = aliases_before(program, body, block, (k - 1) as nat);
        match alias_at(program, body, block as int, k - 1) {
            Some((to, from)) => before.insert(to, from),
            None => before,
        }
    } else if block > 0 {
        aliases_before(
            program,
           body,
            (block - 1) as nat,
            body.basic_blocks@[block - 1].statements@.len() + 1,
        )
    } else {
        Map::empty()
    }
}

/// The local each local is a copy of.
pub open spec fn aliases_of(program: Program, body: Body) -> Map<usize, Local> {
    aliases_before(program, body, body.basic_blocks@.len(), 0)
}

/// Every local is a copy of a local below `n`.
pub open spec fn aliases_in(alias: Map<usize, Local>, n: nat) -> bool {
    forall|l: usize| #[trigger] alias.contains_key(l) ==> alias[l] < n
}

/// Maps each local to the local it is a copy of, so that a branch discriminant
/// can be traced back to the local holding a comparison result.
///
/// Three kinds of step are recorded: copies and unary operations, which cover
/// `!`; discriminant reads, through which `x?` and `match res { .. }` switch; and
/// calls to forwarding glue, because `x?` routes the checked `Result` through
/// a call to `Try::branch` before switching on its discriminant. Without the
/// last two no fallible check, a library authorization helper above all, would
/// ever resolve to its comparison.
#[verifier::loop_isolation(false)]
fn build_comparison_alias_map(program: &Program, body: &Body) -> (alias: DenseMap<Local>)
    requires
        program.wf(),
        body.wf(*program),
    ensures
        alias@ == aliases_of(*program, *body),
        aliases_in(alias@, body.local_decls@.len()),
{
    let mut alias: DenseMap<Local> = DenseMap::new();
    let ghost n = body.local_decls@.len();
    for block in 0..body.basic_blocks.len()
        invariant
            alias@ == aliases_before(*program, *body, block as nat, 0),
            aliases_in(alias@, n),
    {
        let data = &body.basic_blocks[block];
        assert(data.wf(*program, n, body.basic_blocks@.len()));
        for k in 0..data.statements.len()
            invariant
                alias@ == aliases_before(*program, *body, block as nat, k as nat),
                aliases_in(alias@, n),
        {
            assert(data.statements@[k as int].wf(*program, n));
            if let Statement::Assign(assign) = &data.statements[k] {
                let source = match &assign.rvalue {
                    Rvalue::Use(op) => mir_util::operand_local(op),
                    Rvalue::UnaryOp(_, op) => mir_util::operand_local(op),
                    Rvalue::Discriminant(place) => Some(place.local),
                    _ => None,
                };
                if let Some(source) = source {
                    alias.insert(assign.place.local, source);
                }
            }
        }
        if let Terminator::Call(call) = &data.terminator {
            proof {
                mir_util::lemma_operand_wf(*program, call.func, n);
            }
            let is_glue = match mir_util::callee_def_id(program, &call.func) {
                Some(d) => cosmwasm::is_forwarding_glue_fn(program, d),
                None => false,
            };
            if is_glue && call.args.len() > 0 {
                assert(call.args@[0].wf(*program, n));
                if let Some(arg) = mir_util::operand_local(&call.args[0]) {
                    alias.insert(call.destination.local, arg);
                }
            }
        }
        assert(alias@ == aliases_before(
            *program,
           *body,
            block as nat,
            data.statements@.len() + 1,
        ));
    }
    alias
}

/// The locals behind `current` on its alias chain, up to the first one that is
/// in `seen` already. Only locals below `n` are followed.
pub open spec fn chain_behind(
    alias: Map<usize, Local>,
    n: nat,
    current: Local,
    seen: Set<usize>,
) -> Seq<Local>
    decreases graph::missing(seen, n),
    when n <= usize::MAX
    via chain_behind_decreases
{
    if alias.contains_key(current) && alias[current] < n && !seen.contains(alias[current]) {
        let next = alias[current];
        seq![next] + chain_behind(alias, n, next, seen.insert(next))
    } else {
        Seq::empty()
    }
}

#[via_fn]
proof fn chain_behind_decreases(
    alias: Map<usize, Local>,
    n: nat,
    current: Local,
    seen: Set<usize>,
) {
    if alias.contains_key(current) && alias[current] < n && !seen.contains(alias[current]) {
        graph::lemma_missing_grows(seen, seen.insert(alias[current]), n, alias[current]);
    }
}

/// The alias chain of a local, itself first.
pub open spec fn chain_of(alias: Map<usize, Local>, n: nat, start: Local) -> Seq<Local> {
    seq![start] + chain_behind(alias, n, start, set![start])
}

/// Follows the alias chain starting at `start`, itself among the result,
/// stopping at the first cycle. Returns every local the discriminant may alias,
/// so that a comparison result is recovered through copies and glue alike.
#[verifier::loop_isolation(false)]
fn resolve_alias_chain(alias: &DenseMap<Local>, start: Local, locals: usize) -> (chain: Vec<Local>)
    requires
        aliases_in(alias@, locals as nat),
    ensures
        chain@ == chain_of(alias@, locals as nat, start),
{
    let mut chain: Vec<Local> = vec![start];
    let mut seen = DenseSet::new();
    seen.insert(start);
    let mut current: Local = start;
    let mut done = false;
    assert(seen@ =~= set![start]);
    assert(chain@ =~= seq![start]);
    while !done
        invariant
            done ==> chain@ == chain_of(alias@, locals as nat, start),
            !done ==> chain@ + chain_behind(alias@, locals as nat, current, seen@) == chain_of(
                alias@,
                locals as nat,
                start,
            ),
        decreases
                graph::missing(seen@, locals as nat),
                if done {
                    0int
                } else {
                    1int
                },
    {
        let ghost seen0 = seen@;
        let ghost chain0 = chain@;
        let ghost rest = chain_behind(alias@, locals as nat, current, seen@);
        match alias.get(current) {
            Some(next) => {
                let next: Local = *next;
                if seen.insert(next) {
                    chain.push(next);
                    proof {
                        graph::lemma_missing_grows(seen0, seen@, locals as nat, next);
                        assert(chain0 + rest =~= chain@ + chain_behind(
                            alias@,
                            locals as nat,
                            next,
                            seen@,
                        ));
                    }
                    current = next;
                } else {
                    assert(seen@ =~= seen0);
                    assert(chain0 + Seq::<Local>::empty() =~= chain0);
                    done = true;
                }
            },
            None => {
                assert(chain0 + Seq::<Local>::empty() =~= chain0);
                done = true;
            },
        }
    }
    chain
}

/// What the first local of a chain that is a key of `map` is bound to.
pub open spec fn first_bound<V>(chain: Seq<Local>, map: Map<usize, V>) -> Option<V>
    decreases chain.len(),
{
    if chain.len() == 0 {
        None
    } else if map.contains_key(chain[0]) {
        Some(map[chain[0]])
    } else {
        first_bound(chain.skip(1), map)
    }
}

#[verifier::loop_isolation(false)]
fn find_bound<V: Copy>(chain: &Vec<Local>, map: &DenseMap<V>) -> (found: Option<V>)
    ensures
        found == first_bound(chain@, map@),
{
    assert(chain@.skip(0) =~= chain@);
    for i in 0..chain.len()
        invariant
            first_bound(chain@, map@) == first_bound(chain@.skip(i as int), map@),
    {
        assert(chain@.skip(i as int).skip(1) =~= chain@.skip(i + 1));
        if let Some(value) = map.get(chain[i]) {
            return Some(*value);
        }
    }
    None
}

// ---- enforcing comparisons -----------------------------------------------

/// Where the result in each local was compared, the last comparison counting.
pub open spec fn result_locations(body: Body, comparisons: Seq<ComparisonView>) -> Map<
    usize,
    Location,
>
    decreases comparisons.len(),
{
    if comparisons.len() == 0 {
        Map::empty()
    } else {
        let before = result_locations(body, comparisons.drop_last());
        match sender_comparisons::result_local(body, comparisons.last()) {
            Some(result) => before.insert(result, comparisons.last().location),
            None => before,
        }
    }
}

/// Some arm of a branch abandons the success path.
pub open spec fn has_aborting_arm(body: Body, switch: SwitchInt, ok_blocks: Set<usize>) -> bool {
    exists|i: int|
        0 <= i < switch.targets@.len() && !mir_util::block_reaches(
            body,
            #[trigger] switch.targets@[i],
            ok_blocks,
        )
}

/// The comparison that the branch at the end of a block enforces.
pub open spec fn guard_at(
    body: Body,
    comparisons: Seq<ComparisonView>,
    ok_blocks: Set<usize>,
    alias: Map<usize, Local>,
    block: int,
) -> Option<Location> {
    match body.basic_blocks@[block].terminator {
        Terminator::SwitchInt(switch) => match mir_util::local_of(switch.discr) {
            Some(discr) => if has_aborting_arm(body, switch, ok_blocks) {
                first_bound(
                    chain_of(alias, body.local_decls@.len(), discr),
                    result_locations(body, comparisons),
                )
            } else {
                None
            },
            None => None,
        },
        _ => None,
    }
}

/// The locations of the comparisons that some branch enforces.
pub open spec fn effective_guards(
    body: Body,
    comparisons: Seq<ComparisonView>,
    ok_blocks: Set<usize>,
    alias: Map<usize, Local>,
) -> Set<(usize, usize)> {
    Set::new(
        |p: (usize, usize)|
            exists|block: int|
                0 <= block < body.basic_blocks@.len() && (#[trigger] guard_at(
                    body,
                    comparisons,
                    ok_blocks,
                    alias,
                    block,
                ) matches Some(location) && location.pair() == p),
    )
}

/// A comparison only counts as an *enforcing* guard if its result feeds a
/// branch of which at least one arm abandons the success path entirely: from
/// that target no `Ok`-return is reachable any more, because of an early
/// `return Err(..)`, a `?` on a fallible check, or a panic. A comparison whose
/// arms all rejoin the success path (fee logic keyed on the sender, say)
/// enforces nothing and must not count.
#[verifier::loop_isolation(false)]
fn effective_guard_locations(
    program: &Program,
    body: &Body,
    comparisons: &Vec<SenderComparison>,
    ok_blocks: &DenseSet,
    alias: &DenseMap<Local>,
) -> (effective: PairSet)
    requires
        program.wf(),
        body.wf(*program),
        sender_comparisons::comparisons_wf(
            *body,
            sender_comparisons::comparison_views(comparisons@),
        ),
        forall|b: usize| #[trigger] ok_blocks@.contains(b) ==> b < body.basic_blocks@.len(),
        aliases_in(alias@, body.local_decls@.len()),
    ensures
        effective@ == effective_guards(
            *body,
            sender_comparisons::comparison_views(comparisons@),
            ok_blocks@,
            alias@,
        ),
{
    let ghost views = sender_comparisons::comparison_views(comparisons@);
    let mut result_to_loc: DenseMap<Location> = DenseMap::new();
    assert(views.take(0) =~= Seq::<ComparisonView>::empty());
    for i in 0..comparisons.len()
        invariant
            result_to_loc@ == result_locations(*body, views.take(i as int)),
    {
        assert(views[i as int] == comparisons@[i as int]@);
        assert(views.take(i + 1).drop_last() =~= views.take(i as int));
        if let Some(result) = comparison_result_local(body, &comparisons[i]) {
            result_to_loc.insert(result, comparisons[i].location);
        }
    }
    assert(views.take(views.len() as int) =~= views);

    // "Does this arm still reach a successful return?" as a single backward
    // reachability instead of a forward search per branch target.
    let can_reach_ok = mir_util::blocks_reaching(program, body, ok_blocks);

    let mut effective = PairSet::new();
    for block in 0..body.basic_blocks.len()
        invariant
            forall|p: (usize, usize)| #[trigger]
                effective@.contains(p) <==> exists|b: int|
                    0 <= b < block && (#[trigger] guard_at(
                        *body,
                        views,
                        ok_blocks@,
                        alias@,
                        b,
                    ) matches Some(location) && location.pair() == p),
    {
        let data = &body.basic_blocks[block];
        let mut guard: Option<Location> = None;
        if let Terminator::SwitchInt(switch) = &data.terminator {
            if let Some(discr_local) = mir_util::operand_local(&switch.discr) {
                let chain = resolve_alias_chain(alias, discr_local, body.local_decls.len());
                let matched = find_bound(&chain, &result_to_loc);
                let mut aborting = false;
                for i in 0..switch.targets.len()
                    invariant
                        aborting == exists|j: int|
                            0 <= j < i && !mir_util::block_reaches(
                                *body,
                                #[trigger] switch.targets@[j],
                                ok_blocks@,
                            ),
                {
                    if !can_reach_ok.contains(switch.targets[i]) {
                        aborting = true;
                    }
                }
                if aborting {
                    guard = matched;
                }
            }
        }
        assert(guard == guard_at(*body, views, ok_blocks@, alias@, block as int));
        let ghost before = effective@;
        if let Some(location) = guard {
            effective.insert(location.block, location.statement_index);
        }
        proof {
            assert forall|p: (usize, usize)| #[trigger]
                effective@.contains(p) <==> exists|b: int|
                    0 <= b < block + 1 && (#[trigger] guard_at(
                        *body,
                        views,
                        ok_blocks@,
                        alias@,
                        b,
                    ) matches Some(location) && location.pair() == p) by {
                let here = guard matches Some(location) && location.pair() == p;
                assert(effective@.contains(p) <==> before.contains(p) || here);
                if here {
                    assert(guard_at(*body, views, ok_blocks@, alias@, block as int) matches Some(
                        location,
                    ) && location.pair() == p);
                }
            }
        }
    }
    assert(effective@ =~= effective_guards(*body, views, ok_blocks@, alias@));
    effective
}

// ---- authorizing edges ---------------------------------------------------

/// The operator of the equality comparison whose result is in each local, the
/// last comparison counting.
pub open spec fn result_ops(body: Body, comparisons: Seq<ComparisonView>) -> Map<usize, BinOp>
    decreases comparisons.len(),
{
    if comparisons.len() == 0 {
        Map::empty()
    } else {
        let before = result_ops(body, comparisons.drop_last());
        let last = comparisons.last();
        match sender_comparisons::result_local(body, last) {
            Some(result) => if last.op is Eq || last.op is Ne {
                before.insert(result, last.op)
            } else {
                before
            },
            None => before,
        }
    }
}

/// The comparison result that `current` has its truth value from, and whether it
/// is negated on the way, given that `current` stands negated in front of it.
/// Only locals that are written at a single point are followed.
pub open spec fn truth_behind(
    writes: Map<usize, Written>,
    ops: Map<usize, BinOp>,
    n: nat,
    current: Local,
    negated: bool,
    seen: Set<usize>,
) -> Option<(Local, bool)>
    decreases graph::missing(seen, n),
    when n <= usize::MAX
    via truth_behind_decreases
{
    if !writes.contains_key(current) {
        None
    } else {
        match writes[current] {
            Written::Once(from) => if ops.contains_key(current) {
                Some((current, negated))
            } else {
                match from {
                    Some((next, flipped)) => if next < n && !seen.contains(next) {
                        truth_behind(writes, ops, n, next, negated != flipped, seen.insert(next))
                    } else {
                        None
                    },
                    None => None,
                }
            },
            Written::Often => None,
        }
    }
}

#[via_fn]
proof fn truth_behind_decreases(
    writes: Map<usize, Written>,
    ops: Map<usize, BinOp>,
    n: nat,
    current: Local,
    negated: bool,
    seen: Set<usize>,
) {
    if let Written::Once(Some((next, _))) = writes[current] {
        if next < n && !seen.contains(next) {
            graph::lemma_missing_grows(seen, seen.insert(next), n, next);
        }
    }
}

/// The comparison result a local has its truth value from, and whether it is
/// negated on the way.
pub open spec fn truth_of(
    program: Program,
    body: Body,
    comparisons: Seq<ComparisonView>,
    local: Local,
) -> Option<(Local, bool)> {
    truth_behind(
        writes::writes_of(program, body),
        result_ops(body, comparisons),
        body.local_decls@.len(),
        local,
        false,
        set![local],
    )
}

/// Where a branch goes for a truth value.
pub open spec fn target_for(switch: SwitchInt, value: bool) -> BasicBlock {
    if switch.values@[0] == (if value {
        1u128
    } else {
        0u128
    }) {
        switch.targets@[0]
    } else {
        switch.targets@[1]
    }
}

/// A comparison that comes out as `outcome` found the sender equal to the
/// principal.
pub open spec fn found_equal(op: BinOp, outcome: bool) -> bool {
    (op is Eq) == outcome
}

/// A branch that decides on whether the sender equals a principal: where it goes
/// if so, and where if not.
pub ghost struct Decision {
    pub equal: BasicBlock,
    pub unequal: BasicBlock,
}

/// What the branch at the end of a block decides on the result of a sender
/// comparison. A multi-way switch is not an equality guard.
pub open spec fn decision_at(
    program: Program,
    body: Body,
    comparisons: Seq<ComparisonView>,
    block: int,
) -> Option<Decision> {
    match body.basic_blocks@[block].terminator {
        Terminator::SwitchInt(switch) => match mir_util::local_of(switch.discr) {
            Some(discr) => match truth_of(program, body, comparisons, discr) {
                Some((result, negated)) => if switch.targets@.len() == 2 {
                    let truth = (result_ops(body, comparisons)[result] is Eq) != negated;
                    Some(
                        Decision {
                            equal: target_for(switch, truth),
                            unequal: target_for(switch, !truth),
                        },
                    )
                } else {
                    None
                },
                None => None,
            },
            None => None,
        },
        _ => None,
    }
}

/// The edge of the branch at the end of a block that is taken exactly when the
/// sender equals the principal: the false edge for `!=` and the true edge for
/// `==`, the other way round where the result was negated on the way.
pub open spec fn authorizing_at(
    program: Program,
    body: Body,
    comparisons: Seq<ComparisonView>,
    block: int,
) -> Option<(usize, usize)> {
    match decision_at(program, body, comparisons, block) {
        Some(decision) => if decision.equal != decision.unequal {
            Some((block as usize, decision.equal))
        } else {
            None
        },
        None => None,
    }
}

/// The edges that are taken only by an authorized sender.
pub open spec fn authorizing_edges(
    program: Program,
    body: Body,
    comparisons: Seq<ComparisonView>,
) -> Set<(usize, usize)> {
    Set::new(
        |e: (usize, usize)|
            exists|block: int|
                0 <= block < body.basic_blocks@.len() && #[trigger] authorizing_at(
                    program,
                    body,
                    comparisons,
                    block,
                ) == Some(e),
    )
}

/// A local that is written at a single point, by a step that passes a truth value
/// on, has that step in the alias map.
proof fn lemma_step_is_alias(program: Program, body: Body, local: Local, block: nat, k: nat)
    requires
        block <= body.basic_blocks@.len(),
        k > 0 ==> block < body.basic_blocks@.len() && k
            <= body.basic_blocks@[block as int].statements@.len() + 1,
    ensures
        ({
            let writes = writes::writes_before(program, body, block, k);
            let alias = aliases_before(program, body, block, k);
            &&& !writes.contains_key(local) ==> !alias.contains_key(local)
            &&& writes.contains_key(local) ==> (writes[local] matches Written::Once(
                Some((from, _)),
            ) ==> alias.contains_key(local) && alias[local] == from)
        }),
    decreases block, k,
{
    if k > 0 {
        lemma_step_is_alias(program, body, local, block, (k - 1) as nat);
    } else if block > 0 {
        lemma_step_is_alias(
            program,
            body,
            local,
            (block - 1) as nat,
            body.basic_blocks@[block - 1].statements@.len() + 1,
        );
    }
}

/// A local is written at a single point, by a copy, a negation or forwarding glue.
pub open spec fn passes_truth_on(program: Program, body: Body, local: Local) -> bool {
    writes::writes_of(program, body).contains_key(local) && writes::writes_of(
        program,
        body,
    )[local] matches Written::Once(Some(_))
}

/// A local is written at a single point, and the truth value passed on there is
/// not negated.
pub open spec fn keeps_truth(program: Program, body: Body, local: Local) -> bool {
    writes::writes_of(program, body).contains_key(local) && (writes::writes_of(
        program,
        body,
    )[local] matches Written::Once(Some((_, negated))) && !negated)
}

/// Where the alias chain of a local leads to a comparison result, the truth value
/// of the local is traced to that result: copies, payload reads, negations and
/// forwarding glue are all followed. Without a negation on the chain the value is
/// that of the result itself.
pub proof fn lemma_alias_chain_is_followed(
    program: Program,
    body: Body,
    comparisons: Seq<ComparisonView>,
    local: Local,
    i: int,
)
    requires
        ({
            let chain = chain_of(
                aliases_of(program, body),
                body.local_decls@.len(),
                local,
            );
            let ops = result_ops(body, comparisons);
            &&& 0 <= i < chain.len()
            &&& ops.contains_key(chain[i])
            &&& writes::writes_of(program, body).contains_key(chain[i])
            &&& writes::writes_of(program, body)[chain[i]] is Once
            &&& forall|j: int|
                0 <= j < i ==> !ops.contains_key(#[trigger] chain[j]) && passes_truth_on(
                    program,
                    body,
                    chain[j],
                )
        }),
    ensures
        ({
            let chain = chain_of(
                aliases_of(program, body),
                body.local_decls@.len(),
                local,
            );
            &&& truth_of(program, body, comparisons, local) matches Some((result, _)) && result
                == chain[i]
            &&& (forall|j: int| 0 <= j < i ==> keeps_truth(program, body, #[trigger] chain[j]))
                ==> truth_of(program, body, comparisons, local) == Some((chain[i], false))
        }),
{
    assert(body.local_decls.len() == body.local_decls@.len());
    lemma_chain_is_followed(program, body, comparisons, local, false, set![local], i);
}

proof fn lemma_chain_is_followed(
    program: Program,
    body: Body,
    comparisons: Seq<ComparisonView>,
    current: Local,
    negated: bool,
    seen: Set<usize>,
    i: int,
)
    requires
        body.local_decls@.len() <= usize::MAX,
        ({
            let alias = aliases_of(program, body);
            let chain = seq![current] + chain_behind(
                alias,
                body.local_decls@.len(),
                current,
                seen,
            );
            let ops = result_ops(body, comparisons);
            &&& 0 <= i < chain.len()
            &&& ops.contains_key(chain[i])
            &&& writes::writes_of(program, body).contains_key(chain[i])
            &&& writes::writes_of(program, body)[chain[i]] is Once
            &&& forall|j: int|
                0 <= j < i ==> !ops.contains_key(#[trigger] chain[j]) && passes_truth_on(
                    program,
                    body,
                    chain[j],
                )
        }),
    ensures
        ({
            let n = body.local_decls@.len();
            let chain = seq![current] + chain_behind(aliases_of(program, body), n, current, seen);
            let found = truth_behind(
                writes::writes_of(program, body),
                result_ops(body, comparisons),
                n,
                current,
                negated,
                seen,
            );
            &&& found matches Some((result, _)) && result == chain[i]
            &&& (forall|j: int| 0 <= j < i ==> keeps_truth(program, body, #[trigger] chain[j]))
                ==> found == Some((chain[i], negated))
        }),
    decreases i,
{
    let n = body.local_decls@.len();
    let alias = aliases_of(program, body);
    let writes = writes::writes_of(program, body);
    let rest = chain_behind(alias, n, current, seen);
    let chain = seq![current] + rest;
    assert(chain[0] == current);
    if i > 0 {
        assert(passes_truth_on(program, body, chain[0]));
        lemma_step_is_alias(program, body, current, body.basic_blocks@.len(), 0);
        let next = alias[current];
        assert(rest.len() > 0);
        let tail = seq![next] + chain_behind(alias, n, next, seen.insert(next));
        assert(rest =~= tail);
        assert forall|j: int| 0 <= j < i - 1 implies #[trigger] tail[j] == chain[j + 1] by {}
        assert(tail[i - 1] == chain[i]);
        let (from, flipped) = match writes[current] {
            Written::Once(Some(step)) => step,
            _ => (0, false),
        };
        lemma_chain_is_followed(
            program,
            body,
            comparisons,
            next,
            negated != flipped,
            seen.insert(next),
            i - 1,
        );
        if forall|j: int| 0 <= j < i ==> keeps_truth(program, body, #[trigger] chain[j]) {
            assert(keeps_truth(program, body, chain[0]));
            assert forall|j: int| 0 <= j < i - 1 implies keeps_truth(
                program,
                body,
                #[trigger] tail[j],
            ) by {
                assert(keeps_truth(program, body, chain[j + 1]));
            }
        }
    }
}

/// Truth values of locals under which every local that is written at a single
/// point has the value that point gives it.
pub open spec fn values_agree(writes: Map<usize, Written>, value: spec_fn(Local) -> bool) -> bool {
    forall|l: Local| #[trigger]
        writes.contains_key(l) ==> (writes[l] matches Written::Once(Some((from, negated)))
            ==> value(l) == (value(from) != negated))
}

/// A local has the truth value of the comparison result that it is traced to,
/// negated where the trace says so.
pub proof fn lemma_truth_of(
    program: Program,
    body: Body,
    comparisons: Seq<ComparisonView>,
    local: Local,
    value: spec_fn(Local) -> bool,
)
    requires
        values_agree(writes::writes_of(program, body), value),
        truth_of(program, body, comparisons, local) is Some,
    ensures
        truth_of(program, body, comparisons, local) matches Some((result, negated)) && result_ops(
            body,
            comparisons,
        ).contains_key(result) && value(local) == (value(result) != negated),
{
    assert(body.local_decls.len() == body.local_decls@.len());
    lemma_truth_behind(
        writes::writes_of(program, body),
        result_ops(body, comparisons),
        body.local_decls@.len(),
        local,
        false,
        set![local],
        value,
    );
}

proof fn lemma_truth_behind(
    writes: Map<usize, Written>,
    ops: Map<usize, BinOp>,
    n: nat,
    current: Local,
    negated: bool,
    seen: Set<usize>,
    value: spec_fn(Local) -> bool,
)
    requires
        n <= usize::MAX,
        values_agree(writes, value),
        truth_behind(writes, ops, n, current, negated, seen) is Some,
    ensures
        truth_behind(writes, ops, n, current, negated, seen) matches Some((result, parity))
            && ops.contains_key(result) && (value(current) != negated) == (value(result)
            != parity),
    decreases graph::missing(seen, n),
{
    assert(writes.contains_key(current));
    if !ops.contains_key(current) {
        if let Written::Once(Some((next, flipped))) = writes[current] {
            graph::lemma_missing_grows(seen, seen.insert(next), n, next);
            lemma_truth_behind(
                writes,
                ops,
                n,
                next,
                negated != flipped,
                seen.insert(next),
                value,
            );
        }
    }
}

/// The branch at the end of a block takes its authorizing edge exactly when the
/// comparison it decides on found the sender equal to the principal, whatever
/// copies, payload reads, negations and glue stand between the comparison and the
/// branch.
pub proof fn lemma_authorizing_edge_means_equal(
    program: Program,
    body: Body,
    comparisons: Seq<ComparisonView>,
    block: int,
    value: spec_fn(Local) -> bool,
)
    requires
        values_agree(writes::writes_of(program, body), value),
        authorizing_at(program, body, comparisons, block) is Some,
    ensures
        ({
            let switch = body.basic_blocks@[block].terminator->SwitchInt_0;
            let discr = mir_util::local_of(switch.discr)->0;
            let result = (truth_of(program, body, comparisons, discr)->0).0;
            let op = result_ops(body, comparisons)[result];
            let edge = authorizing_at(program, body, comparisons, block)->0;
            &&& op is Eq || op is Ne
            &&& target_for(switch, value(discr)) == edge.1 <==> found_equal(op, value(result))
        }),
{
    let switch = body.basic_blocks@[block].terminator->SwitchInt_0;
    let discr = mir_util::local_of(switch.discr)->0;
    lemma_truth_of(program, body, comparisons, discr, value);
    lemma_result_ops_compare(body, comparisons, (truth_of(program, body, comparisons, discr)->0).0);
}

proof fn lemma_result_ops_compare(body: Body, comparisons: Seq<ComparisonView>, result: Local)
    requires
        result_ops(body, comparisons).contains_key(result),
    ensures
        result_ops(body, comparisons)[result] is Eq || result_ops(body, comparisons)[result] is Ne,
    decreases comparisons.len(),
{
    if comparisons.len() > 0 && result_ops(body, comparisons.drop_last()).contains_key(result) {
        lemma_result_ops_compare(body, comparisons.drop_last(), result);
    }
}

/// A path goes where its branches send it: at each of its blocks that decides on
/// a sender comparison, `equal` tells whether that found the sender equal to the
/// principal.
pub open spec fn follows_outcomes(
    program: Program,
    body: Body,
    comparisons: Seq<ComparisonView>,
    path: Seq<usize>,
    equal: spec_fn(int) -> bool,
) -> bool {
    forall|i: int|
        0 <= i < path.len() - 1 ==> (decision_at(
            program,
            body,
            comparisons,
            #[trigger] path[i] as int,
        ) matches Some(decision) ==> path[i + 1] == if equal(i) {
            decision.equal
        } else {
            decision.unequal
        })
}

/// Whoever gets from the entry of a body to an authorized block has been found
/// equal to a principal on the way: a block that a single unauthorized path
/// reaches is never marked.
pub proof fn lemma_authorized_block_needs_equality(
    program: Program,
    body: Body,
    comparisons: Seq<ComparisonView>,
    path: Seq<usize>,
    equal: spec_fn(int) -> bool,
)
    requires
        graph::walk(mir_util::flow_edge(body), path),
        path[0] == 0,
        follows_outcomes(program, body, comparisons, path, equal),
        authorized_gates(program, body, comparisons).contains((path.last(), 0)),
    ensures
        exists|i: int|
            0 <= i < path.len() - 1 && decision_at(program, body, comparisons, #[trigger] path[i] as int)
                is Some && equal(i),
{
    let authorizing = authorizing_edges(program, body, comparisons);
    lemma_authorized_block_is_guarded(body, authorizing, path);
    let i = choose|i: int|
        0 <= i < path.len() - 1 && authorizing.contains((#[trigger] path[i], path[i + 1]));
    let block = choose|block: int|
        0 <= block < body.basic_blocks@.len() && #[trigger] authorizing_at(
            program,
            body,
            comparisons,
            block,
        ) == Some((path[i], path[i + 1]));
    assert(body.basic_blocks.len() == body.basic_blocks@.len());
    assert(path[i] == block);
    assert(decision_at(program, body, comparisons, path[i] as int) is Some);
}

/// Control may pass from one block to the other by an edge that authorizes
/// nobody.
pub open spec fn open_edge(body: Body, authorizing: Set<(usize, usize)>) -> spec_fn(
    usize,
    usize,
) -> bool {
    |a: usize, b: usize| mir_util::flow_edge(body)(a, b) && !authorizing.contains((a, b))
}

/// The blocks that no edge leads to, and the entry.
pub open spec fn open_starts(body: Body) -> Set<usize> {
    Set::new(
        |b: usize|
            b < body.basic_blocks@.len() && (b == 0 || mir_util::preds_of(body, b).len() == 0),
    )
}

/// A block is reached only through authorizing edges.
pub open spec fn authorized_block(
    body: Body,
    authorizing: Set<(usize, usize)>,
    block: usize,
) -> bool {
    block < body.basic_blocks@.len() && !graph::reaches(
        open_edge(body, authorizing),
        open_starts(body),
        block,
    )
}

/// The entries of the authorized blocks; none where no edge authorizes.
pub open spec fn authorized_gates(
    program: Program,
    body: Body,
    comparisons: Seq<ComparisonView>,
) -> Set<(usize, usize)> {
    let authorizing = authorizing_edges(program, body, comparisons);
    if authorizing == Set::<(usize, usize)>::empty() {
        Set::empty()
    } else {
        Set::new(|p: (usize, usize)| p.1 == 0 && authorized_block(body, authorizing, p.0))
    }
}

/// A block other than the entry is authorized exactly when it has predecessors
/// and each of them is authorized itself or leads to it by an authorizing edge.
pub proof fn lemma_authorized_block_equation(
    body: Body,
    authorizing: Set<(usize, usize)>,
    block: usize,
)
    requires
        0 < block < body.basic_blocks@.len(),
    ensures
        authorized_block(body, authorizing, block) <==> (mir_util::preds_of(body, block).len() > 0
            && forall|p: usize| #[trigger]
            mir_util::preds_of(body, block).contains(p) ==> authorizing.contains((p, block))
                || authorized_block(body, authorizing, p)),
{
    let edge = open_edge(body, authorizing);
    let starts = open_starts(body);
    let preds = mir_util::preds_of(body, block);
    if authorized_block(body, authorizing, block) {
        if preds.len() == 0 {
            graph::lemma_reaches_start(edge, starts, block);
        }
        assert forall|p: usize| #[trigger] preds.contains(p) implies authorizing.contains(
            (p, block),
        ) || authorized_block(body, authorizing, p) by {
            mir_util::lemma_preds(body, block, p);
            if !authorizing.contains((p, block)) && graph::reaches(edge, starts, p) {
                graph::lemma_reaches_step(edge, starts, p, block);
            }
        }
    } else {
        let path = choose|path: Seq<usize>| graph::leads(edge, starts, path, block);
        if preds.len() > 0 {
            assert(path.len() > 1);
            let p = path[path.len() - 2];
            let shorter = path.drop_last();
            assert(edge(path[path.len() - 2], path[path.len() - 2 + 1]));
            mir_util::lemma_preds(body, block, p);
            assert(preds.contains(p));
            assert forall|i: int| 0 <= i < shorter.len() - 1 implies edge(
                #[trigger] shorter[i],
                shorter[i + 1],
            ) by {
                assert(edge(path[i], path[i + 1]));
            }
            assert(graph::leads(edge, starts, shorter, p));
        }
    }
}

/// Every path from the entry of a body to an authorized block crosses an
/// authorizing edge, so a block that some unauthorized path reaches is never
/// marked.
pub proof fn lemma_authorized_block_is_guarded(
    body: Body,
    authorizing: Set<(usize, usize)>,
    path: Seq<usize>,
)
    requires
        graph::walk(mir_util::flow_edge(body), path),
        path[0] == 0,
        authorized_block(body, authorizing, path.last()),
    ensures
        exists|i: int|
            0 <= i < path.len() - 1 && authorizing.contains((#[trigger] path[i], path[i + 1])),
{
    if forall|i: int|
        0 <= i < path.len() - 1 ==> !authorizing.contains((#[trigger] path[i], path[i + 1])) {
        let edge = open_edge(body, authorizing);
        assert forall|i: int| 0 <= i < path.len() - 1 implies edge(
            #[trigger] path[i],
            path[i + 1],
        ) by {
            assert(mir_util::flow_edge(body)(path[i], path[i + 1]));
        }
        if path.len() == 1 {
            assert(path.last() == 0);
        } else {
            assert(mir_util::flow_edge(body)(path[0], path[0int + 1]));
        }
        assert(open_starts(body).contains(path[0]));
        assert(graph::leads(edge, open_starts(body), path, path.last()));
    }
}

/// Every path of a body from its entry to `block` crosses an authorizing edge.
pub open spec fn always_authorized(
    body: Body,
    authorizing: Set<(usize, usize)>,
    block: usize,
) -> bool {
    forall|path: Seq<usize>| #[trigger]
        graph::leads(mir_util::flow_edge(body), set![0usize], path, block) ==> exists|i: int|
            0 <= i < path.len() - 1 && authorizing.contains((#[trigger] path[i], path[i + 1]))
}

/// A block is authorized exactly when every path from the entry to it crosses an
/// authorizing edge, unless code that control never enters leads to it.
pub proof fn lemma_authorized_exactly_when_guarded(
    body: Body,
    authorizing: Set<(usize, usize)>,
    block: usize,
)
    requires
        block < body.basic_blocks@.len(),
        !graph::reaches(open_edge(body, authorizing), open_starts(body).remove(0), block),
    ensures
        authorized_block(body, authorizing, block) <==> always_authorized(body, authorizing, block),
{
    let edge = open_edge(body, authorizing);
    if authorized_block(body, authorizing, block) {
        assert forall|path: Seq<usize>| #[trigger]
            graph::leads(mir_util::flow_edge(body), set![0usize], path, block) implies exists|
            i: int,
        |
            0 <= i < path.len() - 1 && authorizing.contains((#[trigger] path[i], path[i + 1])) by {
            lemma_authorized_block_is_guarded(body, authorizing, path);
        }
    } else {
        let path = choose|path: Seq<usize>| graph::leads(edge, open_starts(body), path, block);
        if path[0] != 0 {
            assert(graph::leads(edge, open_starts(body).remove(0), path, block));
        }
        assert forall|i: int| 0 <= i < path.len() - 1 implies mir_util::flow_edge(body)(
            #[trigger] path[i],
            path[i + 1],
        ) by {
            assert(edge(path[i], path[i + 1]));
        }
        assert(graph::leads(mir_util::flow_edge(body), set![0usize], path, block));
        if always_authorized(body, authorizing, block) {
            let i = choose|i: int|
                0 <= i < path.len() - 1 && authorizing.contains((#[trigger] path[i], path[i + 1]));
            assert(edge(path[i], path[i + 1]));
        }
    }
}

/// Comparisons with an operator other than `Eq` and `Ne` have no polarity, so
/// adding some changes nothing about which edges authorize.
pub proof fn lemma_polarity_decides_authorization(
    program: Program,
    body: Body,
    comparisons: Seq<ComparisonView>,
    others: Seq<ComparisonView>,
)
    requires
        forall|i: int|
            0 <= i < others.len() ==> !((#[trigger] others[i]).op is Eq || others[i].op is Ne),
    ensures
        authorizing_edges(program, body, comparisons + others) == authorizing_edges(
            program,
            body,
            comparisons,
        ),
        authorized_gates(program, body, comparisons + others) == authorized_gates(
            program,
            body,
            comparisons,
        ),
{
    lemma_polarity_decides_ops(body, comparisons, others);
    let all = comparisons + others;
    assert forall|e: (usize, usize)| #[trigger]
        authorizing_edges(program, body, all).contains(e) == authorizing_edges(
            program,
            body,
            comparisons,
        ).contains(e) by {
        if authorizing_edges(program, body, comparisons).contains(e) {
            let block = choose|block: int|
                0 <= block < body.basic_blocks@.len() && #[trigger] authorizing_at(
                    program,
                    body,
                    comparisons,
                            block,
                ) == Some(e);
            assert(authorizing_at(program, body, all, block) == Some(e));
        }
        if authorizing_edges(program, body, all).contains(e) {
            let block = choose|block: int|
                0 <= block < body.basic_blocks@.len() && #[trigger] authorizing_at(
                    program,
                    body,
                    all,
                            block,
                ) == Some(e);
            assert(authorizing_at(program, body, comparisons, block) == Some(e));
        }
    }
    assert(authorizing_edges(program, body, all) =~= authorizing_edges(program, body, comparisons));
}

proof fn lemma_polarity_decides_ops(
    body: Body,
    comparisons: Seq<ComparisonView>,
    others: Seq<ComparisonView>,
)
    requires
        forall|i: int|
            0 <= i < others.len() ==> !((#[trigger] others[i]).op is Eq || others[i].op is Ne),
    ensures
        result_ops(body, comparisons + others) == result_ops(body, comparisons),
    decreases others.len(),
{
    if others.len() == 0 {
        assert(comparisons + others =~= comparisons);
    } else {
        let fewer = others.drop_last();
        assert forall|i: int| 0 <= i < fewer.len() implies !((#[trigger] fewer[i]).op is Eq
            || fewer[i].op is Ne) by {
            assert(fewer[i] == others[i]);
        }
        lemma_polarity_decides_ops(body, comparisons, fewer);
        assert((comparisons + others).drop_last() =~= comparisons + fewer);
        assert((comparisons + others).last() == others[others.len() - 1]);
    }
}

/// Returns the comparison result that `start` has its truth value from, and
/// whether it is negated on the way.
#[verifier::loop_isolation(false)]
fn trace_truth(
    writes: &DenseMap<Written>,
    result_to_op: &DenseMap<BinOp>,
    start: Local,
    locals: usize,
) -> (found: Option<(Local, bool)>)
    ensures
        found == truth_behind(
            writes@,
            result_to_op@,
            locals as nat,
            start,
            false,
            set![start],
        ),
{
    let mut seen = DenseSet::new();
    seen.insert(start);
    assert(seen@ =~= set![start]);
    let mut current: Local = start;
    let mut negated = false;
    let ghost goal = truth_behind(
        writes@,
        result_to_op@,
        locals as nat,
        start,
        false,
        set![start],
    );
    loop
        invariant
            goal == truth_behind(
                writes@,
                result_to_op@,
                locals as nat,
                current,
                negated,
                seen@,
            ),
        decreases graph::missing(seen@, locals as nat),
    {
        let from = match writes.get(current) {
            Some(Written::Once(from)) => *from,
            _ => {
                return None;
            },
        };
        if result_to_op.contains_key(current) {
            return Some((current, negated));
        }
        match from {
            Some((next, flipped)) => {
                if next >= locals || seen.contains(next) {
                    return None;
                }
                let ghost seen0 = seen@;
                seen.insert(next);
                proof {
                    graph::lemma_missing_grows(seen0, seen@, locals as nat, next);
                }
                negated = negated != flipped;
                current = next;
            },
            None => {
                return None;
            },
        }
    }
}

/// Returns where a branch goes for a truth value.
fn branch_target(switch: &SwitchInt, value: bool) -> (target: BasicBlock)
    requires
        switch.values@.len() == 1,
        switch.targets@.len() == 2,
    ensures
        target == target_for(*switch, value),
{
    let number: u128 = if value {
        1
    } else {
        0
    };
    if switch.values[0] == number {
        switch.targets[0]
    } else {
        switch.targets[1]
    }
}

/// Returns the authorizing edge of the branch at the end of a block.
fn authorizing_edge(
    program: &Program,
    body: &Body,
    writes: &DenseMap<Written>,
    result_to_op: &DenseMap<BinOp>,
    comparisons: Ghost<Seq<ComparisonView>>,
    block: BasicBlock,
) -> (edge: Option<(usize, usize)>)
    requires
        body.wf(*program),
        block < body.basic_blocks@.len(),
        writes@ == writes::writes_of(*program, *body),
        result_to_op@ == result_ops(*body, comparisons@),
    ensures
        edge == authorizing_at(*program, *body, comparisons@, block as int),
{
    assert(body.basic_blocks@[block as int].wf(
        *program,
        body.local_decls@.len(),
        body.basic_blocks@.len(),
    ));
    if let Terminator::SwitchInt(switch) = &body.basic_blocks[block].terminator {
        // Genuine boolean branches only. A multi-way discriminant switch over
        // an enum is not an equality guard and must not be classified here.
        if switch.targets.len() != 2 {
            return None;
        }
        if let Some(discr) = mir_util::operand_local(&switch.discr) {
            assert(body.local_decls.len() == body.local_decls@.len());
            if let Some((result, negated)) = trace_truth(
                writes,
                result_to_op,
                discr,
                body.local_decls.len(),
            ) {
                if let Some(op) = result_to_op.get(result) {
                    let is_eq = match op {
                        BinOp::Eq => true,
                        _ => false,
                    };
                    // `sender == principal` is the authorizing outcome.
                    let truth = is_eq != negated;
                    let equal: BasicBlock = branch_target(switch, truth);
                    let unequal: BasicBlock = branch_target(switch, !truth);
                    if equal != unequal {
                        return Some((block, equal));
                    }
                    return None;
                }
                proof {
                    lemma_truth_behind_result(
                        writes@,
                        result_to_op@,
                        body.local_decls@.len(),
                        discr,
                        false,
                        set![discr],
                    );
                }
            }
        }
    }
    None
}

/// What a local is traced to is the result of a comparison.
proof fn lemma_truth_behind_result(
    writes: Map<usize, Written>,
    ops: Map<usize, BinOp>,
    n: nat,
    current: Local,
    negated: bool,
    seen: Set<usize>,
)
    requires
        n <= usize::MAX,
    ensures
        truth_behind(writes, ops, n, current, negated, seen) matches Some((result, _))
            ==> ops.contains_key(result),
    decreases graph::missing(seen, n),
{
    if writes.contains_key(current) && !ops.contains_key(current) {
        if let Written::Once(Some((next, flipped))) = writes[current] {
            if next < n && !seen.contains(next) {
                graph::lemma_missing_grows(seen, seen.insert(next), n, next);
                lemma_truth_behind_result(
                    writes,
                    ops,
                    n,
                    next,
                    negated != flipped,
                    seen.insert(next),
                );
            }
        }
    }
}

/// Edge-sensitive gating for disjunctive checks.
///
/// A check such as `if sender != owner && sender != manager { return Err(..) }`
/// lets the authorized caller, owner *or* manager, through a short-circuit
/// bypass edge of the `&&`, not through a single dominating guard location.
/// The location-based criterion therefore misses it: the first comparison has
/// no aborting arm, since both of its arms can still reach an `Ok`-return, and
/// the owner's path would arrive at the storage write as `Unchecked`.
///
/// Those gates are recovered by reasoning about *edges*. Where the result of an
/// equality comparison feeds a boolean branch, through copies, payload reads,
/// negations and forwarding glue, the authorizing edge is determined: for `!=`
/// the false edge, for `==` the true edge, both meaning `sender == principal`,
/// and the other edge where the result is negated in between. The entry of a
/// block is marked whenever every path to it crosses an authorizing edge.
///
/// That condition is what keeps the marking sound: a block reachable by even
/// one unauthorized path is never marked, so no vulnerability can be hidden. A
/// misclassification can only ever fail towards a false positive, which is why a
/// result that passes through a discriminant, or through a local written at
/// several points, authorizes nothing: it no longer tells how the comparison
/// came out.
#[verifier::loop_isolation(false)]
fn authorized_gate_locations(
    program: &Program,
    body: &Body,
    comparisons: &Vec<SenderComparison>,
) -> (gates: PairSet)
    requires
        program.wf(),
        body.wf(*program),
        sender_comparisons::comparisons_wf(
            *body,
            sender_comparisons::comparison_views(comparisons@),
        ),
    ensures
        gates@ == authorized_gates(
            *program,
            *body,
            sender_comparisons::comparison_views(comparisons@),
        ),
        forall|p: (usize, usize)| #[trigger]
            gates@.contains(p) ==> p.0 < body.basic_blocks@.len(),
{
    let ghost views = sender_comparisons::comparison_views(comparisons@);
    let n: usize = body.basic_blocks.len();
    let mut result_to_op: DenseMap<BinOp> = DenseMap::new();
    assert(views.take(0) =~= Seq::<ComparisonView>::empty());
    for i in 0..comparisons.len()
        invariant
            result_to_op@ == result_ops(*body, views.take(i as int)),
    {
        assert(views[i as int] == comparisons@[i as int]@);
        assert(views.take(i + 1).drop_last() =~= views.take(i as int));
        let equality = match comparisons[i].op {
            BinOp::Eq => true,
            BinOp::Ne => true,
            _ => false,
        };
        if equality {
            if let Some(result) = comparison_result_local(body, &comparisons[i]) {
                result_to_op.insert(result, comparisons[i].op);
            }
        }
    }
    assert(views.take(views.len() as int) =~= views);

    let writes = build_write_map(program, body);
    let ghost authorizing = authorizing_edges(*program, *body, views);
    let mut authorized_edges = PairSet::new();
    for block in 0..n
        invariant
            forall|e: (usize, usize)| #[trigger]
                authorized_edges@.contains(e) <==> exists|b: int|
                    0 <= b < block && #[trigger] authorizing_at(*program, *body, views, b) == Some(e),
    {
        let edge = authorizing_edge(program, body, &writes, &result_to_op, Ghost(views), block);
        let ghost before = authorized_edges@;
        if let Some((from, to)) = edge {
            authorized_edges.insert(from, to);
        }
        proof {
            assert forall|e: (usize, usize)| #[trigger]
                authorized_edges@.contains(e) <==> exists|b: int|
                    0 <= b < block + 1 && #[trigger] authorizing_at(*program, *body, views, b)
                        == Some(e) by {
                assert(authorized_edges@.contains(e) <==> before.contains(e) || edge == Some(e));
                if edge == Some(e) {
                    assert(authorizing_at(*program, *body, views, block as int) == Some(e));
                }
            }
        }
    }
    assert(authorized_edges@ =~= authorizing);
    let mut gates = PairSet::new();
    if authorized_edges.is_empty() {
        return gates;
    }

    // Forward must-analysis over blocks: a block is authorized exactly when
    // every path to it crosses an authorizing comparison edge. Marking only the
    // immediate successor of each edge would not suffice: an `Option`
    // comparison such as `Some(sender) != cfg.owner` leaves a temporary that is
    // dropped on the taken edge, which inserts a forwarding block between the
    // branch and the real convergence block.
    proof {
        mir_util::lemma_successors_exist(*program, *body);
    }
    let preds = mir_util::predecessors(body);
    let ghost edge = open_edge(*body, authorizing);
    let mut lists: Vec<Vec<usize>> = Vec::new();
    let mut starts = DenseSet::new();
    for block in 0..n
        invariant
            lists@.len() == block,
            forall|a: int, i: int|
                0 <= a < block && 0 <= i < lists@[a]@.len() ==> #[trigger] lists@[a]@[i] < n,
            forall|a: usize, b: usize|
                a < block ==> (#[trigger] lists@[a as int]@.contains(b) <==> edge(a, b)),
            forall|b: usize| #[trigger]
                starts@.contains(b) <==> b < block && open_starts(*body).contains(b),
    {
        let successors = &body.basic_blocks[block].successors;
        let mut open: Vec<usize> = Vec::new();
        for i in 0..successors.len()
            invariant
                forall|k: int| 0 <= k < open@.len() ==> #[trigger] open@[k] < n,
                forall|b: usize| #[trigger]
                    open@.contains(b) <==> successors@.take(i as int).contains(b)
                        && !authorizing.contains((block, b)),
        {
            let target: usize = successors[i];
            let ghost before = open@;
            assert(mir_util::successors_of(*body, block as int)[i as int] < n);
            if !authorized_edges.contains(block, target) {
                open.push(target);
            }
            proof {
                assert(successors@.take(i + 1) =~= successors@.take(i as int).push(target));
                assert forall|b: usize| #[trigger]
                    open@.contains(b) <==> successors@.take(i + 1).contains(b)
                        && !authorizing.contains((block, b)) by {
                    graph::lemma_push_contains(
                        successors@.take(i as int),
                        target,
                        b,
                    );
                    graph::lemma_push_contains(before, target, b);
                    assert(before.contains(b) <==> successors@.take(i as int).contains(b)
                        && !authorizing.contains((block, b)));
                }
            }
        }
        assert(successors@.take(successors@.len() as int) =~= successors@);
        let ghost lists0 = lists@;
        lists.push(open);
        assert forall|a: usize, b: usize| a < block + 1 implies (
        #[trigger] lists@[a as int]@.contains(b) <==> edge(a, b)) by {
            if a < block {
                assert(lists0[a as int]@.contains(b) <==> edge(a, b));
            }
        }
        if block == 0 || preds[block].len() == 0 {
            starts.insert(block);
        }
    }
    let reached = graph::reach(&lists, &starts);
    proof {
        assert forall|a: usize, b: usize| #[trigger]
            graph::list_edge(lists@)(a, b) == edge(a, b) by {
            if a < n {
                assert(lists@[a as int]@.contains(b) <==> edge(a, b));
            }
        }
        assert(graph::list_edge(lists@) =~= edge);
        assert(starts@ =~= open_starts(*body));
    }
    for block in 0..n
        invariant
            forall|p: (usize, usize)| #[trigger]
                gates@.contains(p) <==> p.0 < block && p.1 == 0 && authorized_block(
                    *body,
                    authorizing,
                    p.0,
                ),
    {
        if !reached.contains(block) {
            gates.insert(block, 0);
        }
    }
    assert(gates@ =~= authorized_gates(*program, *body, views));
    gates
}

// ---- the facts of one body -----------------------------------------------

/// The blocks that hold a successful return.
pub open spec fn ok_blocks_of(ok_points: Seq<Location>) -> Set<usize> {
    Set::new(
        |b: usize| exists|i: int| 0 <= i < ok_points.len() && (#[trigger] ok_points[i]).block == b,
    )
}

/// The blocks whose first point is in the set.
pub open spec fn first_points(points: Set<(usize, usize)>) -> Set<usize> {
    Set::new(|b: usize| points.contains((b, 0)))
}

/// What a function's own comparisons make a check: the comparisons that are
/// enforced, and the entries of the authorized blocks.
pub open spec fn own_guards(
    program: Program,
    body: Body,
    comparisons: Seq<ComparisonView>,
) -> Checks {
    if comparisons.len() == 0 {
        Checks::at_points(Set::empty())
    } else {
        let alias = aliases_of(program, body);
        let ok_blocks = ok_blocks_of(auth_gate::ok_points_of(program, body));
        let gates = authorized_gates(program, body, comparisons);
        Checks {
            points: effective_guards(body, comparisons, ok_blocks, alias).union(gates),
            entries: first_points(gates),
        }
    }
}

/// A function's own guards together with every call whose callee is in
/// `vouching`.
pub open spec fn checks_with(
    own: Checks,
    sites: Seq<CallSiteView>,
    vouching: Set<usize>,
) -> Checks {
    Checks {
        points: Set::new(
            |p: (usize, usize)|
                own.points.contains(p) || exists|i: int|
                    0 <= i < sites.len() && (#[trigger] sites[i]).location.pair() == p
                        && vouching.contains(sites[i].callee),
        ),
        entries: own.entries,
    }
}

/// The functions a summary says `true` of.
pub open spec fn holding(summary: Map<usize, bool>) -> Set<usize> {
    Set::new(|f: usize| summary.contains_key(f) && summary[f])
}

/// More vouching callees give more checks.
proof fn lemma_checks_with_monotone(
    own: Checks,
    sites: Seq<CallSiteView>,
    fewer: Set<usize>,
    more: Set<usize>,
)
    requires
        fewer.subset_of(more),
    ensures
        checks_with(own, sites, fewer).within(checks_with(own, sites, more)),
{
    assert forall|p: (usize, usize)|
        checks_with(own, sites, fewer).points.contains(p) implies checks_with(
        own,
        sites,
        more,
    ).points.contains(p) by {
        if !own.points.contains(p) {
            let i = choose|i: int|
                0 <= i < sites.len() && (#[trigger] sites[i]).location.pair() == p
                    && fewer.contains(sites[i].callee);
            assert(more.contains(sites[i].callee));
        }
    }
}

/// The parts of a function's gating that do not change while the
/// interprocedural fixpoints iterate.
///
/// The `Ok`-return points and the guards a function derives from its own
/// comparisons depend only on the body and on stage 3's result, both of which
/// are fixed by the time stage 5 starts. Computing them once, rather than per
/// fixpoint round, and again for the second fixpoint, keeps the repeated
/// reachability analysis out of the iteration.
#[derive(Debug)]
pub struct GatingFacts {
    ok_points: Vec<Location>,
    own_guards: PairSet,
    /// The blocks whose entry is authorized.
    authorized: DenseSet,
}

impl GatingFacts {
    /// The facts are those of the body under the given comparisons.
    pub closed spec fn describes(
        self,
        program: Program,
        body: Body,
        comparisons: Seq<ComparisonView>,
    ) -> bool {
        &&& self.ok_points@ == auth_gate::ok_points_of(program, body)
        &&& self.own_guards@ == own_guards(program, body, comparisons).points
        &&& self.authorized@ == own_guards(program, body, comparisons).entries
    }

    #[verifier::loop_isolation(false)]
    fn build(program: &Program, body: &Body, comparisons: &Vec<SenderComparison>) -> (facts: Self)
        requires
            program.wf(),
            body.wf(*program),
            sender_comparisons::comparisons_wf(
                *body,
                sender_comparisons::comparison_views(comparisons@),
            ),
        ensures
            facts.describes(
                *program,
               *body,
                sender_comparisons::comparison_views(comparisons@),
            ),
    {
        let ok_points = auth_gate::ok_return_points(program, body);
        if comparisons.len() == 0 {
            return GatingFacts {
                ok_points,
                own_guards: PairSet::new(),
                authorized: DenseSet::new(),
            };
        }
        let mut ok_blocks = DenseSet::new();
        for i in 0..ok_points.len()
            invariant
                forall|b: usize| #[trigger]
                    ok_blocks@.contains(b) <==> exists|j: int|
                        0 <= j < i && (#[trigger] ok_points@[j]).block == b,
        {
            let ghost before = ok_blocks@;
            ok_blocks.insert(ok_points[i].block);
            assert forall|b: usize| #[trigger]
                ok_blocks@.contains(b) <==> exists|j: int|
                    0 <= j < i + 1 && (#[trigger] ok_points@[j]).block == b by {
                assert(ok_blocks@.contains(b) <==> before.contains(b)
                    || ok_points@[i as int].block == b);
            }
        }
        assert(ok_blocks@ =~= ok_blocks_of(ok_points@));
        let alias = build_comparison_alias_map(program, body);
        let mut own_guards = effective_guard_locations(
            program,
           body,
            comparisons,
            &ok_blocks,
            &alias,
        );
        let gates = authorized_gate_locations(program, body, comparisons);
        own_guards.extend(&gates);
        let authorized = blocks_entered(body, &gates);
        assert(authorized@ =~= first_points(gates@));
        GatingFacts { ok_points, own_guards, authorized }
    }

    /// The `Ok`-return points of the body.
    pub(crate) fn ok_points(&self) -> (points: &Vec<Location>)
        ensures
            forall|program: Program, body: Body, comparisons: Seq<ComparisonView>| #[trigger]
                self.describes(program, body, comparisons) ==> points@ == auth_gate::ok_points_of(
                    program,
                   body,
                ),
    {
        &self.ok_points
    }

    /// All check locations for one analysis run: the function's own guards
    /// plus every call site whose callee checks on all paths.
    #[verifier::loop_isolation(false)]
    pub(crate) fn check_locations(
        &self,
        call_sites: &Vec<CallSite>,
        always_checks: &DenseMap<bool>,
    ) -> (locations: PairSet)
        ensures
            forall|program: Program, body: Body, comparisons: Seq<ComparisonView>| #[trigger]
                self.describes(program, body, comparisons) ==> locations@ == checks_with(
                    own_guards(program, body, comparisons),
                    call_graph::site_views(call_sites@),
                    holding(always_checks@),
                ).points,
    {
        let ghost sites = call_graph::site_views(call_sites@);
        let mut locations = self.own_guards.clone();
        for i in 0..call_sites.len()
            invariant
                forall|p: (usize, usize)| #[trigger]
                    locations@.contains(p) <==> self.own_guards@.contains(p) || exists|j: int|
                        0 <= j < i && (#[trigger] sites[j]).location.pair() == p && holding(
                            always_checks@,
                        ).contains(sites[j].callee),
        {
            let site = &call_sites[i];
            assert(sites[i as int] == site@);
            let ghost before = locations@;
            let always = match always_checks.get(site.callee) {
                Some(always) => *always,
                None => false,
            };
            if always {
                locations.insert(site.location.block, site.location.statement_index);
            }
            assert forall|p: (usize, usize)| #[trigger]
                locations@.contains(p) <==> self.own_guards@.contains(p) || exists|j: int|
                    0 <= j < i + 1 && (#[trigger] sites[j]).location.pair() == p && holding(
                        always_checks@,
                    ).contains(sites[j].callee) by {
                assert(locations@.contains(p) <==> before.contains(p) || (
                sites[i as int].location.pair() == p && holding(always_checks@).contains(
                    sites[i as int].callee,
                )));
            }
        }
        assert forall|program: Program, body: Body, comparisons: Seq<ComparisonView>| #[trigger]
            self.describes(program, body, comparisons) implies locations@ == checks_with(
            own_guards(program, body, comparisons),
            sites,
            holding(always_checks@),
        ).points by {
            assert(locations@ =~= checks_with(
                own_guards(program, body, comparisons),
                sites,
                holding(always_checks@),
            ).points);
        }
        locations
    }

    /// Runs the gating analysis of the body with these checks.
    pub(crate) fn solve(
        &self,
        program: &Program,
        body: &Body,
        call_sites: &Vec<CallSite>,
        always_checks: &DenseMap<bool>,
        entry_checked: AuthState,
    ) -> (gating: Gating)
        requires
            body.wf(*program),
        ensures
            forall|comparisons: Seq<ComparisonView>| #[trigger]
                self.describes(*program, *body, comparisons) ==> auth_gate::solves(
                    gating,
                    *body,
                    checks_with(
                        own_guards(*program, *body, comparisons),
                        call_graph::site_views(call_sites@),
                        holding(always_checks@),
                    ),
                    entry_checked,
                    auth_gate::ok_points_of(*program, *body),
                ),
    {
        let checks = self.check_locations(call_sites, always_checks);
        let gating = auth_gate::solve_with_entries(
            program,
           body,
            checks,
            self.authorized.clone(),
            entry_checked,
            &self.ok_points,
        );
        assert forall|comparisons: Seq<ComparisonView>| #[trigger]
            self.describes(*program, *body, comparisons) implies auth_gate::solves(
            gating,
            *body,
            checks_with(
                own_guards(*program, *body, comparisons),
                call_graph::site_views(call_sites@),
                holding(always_checks@),
            ),
            entry_checked,
            auth_gate::ok_points_of(*program, *body),
        ) by {
            assert(checks_with(
                own_guards(*program, *body, comparisons),
                call_graph::site_views(call_sites@),
                holding(always_checks@),
            ) =~= Checks { points: checks@, entries: self.authorized@ });
        }
        gating
    }
}

/// Returns the blocks of a body whose first point is in the set.
#[verifier::loop_isolation(false)]
fn blocks_entered(body: &Body, points: &PairSet) -> (blocks: DenseSet)
    requires
        forall|p: (usize, usize)| #[trigger]
            points@.contains(p) ==> p.0 < body.basic_blocks@.len(),
    ensures
        blocks@ == first_points(points@),
{
    let mut blocks = DenseSet::new();
    for b in 0..body.basic_blocks.len()
        invariant
            forall|c: usize| #[trigger]
                blocks@.contains(c) <==> c < b && points@.contains((c, 0)),
    {
        if points.contains(b, 0) {
            blocks.insert(b);
        }
    }
    assert(blocks@ =~= first_points(points@));
    blocks
}

/// The gating facts of every analysed body, keyed by function.
pub struct GatingIndex {
    facts: DenseMap<GatingFacts>,
    /// The comparisons the facts were derived from.
    comparisons: Ghost<Map<usize, Seq<ComparisonView>>>,
}

/// A function's comparisons are known and its body is at hand.
pub open spec fn has_facts(
    program: Program,
    comparisons: Map<usize, Seq<ComparisonView>>,
    f: DefId,
) -> bool {
    comparisons.contains_key(f) && f < program.defs@.len() && cosmwasm::analysable(program, f)
}

impl GatingIndex {
    /// The comparisons the facts were derived from.
    pub closed spec fn comparisons(self) -> Map<usize, Seq<ComparisonView>> {
        self.comparisons@
    }

    /// The index is that of the program.
    pub closed spec fn describes(self, program: Program) -> bool {
        forall|f: DefId|
            (#[trigger] self.facts@.contains_key(f) <==> has_facts(
                program,
                self.comparisons(),
                f,
            )) && (self.facts@.contains_key(f) ==> self.facts@[f].describes(
                program,
                cosmwasm::body_at(program, f),
                self.comparisons()[f],
            ))
    }

    #[verifier::loop_isolation(false)]
    pub fn build(
        program: &Program,
        fn_comparisons: &DenseMap<Vec<SenderComparison>>,
    ) -> (index: Self)
        requires
            program.wf(),
            sender_comparisons::comparison_map_wf(
                *program,
                sender_comparisons::comparison_map(fn_comparisons@),
            ),
        ensures
            index.describes(*program),
            index.comparisons() == sender_comparisons::comparison_map(fn_comparisons@),
    {
        let ghost map = sender_comparisons::comparison_map(fn_comparisons@);
        let mut facts: DenseMap<GatingFacts> = DenseMap::new();
        let bound: usize = fn_comparisons.bound();
        for f in 0..bound
            invariant
                forall|g: DefId|
                    (#[trigger] facts@.contains_key(g) <==> g < f && has_facts(
                        *program,
                        map,
                        g,
                    )) && (facts@.contains_key(g) ==> facts@[g].describes(
                        *program,
                        cosmwasm::body_at(*program, g),
                        map[g],
                    )),
        {
            if let Some(comparisons) = fn_comparisons.get(f) {
                assert(map.contains_key(f));
                if let Some(body) = cosmwasm::body_of(program, f) {
                    facts.insert(f, GatingFacts::build(program, body, comparisons));
                }
            }
        }
        GatingIndex { facts, comparisons: Ghost(map) }
    }

    pub(crate) fn get(&self, def_id: DefId) -> (facts: Option<&GatingFacts>)
        ensures
            forall|program: Program| #[trigger]
                self.describes(program) ==> (facts is Some <==> has_facts(
                    program,
                    self.comparisons(),
                    def_id,
                )) && (facts matches Some(found) ==> found.describes(
                    program,
                    cosmwasm::body_at(program, def_id),
                    self.comparisons()[def_id],
                )),
    {
        let facts = self.facts.get(def_id);
        assert forall|program: Program| #[trigger] self.describes(program) implies (facts is Some
            <==> has_facts(program, self.comparisons(), def_id)) && (facts matches Some(found)
            ==> found.describes(
            program,
            cosmwasm::body_at(program, def_id),
            self.comparisons()[def_id],
        )) by {
            assert(self.facts@.contains_key(def_id) <==> has_facts(
                program,
                self.comparisons(),
                def_id,
            ));
        }
        facts
    }

    /// Runs the gating analysis of `def_id` under an assumed entry state.
    /// Used by stage 6, which needs the state at each sink rather than only
    /// the summary.
    pub fn solve_for(
        &self,
        program: &Program,
        body: &Body,
        def_id: DefId,
        call_sites: &Vec<CallSite>,
        always_checks: &DenseMap<bool>,
        entry_checked: AuthState,
    ) -> (gating: Option<Gating>)
        requires
            body.wf(*program),
            *body == cosmwasm::body_at(*program, def_id),
            self.describes(*program),
        ensures
            gating is Some <==> has_facts(*program, self.comparisons(), def_id),
            gating matches Some(g) ==> ({
                let checks = checks_with(
                    own_guards(*program, *body, self.comparisons()[def_id]),
                    call_graph::site_views(call_sites@),
                    holding(always_checks@),
                );
                auth_gate::solves(
                    g,
                    *body,
                    checks,
                    entry_checked,
                    auth_gate::ok_points_of(*program, *body),
                )
            }),
    {
        match self.get(def_id) {
            Some(facts) => {
                assert(facts.describes(*program, *body, self.comparisons()[def_id]));
                Some(facts.solve(program, body, call_sites, always_checks, entry_checked))
            },
            None => None,
        }
    }
}

// ---- functions that always check -----------------------------------------

/// A function checks on every path to a successful return, calls to the
/// functions in `vouching` taken as checks.
pub open spec fn checks_always(
    program: Program,
    nodes: Seq<DefId>,
    comparisons: Map<usize, Seq<ComparisonView>>,
    vouching: Set<usize>,
    f: DefId,
) -> bool {
    nodes.contains(f) && has_facts(program, comparisons, f) && {
        let body = cosmwasm::body_at(program, f);
        auth_gate::always_state(
            body,
            checks_with(
                own_guards(program, body, comparisons[f]),
                call_graph::sites_of(program, body),
                vouching,
            ),
            AuthState::Unchecked,
            auth_gate::ok_points_of(program, body),
        ) is Checked
    }
}

/// A set holds every function that checks on every path given the set.
pub open spec fn always_closed(
    program: Program,
    nodes: Seq<DefId>,
    comparisons: Map<usize, Seq<ComparisonView>>,
    vouching: Set<usize>,
) -> bool {
    forall|f: DefId| #[trigger]
        checks_always(program, nodes, comparisons, vouching, f) ==> vouching.contains(f)
}

/// The functions that check on every path: the least set that holds every
/// function that does so given the set.
pub open spec fn always_checking(
    program: Program,
    nodes: Seq<DefId>,
    comparisons: Map<usize, Seq<ComparisonView>>,
) -> Set<usize> {
    Set::new(
        |f: usize|
            forall|s: Set<usize>| #[trigger]
                always_closed(program, nodes, comparisons, s) ==> s.contains(f),
    )
}

/// More vouching functions never take a function's own vouching away.
pub proof fn lemma_checks_always_monotone(
    program: Program,
    nodes: Seq<DefId>,
    comparisons: Map<usize, Seq<ComparisonView>>,
    fewer: Set<usize>,
    more: Set<usize>,
    f: DefId,
)
    requires
        fewer.subset_of(more),
        checks_always(program, nodes, comparisons, fewer, f),
    ensures
        checks_always(program, nodes, comparisons, more, f),
{
    let body = cosmwasm::body_at(program, f);
    let own = own_guards(program, body, comparisons[f]);
    let sites = call_graph::sites_of(program, body);
    lemma_checks_with_monotone(own, sites, fewer, more);
    auth_gate::lemma_always_state_monotone(
        body,
        checks_with(own, sites, fewer),
        checks_with(own, sites, more),
        AuthState::Unchecked,
        AuthState::Unchecked,
        auth_gate::ok_points_of(program, body),
    );
}

/// The functions that check on every path are exactly those that do so given
/// that set of functions itself.
pub proof fn lemma_always_checking_fixpoint(
    program: Program,
    nodes: Seq<DefId>,
    comparisons: Map<usize, Seq<ComparisonView>>,
    f: DefId,
)
    ensures
        always_checking(program, nodes, comparisons).contains(f) <==> checks_always(
            program,
            nodes,
            comparisons,
            always_checking(program, nodes, comparisons),
            f,
        ),
{
    let least = always_checking(program, nodes, comparisons);
    assert forall|g: DefId| #[trigger]
        checks_always(program, nodes, comparisons, least, g) implies least.contains(g) by {
        assert forall|s: Set<usize>| #[trigger]
            always_closed(program, nodes, comparisons, s) implies s.contains(g) by {
            assert forall|h: usize| least.contains(h) implies s.contains(h) by {}
            lemma_checks_always_monotone(program, nodes, comparisons, least, s, g);
        }
    }
    let kept = Set::new(|g: usize| checks_always(program, nodes, comparisons, least, g));
    assert forall|g: DefId| #[trigger]
        checks_always(program, nodes, comparisons, kept, g) implies kept.contains(g) by {
        assert forall|h: usize| kept.contains(h) implies least.contains(h) by {}
        lemma_checks_always_monotone(program, nodes, comparisons, kept, least, g);
    }
    assert(always_closed(program, nodes, comparisons, kept));
    if least.contains(f) {
        assert(kept.contains(f));
    }
}

/// Determines, for every function of the call graph, whether it performs an
/// authorization check on every path from its entry to a successful return.
///
/// Solved as a least fixpoint over the call graph: a call to an
/// already-checking callee counts as a check, which may in turn make its
/// caller always-checking. The monotone iteration from the pessimistic initial
/// value `false` also terminates in the presence of recursion.
#[verifier::loop_isolation(false)]
pub fn compute_always_checks(
    program: &Program,
    call_graph: &CallGraph,
    gating: &GatingIndex,
) -> (summary: DenseMap<bool>)
    requires
        program.wf(),
        call_graph.describes(*program),
        gating.describes(*program),
    ensures
        summary@.dom() == call_graph::node_set(call_graph.node_list()),
        forall|f: DefId| #[trigger]
            summary@.contains_key(f) ==> summary@[f] == always_checking(
                *program,
                call_graph.node_list(),
                gating.comparisons(),
            ).contains(f),
{
    let nodes = call_graph.nodes();
    let ghost map = gating.comparisons();
    let ghost least = always_checking(*program, nodes@, map);
    let mut summary: DenseMap<bool> = DenseMap::new();
    assert(summary@.dom() =~= call_graph::node_set(nodes@.take(0)));
    for i in 0..nodes.len()
        invariant
            summary@.dom() == call_graph::node_set(nodes@.take(i as int)),
            forall|f: DefId| #[trigger] summary@.contains_key(f) ==> !summary@[f],
    {
        let ghost before = summary@;
        summary.insert(nodes[i], false);
        proof {
            assert(nodes@.take(i + 1) =~= nodes@.take(i as int).push(nodes@[i as int]));
            assert forall|f: usize| #[trigger] summary@.dom().contains(f) == call_graph::node_set(
                nodes@.take(i + 1),
            ).contains(f) by {
                graph::lemma_push_contains(nodes@.take(i as int), nodes@[i as int], f);
            }
            assert(summary@.dom() =~= call_graph::node_set(nodes@.take(i + 1)));
        }
    }
    assert(nodes@.take(nodes@.len() as int) =~= nodes@);
    assert(program.defs.len() == program.defs@.len());

    let mut changed = true;
    while changed
        invariant
            summary@.dom() == call_graph::node_set(nodes@),
            forall|f: usize| #[trigger] holding(summary@).contains(f) ==> least.contains(f),
            !changed ==> always_closed(*program, nodes@, map, holding(summary@)),
        decreases
                graph::missing(holding(summary@), program.defs@.len()),
                if changed {
                    1int
                } else {
                    0int
                },
    {
        changed = false;
        let ghost round = holding(summary@);
        for i in 0..nodes.len()
            invariant
                summary@.dom() == call_graph::node_set(nodes@),
                forall|f: usize| #[trigger] holding(summary@).contains(f) ==> least.contains(f),
                round.subset_of(holding(summary@)),
                !changed ==> holding(summary@) == round,
                changed ==> graph::missing(holding(summary@), program.defs@.len())
                    < graph::missing(round, program.defs@.len()),
                !changed ==> forall|j: int|
                    0 <= j < i && checks_always(
                        *program,
                        nodes@,
                        map,
                        round,
                        #[trigger] nodes@[j],
                    ) ==> round.contains(nodes@[j]),
        {
            let f: DefId = nodes[i];
            assert(nodes@.contains(f));
            assert(summary@.dom().contains(f));
            let known = match summary.get(f) {
                Some(known) => *known,
                None => false,
            };
            if !known {
                if let (Some(body), Some(facts)) = (cosmwasm::body_of(program, f), gating.get(f)) {
                    assert(facts.describes(*program, *body, map[f]));
                    let call_sites = call_graph.call_sites_in(f);
                    let solved = facts.solve(
                        program,
                       body,
                        call_sites,
                        &summary,
                        AuthState::Unchecked,
                    );
                    assert(call_graph.sites(f) == call_graph::sites_of(*program, *body));
                    assert(solved.joined_returns() is Checked <==> checks_always(
                        *program,
                        nodes@,
                        map,
                        holding(summary@),
                        f,
                    ));
                    if solved.always().is_checked() {
                        let ghost before = holding(summary@);
                        proof {
                            assert forall|s: Set<usize>| #[trigger]
                                always_closed(*program, nodes@, map, s) implies s.contains(f) by {
                                assert forall|h: usize| before.contains(h) implies s.contains(
                                    h,
                                ) by {
                                    assert(least.contains(h));
                                }
                                lemma_checks_always_monotone(
                                    *program,
                                    nodes@,
                                    map,
                                    before,
                                    s,
                                    f,
                                );
                            }
                            assert(least.contains(f));
                        }
                        summary.insert(f, true);
                        changed = true;
                        proof {
                            let after = holding(summary@);
                            assert(after =~= before.insert(f));
                            assert(summary@.dom() =~= call_graph::node_set(nodes@));
                            graph::lemma_missing_grows(before, after, program.defs@.len(), f);
                            graph::lemma_missing_monotone(round, before, program.defs@.len());
                        }
                    }
                }
            }
        }
        proof {
            if !changed {
                assert forall|f: DefId| #[trigger]
                    checks_always(*program, nodes@, map, round, f) implies round.contains(f) by {
                    let j = choose|j: int| 0 <= j < nodes@.len() && nodes@[j] == f;
                    assert(checks_always(*program, nodes@, map, round, nodes@[j]));
                }
            }
        }
    }
    proof {
        assert forall|f: DefId| #[trigger] summary@.contains_key(f) implies summary@[f]
            == least.contains(f) by {
            if summary@[f] {
                assert(holding(summary@).contains(f));
            }
            if least.contains(f) {
                assert(holding(summary@).contains(f));
            }
        }
    }
    summary
}

// ---- functions entered only after a check --------------------------------

/// The gating state at call `i` of `caller` is checked, given which functions
/// are entered only after a check.
pub open spec fn gated_call(
    program: Program,
    comparisons: Map<usize, Seq<ComparisonView>>,
    always: Set<usize>,
    entered: Set<usize>,
    caller: DefId,
    i: int,
) -> bool {
    let body = cosmwasm::body_at(program, caller);
    let sites = call_graph::sites_of(program, body);
    auth_gate::state_before(
        body,
        checks_with(own_guards(program, body, comparisons[caller]), sites, always),
        auth_gate::state_of(entered.contains(caller)),
        sites[i].location,
    ) is Checked
}

/// Call `i` of `caller` calls `callee`.
pub open spec fn calls_at(
    program: Program,
    nodes: Seq<DefId>,
    comparisons: Map<usize, Seq<ComparisonView>>,
    caller: DefId,
    i: int,
    callee: DefId,
) -> bool {
    nodes.contains(caller) && has_facts(program, comparisons, caller) && 0 <= i
        < call_graph::sites_of(program, cosmwasm::body_at(program, caller)).len()
        && call_graph::sites_of(program, cosmwasm::body_at(program, caller))[i].callee == callee
}

/// A set of functions of the call graph, the root not among them, all of whose
/// call sites are gated given the set.
pub open spec fn entry_consistent(
    program: Program,
    root: DefId,
    nodes: Seq<DefId>,
    comparisons: Map<usize, Seq<ComparisonView>>,
    always: Set<usize>,
    entered: Set<usize>,
) -> bool {
    &&& !entered.contains(root)
    &&& forall|f: usize| #[trigger] entered.contains(f) ==> nodes.contains(f)
    &&& forall|caller: DefId, i: int, callee: DefId| #[trigger]
        calls_at(program, nodes, comparisons, caller, i, callee) && entered.contains(callee)
            ==> gated_call(program, comparisons, always, entered, caller, i)
}

/// The functions that are entered only after a check: the greatest set whose
/// call sites are all gated given the set.
pub open spec fn entry_checked(
    program: Program,
    root: DefId,
    nodes: Seq<DefId>,
    comparisons: Map<usize, Seq<ComparisonView>>,
    always: Set<usize>,
) -> Set<usize> {
    Set::new(
        |f: usize|
            exists|s: Set<usize>| #[trigger]
                entry_consistent(program, root, nodes, comparisons, always, s) && s.contains(f),
    )
}

/// A call that is gated stays so when more functions are entered only after a
/// check.
pub proof fn lemma_gated_call_monotone(
    program: Program,
    comparisons: Map<usize, Seq<ComparisonView>>,
    always: Set<usize>,
    fewer: Set<usize>,
    more: Set<usize>,
    caller: DefId,
    i: int,
)
    requires
        fewer.subset_of(more),
        gated_call(program, comparisons, always, fewer, caller, i),
    ensures
        gated_call(program, comparisons, always, more, caller, i),
{
    let body = cosmwasm::body_at(program, caller);
    let sites = call_graph::sites_of(program, body);
    let checks = checks_with(own_guards(program, body, comparisons[caller]), sites, always);
    auth_gate::lemma_state_before_monotone(
        body,
        checks,
        checks,
        auth_gate::state_of(fewer.contains(caller)),
        auth_gate::state_of(more.contains(caller)),
        sites[i].location,
    );
}

/// The functions that are entered only after a check are such a set themselves:
/// every call of one of them is gated, and the root is not among them.
pub proof fn lemma_entry_checked_consistent(
    program: Program,
    root: DefId,
    nodes: Seq<DefId>,
    comparisons: Map<usize, Seq<ComparisonView>>,
    always: Set<usize>,
)
    ensures
        entry_consistent(
            program,
            root,
            nodes,
            comparisons,
            always,
            entry_checked(program, root, nodes, comparisons, always),
        ),
{
    let greatest = entry_checked(program, root, nodes, comparisons, always);
    assert forall|caller: DefId, i: int, callee: DefId| #[trigger]
        calls_at(program, nodes, comparisons, caller, i, callee) && greatest.contains(
            callee,
        ) implies gated_call(program, comparisons, always, greatest, caller, i) by {
        let s = choose|s: Set<usize>| #[trigger]
            entry_consistent(program, root, nodes, comparisons, always, s) && s.contains(callee);
        assert forall|f: usize| s.contains(f) implies greatest.contains(f) by {}
        lemma_gated_call_monotone(program, comparisons, always, s, greatest, caller, i);
    }
}

/// Determines, for every function of the call graph, whether it is entered
/// only after an authorization check has already happened in the caller.
///
/// The value for `f` is the meet over all call sites `C -> f` of the gating
/// state at that call site in `C`, analysed under `C`'s own context. The root
/// is an external entry point and therefore never entry-checked.
///
/// Solved as a greatest fixpoint: the optimistic initial value `true` for all
/// non-root functions is lowered monotonically as ungated call paths are
/// discovered, which terminates and handles recursion.
#[verifier::loop_isolation(false)]
#[verifier::rlimit(40)]
pub fn compute_entry_checked(
    program: &Program,
    call_graph: &CallGraph,
    gating: &GatingIndex,
    always_checks: &DenseMap<bool>,
) -> (entry: DenseMap<bool>)
    requires
        program.wf(),
        call_graph.describes(*program),
        gating.describes(*program),
    ensures
        entry@.dom() == call_graph::node_set(call_graph.node_list()),
        forall|f: DefId| #[trigger]
            entry@.contains_key(f) ==> entry@[f] == entry_checked(
                *program,
                call_graph.root_node(),
                call_graph.node_list(),
                gating.comparisons(),
                holding(always_checks@),
            ).contains(f),
{
    let root: DefId = call_graph.root();
    let nodes = call_graph.nodes();
    let ghost map = gating.comparisons();
    let ghost always = holding(always_checks@);
    let mut entry: DenseMap<bool> = DenseMap::new();
    assert(entry@.dom() =~= call_graph::node_set(nodes@.take(0)));
    for i in 0..nodes.len()
        invariant
            entry@.dom() == call_graph::node_set(nodes@.take(i as int)),
            forall|f: DefId| #[trigger] entry@.contains_key(f) ==> entry@[f] == (f != root),
    {
        entry.insert(nodes[i], nodes[i] != root);
        proof {
            assert(nodes@.take(i + 1) =~= nodes@.take(i as int).push(nodes@[i as int]));
            assert forall|f: usize| #[trigger] entry@.dom().contains(f) == call_graph::node_set(
                nodes@.take(i + 1),
            ).contains(f) by {
                graph::lemma_push_contains(nodes@.take(i as int), nodes@[i as int], f);
            }
            assert(entry@.dom() =~= call_graph::node_set(nodes@.take(i + 1)));
        }
    }
    assert(nodes@.take(nodes@.len() as int) =~= nodes@);
    proof {
        call_graph::lemma_reachable_from(*program, root);
        assert(program.defs.len() == program.defs@.len());
        assert forall|s: Set<usize>| #[trigger]
            entry_consistent(*program, root, nodes@, map, always, s) implies s.subset_of(
            holding(entry@),
        ) by {
            assert forall|f: usize| s.contains(f) implies holding(entry@).contains(f) by {
                assert(entry@.dom().contains(f));
            }
        }
    }

    let mut changed = true;
    while changed
        invariant
            entry@.dom() == call_graph::node_set(nodes@),
            !holding(entry@).contains(root),
            forall|s: Set<usize>| #[trigger]
                entry_consistent(*program, root, nodes@, map, always, s) ==> s.subset_of(
                    holding(entry@),
                ),
            !changed ==> entry_consistent(*program, root, nodes@, map, always, holding(entry@)),
        decreases
                graph::missing(holding(entry@).complement(), program.defs@.len()),
                if changed {
                    1int
                } else {
                    0int
                },
    {
        changed = false;
        let ghost entered = holding(entry@);
        // The callees with an ungated call site.
        let mut ungated = DenseSet::new();
        for n in 0..nodes.len()
            invariant
                forall|g: usize| #[trigger]
                    ungated@.contains(g) ==> g < program.defs@.len() && exists|
                        caller: DefId,
                        i: int,
                    | #[trigger]
                        calls_at(*program, nodes@, map, caller, i, g) && !gated_call(
                            *program,
                            map,
                            always,
                            entered,
                            caller,
                            i,
                        ),
                forall|m: int, i: int, g: DefId|
                    0 <= m < n && #[trigger] calls_at(*program, nodes@, map, nodes@[m], i, g)
                        && !gated_call(*program, map, always, entered, nodes@[m], i)
                        ==> ungated@.contains(g),
        {
            let caller: DefId = nodes[n];
            assert(nodes@.contains(caller));
            assert(entry@.dom().contains(caller));
            if let (Some(body), Some(facts)) = (
                cosmwasm::body_of(program, caller),
                gating.get(caller),
            ) {
                assert(facts.describes(*program, *body, map[caller]));
                let call_sites = call_graph.call_sites_in(caller);
                let ghost sites = call_graph::sites_of(*program, *body);
                assert(call_graph::site_views(call_sites@) == sites);
                let context = AuthState::of(
                    match entry.get(caller) {
                        Some(checked) => *checked,
                        None => false,
                    },
                );
                let solved = facts.solve(program, body, call_sites, always_checks, context);
                for i in 0..call_sites.len()
                    invariant
                        forall|g: usize| #[trigger]
                            ungated@.contains(g) ==> g < program.defs@.len() && exists|
                                c: DefId,
                                j: int,
                            | #[trigger]
                                calls_at(*program, nodes@, map, c, j, g) && !gated_call(
                                    *program,
                                    map,
                                    always,
                                    entered,
                                    c,
                                    j,
                                ),
                        forall|m: int, j: int, g: DefId|
                            ((0 <= m < n) || (m == n && 0 <= j < i)) && #[trigger] calls_at(
                                *program,
                                nodes@,
                                map,
                                nodes@[m],
                                j,
                                g,
                            ) && !gated_call(*program, map, always, entered, nodes@[m], j)
                                ==> ungated@.contains(g),
                {
                    let site = &call_sites[i];
                    proof {
                        assert(sites[i as int] == site@);
                        call_graph::lemma_site_wf(*program, *body, i as int);
                        assert(calls_at(*program, nodes@, map, caller, i as int, site.callee));
                    }
                    let gated_here = solved.before(site.location).is_checked();
                    assert(gated_here == gated_call(
                        *program,
                        map,
                        always,
                        entered,
                        caller,
                        i as int,
                    ));
                    if !gated_here {
                        ungated.insert(site.callee);
                    }
                }
            }
        }
        let bound: usize = ungated.bound();
        for callee in 0..bound
            invariant
                entry@.dom() == call_graph::node_set(nodes@),
                forall|f: usize| #[trigger]
                    holding(entry@).contains(f) <==> entered.contains(f) && !(f < callee
                        && ungated@.contains(f)),
                !changed ==> holding(entry@) == entered,
                changed ==> exists|f: usize| #[trigger]
                    entered.contains(f) && !holding(entry@).contains(f),
        {
            let ghost before = holding(entry@);
            if ungated.contains(callee) && callee != root {
                let checked = match entry.get(callee) {
                    Some(checked) => *checked,
                    None => false,
                };
                if checked {
                    entry.insert(callee, false);
                    changed = true;
                    proof {
                        assert(before.contains(callee));
                        assert(holding(entry@) =~= before.remove(callee));
                        assert(entry@.dom() =~= call_graph::node_set(nodes@));
                        assert(entered.contains(callee) && !holding(entry@).contains(callee));
                    }
                }
            }
            assert(!changed ==> holding(entry@) =~= entered);
        }
        proof {
            let after = holding(entry@);
            assert forall|s: Set<usize>| #[trigger]
                entry_consistent(*program, root, nodes@, map, always, s) implies s.subset_of(
                after,
            ) by {
                assert forall|f: usize| s.contains(f) implies after.contains(f) by {
                    assert(s.subset_of(entered));
                    if ungated@.contains(f) {
                        let (caller, i) = choose|caller: DefId, i: int| #[trigger]
                            calls_at(*program, nodes@, map, caller, i, f) && !gated_call(
                                *program,
                                map,
                                always,
                                entered,
                                caller,
                                i,
                            );
                        lemma_gated_call_monotone(
                            *program,
                            map,
                            always,
                            s,
                            entered,
                            caller,
                            i,
                        );
                    }
                }
            }
            if changed {
                let f = choose|f: usize| #[trigger] entered.contains(f) && !after.contains(f);
                assert(entry@.dom().contains(f));
                let k = choose|k: int| 0 <= k < nodes@.len() && nodes@[k] == f;
                assert(nodes@[k] < program.defs@.len());
                graph::lemma_missing_grows(
                    entered.complement(),
                    after.complement(),
                    program.defs@.len(),
                    f,
                );
            } else {
                assert forall|caller: DefId, i: int, callee: DefId| #[trigger]
                    calls_at(*program, nodes@, map, caller, i, callee) && entered.contains(
                        callee,
                    ) implies gated_call(*program, map, always, entered, caller, i) by {
                    let m = choose|m: int| 0 <= m < nodes@.len() && nodes@[m] == caller;
                    assert(calls_at(*program, nodes@, map, nodes@[m], i, callee));
                    if !gated_call(*program, map, always, entered, caller, i) {
                        assert(ungated@.contains(callee));
                        assert(holding(entry@).contains(callee));
                    }
                }
                assert forall|f: usize| #[trigger] entered.contains(f) implies nodes@.contains(
                    f,
                ) by {
                    assert(entry@.dom().contains(f));
                }
            }
        }
    }
    proof {
        assert forall|f: DefId| #[trigger] entry@.contains_key(f) implies entry@[f]
            == entry_checked(*program, root, nodes@, map, always).contains(f) by {
            if entry@[f] {
                assert(holding(entry@).contains(f));
            }
            if entry_checked(*program, root, nodes@, map, always).contains(f) {
                let s = choose|s: Set<usize>| #[trigger]
                    entry_consistent(*program, root, nodes@, map, always, s) && s.contains(f);
                assert(s.subset_of(holding(entry@)));
            }
        }
    }
    entry
}

// ---- closures that check -------------------------------------------------

/// A closure with sender comparisons crosses a check on every path to a
/// successful return.
pub open spec fn closure_checks(
    program: Program,
    comparisons: Map<usize, Seq<ComparisonView>>,
    f: DefId,
) -> bool {
    has_facts(program, comparisons, f) && comparisons[f].len() > 0
        && program.defs@[f as int].kind is Closure && {
        let body = cosmwasm::body_at(program, f);
        auth_gate::always_state(
            body,
            own_guards(program, body, comparisons[f]),
            AuthState::Unchecked,
            auth_gate::ok_points_of(program, body),
        ) is Checked
    }
}

/// Closures whose body crosses an `info.sender` check on every path to an
/// `Ok`-return.
///
/// This covers the `Item::update` / `Map::update` authorization idiom, where
/// guard and write both live inside the update closure:
///
/// ```ignore
/// STATE.update(store, |mut s| {
///     if info.sender != s.owner { return Err(..) };
///     s.field = ..;
///     Ok(s)
/// })
/// ```
///
/// The update call is a storage write in the *parent*, but its guard is in the
/// closure, so the gating of the parent body alone would not see it. The same
/// dataflow is therefore applied to each closure body.
#[verifier::loop_isolation(false)]
pub fn closures_always_checking(
    program: &Program,
    fn_comparisons: &DenseMap<Vec<SenderComparison>>,
    gating: &GatingIndex,
    always_checks: &DenseMap<bool>,
) -> (closures: DenseSet)
    requires
        program.wf(),
        sender_comparisons::comparison_map_wf(
            *program,
            sender_comparisons::comparison_map(fn_comparisons@),
        ),
        gating.describes(*program),
        gating.comparisons() == sender_comparisons::comparison_map(fn_comparisons@),
    ensures
        forall|f: DefId| #[trigger]
            closures@.contains(f) == closure_checks(
                *program,
                sender_comparisons::comparison_map(fn_comparisons@),
                f,
            ),
{
    let ghost map = sender_comparisons::comparison_map(fn_comparisons@);
    let mut out = DenseSet::new();
    let no_sites: Vec<CallSite> = Vec::new();
    let bound: usize = fn_comparisons.bound();
    for f in 0..bound
        invariant
            forall|g: DefId| #[trigger]
                out@.contains(g) <==> g < f && closure_checks(*program, map, g),
    {
        if let Some(comparisons) = fn_comparisons.get(f) {
            assert(map.contains_key(f));
            assert(map[f].len() == comparisons@.len());
            let is_closure = match program.defs[f].kind {
                DefKind::Closure => true,
                _ => false,
            };
            if comparisons.len() > 0 && is_closure {
                if let (Some(body), Some(facts)) = (cosmwasm::body_of(program, f), gating.get(f)) {
                    assert(facts.describes(*program, *body, map[f]));
                    // Only `Result`-returning closures, the update actions,
                    // qualify. A boolean predicate closure has no `Ok(..)` and
                    // is handled by the `Option` combinator recognition of
                    // stage 3.
                    let solved = facts.solve(
                        program,
                       body,
                        &no_sites,
                        always_checks,
                        AuthState::Unchecked,
                    );
                    assert(checks_with(
                        own_guards(*program, *body, map[f]),
                        call_graph::site_views(no_sites@),
                        holding(always_checks@),
                    ) =~= own_guards(*program, *body, map[f]));
                    if solved.always().is_checked() {
                        out.insert(f);
                    }
                }
            }
        }
    }
    out
}

} // verus!
