//! The analysis pipeline.
//!
//! Runs the six stages in the order in which they depend on one another and
//! passes each stage's result on to the next. The stages themselves live in
//! their own modules; this module only wires them together and hands the
//! results to [`crate::report`].

use crate::auth_storage;
use crate::auth_storage::{AuthStateVariable, AuthVariableView};
use crate::call_graph;
use crate::call_graph::CallGraph;
use crate::cosmwasm;
use crate::debug;
use crate::debug::Traces;
use crate::dense::{DenseMap, DenseSet};
use crate::evaluation;
use crate::evaluation::{Evaluation, EvaluationContext};
use crate::gating;
use crate::gating::GatingIndex;
use crate::graph;
use crate::mir::{BasicBlock, BinOp, Body, DefId, Program};
use crate::predicates;
use crate::report;
use crate::report::{FunctionFinding, FunctionFindingView};
use crate::sender_comparisons;
use crate::sender_comparisons::{ComparisonView, SenderComparison};
use crate::sender_taint;
use crate::sender_taint::{SeedState, SenderTaint};
use crate::storage_inventory;
use crate::storage_inventory::{
    ConstDefIndex, ConstTypeIndex, StorageInventory, StorageItemView,
};
use crate::taint;
use crate::text;
use vstd::prelude::*;

verus! {

// ---- stages 3 and 4 ------------------------------------------------------

/// The seeds stage 3 works with.
pub open spec fn final_seeds(program: Program, nodes: Seq<DefId>) -> SeedState {
    sender_taint::seed_rounds(program, nodes, sender_taint::MAX_SEED_ROUNDS as nat)
}

/// The sender comparisons of a function.
pub open spec fn comparisons_in(program: Program, nodes: Seq<DefId>, f: DefId) -> Seq<
    ComparisonView,
> {
    let seeds = final_seeds(program, nodes);
    sender_comparisons::comparisons_of(
        program,
        cosmwasm::body_at(program, f),
        sender_taint::row_of(seeds.params, f),
        sender_taint::row_of(seeds.upvars, f),
    )
}

/// The storage items that the comparisons of a function read.
pub open spec fn variables_in(program: Program, nodes: Seq<DefId>, f: DefId) -> Seq<
    AuthVariableView,
> {
    auth_storage::auth_variables(
        program,
        cosmwasm::body_at(program, f),
        comparisons_in(program, nodes, f),
    )
}

/// The lines of a function.
pub open spec fn function_lines(program: Program, nodes: Seq<DefId>, f: DefId) -> Seq<Seq<char>> {
    seq![report::function_header_line(program, f)] + report::comparison_lines(
        comparisons_in(program, nodes, f),
    ) + report::variable_lines(variables_in(program, nodes, f))
}

/// The lines of the first `count` of the given functions.
pub open spec fn functions_lines(
    program: Program,
    nodes: Seq<DefId>,
    fns: Seq<DefId>,
    count: nat,
) -> Seq<Seq<char>>
    decreases count,
{
    if count == 0 {
        Seq::empty()
    } else {
        functions_lines(program, nodes, fns, (count - 1) as nat) + function_lines(
            program,
            nodes,
            fns[count - 1],
        )
    }
}

/// The storage constants that variables resolve to.
pub open spec fn variable_defs(variables: Seq<AuthVariableView>) -> Set<usize> {
    Set::new(
        |d: usize|
            exists|i: int|
                0 <= i < variables.len() && (#[trigger] variables[i]).storage_def_id == Some(d),
    )
}

/// The storage constants that the comparisons of the first `count` of the given
/// functions read.
pub open spec fn auth_defs(
    program: Program,
    nodes: Seq<DefId>,
    fns: Seq<DefId>,
    count: nat,
) -> Set<usize>
    decreases count,
{
    if count == 0 {
        Set::empty()
    } else {
        auth_defs(program, nodes, fns, (count - 1) as nat).union(
            variable_defs(variables_in(program, nodes, fns[count - 1])),
        )
    }
}

/// The sender comparisons of the given functions.
pub open spec fn direct_comparisons(
    program: Program,
    nodes: Seq<DefId>,
    fns: Seq<DefId>,
) -> Map<usize, Seq<ComparisonView>> {
    Map::new(
        |f: usize| fns.contains(f),
        |f: usize| comparisons_in(program, nodes, f),
    )
}

/// The storage inventory with the authorization-relevant items marked.
pub open spec fn marked_inventory(program: Program, nodes: Seq<DefId>) -> Seq<StorageItemView> {
    let fns = sender_taint::targets_of(program, nodes);
    storage_inventory::marked(
        storage_inventory::declared_items(program, program.free_items@),
        auth_defs(program, nodes, fns, fns.len()),
    )
}

/// Every item of an inventory is a definition of the program.
pub open spec fn items_exist(program: Program, items: Seq<StorageItemView>) -> bool {
    forall|i: int| 0 <= i < items.len() ==> (#[trigger] items[i]).def_id < program.defs@.len()
}

proof fn lemma_declared_items_exist(program: Program, defs: Seq<DefId>)
    requires
        forall|i: int| 0 <= i < defs.len() ==> #[trigger] defs[i] < program.defs@.len(),
    ensures
        items_exist(program, storage_inventory::declared_items(program, defs)),
    decreases defs.len(),
{
    if defs.len() > 0 {
        let rest = defs.drop_last();
        assert forall|i: int| 0 <= i < rest.len() implies #[trigger] rest[i]
            < program.defs@.len() by {
            assert(rest[i] == defs[i]);
        }
        lemma_declared_items_exist(program, rest);
        assert(defs[defs.len() - 1] < program.defs@.len());
    }
}

/// Returns the storage constants that variables resolve to.
#[verifier::loop_isolation(false)]
fn storage_constants(auth_vars: &Vec<AuthStateVariable>) -> (constants: DenseSet)
    ensures
        constants@ == variable_defs(auth_storage::variable_views(auth_vars@)),
{
    let ghost views = auth_storage::variable_views(auth_vars@);
    let mut constants = DenseSet::new();
    for i in 0..auth_vars.len()
        invariant
            forall|d: usize| #[trigger]
                constants@.contains(d) <==> exists|j: int|
                    0 <= j < i && (#[trigger] views[j]).storage_def_id == Some(d),
    {
        assert(views[i as int] == auth_vars@[i as int]@);
        let ghost before = constants@;
        if let Some(def_id) = auth_vars[i].storage_def_id {
            constants.insert(def_id);
        }
        assert forall|d: usize| #[trigger]
            constants@.contains(d) <==> exists|j: int|
                0 <= j < i + 1 && (#[trigger] views[j]).storage_def_id == Some(d) by {
            assert(constants@.contains(d) <==> before.contains(d) || views[i as int].storage_def_id
                == Some(d));
        }
    }
    assert(constants@ =~= variable_defs(views));
    constants
}

/// Stages 3 and 4 for one function: finds its sender comparisons, traces their
/// counterparts back to storage loads, and adds what it found to the report.
fn analyze_function(
    program: &Program,
    body: &Body,
    f: DefId,
    seeds: &SenderTaint,
    const_types: &ConstTypeIndex,
    nodes: Ghost<Seq<DefId>>,
    lines: &mut Vec<String>,
) -> (found: (Vec<SenderComparison>, Vec<AuthStateVariable>))
    requires
        program.wf(),
        body.wf(*program),
        f < program.defs@.len(),
        *body == cosmwasm::body_at(*program, f),
        const_types.indexes(*program),
        seeds.seeds() == final_seeds(*program, nodes@),
    ensures
        sender_comparisons::comparison_views(found.0@) == comparisons_in(*program, nodes@, f),
        sender_comparisons::comparisons_wf(
            *body,
            sender_comparisons::comparison_views(found.0@),
        ),
        auth_storage::variable_views(found.1@) == variables_in(*program, nodes@, f),
        text::texts(final(lines)@) == text::texts(old(lines)@) + function_lines(
            *program,
            nodes@,
            f,
        ),
{
    report::push_line(lines, report::function_header(program, f));
    let comparisons = sender_comparisons::find_sender_comparisons(
        program,
        body,
        &seeds.seeds_of(f),
    );
    report::push_lines(lines, report::sender_comparisons(&comparisons));
    let const_defs = ConstDefIndex::build(program, body);
    let auth_vars = auth_storage::find_auth_state_variables(
        program,
        body,
        &comparisons,
        &const_defs,
        const_types,
    );
    report::push_lines(lines, report::auth_state_variables(&auth_vars));
    assert(text::texts(lines@) =~= text::texts(old(lines)@) + function_lines(
        *program,
        nodes@,
        f,
    ));
    (comparisons, auth_vars)
}

/// Stages 3 and 4 for every body stage 3 works on. Marks the authorization-
/// relevant items of the inventory.
#[verifier::loop_isolation(false)]
fn find_comparisons(
    program: &Program,
    seeds: &SenderTaint,
    const_types: &ConstTypeIndex,
    inventory: &mut StorageInventory,
    nodes: Ghost<Seq<DefId>>,
    lines: &mut Vec<String>,
) -> (fn_comparisons: DenseMap<Vec<SenderComparison>>)
    requires
        program.wf(),
        const_types.indexes(*program),
        seeds.seeds() == final_seeds(*program, nodes@),
        forall|i: int|
            0 <= i < seeds.targets@.len() ==> #[trigger] seeds.targets@[i] < program.defs@.len()
                && cosmwasm::analysable(*program, seeds.targets@[i]),
    ensures
        sender_comparisons::comparison_map(fn_comparisons@) == direct_comparisons(
            *program,
            nodes@,
            seeds.targets@,
        ),
        sender_comparisons::comparison_map_wf(
            *program,
            sender_comparisons::comparison_map(fn_comparisons@),
        ),
        final(inventory)@ == storage_inventory::marked(
            old(inventory)@,
            auth_defs(*program, nodes@, seeds.targets@, seeds.targets@.len()),
        ),
        text::texts(final(lines)@) == text::texts(old(lines)@) + functions_lines(
            *program,
            nodes@,
            seeds.targets@,
            seeds.targets@.len(),
        ),
{
    let ghost fns = seeds.targets@;
    let ghost declared = inventory@;
    let ghost lines0 = text::texts(lines@);
    let mut fn_comparisons: DenseMap<Vec<SenderComparison>> = DenseMap::new();
    proof {
        assert(declared =~= storage_inventory::marked(
            declared,
            auth_defs(*program, nodes@, fns, 0),
        ));
        assert(lines0 =~= lines0 + functions_lines(*program, nodes@, fns, 0));
        assert(sender_comparisons::comparison_map(fn_comparisons@) =~= direct_comparisons(
            *program,
            nodes@,
            fns.take(0),
        ));
    }
    for t in 0..seeds.targets.len()
        invariant
            sender_comparisons::comparison_map(fn_comparisons@) == direct_comparisons(
                *program,
                nodes@,
                fns.take(t as int),
            ),
            sender_comparisons::comparison_map_wf(
                *program,
                sender_comparisons::comparison_map(fn_comparisons@),
            ),
            inventory@ == storage_inventory::marked(
                declared,
                auth_defs(*program, nodes@, fns, t as nat),
            ),
            text::texts(lines@) == lines0 + functions_lines(*program, nodes@, fns, t as nat),
    {
        let f: DefId = seeds.targets[t];
        let ghost map0 = sender_comparisons::comparison_map(fn_comparisons@);
        if let Some(body) = cosmwasm::body_of(program, f) {
            let (comparisons, auth_vars) = analyze_function(
                program,
                body,
                f,
                seeds,
                const_types,
                nodes,
                lines,
            );
            let constants = storage_constants(&auth_vars);
            inventory.mark_auth(&constants);
            proof {
                storage_inventory::lemma_mark_twice(
                    declared,
                    auth_defs(*program, nodes@, fns, t as nat),
                    constants@,
                );
                assert(text::texts(lines@) =~= lines0 + functions_lines(
                    *program,
                    nodes@,
                    fns,
                    (t + 1) as nat,
                ));
            }
            let ghost views = sender_comparisons::comparison_views(comparisons@);
            fn_comparisons.insert(f, comparisons);
            proof {
                let map1 = sender_comparisons::comparison_map(fn_comparisons@);
                assert(map1 =~= map0.insert(f, views));
                assert(fns.take(t + 1) =~= fns.take(t as int).push(f));
                assert forall|g: usize| #[trigger] map1.contains_key(g) <==> fns.take(
                    t + 1,
                ).contains(g) by {
                    graph::lemma_push_contains(fns.take(t as int), f, g);
                    assert(map0.contains_key(g) <==> fns.take(t as int).contains(g));
                }
                assert(map1 =~= direct_comparisons(*program, nodes@, fns.take(t + 1)));
            }
        }
    }
    assert(fns.take(fns.len() as int) =~= fns);
    fn_comparisons
}

// ---- checks behind predicates --------------------------------------------

/// The functions whose boolean result is a sender comparison.
pub open spec fn predicate_ops(
    program: Program,
    comparisons: Map<usize, Seq<ComparisonView>>,
) -> Map<usize, BinOp> {
    Map::new(
        |f: usize| predicates::predicate_op(program, comparisons, f) is Some,
        |f: usize| predicates::predicate_op(program, comparisons, f)->0,
    )
}

/// The functions that return a boolean and compare the sender.
pub open spec fn bool_predicates(
    program: Program,
    comparisons: Map<usize, Seq<ComparisonView>>,
) -> Set<usize> {
    Set::new(|f: usize| predicates::bool_predicate(program, comparisons, f))
}

/// The comparisons that the calls of a function to predicates stand for.
pub open spec fn synthetic_comparisons(
    program: Program,
    direct: Map<usize, Seq<ComparisonView>>,
    f: DefId,
) -> Seq<ComparisonView> {
    let body = cosmwasm::body_at(program, f);
    predicates::option_calls_before(
        program,
        body,
        predicate_ops(program, direct),
        body.basic_blocks@.len(),
    ) + predicates::predicate_calls_before(
        program,
        body,
        bool_predicates(program, direct),
        body.basic_blocks@.len(),
    )
}

/// A function of the list has synthetic comparisons.
pub open spec fn has_synthetic(
    program: Program,
    nodes: Seq<DefId>,
    direct: Map<usize, Seq<ComparisonView>>,
    f: DefId,
) -> bool {
    nodes.contains(f) && f < program.defs@.len() && cosmwasm::analysable(program, f)
        && synthetic_comparisons(program, direct, f).len() > 0
}

/// The comparisons of every function, those behind predicates behind the direct
/// ones.
pub open spec fn with_predicates(
    program: Program,
    nodes: Seq<DefId>,
    direct: Map<usize, Seq<ComparisonView>>,
) -> Map<usize, Seq<ComparisonView>> {
    Map::new(
        |f: usize| direct.contains_key(f) || has_synthetic(program, nodes, direct, f),
        |f: usize|
            (if direct.contains_key(f) {
                direct[f]
            } else {
                Seq::empty()
            }) + (if has_synthetic(program, nodes, direct, f) {
                synthetic_comparisons(program, direct, f)
            } else {
                Seq::empty()
            }),
    )
}

/// Adds the sender checks that hide behind a predicate helper or an `Option`
/// combinator to the comparison map.
///
/// They have to be in place before stage 5 runs: a handler protected by a
/// boolean helper would otherwise count as gated itself without passing that
/// protection on to the helpers it calls, the shape of `only_authorized(..)?`
/// followed by a private writing helper.
#[verifier::loop_isolation(false)]
#[verifier::rlimit(60)]
fn add_predicates(
    program: &Program,
    call_graph: &CallGraph,
    fn_comparisons: &mut DenseMap<Vec<SenderComparison>>,
)
    requires
        program.wf(),
        call_graph.describes(*program),
        sender_comparisons::comparison_map_wf(
            *program,
            sender_comparisons::comparison_map(old(fn_comparisons)@),
        ),
    ensures
        sender_comparisons::comparison_map(final(fn_comparisons)@) == with_predicates(
            *program,
            call_graph.node_list(),
            sender_comparisons::comparison_map(old(fn_comparisons)@),
        ),
        sender_comparisons::comparison_map_wf(
            *program,
            sender_comparisons::comparison_map(final(fn_comparisons)@),
        ),
{
    let nodes = call_graph.nodes();
    let ghost direct = sender_comparisons::comparison_map(fn_comparisons@);
    let sender_predicates = predicates::sender_predicate_summary(program, fn_comparisons);
    let bool_fns = predicates::bool_predicate_fns(program, fn_comparisons);
    proof {
        assert(sender_predicates@ =~= predicate_ops(*program, direct));
        assert(bool_fns@ =~= bool_predicates(*program, direct));
        call_graph::lemma_reachable_from(*program, call_graph.root_node());
        assert(with_predicates(*program, nodes@.take(0), direct) =~= direct);
    }
    for n in 0..nodes.len()
        invariant
            sender_comparisons::comparison_map(fn_comparisons@) == with_predicates(
                *program,
                nodes@.take(n as int),
                direct,
            ),
            sender_comparisons::comparison_map_wf(
                *program,
                sender_comparisons::comparison_map(fn_comparisons@),
            ),
    {
        let f: DefId = nodes[n];
        let ghost map0 = sender_comparisons::comparison_map(fn_comparisons@);
        let ghost seen = nodes@.take(n as int);
        let ghost wider = nodes@.take(n + 1);
        proof {
            assert(wider =~= seen.push(f));
            if seen.contains(f) {
                let k = choose|k: int| 0 <= k < seen.len() && seen[k] == f;
                assert(nodes@[k] == nodes@[n as int]);
            }
            assert forall|g: usize| #[trigger] wider.contains(g) <==> seen.contains(g) || g
                == f by {
                graph::lemma_push_contains(seen, f, g);
            }
        }
        if let Some(body) = cosmwasm::body_of(program, f) {
            let mut synthetic = predicates::option_predicate_comparisons(
                program,
                body,
                &sender_predicates,
            );
            let ghost first = sender_comparisons::comparison_views(synthetic@);
            let mut calls = predicates::predicate_call_comparisons(program, body, &bool_fns);
            let ghost second = sender_comparisons::comparison_views(calls@);
            synthetic.append(&mut calls);
            let ghost all = sender_comparisons::comparison_views(synthetic@);
            proof {
                assert(all =~= first + second);
                assert(all == synthetic_comparisons(*program, direct, f));
            }
            if synthetic.len() > 0 {
                let ghost stored = fn_comparisons@;
                let mut comparisons = match fn_comparisons.remove(f) {
                    Some(comparisons) => comparisons,
                    None => Vec::new(),
                };
                let ghost before = sender_comparisons::comparison_views(comparisons@);
                comparisons.append(&mut synthetic);
                let ghost after = sender_comparisons::comparison_views(comparisons@);
                fn_comparisons.insert(f, comparisons);
                proof {
                    assert(after =~= before + all);
                    let map1 = sender_comparisons::comparison_map(fn_comparisons@);
                    assert(map1 =~= map0.insert(f, after));
                    assert(before =~= (if map0.contains_key(f) {
                        map0[f]
                    } else {
                        Seq::empty()
                    }));
                    assert(map0.contains_key(f) <==> direct.contains_key(f));
                    if direct.contains_key(f) {
                        assert(map0[f] =~= direct[f]);
                    }
                    assert(map1 =~= with_predicates(*program, wider, direct)) by {
                        assert forall|g: usize| #[trigger] map1.contains_key(g) implies map1[g]
                            == with_predicates(*program, wider, direct)[g] by {
                            if g != f {
                                assert(map1[g] == map0[g]);
                            }
                        }
                    }
                    assert(sender_comparisons::comparisons_wf(*body, after)) by {
                        assert forall|i: int| 0 <= i < after.len() implies (
                        #[trigger] after[i]).location.block < body.basic_blocks@.len() by {
                            if i < before.len() {
                                assert(after[i] == before[i]);
                            } else {
                                assert(after[i] == all[i - before.len()]);
                                if i - before.len() < first.len() {
                                    assert(all[i - before.len()] == first[i - before.len()]);
                                } else {
                                    assert(all[i - before.len()] == second[i - before.len()
                                        - first.len()]);
                                }
                            }
                        }
                    }
                    assert forall|g: usize| #[trigger] map1.contains_key(g) implies g
                        < program.defs@.len() && (cosmwasm::analysable(*program, g)
                        ==> sender_comparisons::comparisons_wf(
                        cosmwasm::body_at(*program, g),
                        map1[g],
                    )) by {
                        if g != f {
                            assert(map0.contains_key(g));
                        }
                    }
                }
            } else {
                assert(with_predicates(*program, wider, direct) =~= with_predicates(
                    *program,
                    seen,
                    direct,
                ));
            }
        } else {
            assert(with_predicates(*program, wider, direct) =~= with_predicates(
                *program,
                seen,
                direct,
            ));
        }
    }
    assert(nodes@.take(nodes@.len() as int) =~= nodes@);
}

// ---- stages 5 and 6 ------------------------------------------------------

/// The comparisons stage 5 works with.
pub open spec fn all_comparisons(program: Program, nodes: Seq<DefId>) -> Map<
    usize,
    Seq<ComparisonView>,
> {
    with_predicates(
        program,
        nodes,
        direct_comparisons(program, nodes, sender_taint::targets_of(program, nodes)),
    )
}

/// What stage 6 rests on.
pub open spec fn evaluation_of(program: Program, root: DefId) -> Evaluation {
    let nodes = call_graph::reachable_from(program, root);
    let comparisons = all_comparisons(program, nodes);
    let always = gating::always_checking(program, nodes, comparisons);
    Evaluation {
        program,
        comparisons,
        always,
        flows: taint::flow_map(program, nodes, taint::return_flows(program, nodes)),
        entered: gating::entry_checked(program, root, nodes, comparisons, always),
        closures: Set::new(|f: usize| gating::closure_checks(program, comparisons, f)),
    }
}

/// A summary over the functions of a graph.
pub open spec fn summary_of(nodes: Seq<DefId>, holding: Set<usize>) -> Map<usize, bool> {
    Map::new(|f: usize| nodes.contains(f), |f: usize| holding.contains(f))
}

/// The names of the authorization-relevant items.
pub open spec fn auth_names(items: Seq<StorageItemView>) -> Set<Seq<char>> {
    Set::new(|name: Seq<char>| storage_inventory::auth_name(items, name))
}

/// The findings of a function, each with the function's path.
pub open spec fn findings_in(
    evaluation: Evaluation,
    names: Set<Seq<char>>,
    f: DefId,
) -> Seq<FunctionFindingView> {
    let program = evaluation.program;
    if f < program.defs@.len() && cosmwasm::analysable(program, f) {
        evaluation::findings_of(
            evaluation,
            cosmwasm::body_at(program, f),
            f,
            call_graph::node_sites(program, f),
            names,
        ).map_values(
            |finding: evaluation::FindingView|
                FunctionFindingView { function: program.defs@[f as int].path@, finding },
        )
    } else {
        Seq::empty()
    }
}

/// The findings of the first `count` nodes.
pub open spec fn all_findings(
    evaluation: Evaluation,
    names: Set<Seq<char>>,
    nodes: Seq<DefId>,
    count: nat,
) -> Seq<FunctionFindingView>
    decreases count,
{
    if count == 0 {
        Seq::empty()
    } else {
        all_findings(evaluation, names, nodes, (count - 1) as nat) + findings_in(
            evaluation,
            names,
            nodes[count - 1],
        )
    }
}

/// The traces of the first `count` nodes.
pub open spec fn all_traces(
    evaluation: Evaluation,
    names: Set<Seq<char>>,
    nodes: Seq<DefId>,
    traces: Traces,
    count: nat,
) -> Seq<Seq<char>>
    decreases count,
{
    if count == 0 {
        Seq::empty()
    } else {
        let f = nodes[count - 1];
        let program = evaluation.program;
        let before = all_traces(evaluation, names, nodes, traces, (count - 1) as nat);
        if f < program.defs@.len() && cosmwasm::analysable(program, f) {
            before + debug::function_trace(
                evaluation,
                cosmwasm::body_at(program, f),
                f,
                call_graph::node_sites(program, f),
                names,
                traces,
            )
        } else {
            before
        }
    }
}

/// The finding for the write to a named item that block `b` of node `n` ends in.
pub open spec fn finding_at(
    evaluation: Evaluation,
    names: Set<Seq<char>>,
    nodes: Seq<DefId>,
    n: int,
    b: int,
) -> Option<FunctionFindingView> {
    let program = evaluation.program;
    let f = nodes[n];
    let body = cosmwasm::body_at(program, f);
    if 0 <= n < nodes.len() && f < program.defs@.len() && cosmwasm::analysable(program, f) && 0 <= b
        < body.basic_blocks@.len() {
        match evaluation::sink_at(program, body, names, b) {
            Some(sink) => Some(
                FunctionFindingView {
                    function: program.defs@[f as int].path@,
                    finding: evaluation::finding_of(
                        evaluation,
                        body,
                        f,
                        call_graph::node_sites(program, f),
                        sink,
                    ),
                },
            ),
            None => None,
        }
    } else {
        None
    }
}

/// Every write to a named item in a function of the call graph is among the
/// findings.
pub proof fn lemma_every_write_is_reported(
    evaluation: Evaluation,
    names: Set<Seq<char>>,
    nodes: Seq<DefId>,
    count: nat,
    n: int,
    b: int,
)
    requires
        0 <= n < count <= nodes.len(),
        finding_at(evaluation, names, nodes, n, b) is Some,
    ensures
        all_findings(evaluation, names, nodes, count).contains(
            finding_at(evaluation, names, nodes, n, b)->0,
        ),
    decreases count,
{
    let program = evaluation.program;
    let found = finding_at(evaluation, names, nodes, n, b)->0;
    let before = all_findings(evaluation, names, nodes, (count - 1) as nat);
    let all = all_findings(evaluation, names, nodes, count);
    if n < count - 1 {
        lemma_every_write_is_reported(evaluation, names, nodes, (count - 1) as nat, n, b);
        let k = choose|k: int| 0 <= k < before.len() && before[k] == found;
        assert(all[k] == found);
    } else {
        let f = nodes[n];
        let body = cosmwasm::body_at(program, f);
        let sinks = evaluation::sinks_of(program, body, names);
        evaluation::lemma_every_write_is_a_sink(
            program,
            body,
            names,
            body.basic_blocks@.len(),
            b,
        );
        let sink = evaluation::sink_at(program, body, names, b)->0;
        let k = choose|k: int| 0 <= k < sinks.len() && sinks[k] == sink;
        assert(findings_in(evaluation, names, f)[k] == found);
        assert(all[before.len() + k] == found);
    }
}

/// Only writes to a named item in a function of the call graph are among the
/// findings.
pub proof fn lemma_only_writes_are_reported(
    evaluation: Evaluation,
    names: Set<Seq<char>>,
    nodes: Seq<DefId>,
    count: nat,
    k: int,
)
    requires
        count <= nodes.len(),
        0 <= k < all_findings(evaluation, names, nodes, count).len(),
    ensures
        names.contains(
            all_findings(evaluation, names, nodes, count)[k].finding.sink.symbolic_name,
        ),
        exists|n: int, b: int|
            0 <= n < count && #[trigger] finding_at(evaluation, names, nodes, n, b) == Some(
                all_findings(evaluation, names, nodes, count)[k],
            ),
    decreases count,
{
    let program = evaluation.program;
    let before = all_findings(evaluation, names, nodes, (count - 1) as nat);
    let all = all_findings(evaluation, names, nodes, count);
    if k < before.len() {
        lemma_only_writes_are_reported(evaluation, names, nodes, (count - 1) as nat, k);
        let (n, b) = choose|n: int, b: int|
            0 <= n < count - 1 && #[trigger] finding_at(evaluation, names, nodes, n, b) == Some(
                before[k],
            );
        assert(all[k] == before[k]);
        assert(finding_at(evaluation, names, nodes, n, b) == Some(all[k]));
    } else {
        let f = nodes[count - 1];
        let body = cosmwasm::body_at(program, f);
        let i = k - before.len();
        let sinks = evaluation::sinks_of(program, body, names);
        assert(all[k] == findings_in(evaluation, names, f)[i]);
        evaluation::lemma_only_named_writes_are_sinks(
            program,
            body,
            names,
            body.basic_blocks@.len(),
            i,
        );
        let b = choose|b: int|
            0 <= b < body.basic_blocks@.len() && #[trigger] evaluation::sink_at(
                program,
                body,
                names,
                b,
            ) == Some(sinks[i]);
        assert(finding_at(evaluation, names, nodes, count - 1, b) == Some(all[k]));
    }
}

/// Appends the findings of a function to the list of all findings.
#[verifier::loop_isolation(false)]
fn add_findings(
    all: &mut Vec<FunctionFinding>,
    path: &String,
    findings: Vec<evaluation::AccessControlFinding>,
)
    ensures
        report::function_finding_views(final(all)@) == report::function_finding_views(old(all)@)
            + evaluation::finding_views(findings@).map_values(
            |finding: evaluation::FindingView|
                FunctionFindingView { function: path@, finding },
        ),
{
    let ghost views = evaluation::finding_views(findings@).map_values(
        |finding: evaluation::FindingView| FunctionFindingView { function: path@, finding },
    );
    let ghost before = report::function_finding_views(all@);
    let ghost given = findings@;
    let mut reversed: Vec<evaluation::AccessControlFinding> = Vec::new();
    let mut findings = findings;
    while findings.len() > 0
        invariant
            findings@ == given.take(findings@.len() as int),
            findings@.len() + reversed@.len() == given.len(),
            forall|j: int|
                0 <= j < reversed@.len() ==> #[trigger] reversed@[j] == given[given.len() - 1 - j],
        decreases findings@.len(),
    {
        let ghost left = findings@.len() - 1;
        let finding = findings.pop().unwrap();
        assert(finding == given[left]);
        assert(findings@ =~= given.take(left));
        reversed.push(finding);
    }
    assert(before =~= before + views.take(0));
    while reversed.len() > 0
        invariant
            reversed@.len() <= given.len(),
            forall|j: int|
                0 <= j < reversed@.len() ==> #[trigger] reversed@[j] == given[given.len() - 1 - j],
            report::function_finding_views(all@) == before + views.take(
                given.len() - reversed@.len(),
            ),
        decreases reversed@.len(),
    {
        let ghost at = given.len() - reversed@.len();
        let finding = reversed.pop().unwrap();
        assert(finding == given[at]);
        let ghost all0 = all@;
        let entry = FunctionFinding { function: path.clone(), finding };
        assert(evaluation::finding_views(given)[at] == finding@);
        assert(entry@ =~= views[at]);
        all.push(entry);
        assert(report::function_finding_views(all@) =~= report::function_finding_views(all0).push(
            entry@,
        ));
        assert(report::function_finding_views(all@) =~= before + views.take(at + 1));
    }
    assert(views.take(views.len() as int) =~= views);
}

/// Stage 6 for every function of the call graph, with the traces asked for.
#[verifier::loop_isolation(false)]
fn evaluate_all(
    program: &Program,
    call_graph: &CallGraph,
    auth_item_names: &Vec<String>,
    ctx: &EvaluationContext<'_>,
    traces: Traces,
    lines: &mut Vec<String>,
) -> (all: Vec<FunctionFinding>)
    requires
        program.wf(),
        call_graph.describes(*program),
        ctx.describes(*program),
    ensures
        report::function_finding_views(all@) == all_findings(
            ctx.evaluation(*program),
            evaluation::name_set(auth_item_names@),
            call_graph.node_list(),
            call_graph.node_list().len(),
        ),
        text::texts(final(lines)@) == text::texts(old(lines)@) + all_traces(
            ctx.evaluation(*program),
            evaluation::name_set(auth_item_names@),
            call_graph.node_list(),
            traces,
            call_graph.node_list().len(),
        ),
{
    let nodes = call_graph.nodes();
    let ghost evaluation = ctx.evaluation(*program);
    let ghost names = evaluation::name_set(auth_item_names@);
    let ghost lines0 = text::texts(lines@);
    let mut all: Vec<FunctionFinding> = Vec::new();
    assert(report::function_finding_views(all@) =~= Seq::<FunctionFindingView>::empty());
    assert(lines0 =~= lines0 + all_traces(evaluation, names, nodes@, traces, 0));
    for n in 0..nodes.len()
        invariant
            report::function_finding_views(all@) == all_findings(
                evaluation,
                names,
                nodes@,
                n as nat,
            ),
            text::texts(lines@) == lines0 + all_traces(
                evaluation,
                names,
                nodes@,
                traces,
                n as nat,
            ),
    {
        let f: DefId = nodes[n];
        assert(nodes@.contains(f));
        let ghost before = report::function_finding_views(all@);
        if let Some(body) = cosmwasm::body_of(program, f) {
            let call_sites = call_graph.call_sites_in(f);
            let ghost sites = call_graph::node_sites(*program, f);
            assert(call_graph::site_views(call_sites@) == sites);
            if traces.taint || traces.closure {
                report::push_lines(
                    lines,
                    debug::trace_function(
                        program,
                        body,
                        f,
                        call_sites,
                        auth_item_names,
                        ctx,
                        traces,
                    ),
                );
            }
            let findings = evaluation::evaluate_function(
                program,
                body,
                f,
                call_sites,
                auth_item_names,
                ctx,
            );
            add_findings(&mut all, &program.defs[f].path, findings);
            proof {
                let traced = debug::function_trace(evaluation, *body, f, sites, names, traces);
                if !traces.taint && !traces.closure {
                    assert(traced =~= Seq::<Seq<char>>::empty());
                }
                assert(text::texts(lines@) =~= lines0 + all_traces(
                    evaluation,
                    names,
                    nodes@,
                    traces,
                    (n + 1) as nat,
                ));
            }
        }
        assert(report::function_finding_views(all@) =~= before + findings_in(
            evaluation,
            names,
            f,
        ));
    }
    all
}

// ---- the whole report ----------------------------------------------------

/// The lines of the calls that were left out of the call graph.
pub open spec fn skipped_lines(program: Program, skipped: Seq<(BasicBlock, DefId)>) -> Seq<
    Seq<char>,
> {
    skipped.map_values(
        |entry: (BasicBlock, DefId)| report::skipped_line(program, entry.0, entry.1),
    )
}

/// The report of stages 2 to 4.
pub open spec fn detection_report(program: Program, root: DefId) -> Seq<Seq<char>> {
    let nodes = call_graph::reachable_from(program, root);
    let targets = sender_taint::targets_of(program, nodes);
    seq![report::entry_point_line(program, root)] + skipped_lines(
        program,
        call_graph::skipped_calls(program, nodes, nodes.len()),
    ) + seq![report::call_graph_size_line(program, root, nodes.len())] + functions_lines(
        program,
        nodes,
        targets,
        targets.len(),
    ) + report::inventory_lines(program, marked_inventory(program, nodes))
}

/// The report of stages 5 and 6.
pub open spec fn evaluation_report(program: Program, root: DefId, traces: Traces) -> Seq<
    Seq<char>,
> {
    let nodes = call_graph::reachable_from(program, root);
    let evaluation = evaluation_of(program, root);
    let names = auth_names(marked_inventory(program, nodes));
    (if traces.closure {
        debug::closure_lines(program, evaluation.comparisons, program.defs@.len())
    } else {
        Seq::empty()
    }) + report::always_checking_lines(program, summary_of(nodes, evaluation.always))
        + report::return_taint_lines(program, evaluation.flows) + report::entry_checked_lines(
        program,
        summary_of(nodes, evaluation.entered),
    ) + all_traces(evaluation, names, nodes, traces, nodes.len()) + report::finding_lines(
        all_findings(evaluation, names, nodes, nodes.len()),
    )
}

/// The report of a program.
pub open spec fn full_report(program: Program, traces: Traces) -> Seq<Seq<char>> {
    match cosmwasm::execute_from(program, 0) {
        Some(root) => detection_report(program, root) + evaluation_report(program, root, traces),
        None => report::inventory_lines(
            program,
            storage_inventory::declared_items(program, program.free_items@),
        ) + seq!["No execute-Entry-Point, skipping analysis"@],
    }
}

/// The report has a line for every write to an authorization-relevant item in a
/// function that `execute` reaches.
pub proof fn lemma_report_shows_every_write(
    program: Program,
    root: DefId,
    traces: Traces,
    n: int,
    b: int,
)
    requires
        cosmwasm::execute_from(program, 0) == Some(root),
        ({
            let nodes = call_graph::reachable_from(program, root);
            let names = auth_names(marked_inventory(program, nodes));
            let evaluation = evaluation_of(program, root);
            &&& finding_at(evaluation, names, nodes, n, b) is Some
            &&& all_findings(evaluation, names, nodes, nodes.len()).len() <= usize::MAX
        }),
    ensures
        ({
            let nodes = call_graph::reachable_from(program, root);
            let names = auth_names(marked_inventory(program, nodes));
            full_report(program, traces).contains(
                report::finding_line(
                    finding_at(evaluation_of(program, root), names, nodes, n, b)->0,
                ),
            )
        }),
{
    let nodes = call_graph::reachable_from(program, root);
    let names = auth_names(marked_inventory(program, nodes));
    let evaluation = evaluation_of(program, root);
    let all = all_findings(evaluation, names, nodes, nodes.len());
    let found = finding_at(evaluation, names, nodes, n, b)->0;
    lemma_every_write_is_reported(evaluation, names, nodes, nodes.len(), n, b);
    let i = choose|i: int| 0 <= i < all.len() && all[i] == found;
    report::lemma_every_finding_is_shown(all, i);
    let lines = report::finding_lines(all);
    let k = choose|k: int| 0 <= k < lines.len() && lines[k] == report::finding_line(found);
    let whole = full_report(program, traces);
    assert(whole[whole.len() - lines.len() + k] == lines[k]);
}

/// Traces only add lines: the report without any is the report with them, less
/// the two groups of trace lines.
pub proof fn lemma_traces_only_add(program: Program, traces: Traces)
    ensures
        exists|
            first: Seq<Seq<char>>,
            second: Seq<Seq<char>>,
            third: Seq<Seq<char>>,
            closures: Seq<Seq<char>>,
            sinks: Seq<Seq<char>>,
        |
            full_report(program, Traces { taint: false, closure: false }) == #[trigger] (first
                + second + third) && full_report(program, traces) == #[trigger] (first + closures
                + second + sinks + third),
{
    let off = Traces { taint: false, closure: false };
    let none = Seq::<Seq<char>>::empty();
    match cosmwasm::execute_from(program, 0) {
        Some(root) => {
            let nodes = call_graph::reachable_from(program, root);
            let evaluation = evaluation_of(program, root);
            let names = auth_names(marked_inventory(program, nodes));
            let first = detection_report(program, root);
            let second = report::always_checking_lines(
                program,
                summary_of(nodes, evaluation.always),
            ) + report::return_taint_lines(program, evaluation.flows)
                + report::entry_checked_lines(program, summary_of(nodes, evaluation.entered));
            let third = report::finding_lines(
                all_findings(evaluation, names, nodes, nodes.len()),
            );
            let closures = if traces.closure {
                debug::closure_lines(program, evaluation.comparisons, program.defs@.len())
            } else {
                none
            };
            let sinks = all_traces(evaluation, names, nodes, traces, nodes.len());
            lemma_no_traces(evaluation, names, nodes, nodes.len());
            assert(full_report(program, off) =~= first + second + third);
            assert(full_report(program, traces) =~= first + closures + second + sinks + third);
        },
        None => {
            let first = full_report(program, off);
            assert(full_report(program, off) =~= first + none + none);
            assert(full_report(program, traces) =~= first + none + none + none + none);
        },
    }
}

proof fn lemma_no_traces(
    evaluation: Evaluation,
    names: Set<Seq<char>>,
    nodes: Seq<DefId>,
    count: nat,
)
    ensures
        all_traces(
            evaluation,
            names,
            nodes,
            Traces { taint: false, closure: false },
            count,
        ) == Seq::<Seq<char>>::empty(),
    decreases count,
{
    if count > 0 {
        lemma_no_traces(evaluation, names, nodes, (count - 1) as nat);
        let f = nodes[count - 1];
        let program = evaluation.program;
        let off = Traces { taint: false, closure: false };
        assert(debug::function_trace(
            evaluation,
            cosmwasm::body_at(program, f),
            f,
            call_graph::node_sites(program, f),
            names,
            off,
        ) =~= Seq::<Seq<char>>::empty());
        assert(all_traces(evaluation, names, nodes, off, count) =~= Seq::<Seq<char>>::empty());
    }
}

/// Appends the lines of the calls that were left out of the call graph.
#[verifier::loop_isolation(false)]
fn push_skipped(program: &Program, call_graph: &CallGraph, lines: &mut Vec<String>)
    requires
        call_graph.describes(*program),
    ensures
        text::texts(final(lines)@) == text::texts(old(lines)@) + skipped_lines(
            *program,
            call_graph.skips(),
        ),
{
    let skipped = call_graph.skipped_function_pointers();
    let ghost before = text::texts(lines@);
    let ghost shown = skipped_lines(*program, skipped@);
    proof {
        lemma_skipped_exist(*program, call_graph.node_list(), call_graph.node_list().len());
    }
    assert(before =~= before + shown.take(0));
    for i in 0..skipped.len()
        invariant
            text::texts(lines@) == before + shown.take(i as int),
    {
        let (block, caller) = skipped[i];
        assert(skipped@[i as int].1 < program.defs@.len());
        report::push_line(lines, report::skipped_function_pointer(program, block, caller));
        assert(text::texts(lines@) =~= before + shown.take(i + 1));
    }
    assert(shown.take(shown.len() as int) =~= shown);
}

proof fn lemma_skipped_exist(program: Program, nodes: Seq<DefId>, count: nat)
    requires
        count <= nodes.len(),
    ensures
        forall|i: int|
            0 <= i < call_graph::skipped_calls(program, nodes, count).len() ==> (
            #[trigger] call_graph::skipped_calls(program, nodes, count)[i]).1
                < program.defs@.len(),
    decreases count,
{
    if count > 0 {
        lemma_skipped_exist(program, nodes, (count - 1) as nat);
        let before = call_graph::skipped_calls(program, nodes, (count - 1) as nat);
        let all = call_graph::skipped_calls(program, nodes, count);
        assert forall|i: int| 0 <= i < all.len() implies (#[trigger] all[i]).1
            < program.defs@.len() by {
            if i < before.len() {
                assert(all[i] == before[i]);
            }
        }
    }
}

/// Runs the analysis and returns the report, line by line.
#[verifier::rlimit(60)]
pub fn run(program: &Program, traces: Traces) -> (lines: Vec<String>)
    requires
        program.wf(),
    ensures
        text::texts(lines@) == full_report(*program, traces),
{
    let mut lines: Vec<String> = Vec::new();
    assert(text::texts(lines@) =~= Seq::<Seq<char>>::empty());

    // ---- Stage 1: storage inventory ----
    let mut inventory = StorageInventory::build(program);
    let ghost declared = inventory@;
    let const_types = ConstTypeIndex::build(program);
    proof {
        lemma_declared_items_exist(*program, program.free_items@);
    }

    // ---- Stage 2: entry point and call graph ----
    let root: DefId = match cosmwasm::find_execute(program) {
        Some(root) => root,
        None => {
            assert forall|i: int| 0 <= i < inventory.items@.len() implies (
            #[trigger] inventory.items@[i]).def_id < program.defs@.len() by {
                assert(inventory@[i].def_id < program.defs@.len());
            }
            report::push_lines(&mut lines, report::storage_inventory(program, &inventory));
            report::push_line(&mut lines, report::no_entry_point());
            assert(text::texts(lines@) =~= full_report(*program, traces));
            return lines;
        },
    };
    report::push_line(&mut lines, report::entry_point(program, root));
    let call_graph = CallGraph::build_from_root(program, root);
    let ghost nodes = call_graph.node_list();
    push_skipped(program, &call_graph, &mut lines);
    report::push_line(
        &mut lines,
        report::call_graph_size(program, root, call_graph.nodes().len()),
    );

    // ---- Stage 3: sender comparisons ----
    // The seeding fixpoint first, so that every body is analysed with the
    // sender taint its callers pass in.
    let seeds = sender_taint::seed_sender_taint(program, &call_graph);
    let ghost targets = seeds.targets@;

    // ---- Stage 4: auth-storage marking ----
    let mut fn_comparisons = find_comparisons(
        program,
        &seeds,
        &const_types,
        &mut inventory,
        Ghost(nodes),
        &mut lines,
    );
    let ghost marks = auth_defs(*program, nodes, targets, targets.len());
    assert forall|i: int| 0 <= i < inventory.items@.len() implies (
    #[trigger] inventory.items@[i]).def_id < program.defs@.len() by {
        assert(inventory@[i] == inventory.items@[i]@);
        assert(inventory@.len() == inventory.items@.len());
        assert(storage_inventory::marked(declared, marks).len() == declared.len());
        assert(inventory@[i].def_id == declared[i].def_id);
    }
    report::push_lines(&mut lines, report::storage_inventory(program, &inventory));
    assert(text::texts(lines@) =~= detection_report(*program, root));
    add_predicates(program, &call_graph, &mut fn_comparisons);

    // ---- Stage 5: gating summaries ----
    let gating_index = GatingIndex::build(program, &fn_comparisons);
    let always_checks = gating::compute_always_checks(program, &call_graph, &gating_index);
    let checking_closures = gating::closures_always_checking(
        program,
        &fn_comparisons,
        &gating_index,
        &always_checks,
    );
    let ghost evaluation = evaluation_of(*program, root);
    let ghost names = auth_names(marked_inventory(*program, nodes));
    proof {
        assert(gating_index.comparisons() == evaluation.comparisons);
        assert(checking_closures@ =~= evaluation.closures);
        assert(always_checks@ =~= summary_of(nodes, evaluation.always));
        assert forall|f: usize| evaluation.always.contains(f) implies nodes.contains(f) by {
            gating::lemma_always_checking_fixpoint(*program, nodes, evaluation.comparisons, f);
        }
        assert(gating::holding(always_checks@) =~= evaluation.always);
        assert forall|f: usize| #[trigger] always_checks@.contains_key(f) implies f
            < program.defs@.len() by {
            lemma_nodes_exist(*program, nodes, f);
        }
    }
    if traces.closure {
        report::push_lines(
            &mut lines,
            debug::trace_closures(program, &fn_comparisons, &gating_index, &always_checks),
        );
    }
    report::push_lines(&mut lines, report::always_checking(program, &always_checks));

    let return_taint_params = taint::compute_return_taint_params(
        program,
        &call_graph,
        &const_types,
    );
    assert forall|f: usize| #[trigger] return_taint_params@.contains_key(f) implies f
        < program.defs@.len() by {
        assert(taint::sets_of(return_taint_params@).contains_key(f));
    }
    report::push_lines(&mut lines, report::return_taint(program, &return_taint_params));

    let entry_checked = gating::compute_entry_checked(
        program,
        &call_graph,
        &gating_index,
        &always_checks,
    );
    proof {
        assert(entry_checked@ =~= summary_of(nodes, evaluation.entered));
        gating::lemma_entry_checked_consistent(
            *program,
            root,
            nodes,
            evaluation.comparisons,
            evaluation.always,
        );
        assert(gating::holding(entry_checked@) =~= evaluation.entered);
        assert forall|f: usize| #[trigger] entry_checked@.contains_key(f) implies f
            < program.defs@.len() by {
            lemma_nodes_exist(*program, nodes, f);
        }
    }
    report::push_lines(&mut lines, report::entry_checked(program, &entry_checked));

    // ---- Stage 6: final evaluation ----
    let auth_item_names = inventory.auth_item_names();
    let ctx = EvaluationContext {
        const_types: &const_types,
        gating: &gating_index,
        always_checks: &always_checks,
        return_taint_params: &return_taint_params,
        entry_checked: &entry_checked,
        checking_closures: &checking_closures,
    };
    proof {
        assert(evaluation::name_set(auth_item_names@) =~= names);
        assert(ctx.evaluation(*program) == evaluation);
    }
    let all_findings = evaluate_all(
        program,
        &call_graph,
        &auth_item_names,
        &ctx,
        traces,
        &mut lines,
    );
    report::push_lines(&mut lines, report::findings(&all_findings));
    assert(text::texts(lines@) =~= full_report(*program, traces));
    lines
}

/// The nodes of a call graph are definitions of the program.
proof fn lemma_nodes_exist(program: Program, nodes: Seq<DefId>, f: DefId)
    requires
        call_graph::node_set(nodes).contains(f),
        forall|i: int| 0 <= i < nodes.len() ==> #[trigger] nodes[i] < program.defs@.len(),
    ensures
        f < program.defs@.len(),
{
    let k = choose|k: int| 0 <= k < nodes.len() && nodes[k] == f;
    assert(nodes[k] < program.defs@.len());
}

} // verus!
