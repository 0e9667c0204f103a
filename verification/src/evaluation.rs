//! Stage 6: final evaluation.
//!
//! For every write to an authorization-relevant storage item, the *sink*, two
//! questions are answered and combined into one finding:
//!
//! * is the written value attacker-controlled (taint, [`crate::taint`])?
//! * is the access gated by an effective check on every path (gating,
//!   [`crate::gating`])?
//!
//! A tainted write without a gate is a reportable vulnerability; every other
//! combination is benign and is reported with the reason it is benign.

use crate::auth_gate;
use crate::auth_gate::{AuthState, Checks};
use crate::call_graph;
use crate::call_graph::{callee_locations, CallSite, CallSiteView};
use crate::cosmwasm;
use crate::dense::{DenseMap, DenseSet};
use crate::gating;
use crate::gating::GatingIndex;
use crate::graph;
use crate::mir::{Body, DefId, Local, Location, Program, Terminator, TyKind};
use crate::mir_util;
use crate::sender_comparisons::ComparisonView;
use crate::storage_inventory;
use crate::storage_inventory::{list_holds, resolve_storage_item, ConstDefIndex, ConstTypeIndex};
use crate::taint;
use crate::taint::{TaintContext, TaintFacts, TaintResult};
use vstd::prelude::*;

verus! {

/// A write to an authorization-relevant storage item.
#[derive(Debug, Clone)]
pub struct SensitiveSink {
    pub location: Location,
    /// Name of the storage constant written to, for example `OWNER`.
    pub symbolic_name: String,
}

/// What a [`SensitiveSink`] holds.
#[verifier::ext_equal]
pub ghost struct SinkView {
    pub location: Location,
    pub symbolic_name: Seq<char>,
}

impl View for SensitiveSink {
    type V = SinkView;

    open spec fn view(&self) -> SinkView {
        SinkView { location: self.location, symbolic_name: self.symbolic_name@ }
    }
}

/// An attacker-controlled value flowing into a sink. The taint originates from
/// a function parameter of address type, i.e. a field of the `ExecuteMsg` the
/// caller supplied.
#[derive(Debug, Clone)]
pub struct TaintSource {
    /// The parameter local the tainted value originates from.
    pub param_local: Local,
    /// Normalized type of that parameter, for example `Addr` or `Vec<String>`.
    pub param_ty: String,
}

/// What a [`TaintSource`] holds.
#[verifier::ext_equal]
pub ghost struct TaintSourceView {
    pub param_local: Local,
    pub param_ty: Seq<char>,
}

impl View for TaintSource {
    type V = TaintSourceView;

    open spec fn view(&self) -> TaintSourceView {
        TaintSourceView { param_local: self.param_local, param_ty: self.param_ty@ }
    }
}

/// The verdict for one sink.
#[derive(Debug, Clone)]
pub struct AccessControlFinding {
    pub sink: SensitiveSink,
    /// `Some` if the written value is attacker-controlled.
    pub taint: Option<TaintSource>,
    /// `true` if an authorization check precedes the sink on every path.
    pub gated: bool,
}

/// What an [`AccessControlFinding`] holds.
#[verifier::ext_equal]
pub ghost struct FindingView {
    pub sink: SinkView,
    pub taint: Option<TaintSourceView>,
    pub gated: bool,
}

/// What an optional taint source holds.
pub open spec fn source_view(source: Option<TaintSource>) -> Option<TaintSourceView> {
    match source {
        Some(source) => Some(source@),
        None => None,
    }
}

impl View for AccessControlFinding {
    type V = FindingView;

    open spec fn view(&self) -> FindingView {
        FindingView { sink: self.sink@, taint: source_view(self.taint), gated: self.gated }
    }
}

/// What a list of sinks holds.
pub open spec fn sink_views(sinks: Seq<SensitiveSink>) -> Seq<SinkView> {
    sinks.map_values(|sink: SensitiveSink| sink@)
}

/// What a list of findings holds.
pub open spec fn finding_views(findings: Seq<AccessControlFinding>) -> Seq<FindingView> {
    findings.map_values(|finding: AccessControlFinding| finding@)
}

/// A finding is a tainted write that no check gates.
pub open spec fn vulnerable(finding: FindingView) -> bool {
    finding.taint is Some && !finding.gated
}

/// The label of a finding in the report.
pub open spec fn verdict_text(finding: FindingView) -> Seq<char> {
    if vulnerable(finding) {
        "VULN "@
    } else if finding.gated {
        "gated"@
    } else {
        "clean"@
    }
}

impl AccessControlFinding {
    /// A reportable vulnerability: a tainted write that no check gates.
    pub fn is_vulnerability(&self) -> (answer: bool)
        ensures
            answer == vulnerable(self@),
    {
        self.taint.is_some() && !self.gated
    }

    /// Short label for the report.
    pub fn verdict(&self) -> (label: &'static str)
        ensures
            label@ == verdict_text(self@),
    {
        if self.is_vulnerability() {
            "VULN "
        } else if self.gated {
            "gated"
        } else {
            "clean"
        }
    }
}

// ---- sinks ---------------------------------------------------------------

/// The texts a list holds, as a set.
pub open spec fn name_set(names: Seq<String>) -> Set<Seq<char>> {
    Set::new(|name: Seq<char>| storage_inventory::holds_name(names, name))
}

/// The write to one of the named items that a block ends in. Argument 0 is the
/// receiver, i.e. the storage item written to.
pub open spec fn sink_at(
    program: Program,
    body: Body,
    names: Set<Seq<char>>,
    block: int,
) -> Option<SinkView> {
    match body.basic_blocks@[block].terminator {
        Terminator::Call(call) => if taint::writes_storage(program, call) {
            match taint::receiver_of(call) {
                Some(receiver) => {
                    let name = storage_inventory::storage_name(program, body, receiver);
                    if names.contains(name) {
                        Some(
                            SinkView {
                                location: call_graph::terminator_location(body, block),
                                symbolic_name: name,
                            },
                        )
                    } else {
                        None
                    }
                },
                None => None,
            }
        } else {
            None
        },
        _ => None,
    }
}

/// The sinks of the blocks below `block`.
pub open spec fn sinks_before(
    program: Program,
    body: Body,
    names: Set<Seq<char>>,
    block: nat,
) -> Seq<SinkView>
    decreases block,
{
    if block == 0 {
        Seq::empty()
    } else {
        let before = sinks_before(program, body, names, (block - 1) as nat);
        match sink_at(program, body, names, block - 1) {
            Some(sink) => before.push(sink),
            None => before,
        }
    }
}

/// The writes to the named items in a body, in block order.
pub open spec fn sinks_of(program: Program, body: Body, names: Set<Seq<char>>) -> Seq<SinkView> {
    sinks_before(program, body, names, body.basic_blocks@.len())
}

/// Every write to one of the named items is among the sinks.
pub proof fn lemma_every_write_is_a_sink(
    program: Program,
    body: Body,
    names: Set<Seq<char>>,
    block: nat,
    b: int,
)
    requires
        0 <= b < block,
        sink_at(program, body, names, b) is Some,
    ensures
        sinks_before(program, body, names, block).contains(sink_at(program, body, names, b)->0),
    decreases block,
{
    let sink = sink_at(program, body, names, b)->0;
    let all = sinks_before(program, body, names, block);
    let before = sinks_before(program, body, names, (block - 1) as nat);
    if b < block - 1 {
        lemma_every_write_is_a_sink(program, body, names, (block - 1) as nat, b);
        let k = choose|k: int| 0 <= k < before.len() && before[k] == sink;
        assert(all[k] == sink);
    } else {
        assert(all[before.len() as int] == sink);
    }
}

/// Only writes to one of the named items are sinks.
pub proof fn lemma_only_named_writes_are_sinks(
    program: Program,
    body: Body,
    names: Set<Seq<char>>,
    block: nat,
    i: int,
)
    requires
        0 <= i < sinks_before(program, body, names, block).len(),
    ensures
        ({
            let sink = sinks_before(program, body, names, block)[i];
            &&& names.contains(sink.symbolic_name)
            &&& exists|b: int|
                0 <= b < block && #[trigger] sink_at(program, body, names, b) == Some(sink)
        }),
    decreases block,
{
    let before = sinks_before(program, body, names, (block - 1) as nat);
    if i < before.len() {
        lemma_only_named_writes_are_sinks(program, body, names, (block - 1) as nat, i);
        let b = choose|b: int|
            0 <= b < block - 1 && #[trigger] sink_at(program, body, names, b) == Some(before[i]);
        assert(0 <= b < block);
    } else {
        assert(sink_at(program, body, names, block - 1) == Some(
            sinks_before(program, body, names, block)[i],
        ));
    }
}

/// Finds the writes to authorization-relevant storage items.
#[verifier::loop_isolation(false)]
pub(crate) fn find_sensitive_sinks(
    program: &Program,
    body: &Body,
    auth_item_names: &Vec<String>,
    const_defs: &ConstDefIndex,
    const_types: &ConstTypeIndex,
) -> (sinks: Vec<SensitiveSink>)
    requires
        program.wf(),
        body.wf(*program),
        const_defs.indexes(*program, *body),
        const_types.indexes(*program),
    ensures
        sink_views(sinks@) == sinks_of(*program, *body, name_set(auth_item_names@)),
        forall|i: int|
            0 <= i < sinks@.len() ==> (#[trigger] sinks@[i]).location.block
                < body.basic_blocks@.len(),
{
    let mut sinks: Vec<SensitiveSink> = Vec::new();
    let ghost names = name_set(auth_item_names@);
    assert(sink_views(sinks@) =~= Seq::<SinkView>::empty());
    for block in 0..body.basic_blocks.len()
        invariant
            sink_views(sinks@) == sinks_before(*program, *body, names, block as nat),
            forall|i: int|
                0 <= i < sinks@.len() ==> (#[trigger] sinks@[i]).location.block
                    < body.basic_blocks@.len(),
    {
        let data = &body.basic_blocks[block];
        let ghost n = body.local_decls@.len();
        assert(data.wf(*program, n, body.basic_blocks@.len()));
        if let Terminator::Call(call) = &data.terminator {
            proof {
                mir_util::lemma_operand_wf(*program, call.func, n);
            }
            let writes = match mir_util::callee_def_id(program, &call.func) {
                Some(d) => cosmwasm::is_storage_write_fn(program, d),
                None => false,
            };
            if writes && call.args.len() > 0 {
                assert(call.args@[0].wf(*program, n));
                if let Some(receiver) = mir_util::operand_local(&call.args[0]) {
                    let (symbolic_name, _) = resolve_storage_item(
                        program,
                        body,
                        receiver,
                        const_defs,
                        const_types,
                    );
                    if list_holds(auth_item_names, symbolic_name.as_str()) {
                        let sink = SensitiveSink {
                            location: Location { block, statement_index: data.statements.len() },
                            symbolic_name,
                        };
                        assert(Some(sink@) == sink_at(*program, *body, names, block as int));
                        let ghost before = sinks@;
                        sinks.push(sink);
                        assert(sink_views(sinks@) =~= sink_views(before).push(sink@));
                    }
                }
            }
        }
    }
    sinks
}

// ---- taint ---------------------------------------------------------------

/// The attacker-controlled value that the write at the end of a block persists,
/// given the seed of each tainted local. The written value is always the last
/// argument of the write call.
pub open spec fn taint_at(
    program: Program,
    body: Body,
    sources: Map<usize, Local>,
    block: int,
) -> Option<TaintSourceView> {
    match body.basic_blocks@[block].terminator {
        Terminator::Call(call) => match taint::data_of(call) {
            Some(value) => if sources.contains_key(value) {
                Some(
                    TaintSourceView {
                        param_local: sources[value],
                        param_ty: taint::origin_ty_text(program, body, sources[value]),
                    },
                )
            } else {
                None
            },
            None => None,
        },
        _ => None,
    }
}

/// The seed of each tainted local of a function.
pub open spec fn taint_sources(
    program: Program,
    body: Body,
    sites: Seq<CallSiteView>,
    flows: Map<usize, Set<usize>>,
) -> Map<usize, Local> {
    taint::settled(
        TaintContext { program, body, callee_at: call_graph::callee_map(sites), flows },
        taint::address_seeds(program, body),
    ).origin
}

/// The seeds of a function are locals of it.
proof fn lemma_address_seeds_exist(program: Program, body: Body)
    requires
        body.wf(program),
    ensures
        forall|l: usize| #[trigger]
            taint::address_seeds(program, body).contains(l) ==> l < body.local_decls@.len(),
{
    assert forall|l: usize| #[trigger]
        taint::address_seeds(program, body).contains(l) implies l < body.local_decls@.len() by {
        if !(1 <= l <= body.arg_count) {
            let (block, k) = choose|block: int, k: int|
                0 <= block < body.basic_blocks@.len() && 0 <= k
                    < body.basic_blocks@[block].statements@.len() && taint::reads_address(
                    program,
                    body,
                    #[trigger] body.basic_blocks@[block].statements@[k],
                ) == Some(l);
            assert(body.basic_blocks@[block].wf(
                program,
                body.local_decls@.len(),
                body.basic_blocks@.len(),
            ));
            assert(body.basic_blocks@[block].statements@[k].wf(program, body.local_decls@.len()));
        }
    }
}

/// Propagates the taint of a function's address seeds.
pub(crate) fn function_taint(
    program: &Program,
    body: &Body,
    call_sites: &Vec<CallSite>,
    const_defs: &ConstDefIndex,
    const_types: &ConstTypeIndex,
    return_taint_params: &DenseMap<DenseSet>,
) -> (result: TaintResult)
    requires
        program.wf(),
        body.wf(*program),
        const_defs.indexes(*program, *body),
        const_types.indexes(*program),
    ensures
        result.sources() == taint_sources(
            *program,
            *body,
            call_graph::site_views(call_sites@),
            taint::sets_of(return_taint_params@),
        ),
        forall|l: usize| #[trigger]
            result.sources().contains_key(l) ==> result.sources()[l] < body.local_decls@.len(),
{
    let seed = taint::address_seed(program, body);
    let facts = TaintFacts::build(program, body, const_defs, const_types);
    let callee_at = callee_locations(call_sites);
    proof {
        lemma_address_seeds_exist(*program, *body);
        taint::lemma_settled_taint(
            TaintContext {
                program: *program,
                body: *body,
                callee_at: callee_at@,
                flows: taint::sets_of(return_taint_params@),
            },
            seed@,
        );
    }
    taint::propagate_taint_forward(program, body, &seed, &facts, &callee_at, return_taint_params)
}

/// Determines, per sink, whether the value it writes is attacker-controlled.
#[verifier::loop_isolation(false)]
fn find_taint_sources(
    program: &Program,
    body: &Body,
    sinks: &Vec<SensitiveSink>,
    result: &TaintResult,
) -> (sources: Vec<Option<TaintSource>>)
    requires
        program.wf(),
        body.wf(*program),
        forall|i: int|
            0 <= i < sinks@.len() ==> (#[trigger] sinks@[i]).location.block
                < body.basic_blocks@.len(),
        forall|l: usize| #[trigger]
            result.sources().contains_key(l) ==> result.sources()[l] < body.local_decls@.len(),
    ensures
        sources@.len() == sinks@.len(),
        forall|i: int|
            0 <= i < sinks@.len() ==> source_view(#[trigger] sources@[i]) == taint_at(
                *program,
                *body,
                result.sources(),
                sinks@[i].location.block as int,
            ),
{
    let mut sources: Vec<Option<TaintSource>> = Vec::new();
    for i in 0..sinks.len()
        invariant
            sources@.len() == i,
            forall|j: int|
                0 <= j < i ==> source_view(#[trigger] sources@[j]) == taint_at(
                    *program,
                    *body,
                    result.sources(),
                    sinks@[j].location.block as int,
                ),
    {
        let block: usize = sinks[i].location.block;
        assert(sinks@[i as int].location.block < body.basic_blocks@.len());
        let mut source: Option<TaintSource> = None;
        // The written value is always the last argument of the write call:
        //   Item::save(self, store, data)      -> data
        //   Map::save(self, store, key, data)  -> data
        if let Terminator::Call(call) = &body.basic_blocks[block].terminator {
            if call.args.len() > 0 {
                if let Some(value_local) = mir_util::operand_local(
                    &call.args[call.args.len() - 1],
                ) {
                    if result.is_tainted(value_local) {
                        let param_local: Local = result.origin_of(value_local);
                        source =
                        Some(
                            TaintSource {
                                param_local,
                                param_ty: taint::origin_type(program, body, param_local),
                            },
                        );
                    }
                }
            }
        }
        assert(source_view(source) == taint_at(
            *program,
            *body,
            result.sources(),
            block as int,
        ));
        sources.push(source);
    }
    sources
}

// ---- gating --------------------------------------------------------------

/// The call at the end of a block receives a closure of the given set.
pub open spec fn closure_gates(
    program: Program,
    body: Body,
    block: int,
    closures: Set<usize>,
) -> bool {
    body.basic_blocks@[block].terminator matches Terminator::Call(call) && exists|i: int|
        0 <= i < call.args@.len() && (
        program.types@[mir_util::ty_of(#[trigger] call.args@[i]) as int].kind matches TyKind::Closure(
            d,
        ) && closures.contains(d))
}

/// Returns whether the write call at `location` passes a closure argument that
/// is an always-checking sender guard.
#[verifier::loop_isolation(false)]
pub(crate) fn sink_gated_by_closure(
    program: &Program,
    body: &Body,
    location: Location,
    checking_closures: &DenseSet,
) -> (gated: bool)
    requires
        program.wf(),
        body.wf(*program),
        location.block < body.basic_blocks@.len(),
    ensures
        gated == closure_gates(
            *program,
            *body,
            location.block as int,
            checking_closures@,
        ),
{
    let ghost n = body.local_decls@.len();
    assert(body.basic_blocks@[location.block as int].wf(*program, n, body.basic_blocks@.len()));
    if let Terminator::Call(call) = &body.basic_blocks[location.block].terminator {
        for i in 0..call.args.len()
            invariant
                forall|j: int|
                    0 <= j < i ==> !(program.types@[mir_util::ty_of(
                        #[trigger] call.args@[j],
                    ) as int].kind matches TyKind::Closure(d) && checking_closures@.contains(d)),
        {
            assert(call.args@[i as int].wf(*program, n));
            if let TyKind::Closure(closure_def) = &program.types[mir_util::operand_ty(
                &call.args[i],
            )].kind {
                if checking_closures.contains(*closure_def) {
                    assert(program.types@[mir_util::ty_of(
                        call.args@[i as int],
                    ) as int].kind matches TyKind::Closure(d) && checking_closures@.contains(d));
                    return true;
                }
            }
        }
    }
    false
}

// ---- findings ------------------------------------------------------------

/// Everything the evaluation of a function rests on beyond its body.
pub ghost struct Evaluation {
    pub program: Program,
    /// The comparisons of every function.
    pub comparisons: Map<usize, Seq<ComparisonView>>,
    /// The functions that check on every path.
    pub always: Set<usize>,
    /// The parameters every function forwards to its return value.
    pub flows: Map<usize, Set<usize>>,
    /// The functions entered only after a check.
    pub entered: Set<usize>,
    /// The closures that check the sender on every path.
    pub closures: Set<usize>,
}

/// A check in the body itself precedes a program point on every path.
pub open spec fn gated_in_body(
    evaluation: Evaluation,
    body: Body,
    f: DefId,
    sites: Seq<CallSiteView>,
    location: Location,
) -> bool {
    gating::has_facts(evaluation.program, evaluation.comparisons, f) && auth_gate::state_before(
        body,
        checks_in(evaluation, body, f, sites),
        auth_gate::state_of(evaluation.entered.contains(f)),
        location,
    ) is Checked
}

/// A check precedes the call at the end of a block on every path, in the body
/// itself or in a closure that the call receives.
pub open spec fn gated_at(
    evaluation: Evaluation,
    body: Body,
    f: DefId,
    sites: Seq<CallSiteView>,
    location: Location,
) -> bool {
    gated_in_body(evaluation, body, f, sites, location) || closure_gates(
        evaluation.program,
        body,
        location.block as int,
        evaluation.closures,
    )
}

/// The verdict for a sink.
pub open spec fn finding_of(
    evaluation: Evaluation,
    body: Body,
    f: DefId,
    sites: Seq<CallSiteView>,
    sink: SinkView,
) -> FindingView {
    FindingView {
        sink,
        taint: taint_at(
            evaluation.program,
            body,
            taint_sources(evaluation.program, body, sites, evaluation.flows),
            sink.location.block as int,
        ),
        gated: gated_at(evaluation, body, f, sites, sink.location),
    }
}

/// The verdicts for all sinks of a function.
pub open spec fn findings_of(
    evaluation: Evaluation,
    body: Body,
    f: DefId,
    sites: Seq<CallSiteView>,
    names: Set<Seq<char>>,
) -> Seq<FindingView> {
    sinks_of(evaluation.program, body, names).map_values(
        |sink: SinkView| finding_of(evaluation, body, f, sites, sink),
    )
}

/// The checks of a function's body: its own, and its calls to functions that
/// check on every path.
pub open spec fn checks_in(
    evaluation: Evaluation,
    body: Body,
    f: DefId,
    sites: Seq<CallSiteView>,
) -> Checks {
    gating::checks_with(
        gating::own_guards(evaluation.program, body, evaluation.comparisons[f]),
        sites,
        evaluation.always,
    )
}

/// A sink that is reported as not gated, in a body with gating facts, is one that
/// some path from the start of the body leads to without crossing a check, be it
/// in a block it passes through or in the block of the sink, and its function may
/// be entered without one.
pub proof fn lemma_ungated_sink_has_open_path(
    evaluation: Evaluation,
    body: Body,
    f: DefId,
    sites: Seq<CallSiteView>,
    location: Location,
)
    requires
        !gated_at(evaluation, body, f, sites, location),
        gating::has_facts(evaluation.program, evaluation.comparisons, f),
    ensures
        !evaluation.entered.contains(f),
        graph::reaches(
            auth_gate::unchecked_edge(body, checks_in(evaluation, body, f, sites)),
            set![0usize],
            location.block,
        ),
        !auth_gate::checked_in_block(checks_in(evaluation, body, f, sites), location),
{
}

/// Where a body gates a sink by itself, every path from its start to the sink
/// crosses a check, in a block it passes through or in the block of the sink in
/// front of it, unless the function is entered only after one.
pub proof fn lemma_gated_sink_is_guarded(
    evaluation: Evaluation,
    body: Body,
    f: DefId,
    sites: Seq<CallSiteView>,
    path: Seq<usize>,
    location: Location,
)
    requires
        gated_in_body(evaluation, body, f, sites, location),
        !evaluation.entered.contains(f),
        graph::walk(mir_util::flow_edge(body), path),
        path[0] == 0,
        path.last() == location.block,
    ensures
        auth_gate::checked_in_block(checks_in(evaluation, body, f, sites), location) || exists|
            i: int,
        |
            0 <= i < path.len() - 1 && !auth_gate::clear_block(
                body,
                checks_in(evaluation, body, f, sites),
                #[trigger] path[i],
            ),
{
    auth_gate::lemma_checked_point_is_guarded(
        body,
        checks_in(evaluation, body, f, sites),
        path,
        location,
    );
}

/// Everything stage 6 needs beyond the body under evaluation.
pub struct EvaluationContext<'a> {
    pub const_types: &'a ConstTypeIndex,
    pub gating: &'a GatingIndex,
    pub always_checks: &'a DenseMap<bool>,
    pub return_taint_params: &'a DenseMap<DenseSet>,
    pub entry_checked: &'a DenseMap<bool>,
    /// Closures that check the sender on every path to an `Ok`-return.
    pub checking_closures: &'a DenseSet,
}

impl<'a> EvaluationContext<'a> {
    /// What the context holds.
    pub open spec fn evaluation(self, program: Program) -> Evaluation {
        Evaluation {
            program,
            comparisons: self.gating.comparisons(),
            always: gating::holding(self.always_checks@),
            flows: taint::sets_of(self.return_taint_params@),
            entered: gating::holding(self.entry_checked@),
            closures: self.checking_closures@,
        }
    }

    /// The indices belong to the program.
    pub open spec fn describes(self, program: Program) -> bool {
        self.const_types.indexes(program) && self.gating.describes(program)
    }
}

/// Evaluates all sinks of one function.
#[verifier::loop_isolation(false)]
pub fn evaluate_function(
    program: &Program,
    body: &Body,
    def_id: DefId,
    call_sites: &Vec<CallSite>,
    auth_item_names: &Vec<String>,
    ctx: &EvaluationContext<'_>,
) -> (findings: Vec<AccessControlFinding>)
    requires
        program.wf(),
        body.wf(*program),
        *body == cosmwasm::body_at(*program, def_id),
        ctx.describes(*program),
    ensures
        finding_views(findings@) == findings_of(
            ctx.evaluation(*program),
            *body,
            def_id,
            call_graph::site_views(call_sites@),
            name_set(auth_item_names@),
        ),
{
    let ghost evaluation = ctx.evaluation(*program);
    let ghost sites = call_graph::site_views(call_sites@);
    let ghost names = name_set(auth_item_names@);
    let mut findings: Vec<AccessControlFinding> = Vec::new();
    let const_defs = ConstDefIndex::build(program, body);
    let mut sinks = find_sensitive_sinks(
        program,
        body,
        auth_item_names,
        &const_defs,
        ctx.const_types,
    );
    let ghost all_sinks = sinks@;
    let ghost goal = findings_of(evaluation, *body, def_id, sites, names);
    if sinks.len() == 0 {
        assert(finding_views(findings@) =~= goal);
        return findings;
    }
    let result = function_taint(
        program,
        body,
        call_sites,
        &const_defs,
        ctx.const_types,
        ctx.return_taint_params,
    );
    let mut sources = find_taint_sources(program, body, &sinks, &result);
    let ghost all_sources = sources@;

    let entry = AuthState::of(
        match ctx.entry_checked.get(def_id) {
            Some(checked) => *checked,
            None => false,
        },
    );
    let gating = ctx.gating.solve_for(
        program,
        body,
        def_id,
        call_sites,
        ctx.always_checks,
        entry,
    );

    // The sinks and their sources are taken from the back, so the findings come
    // out in reverse and are turned round at the end.
    let mut reversed: Vec<AccessControlFinding> = Vec::new();
    let ghost count = all_sinks.len();
    while sinks.len() > 0
        invariant
            sinks@.len() + reversed@.len() == count,
            sources@.len() == sinks@.len(),
            sinks@ == all_sinks.take(sinks@.len() as int),
            sources@ == all_sources.take(sinks@.len() as int),
            forall|j: int|
                0 <= j < reversed@.len() ==> (#[trigger] reversed@[j])@ == goal[count - 1 - j],
        decreases sinks@.len(),
    {
        let ghost i = sinks@.len() - 1;
        let ghost done = reversed@;
        let sink = sinks.pop().unwrap();
        let taint = sources.pop().unwrap();
        assert(sink == all_sinks[i]);
        assert(taint == all_sources[i]);
        assert(sink_views(all_sinks)[i] == sink@);
        let location = sink.location;
        // Gated either by a check in this body, or, for the
        // `Item::update(store, |s| { if sender != s.owner {..}; Ok(s) })` idiom,
        // by an always-checking guard inside the closure the write call itself
        // receives.
        let gated_here = match &gating {
            Some(g) => g.before(location).is_checked(),
            None => false,
        };
        let gated = gated_here || sink_gated_by_closure(
            program,
            body,
            location,
            ctx.checking_closures,
        );
        assert(gated == gated_at(evaluation, *body, def_id, sites, location));
        let finding = AccessControlFinding { sink, taint, gated };
        assert(source_view(all_sources[i]) == taint_at(
            *program,
            *body,
            result.sources(),
            location.block as int,
        ));
        assert(finding@ == finding_of(evaluation, *body, def_id, sites, sink@));
        assert(finding@ == goal[i]);
        reversed.push(finding);
        assert(sinks@ =~= all_sinks.take(i));
        assert(sources@ =~= all_sources.take(i));
        assert forall|j: int| 0 <= j < reversed@.len() implies (#[trigger] reversed@[j])@
            == goal[count - 1 - j] by {
            if j < done.len() {
                assert(reversed@[j] == done[j]);
            }
        }
    }
    let ghost turned = reversed@;
    while reversed.len() > 0
        invariant
            reversed@.len() + findings@.len() == count,
            reversed@ == turned.take(reversed@.len() as int),
            forall|j: int|
                0 <= j < findings@.len() ==> (#[trigger] findings@[j])@ == goal[j],
        decreases reversed@.len(),
    {
        let ghost i = reversed@.len() - 1;
        let ghost done = findings@;
        let finding = reversed.pop().unwrap();
        assert(finding == turned[i]);
        findings.push(finding);
        assert(reversed@ =~= turned.take(i));
        assert forall|j: int| 0 <= j < findings@.len() implies (#[trigger] findings@[j])@
            == goal[j] by {
            if j < done.len() {
                assert(findings@[j] == done[j]);
            }
        }
    }
    assert(finding_views(findings@) =~= goal);
    findings
}

} // verus!
