//! Stage 2: entry point and call graph.
//!
//! Starting from the `execute` entry point, the reachable part of the crate is
//! explored body by body. Every call terminator becomes a [`CallSite`] that
//! records not only the callee but also the actual-to-formal argument mapping
//! the interprocedural stages need: the actual argument at position `i`
//! corresponds to the callee's formal parameter `_{i+1}`.
//!
//! The call sites are stored grouped by the function that contains them, which
//! is the form all later stages read them in.

use crate::cosmwasm;
use crate::dense::{DenseSet, PairMap};
use crate::graph;
use crate::mir::{BasicBlock, Body, DefId, Local, Location, Program, Terminator, TyKind};
use crate::mir_util;
use vstd::prelude::*;

verus! {

/// A resolved call at a concrete program point.
#[derive(Debug, Clone)]
pub struct CallSite {
    /// Location of the call terminator in the caller.
    pub location: Location,
    /// Function containing this call.
    pub caller: DefId,
    /// Resolved callee.
    pub callee: DefId,
    /// Actual arguments as caller locals; `None` for constant operands.
    pub arg_locals: Vec<Option<Local>>,
}

/// What a [`CallSite`] holds.
#[verifier::ext_equal]
pub ghost struct CallSiteView {
    pub location: Location,
    pub caller: DefId,
    pub callee: DefId,
    pub arg_locals: Seq<Option<Local>>,
}

impl View for CallSite {
    type V = CallSiteView;

    open spec fn view(&self) -> CallSiteView {
        CallSiteView {
            location: self.location,
            caller: self.caller,
            callee: self.callee,
            arg_locals: self.arg_locals@,
        }
    }
}

/// What a list of call sites holds.
pub open spec fn site_views(sites: Seq<CallSite>) -> Seq<CallSiteView> {
    sites.map_values(|site: CallSite| site@)
}

// ---- the calls of one body -----------------------------------------------

/// The location of a block's terminator.
pub open spec fn terminator_location(body: Body, block: int) -> Location {
    Location {
        block: block as usize,
        statement_index: body.basic_blocks@[block].statements@.len() as usize,
    }
}

/// The call a block ends in, where its target is a function definition. Trait
/// methods are resolved to the implementation where possible; the declaration is
/// the fallback.
pub open spec fn site_at(program: Program, body: Body, block: int) -> Option<CallSiteView> {
    match body.basic_blocks@[block].terminator {
        Terminator::Call(call) => match program.types@[mir_util::ty_of(call.func) as int].kind {
            TyKind::FnDef(def_id) => Some(
                CallSiteView {
                    location: terminator_location(body, block),
                    caller: body.def_id,
                    callee: match call.resolved {
                        Some(resolved) => resolved,
                        None => def_id,
                    },
                    arg_locals: mir_util::operand_locals_of(call.args@),
                },
            ),
            _ => None,
        },
        _ => None,
    }
}

/// The calls the blocks below `block` end in.
pub open spec fn sites_before(program: Program, body: Body, block: nat) -> Seq<CallSiteView>
    decreases block,
{
    if block == 0 {
        Seq::empty()
    } else {
        let before = sites_before(program, body, (block - 1) as nat);
        match site_at(program, body, block - 1) {
            Some(site) => before.push(site),
            None => before,
        }
    }
}

/// The resolved calls of a body, in block order.
pub open spec fn sites_of(program: Program, body: Body) -> Seq<CallSiteView> {
    sites_before(program, body, body.basic_blocks@.len())
}

/// A block ends in a call through a function pointer.
pub open spec fn pointer_call_at(program: Program, body: Body, block: int) -> bool {
    body.basic_blocks@[block].terminator matches Terminator::Call(call)
        && program.types@[mir_util::ty_of(call.func) as int].kind is FnPtr
}

/// The blocks below `block` that end in a call through a function pointer.
pub open spec fn pointer_calls_before(program: Program, body: Body, block: nat) -> Seq<BasicBlock>
    decreases block,
{
    if block == 0 {
        Seq::empty()
    } else {
        let before = pointer_calls_before(program, body, (block - 1) as nat);
        if pointer_call_at(program, body, block - 1) {
            before.push((block - 1) as usize)
        } else {
            before
        }
    }
}

/// A site of a body is the call one of its blocks ends in.
pub proof fn lemma_site_of_block(program: Program, body: Body, block: nat, i: int)
    requires
        0 <= i < sites_before(program, body, block).len(),
    ensures
        exists|b: int|
            0 <= b < block && #[trigger] site_at(program, body, b) == Some(
                sites_before(program, body, block)[i],
            ),
    decreases block,
{
    if block > 0 {
        let before = sites_before(program, body, (block - 1) as nat);
        if i < before.len() {
            lemma_site_of_block(program, body, (block - 1) as nat, i);
        } else {
            assert(site_at(program, body, block - 1) == Some(
                sites_before(program, body, block)[i],
            ));
        }
    }
}

/// The call a block ends in is a site of the body.
pub proof fn lemma_block_has_site(program: Program, body: Body, block: nat, b: int)
    requires
        0 <= b < block,
        site_at(program, body, b) is Some,
    ensures
        sites_before(program, body, block).contains(site_at(program, body, b)->0),
    decreases block,
{
    let all = sites_before(program, body, block);
    let before = sites_before(program, body, (block - 1) as nat);
    let site = site_at(program, body, b)->0;
    if b < block - 1 {
        lemma_block_has_site(program, body, (block - 1) as nat, b);
        let k = choose|k: int| 0 <= k < before.len() && before[k] == site;
        assert(all[k] == site);
    } else {
        assert(all[before.len() as int] == site);
    }
}

/// The callee of a site of a valid body exists, and so does its block.
pub proof fn lemma_site_wf(program: Program, body: Body, i: int)
    requires
        program.wf(),
        body.wf(program),
        0 <= i < sites_of(program, body).len(),
    ensures
        sites_of(program, body)[i].callee < program.defs@.len(),
        sites_of(program, body)[i].location.block < body.basic_blocks@.len(),
        forall|k: int|
            0 <= k < sites_of(program, body)[i].arg_locals.len() ==> (
            #[trigger] sites_of(program, body)[i].arg_locals[k] matches Some(l) ==> l
                < body.local_decls@.len()),
{
    lemma_site_of_block(program, body, body.basic_blocks@.len(), i);
    let b = choose|b: int|
        0 <= b < body.basic_blocks@.len() && #[trigger] site_at(program, body, b) == Some(
            sites_of(program, body)[i],
        );
    assert(body.basic_blocks.len() == body.basic_blocks@.len());
    assert(body.basic_blocks@[b].wf(program, body.local_decls@.len(), body.basic_blocks@.len()));
    if let Terminator::Call(call) = body.basic_blocks@[b].terminator {
        mir_util::lemma_operand_wf(program, call.func, body.local_decls@.len());
        assert forall|k: int|
            0 <= k < sites_of(program, body)[i].arg_locals.len() implies (
        #[trigger] sites_of(program, body)[i].arg_locals[k] matches Some(l) ==> l
            < body.local_decls@.len()) by {
            assert(call.args@[k].wf(program, body.local_decls@.len()));
        }
    }
}

/// Collects the resolved calls of a single body, and the blocks that call
/// through a function pointer: those have no statically known target and are
/// left out of the graph.
#[verifier::loop_isolation(false)]
fn collect_call_sites(program: &Program, body: &Body) -> (found: (Vec<CallSite>, Vec<BasicBlock>))
    requires
        program.wf(),
        body.wf(*program),
    ensures
        site_views(found.0@) == sites_of(*program, *body),
        found.1@ == pointer_calls_before(*program, *body, body.basic_blocks@.len()),
{
    let mut call_sites: Vec<CallSite> = Vec::new();
    let mut pointers: Vec<BasicBlock> = Vec::new();
    let caller: DefId = body.def_id;
    assert(site_views(call_sites@) =~= Seq::<CallSiteView>::empty());
    for block in 0..body.basic_blocks.len()
        invariant
            site_views(call_sites@) == sites_before(*program, *body, block as nat),
            pointers@ == pointer_calls_before(*program, *body, block as nat),
    {
        let data = &body.basic_blocks[block];
        assert(data.wf(*program, body.local_decls@.len(), body.basic_blocks@.len()));
        let ghost before = call_sites@;
        if let Terminator::Call(call) = &data.terminator {
            proof {
                mir_util::lemma_operand_wf(*program, call.func, body.local_decls@.len());
            }
            match &program.types[mir_util::operand_ty(&call.func)].kind {
                TyKind::FnDef(def_id) => {
                    let callee: DefId = match call.resolved {
                        Some(resolved) => resolved,
                        None => *def_id,
                    };
                    let site = CallSite {
                        location: Location { block, statement_index: data.statements.len() },
                        caller,
                        callee,
                        arg_locals: mir_util::operand_locals(&call.args),
                    };
                    assert(Some(site@) == site_at(*program, *body, block as int));
                    call_sites.push(site);
                    assert(site_views(call_sites@) =~= site_views(before).push(site@));
                },
                TyKind::FnPtr => {
                    pointers.push(block);
                },
                _ => {},
            }
        }
    }
    (call_sites, pointers)
}

/// The callee each call-terminator location resolves to. Where several sites
/// share a location the last one counts.
pub open spec fn callee_map(sites: Seq<CallSiteView>) -> Map<(usize, usize), DefId>
    decreases sites.len(),
{
    if sites.len() == 0 {
        Map::empty()
    } else {
        callee_map(sites.drop_last()).insert(sites.last().location.pair(), sites.last().callee)
    }
}

/// Maps each call-terminator location to its resolved callee.
pub fn callee_locations(call_sites: &Vec<CallSite>) -> (callees: PairMap<DefId>)
    ensures
        callees@ == callee_map(site_views(call_sites@)),
{
    let mut callees: PairMap<DefId> = PairMap::new();
    let ghost views = site_views(call_sites@);
    assert(views.take(0) =~= Seq::<CallSiteView>::empty());
    for i in 0..call_sites.len()
        invariant
            views == site_views(call_sites@),
            callees@ == callee_map(views.take(i as int)),
    {
        assert(views.take(i + 1).drop_last() =~= views.take(i as int));
        let location = call_sites[i].location;
        callees.insert(location.block, location.statement_index, call_sites[i].callee);
    }
    assert(views.take(views.len() as int) =~= views);
    callees
}

// ---- the graph -----------------------------------------------------------

/// The calls made inside a definition; none where no body is at hand.
pub open spec fn node_sites(program: Program, def_id: DefId) -> Seq<CallSiteView> {
    if def_id < program.defs@.len() && cosmwasm::analysable(program, def_id) {
        sites_of(program, cosmwasm::body_at(program, def_id))
    } else {
        Seq::empty()
    }
}

/// The definitions in a list.
pub open spec fn node_set(nodes: Seq<DefId>) -> Set<usize> {
    Set::new(|d: usize| nodes.contains(d))
}

/// `nodes` with the callees of `sites` appended that it lacks.
pub open spec fn with_callees(
    program: Program,
    nodes: Seq<DefId>,
    sites: Seq<CallSiteView>,
) -> Seq<DefId>
    decreases sites.len(),
{
    if sites.len() == 0 {
        nodes
    } else {
        let before = with_callees(program, nodes, sites.drop_last());
        let callee = sites.last().callee;
        if callee < program.defs@.len() && !before.contains(callee) {
            before.push(callee)
        } else {
            before
        }
    }
}

/// Breadth-first exploration: the callees of `nodes[next]` are appended, those
/// of the node behind it, and so on to the end of the list.
pub open spec fn discovered(program: Program, nodes: Seq<DefId>, next: nat) -> Seq<DefId>
    decreases graph::missing(node_set(nodes), program.defs@.len()), nodes.len() - next,
    via discovered_decreases
{
    if next >= nodes.len() {
        nodes
    } else {
        discovered(
            program,
            with_callees(program, nodes, node_sites(program, nodes[next as int])),
            next + 1,
        )
    }
}

proof fn lemma_with_callees(program: Program, nodes: Seq<DefId>, sites: Seq<CallSiteView>)
    ensures
        nodes.len() <= with_callees(program, nodes, sites).len(),
        forall|i: int|
            0 <= i < nodes.len() ==> #[trigger] with_callees(program, nodes, sites)[i] == nodes[i],
        forall|i: int|
            nodes.len() <= i < with_callees(program, nodes, sites).len() ==> {
                let d = #[trigger] with_callees(program, nodes, sites)[i];
                &&& d < program.defs@.len()
                &&& !nodes.contains(d)
                &&& exists|k: int| 0 <= k < sites.len() && (#[trigger] sites[k]).callee == d
            },
        forall|k: int|
            0 <= k < sites.len() && (#[trigger] sites[k]).callee < program.defs@.len()
                ==> with_callees(program, nodes, sites).contains(sites[k].callee),
    decreases sites.len(),
{
    if sites.len() > 0 {
        let rest = sites.drop_last();
        let before = with_callees(program, nodes, rest);
        let after = with_callees(program, nodes, sites);
        lemma_with_callees(program, nodes, rest);
        assert forall|i: int| nodes.len() <= i < after.len() implies {
            let d = #[trigger] after[i];
            &&& d < program.defs@.len()
            &&& !nodes.contains(d)
            &&& exists|k: int| 0 <= k < sites.len() && (#[trigger] sites[k]).callee == d
        } by {
            let d = after[i];
            if i < before.len() {
                assert(before[i] == d);
                let k = choose|k: int| 0 <= k < rest.len() && (#[trigger] rest[k]).callee == d;
                assert(sites[k].callee == d);
            } else {
                assert(sites[sites.len() - 1].callee == d);
                if nodes.contains(d) {
                    let k = choose|k: int| 0 <= k < nodes.len() && nodes[k] == d;
                    assert(before[k] == d);
                }
            }
        }
        assert forall|k: int|
            0 <= k < sites.len() && (#[trigger] sites[k]).callee < program.defs@.len() implies after.contains(
            sites[k].callee,
        ) by {
            let d = sites[k].callee;
            if k < rest.len() {
                assert(rest[k] == sites[k]);
                assert(before.contains(d));
            }
            if before.contains(d) {
                let j = choose|j: int| 0 <= j < before.len() && before[j] == d;
                assert(after[j] == d);
            } else {
                assert(after[before.len() as int] == d);
            }
        }
    }
}

#[via_fn]
proof fn discovered_decreases(program: Program, nodes: Seq<DefId>, next: nat) {
    if next < nodes.len() {
        lemma_discovered_measure(program, nodes, next);
    }
}

proof fn lemma_discovered_measure(program: Program, nodes: Seq<DefId>, next: nat)
    requires
        next < nodes.len(),
    ensures
        ({
            let wider = with_callees(program, nodes, node_sites(program, nodes[next as int]));
            let n = program.defs@.len();
            ||| graph::missing(node_set(wider), n) < graph::missing(node_set(nodes), n)
            ||| graph::missing(node_set(wider), n) == graph::missing(node_set(nodes), n)
                && wider.len() == nodes.len()
        }),
{
    let sites = node_sites(program, nodes[next as int]);
    let wider = with_callees(program, nodes, sites);
    let n = program.defs@.len();
    lemma_with_callees(program, nodes, sites);
    assert(program.defs.len() == program.defs@.len());
    if wider.len() == nodes.len() {
        assert(wider =~= nodes);
    } else {
        let d = wider[nodes.len() as int];
        assert forall|e: usize| node_set(nodes).contains(e) implies node_set(wider).contains(e) by {
            let k = choose|k: int| 0 <= k < nodes.len() && nodes[k] == e;
            assert(wider[k] == e);
        }
        graph::lemma_missing_grows(node_set(nodes), node_set(wider), n, d);
    }
}

/// A definition calls another.
pub open spec fn call_edge(program: Program) -> spec_fn(usize, usize) -> bool {
    |a: usize, b: usize|
        exists|i: int|
            0 <= i < node_sites(program, a).len() && (#[trigger] node_sites(program, a)[i]).callee
                == b && b < program.defs@.len()
}

/// Every callee of a node is a node.
pub open spec fn callees_closed(program: Program, nodes: Seq<DefId>) -> bool {
    forall|a: usize, b: usize|
        nodes.contains(a) && #[trigger] call_edge(program)(a, b) ==> nodes.contains(b)
}

proof fn lemma_discovered(program: Program, root: DefId, nodes: Seq<DefId>, next: nat)
    requires
        next <= nodes.len(),
        nodes.len() > 0,
        nodes[0] == root,
        forall|i: int|
            0 <= i < nodes.len() ==> graph::reaches(
                call_edge(program),
                set![root],
                #[trigger] nodes[i],
            ),
        forall|i: int, b: usize|
            0 <= i < next && #[trigger] call_edge(program)(nodes[i], b) ==> nodes.contains(b),
        nodes.no_duplicates(),
    ensures
        discovered(program, nodes, next).no_duplicates(),
        discovered(program, nodes, next).len() > 0,
        discovered(program, nodes, next)[0] == root,
        forall|i: int|
            0 <= i < discovered(program, nodes, next).len() ==> graph::reaches(
                call_edge(program),
                set![root],
                #[trigger] discovered(program, nodes, next)[i],
            ),
        callees_closed(program, discovered(program, nodes, next)),
    decreases graph::missing(node_set(nodes), program.defs@.len()), nodes.len() - next,
{
    let edge = call_edge(program);
    if next >= nodes.len() {
        assert forall|a: usize, b: usize|
            nodes.contains(a) && #[trigger] edge(a, b) implies nodes.contains(b) by {
            let i = choose|i: int| 0 <= i < nodes.len() && nodes[i] == a;
            assert(edge(nodes[i], b));
        }
    } else {
        let f = nodes[next as int];
        let sites = node_sites(program, f);
        let wider = with_callees(program, nodes, sites);
        lemma_with_callees(program, nodes, sites);
        lemma_with_callees_distinct(program, nodes, sites);
        lemma_discovered_measure(program, nodes, next);
        assert forall|i: int| 0 <= i < wider.len() implies graph::reaches(
            edge,
            set![root],
            #[trigger] wider[i],
        ) by {
            if i < nodes.len() {
                assert(wider[i] == nodes[i]);
            } else {
                let d = wider[i];
                let k = choose|k: int| 0 <= k < sites.len() && (#[trigger] sites[k]).callee == d;
                assert(node_sites(program, f)[k].callee == d);
                assert(edge(f, d));
                assert(graph::reaches(edge, set![root], nodes[next as int]));
                graph::lemma_reaches_step(edge, set![root], f, d);
            }
        }
        assert forall|i: int, b: usize|
            0 <= i < next + 1 && #[trigger] edge(wider[i], b) implies wider.contains(b) by {
            assert(wider[i] == nodes[i]);
            if i < next {
                assert(edge(nodes[i], b));
                assert(nodes.contains(b));
                let k = choose|k: int| 0 <= k < nodes.len() && nodes[k] == b;
                assert(wider[k] == b);
            } else {
                let k = choose|k: int|
                    0 <= k < node_sites(program, f).len() && (
                    #[trigger] node_sites(program, f)[k]).callee == b;
                assert(sites[k].callee == b);
            }
        }
        lemma_discovered(program, root, wider, next + 1);
    }
}

proof fn lemma_with_callees_distinct(program: Program, nodes: Seq<DefId>, sites: Seq<CallSiteView>)
    requires
        nodes.no_duplicates(),
    ensures
        with_callees(program, nodes, sites).no_duplicates(),
    decreases sites.len(),
{
    if sites.len() > 0 {
        lemma_with_callees_distinct(program, nodes, sites.drop_last());
    }
}

/// The functions reachable from `root`, in discovery order.
pub open spec fn reachable_from(program: Program, root: DefId) -> Seq<DefId> {
    discovered(program, seq![root], 0)
}

/// The graph has exactly the functions that a chain of calls leads to from the
/// root, each once, the root first.
pub proof fn lemma_reachable_from(program: Program, root: DefId)
    ensures
        reachable_from(program, root).no_duplicates(),
        reachable_from(program, root).len() > 0,
        reachable_from(program, root)[0] == root,
        callees_closed(program, reachable_from(program, root)),
        forall|f: DefId| #[trigger]
            reachable_from(program, root).contains(f) <==> graph::reaches(
                call_edge(program),
                set![root],
                f,
            ),
{
    let edge = call_edge(program);
    graph::lemma_reaches_start(edge, set![root], root);
    lemma_discovered(program, root, seq![root], 0);
    let nodes = reachable_from(program, root);
    assert forall|f: DefId| #[trigger] nodes.contains(f) <==> graph::reaches(
        edge,
        set![root],
        f,
    ) by {
        if nodes.contains(f) {
            let i = choose|i: int| 0 <= i < nodes.len() && nodes[i] == f;
            assert(graph::reaches(edge, set![root], nodes[i]));
        }
        if graph::reaches(edge, set![root], f) {
            assert(nodes.contains(nodes[0]));
            assert forall|a: usize, b: usize|
                node_set(nodes).contains(a) && #[trigger] edge(a, b) implies node_set(
                nodes,
            ).contains(b) by {}
            graph::lemma_reaches_closed(edge, set![root], node_set(nodes), f);
        }
    }
}

/// The function-pointer calls of the first `count` nodes.
pub open spec fn skipped_calls(program: Program, nodes: Seq<DefId>, count: nat) -> Seq<
    (BasicBlock, DefId),
>
    decreases count,
{
    if count == 0 {
        Seq::empty()
    } else {
        let def_id = nodes[count - 1];
        let before = skipped_calls(program, nodes, (count - 1) as nat);
        if def_id < program.defs@.len() && cosmwasm::analysable(program, def_id) {
            let body = cosmwasm::body_at(program, def_id);
            before + pointer_calls_before(program, body, body.basic_blocks@.len()).map_values(
                |block: BasicBlock| (block, def_id),
            )
        } else {
            before
        }
    }
}

proof fn lemma_skipped_calls_prefix(
    program: Program,
    nodes: Seq<DefId>,
    wider: Seq<DefId>,
    count: nat,
)
    requires
        count <= nodes.len() <= wider.len(),
        forall|i: int| 0 <= i < nodes.len() ==> #[trigger] wider[i] == nodes[i],
    ensures
        skipped_calls(program, nodes, count) == skipped_calls(program, wider, count),
    decreases count,
{
    if count > 0 {
        lemma_skipped_calls_prefix(program, nodes, wider, (count - 1) as nat);
        assert(wider[count - 1] == nodes[count - 1]);
    }
}

/// The call graph reachable from the entry point.
#[derive(Debug)]
pub struct CallGraph {
    /// Entry point the graph was built from.
    root: DefId,
    /// Reachable functions in discovery order, so that later stages iterate
    /// deterministically.
    nodes: Vec<DefId>,
    /// Call sites grouped by the function that contains them.
    sites_by_caller: Vec<Vec<CallSite>>,
    /// What a definition without a body calls.
    no_sites: Vec<CallSite>,
    /// The calls through a function pointer that were left out.
    skipped: Vec<(BasicBlock, DefId)>,
}

impl CallGraph {
    /// The entry point.
    pub closed spec fn root_node(self) -> DefId {
        self.root
    }

    /// The reachable functions, in discovery order.
    pub closed spec fn node_list(self) -> Seq<DefId> {
        self.nodes@
    }

    /// The calls made inside a function.
    pub closed spec fn sites(self, caller: DefId) -> Seq<CallSiteView> {
        if caller < self.sites_by_caller@.len() {
            site_views(self.sites_by_caller@[caller as int]@)
        } else {
            site_views(self.no_sites@)
        }
    }

    /// The calls through a function pointer that were left out.
    pub closed spec fn skips(self) -> Seq<(BasicBlock, DefId)> {
        self.skipped@
    }

    /// The graph is that of the program.
    pub open spec fn describes(self, program: Program) -> bool {
        &&& self.root_node() < program.defs@.len()
        &&& self.node_list() == reachable_from(program, self.root_node())
        &&& forall|i: int|
            0 <= i < self.node_list().len() ==> #[trigger] self.node_list()[i]
                < program.defs@.len()
        &&& forall|f: DefId| #[trigger]
            self.sites(f) == (if self.node_list().contains(f) {
                node_sites(program, f)
            } else {
                Seq::empty()
            })
        &&& self.skips() == skipped_calls(program, self.node_list(), self.node_list().len())
    }

    /// Breadth-first exploration from `root`. Only bodies the compiler can
    /// hand us are descended into; a callee from a dependency crate still
    /// becomes a node, so gating summaries can refer to it, but it has no
    /// outgoing edges.
    #[verifier::loop_isolation(false)]
    pub fn build_from_root(program: &Program, root: DefId) -> (call_graph: Self)
        requires
            program.wf(),
            root < program.defs@.len(),
        ensures
            call_graph.describes(*program),
            call_graph.root_node() == root,
    {
        let count: usize = program.defs.len();
        let mut sites_by_caller: Vec<Vec<CallSite>> = Vec::new();
        for f in 0..count
            invariant
                sites_by_caller@.len() == f,
                forall|g: int| 0 <= g < f ==> (#[trigger] sites_by_caller@[g])@.len() == 0,
        {
            sites_by_caller.push(Vec::new());
        }
        // The root is a node even if none of its calls resolve; otherwise a
        // crate whose `execute` has no resolvable callee would be skipped by
        // every later stage.
        let mut nodes: Vec<DefId> = vec![root];
        let mut known = DenseSet::new();
        known.insert(root);
        let mut skipped: Vec<(BasicBlock, DefId)> = Vec::new();
        let mut next: usize = 0;
        proof {
            assert(nodes@ =~= seq![root]);
            assert(nodes@[0] == root);
            assert(known@ =~= node_set(nodes@));
        }
        while next < nodes.len()
            invariant
                next <= nodes@.len(),
                discovered(*program, nodes@, next as nat) == reachable_from(*program, root),
                known@ == node_set(nodes@),
                forall|i: int| 0 <= i < nodes@.len() ==> #[trigger] nodes@[i] < count,
                sites_by_caller@.len() == count,
                forall|f: usize|
                    f < count ==> site_views((#[trigger] sites_by_caller@[f as int])@) == (
                    if nodes@.take(next as int).contains(f) {
                        node_sites(*program, f)
                    } else {
                        Seq::empty()
                    }),
                skipped@ == skipped_calls(*program, nodes@, next as nat),
            decreases graph::missing(known@, program.defs@.len()), nodes@.len() - next,
        {
            let caller: DefId = nodes[next];
            let ghost nodes0 = nodes@;
            let ghost known0 = known@;
            let ghost sites0 = sites_by_caller@;
            let ghost skipped0 = skipped@;
            let ghost found = node_sites(*program, caller);
            proof {
                lemma_discovered_measure(*program, nodes0, next as nat);
                lemma_with_callees(*program, nodes0, found);
            }
            if let Some(body) = cosmwasm::body_of(program, caller) {
                let (call_sites, pointers) = collect_call_sites(program, body);
                assert(found == sites_of(*program, *body));
                assert(found.take(0) =~= Seq::<CallSiteView>::empty());
                for i in 0..call_sites.len()
                    invariant
                        nodes@ == with_callees(*program, nodes0, found.take(i as int)),
                        known@ == node_set(nodes@),
                        forall|k: int| 0 <= k < nodes@.len() ==> #[trigger] nodes@[k] < count,
                {
                    let callee: DefId = call_sites[i].callee;
                    let ghost nodes1 = nodes@;
                    let ghost known1 = known@;
                    proof {
                        assert(found.take(i + 1).drop_last() =~= found.take(i as int));
                        assert(found[i as int] == call_sites@[i as int]@);
                        lemma_site_wf(*program, *body, i as int);
                    }
                    if known.insert(callee) {
                        nodes.push(callee);
                        proof {
                            assert forall|e: usize| #[trigger] known@.contains(e) == node_set(
                                nodes@,
                            ).contains(e) by {
                                if nodes1.contains(e) {
                                    let k = choose|k: int| 0 <= k < nodes1.len() && nodes1[k] == e;
                                    assert(nodes@[k] == e);
                                }
                                assert(nodes@[nodes1.len() as int] == callee);
                            }
                            assert(known@ =~= node_set(nodes@));
                        }
                    } else {
                        assert(known@ =~= known1);
                    }
                }
                assert(found.take(found.len() as int) =~= found);
                for i in 0..pointers.len()
                    invariant
                        skipped@ == skipped0 + pointers@.take(i as int).map_values(
                            |block: BasicBlock| (block, caller),
                        ),
                {
                    skipped.push((pointers[i], caller));
                    assert(skipped@ =~= skipped0 + pointers@.take(i + 1).map_values(
                        |block: BasicBlock| (block, caller),
                    ));
                }
                assert(pointers@.take(pointers@.len() as int) =~= pointers@);
                sites_by_caller.set(caller, call_sites);
            }
            proof {
                lemma_skipped_calls_prefix(*program, nodes0, nodes@, (next + 1) as nat);
                assert forall|f: usize|
                    f < count implies site_views((#[trigger] sites_by_caller@[f as int])@) == (
                if nodes@.take(next + 1).contains(f) {
                    node_sites(*program, f)
                } else {
                    Seq::empty()
                }) by {
                    let old_list = nodes0.take(next as int);
                    let new_list = nodes@.take(next + 1);
                    assert(new_list =~= old_list.push(caller));
                    assert(site_views(sites0[f as int]@) == (if old_list.contains(f) {
                        node_sites(*program, f)
                    } else {
                        Seq::empty()
                    }));
                    if old_list.contains(f) {
                        let k = choose|k: int| 0 <= k < old_list.len() && old_list[k] == f;
                        assert(new_list[k] == f);
                    }
                    if f == caller {
                        assert(new_list[next as int] == f);
                    } else if new_list.contains(f) {
                        let k = choose|k: int| 0 <= k < new_list.len() && new_list[k] == f;
                        assert(old_list[k] == f);
                    }
                }
            }
            next = next + 1;
        }
        assert(nodes@.take(next as int) =~= nodes@);
        let call_graph = CallGraph { root, nodes, sites_by_caller, no_sites: Vec::new(), skipped };
        assert forall|f: DefId| #[trigger] call_graph.sites(f) == (
        if call_graph.node_list().contains(f) {
            node_sites(*program, f)
        } else {
            Seq::empty()
        }) by {
            if f < count {
                assert(site_views(call_graph.sites_by_caller@[f as int]@) == (
                if call_graph.nodes@.contains(f) {
                    node_sites(*program, f)
                } else {
                    Seq::empty()
                }));
            } else {
                assert(call_graph.sites(f) =~= Seq::<CallSiteView>::empty());
            }
        }
        call_graph
    }

    pub fn root(&self) -> (root: DefId)
        ensures
            root == self.root_node(),
    {
        self.root
    }

    /// All reachable functions, in discovery order.
    pub fn nodes(&self) -> (nodes: &Vec<DefId>)
        ensures
            nodes@ == self.node_list(),
    {
        &self.nodes
    }

    /// The calls made inside `caller`.
    pub fn call_sites_in(&self, caller: DefId) -> (sites: &Vec<CallSite>)
        ensures
            site_views(sites@) == self.sites(caller),
    {
        if caller < self.sites_by_caller.len() {
            &self.sites_by_caller[caller]
        } else {
            &self.no_sites
        }
    }

    /// The calls through a function pointer that were left out: the block and
    /// the function that contains it.
    pub fn skipped_function_pointers(&self) -> (skipped: &Vec<(BasicBlock, DefId)>)
        ensures
            skipped@ == self.skips(),
    {
        &self.skipped
    }

    /// The calls made inside the first `count` nodes.
    pub open spec fn sites_of_nodes(self, count: nat) -> Seq<CallSiteView>
        decreases count,
    {
        if count == 0 {
            Seq::empty()
        } else {
            self.sites_of_nodes((count - 1) as nat) + self.sites(self.node_list()[count - 1])
        }
    }

    /// Every call site of the graph, regardless of caller.
    #[verifier::loop_isolation(false)]
    pub fn all_call_sites(&self) -> (sites: Vec<&CallSite>)
        ensures
            sites@.map_values(|site: &CallSite| site@) == self.sites_of_nodes(
                self.node_list().len(),
            ),
    {
        let mut all: Vec<&CallSite> = Vec::new();
        assert(all@.map_values(|site: &CallSite| site@) =~= Seq::<CallSiteView>::empty());
        for n in 0..self.nodes.len()
            invariant
                all@.map_values(|site: &CallSite| site@) == self.sites_of_nodes(n as nat),
        {
            let group = self.call_sites_in(self.nodes[n]);
            let ghost before = all@.map_values(|site: &CallSite| site@);
            let ghost views = site_views(group@);
            for k in 0..group.len()
                invariant
                    all@.map_values(|site: &CallSite| site@) == before + views.take(k as int),
            {
                let ghost shorter = all@;
                all.push(&group[k]);
                assert(all@.map_values(|site: &CallSite| site@) =~= shorter.map_values(
                    |site: &CallSite| site@,
                ).push(group@[k as int]@));
                assert(views.take(k + 1) =~= views.take(k as int).push(views[k as int]));
                assert(all@.map_values(|site: &CallSite| site@) =~= before + views.take(k + 1));
            }
            assert(views.take(views.len() as int) =~= views);
        }
        all
    }
}

} // verus!
