//! Which calls there are, and which functions they lead to.

use crate::call_graph;
use crate::call_graph::CallSiteView;
use crate::cosmwasm;
use crate::graph;
use crate::laws;
use crate::mir::{Body, Call, DefId, Local, Program, Terminator};
use crate::mir_util;
use vstd::prelude::*;

verus! {

/// A call of a function item leads to a function: to the implementation that it
/// resolves to, or else to the item itself.
pub open spec fn leads_to(program: Program, call: Call, callee: DefId) -> bool {
    exists|item: DefId| #[trigger]
        laws::calls(program, call, item) && match call.resolved {
            Some(resolved) => callee == resolved,
            None => callee == item,
        }
}

/// A site stands for the call a block ends in.
pub open spec fn is_site_of(
    program: Program,
    body: Body,
    block: int,
    call: Call,
    site: CallSiteView,
) -> bool {
    &&& laws::ends_in(body, block, call)
    &&& leads_to(program, call, site.callee)
    &&& site.caller == body.def_id
    &&& site.location.block == block
    &&& site.location.statement_index == body.basic_blocks@[block].statements@.len()
    &&& site.arg_locals.len() == call.args@.len()
    &&& forall|i: int, l: Local|
        0 <= i < call.args@.len() ==> (#[trigger] laws::reads(call.args@[i], l)
            <==> site.arg_locals[i] == Some(l))
}

proof fn lemma_site_at(program: Program, body: Body, block: int, call: Call, site: CallSiteView)
    requires
        0 <= block < body.basic_blocks@.len(),
    ensures
        body.basic_blocks@[block].terminator == Terminator::Call(call) && call_graph::site_at(
            program,
            body,
            block,
        ) == Some(site) <==> is_site_of(program, body, block, call, site),
{
    assert(body.basic_blocks.len() == body.basic_blocks@.len());
    let data = body.basic_blocks@[block];
    assert(data.statements.len() == data.statements@.len());
    if data.terminator == Terminator::Call(call) {
        let locals = mir_util::operand_locals_of(call.args@);
        assert forall|i: int, l: Local|
            0 <= i < call.args@.len() implies (#[trigger] laws::reads(call.args@[i], l)
            <==> locals[i] == Some(l)) by {}
        if is_site_of(program, body, block, call, site) {
            assert forall|i: int| 0 <= i < locals.len() implies #[trigger] locals[i]
                == site.arg_locals[i] by {
                if let Some(l) = locals[i] {
                    assert(laws::reads(call.args@[i], l));
                }
                if let Some(l) = site.arg_locals[i] {
                    assert(laws::reads(call.args@[i], l));
                }
            }
            assert(locals =~= site.arg_locals);
            let item = choose|item: DefId| #[trigger]
                laws::calls(program, call, item) && match call.resolved {
                    Some(resolved) => site.callee == resolved,
                    None => site.callee == item,
                };
            assert(laws::calls(program, call, item));
            assert(site.location == call_graph::terminator_location(body, block));
        }
        if let Some(found) = call_graph::site_at(program, body, block) {
            if let crate::mir::TyKind::FnDef(item) =
                program.types@[mir_util::ty_of(call.func) as int].kind {
                assert(laws::calls(program, call, item));
            }
        }
    }
}

/// The sites of a body are exactly the calls of function items that its blocks
/// end in, with the arguments in order.
pub proof fn law_sites_are_the_calls(program: Program, body: Body, site: CallSiteView)
    ensures
        call_graph::sites_of(program, body).contains(site) <==> exists|block: int, call: Call|
            #[trigger]
            is_site_of(program, body, block, call, site),
{
    let sites = call_graph::sites_of(program, body);
    if sites.contains(site) {
        let i = choose|i: int| 0 <= i < sites.len() && sites[i] == site;
        call_graph::lemma_site_of_block(program, body, body.basic_blocks@.len(), i);
        let b = choose|b: int|
            0 <= b < body.basic_blocks@.len() && #[trigger] call_graph::site_at(program, body, b)
                == Some(sites[i]);
        if let Terminator::Call(call) = body.basic_blocks@[b].terminator {
            lemma_site_at(program, body, b, call, site);
        }
    }
    if exists|block: int, call: Call| #[trigger] is_site_of(program, body, block, call, site) {
        let (block, call) = choose|block: int, call: Call| #[trigger]
            is_site_of(program, body, block, call, site);
        lemma_site_at(program, body, block, call, site);
        call_graph::lemma_block_has_site(program, body, body.basic_blocks@.len(), block);
    }
}

/// The callee that is looked up for the end of a block is the one that its call
/// leads to, and there is none where the block ends in no call of a function item.
pub proof fn law_callee_of_a_block(program: Program, body: Body, block: usize, callee: DefId)
    requires
        block < body.basic_blocks@.len(),
    ensures
        ({
            let callees = call_graph::callee_map(call_graph::sites_of(program, body));
            let at = (block, body.basic_blocks@[block as int].statements@.len() as usize);
            callees.contains_key(at) && callees[at] == callee <==> exists|call: Call| #[trigger]
                laws::ends_in(body, block as int, call) && leads_to(program, call, callee)
        }),
{
    let n = body.basic_blocks@.len();
    lemma_callee_map(program, body, n, block, callee);
    assert(body.basic_blocks.len() == n);
}

proof fn lemma_callee_map(
    program: Program,
    body: Body,
    count: nat,
    block: usize,
    callee: DefId,
)
    requires
        count <= body.basic_blocks@.len(),
        block < body.basic_blocks@.len(),
    ensures
        ({
            let callees = call_graph::callee_map(call_graph::sites_before(program, body, count));
            let at = (block, body.basic_blocks@[block as int].statements@.len() as usize);
            callees.contains_key(at) && callees[at] == callee <==> block < count && exists|
                call: Call,
            | #[trigger]
                laws::ends_in(body, block as int, call) && leads_to(program, call, callee)
        }),
    decreases count,
{
    assert(body.basic_blocks.len() == body.basic_blocks@.len());
    if count > 0 {
        let b = count - 1;
        lemma_callee_map(program, body, b as nat, block, callee);
        let before = call_graph::sites_before(program, body, b as nat);
        let all = call_graph::sites_before(program, body, count);
        if let Some(site) = call_graph::site_at(program, body, b) {
            assert(all.drop_last() =~= before);
            assert(all.last() == site);
            if let Terminator::Call(call) = body.basic_blocks@[b].terminator {
                lemma_site_at(program, body, b, call, site);
                assert(laws::ends_in(body, b, call));
                if leads_to(program, call, callee) {
                    lemma_leads_to_one(program, call, callee, site.callee);
                }
            }
        } else {
            assert(all == before);
            if b == block {
                if exists|call: Call| #[trigger]
                    laws::ends_in(body, block as int, call) && leads_to(program, call, callee) {
                    let call = choose|call: Call| #[trigger]
                        laws::ends_in(body, block as int, call) && leads_to(program, call, callee);
                    let item = choose|item: DefId| #[trigger]
                        laws::calls(program, call, item) && match call.resolved {
                            Some(resolved) => callee == resolved,
                            None => callee == item,
                        };
                    assert(laws::calls(program, call, item));
                }
            }
        }
    }
}

proof fn lemma_leads_to_one(program: Program, call: Call, first: DefId, second: DefId)
    requires
        leads_to(program, call, first),
        leads_to(program, call, second),
    ensures
        first == second,
{
    let a = choose|item: DefId| #[trigger]
        laws::calls(program, call, item) && match call.resolved {
            Some(resolved) => first == resolved,
            None => first == item,
        };
    let b = choose|item: DefId| #[trigger]
        laws::calls(program, call, item) && match call.resolved {
            Some(resolved) => second == resolved,
            None => second == item,
        };
    assert(laws::calls(program, call, a) && laws::calls(program, call, b));
}

/// A function of the crate itself whose body is at hand has a block that ends in a
/// call of another one.
pub open spec fn calls_function(program: Program, f: DefId, g: DefId) -> bool {
    &&& f < program.defs@.len() && g < program.defs@.len()
    &&& program.defs@[f as int].is_local
    &&& program.defs@[f as int].body matches Some(body) && exists|block: int, call: Call| #[trigger]
        laws::ends_in(body, block, call) && leads_to(program, call, g)
}

proof fn lemma_call_edge(program: Program, f: DefId, g: DefId)
    ensures
        call_graph::call_edge(program)(f, g) <==> calls_function(program, f, g),
{
    let sites = call_graph::node_sites(program, f);
    if call_graph::call_edge(program)(f, g) {
        let i = choose|i: int|
            0 <= i < sites.len() && (#[trigger] sites[i]).callee == g && g < program.defs@.len();
        let body = cosmwasm::body_at(program, f);
        assert(sites.contains(sites[i]));
        law_sites_are_the_calls(program, body, sites[i]);
        let (block, call) = choose|block: int, call: Call| #[trigger]
            is_site_of(program, body, block, call, sites[i]);
        assert(laws::ends_in(body, block, call));
    }
    if calls_function(program, f, g) {
        let body = program.defs@[f as int].body->0;
        let (block, call) = choose|block: int, call: Call| #[trigger]
            laws::ends_in(body, block, call) && leads_to(program, call, g);
        assert(body.basic_blocks.len() == body.basic_blocks@.len());
        let data = body.basic_blocks@[block];
        assert(data.statements.len() == data.statements@.len());
        let site = CallSiteView {
            location: crate::mir::Location {
                block: block as usize,
                statement_index: data.statements@.len() as usize,
            },
            caller: body.def_id,
            callee: g,
            arg_locals: mir_util::operand_locals_of(call.args@),
        };
        assert(is_site_of(program, body, block, call, site));
        law_sites_are_the_calls(program, body, site);
        let i = choose|i: int| 0 <= i < sites.len() && sites[i] == site;
        assert(sites[i].callee == g);
    }
}

/// The functions that are analysed from a root on are the root and whatever a
/// function among them calls, and no others; none of them is listed twice.
pub proof fn law_reachable_functions(program: Program, root: DefId, g: DefId)
    ensures
        call_graph::reachable_from(program, root).no_duplicates(),
        call_graph::reachable_from(program, root).len() > 0,
        call_graph::reachable_from(program, root)[0] == root,
        call_graph::reachable_from(program, root).contains(g) <==> g == root || exists|f: DefId|
            #[trigger]
            calls_function(program, f, g) && call_graph::reachable_from(program, root).contains(f),
{
    let nodes = call_graph::reachable_from(program, root);
    call_graph::lemma_reachable_from(program, root);
    let edge = call_graph::call_edge(program);
    if nodes.contains(g) && g != root {
        laws::lemma_last_step(edge, set![root], g);
        let f = choose|f: usize| graph::reaches(edge, set![root], f) && #[trigger] edge(f, g);
        lemma_call_edge(program, f, g);
        assert(nodes.contains(f));
        assert(calls_function(program, f, g));
    }
    if exists|f: DefId| #[trigger] calls_function(program, f, g) && nodes.contains(f) {
        let f = choose|f: DefId| #[trigger] calls_function(program, f, g) && nodes.contains(f);
        lemma_call_edge(program, f, g);
        assert(edge(f, g));
    }
    assert(nodes.contains(nodes[0]));
}

/// The analysis starts at the first free function that is called `execute`, and at
/// none where there is no such function.
pub proof fn law_entry_point(program: Program, root: DefId)
    ensures
        cosmwasm::execute_from(program, 0) == Some(root) <==> exists|i: int|
            0 <= i < program.free_items@.len() && #[trigger] program.free_items@[i] == root
                && program.defs@[root as int].kind is Fn && laws::is_named(
                program,
                root,
                "execute"@,
            ) && forall|j: int|
                0 <= j < i ==> !(program.defs@[#[trigger] program.free_items@[j] as int].kind is Fn
                    && laws::is_named(program, program.free_items@[j], "execute"@)),
{
    lemma_execute_from(program, 0, root);
}

proof fn lemma_execute_from(program: Program, from: int, root: DefId)
    requires
        0 <= from <= program.free_items@.len(),
    ensures
        cosmwasm::execute_from(program, from) == Some(root) <==> exists|i: int|
            from <= i < program.free_items@.len() && #[trigger] program.free_items@[i] == root
                && program.defs@[root as int].kind is Fn && laws::is_named(
                program,
                root,
                "execute"@,
            ) && forall|j: int|
                from <= j < i ==> !(program.defs@[#[trigger] program.free_items@[j] as int].kind is Fn
                    && laws::is_named(program, program.free_items@[j], "execute"@)),
    decreases program.free_items@.len() - from,
{
    if from < program.free_items@.len() {
        let items = program.free_items@;
        lemma_execute_from(program, from + 1, root);
        if cosmwasm::execute_at(program, from) {
            if items[from] == root {
                assert(items[from] == root);
            }
            if exists|i: int|
                from <= i < items.len() && #[trigger] items[i] == root
                    && program.defs@[root as int].kind is Fn && laws::is_named(
                    program,
                    root,
                    "execute"@,
                ) && forall|j: int|
                    from <= j < i ==> !(program.defs@[#[trigger] items[j] as int].kind is Fn
                        && laws::is_named(program, items[j], "execute"@)) {
                let i = choose|i: int|
                    from <= i < items.len() && #[trigger] items[i] == root
                        && program.defs@[root as int].kind is Fn && laws::is_named(
                        program,
                        root,
                        "execute"@,
                    ) && forall|j: int|
                        from <= j < i ==> !(program.defs@[#[trigger] items[j] as int].kind is Fn
                            && laws::is_named(program, items[j], "execute"@));
                if i > from {
                    assert(program.defs@[items[from] as int].kind is Fn);
                }
            }
        } else {
            if cosmwasm::execute_from(program, from + 1) == Some(root) {
                let i = choose|i: int|
                    from + 1 <= i < items.len() && #[trigger] items[i] == root
                        && program.defs@[root as int].kind is Fn && laws::is_named(
                        program,
                        root,
                        "execute"@,
                    ) && forall|j: int|
                        from + 1 <= j < i ==> !(program.defs@[#[trigger] items[j] as int].kind is Fn
                            && laws::is_named(program, items[j], "execute"@));
                assert(items[i] == root);
                assert forall|j: int| from <= j < i implies !(
                program.defs@[#[trigger] items[j] as int].kind is Fn && laws::is_named(
                    program,
                    items[j],
                    "execute"@,
                )) by {}
            }
            if exists|i: int|
                from <= i < items.len() && #[trigger] items[i] == root
                    && program.defs@[root as int].kind is Fn && laws::is_named(
                    program,
                    root,
                    "execute"@,
                ) && forall|j: int|
                    from <= j < i ==> !(program.defs@[#[trigger] items[j] as int].kind is Fn
                        && laws::is_named(program, items[j], "execute"@)) {
                let i = choose|i: int|
                    from <= i < items.len() && #[trigger] items[i] == root
                        && program.defs@[root as int].kind is Fn && laws::is_named(
                        program,
                        root,
                        "execute"@,
                    ) && forall|j: int|
                        from <= j < i ==> !(program.defs@[#[trigger] items[j] as int].kind is Fn
                            && laws::is_named(program, items[j], "execute"@));
                assert(i > from);
            }
        }
    }
}

/// A block ends in a call through a function pointer.
pub open spec fn calls_pointer(program: Program, body: Body, block: int) -> bool {
    exists|call: Call| #[trigger]
        laws::ends_in(body, block, call)
            && program.types@[laws::type_of(call.func) as int].kind is FnPtr
}

proof fn lemma_pointer_calls(program: Program, body: Body, count: nat, block: usize)
    requires
        count <= body.basic_blocks@.len(),
    ensures
        call_graph::pointer_calls_before(program, body, count).contains(block) <==> block < count
            && calls_pointer(program, body, block as int),
    decreases count,
{
    assert(body.basic_blocks.len() == body.basic_blocks@.len());
    if count > 0 {
        let b = count - 1;
        lemma_pointer_calls(program, body, b as nat, block);
        let before = call_graph::pointer_calls_before(program, body, b as nat);
        crate::graph::lemma_push_contains(before, b as usize, block);
        if let Terminator::Call(call) = body.basic_blocks@[b].terminator {
            assert(laws::ends_in(body, b, call));
        }
    }
}

/// The calls that are left out, and reported as such, are exactly those through a
/// function pointer in the functions of the graph.
pub proof fn law_skipped_calls(
    program: Program,
    nodes: Seq<DefId>,
    count: nat,
    block: usize,
    f: DefId,
)
    requires
        count <= nodes.len(),
    ensures
        call_graph::skipped_calls(program, nodes, count).contains((block, f)) <==> f
            < program.defs@.len() && program.defs@[f as int].is_local && (
        program.defs@[f as int].body matches Some(body) && calls_pointer(program, body, block as int))
            && exists|n: int| 0 <= n < count && #[trigger] nodes[n] == f,
    decreases count,
{
    if count > 0 {
        let g = nodes[count - 1];
        law_skipped_calls(program, nodes, (count - 1) as nat, block, f);
        let before = call_graph::skipped_calls(program, nodes, (count - 1) as nat);
        let all = call_graph::skipped_calls(program, nodes, count);
        if g < program.defs@.len() && cosmwasm::analysable(program, g) {
            let body = cosmwasm::body_at(program, g);
            let found = call_graph::pointer_calls_before(program, body, body.basic_blocks@.len());
            let here = found.map_values(|b: usize| (b, g));
            lemma_pointer_calls(program, body, body.basic_blocks@.len(), block);
            assert(all == before + here);
            if all.contains((block, f)) {
                let i = choose|i: int| 0 <= i < all.len() && all[i] == (block, f);
                if i < before.len() {
                    assert(before[i] == (block, f));
                } else {
                    assert(here[i - before.len()] == (block, f));
                    assert(found[i - before.len()] == block);
                    assert(found.contains(block));
                    assert(nodes[count - 1] == f);
                }
            }
            if before.contains((block, f)) {
                let i = choose|i: int| 0 <= i < before.len() && before[i] == (block, f);
                assert(all[i] == (block, f));
            }
            if f == g && found.contains(block) {
                let i = choose|i: int| 0 <= i < found.len() && found[i] == block;
                assert(all[before.len() + i] == (block, f));
            }
        }
        if exists|n: int| 0 <= n < count && #[trigger] nodes[n] == f {
            let n = choose|n: int| 0 <= n < count && #[trigger] nodes[n] == f;
            if n < count - 1 {
                assert(nodes[n] == f);
            }
        }
    }
}

} // verus!
