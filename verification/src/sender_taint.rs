//! Stage 3, first half: where the sender flows.
//!
//! Determines which locals carry `cosmwasm_std::MessageInfo::sender`, both
//! inside a single body and across the call graph.
//!
//! An intraprocedural taint alone misses every check in which the sender
//! arrives indirectly: as a function argument (`is_admin(&info.sender)`) or as
//! a closure upvar (`admins.iter().any(|a| a == info.sender)`). The bodies of
//! such helpers never mention `info` at all. [`seed_sender_taint`] therefore
//! computes a fixpoint over the call graph that pre-taints the parameters and
//! upvars a sender reaches, and [`compute_sender_locals`] runs the local
//! propagation on top of those seeds.

use crate::call_graph;
use crate::call_graph::{CallGraph, CallSite, CallSiteView};
use crate::cosmwasm;
use crate::dense::{DenseSet, PairSet};
use crate::graph;
use crate::mir::{
    AggregateKind, Assign, Body, Call, DefId, Local, Operand, Place, PlaceElem, Program, Rvalue,
    Statement, Terminator, Ty, TyKind,
};
use crate::mir_util;
use crate::text::str_eq;
use vstd::prelude::*;

verus! {

/// Pre-tainted entry points of a function, produced by the interprocedural
/// seeding over the call graph. Both kinds seed the intraprocedural taint
/// before it is computed for a body:
///
/// * `param_locals`: formal parameters (`_1`, `_2`, ...) a caller passed a
///   sender-tainted argument to, as in `is_admin(&info.sender)`.
/// * `upvar_indices`: closure upvar indices whose captured value was
///   sender-tainted in the enclosing function, as in `|a| a == info.sender`.
///   Inside the closure the upvar is read as a field of the environment local.
#[derive(Debug, Clone)]
pub struct SenderSeeds {
    pub param_locals: DenseSet,
    pub upvar_indices: DenseSet,
}

impl Default for SenderSeeds {
    /// No seeds.
    fn default() -> (seeds: Self)
        ensures
            seeds.param_locals@ == Set::<usize>::empty(),
            seeds.upvar_indices@ == Set::<usize>::empty(),
    {
        SenderSeeds { param_locals: DenseSet::new(), upvar_indices: DenseSet::new() }
    }
}

// ---- inside one body -----------------------------------------------------

/// The names of methods that preserve the sender identity.
pub open spec fn identity_name(name: Seq<char>) -> bool {
    ||| name == "as_ref"@
    ||| name == "as_str"@
    ||| name == "as_bytes"@
    ||| name == "to_string"@
    ||| name == "to_owned"@
    ||| name == "clone"@
    ||| name == "deref"@
    ||| name == "deref_mut"@
    ||| name == "borrow"@
    ||| name == "addr_validate"@
    ||| name == "addr_canonicalize"@
    ||| name == "addr_humanize"@
}

/// Methods that preserve the sender identity, so their return value carries
/// the same taint as their receiver.
///
/// The `cosmwasm_std::Api` address conversions return the *same* identity in a
/// different representation (`&str` to `Addr` to `CanonicalAddr`), so the marking
/// has to survive them: the common dispatcher idiom
/// `if deps.api.addr_canonicalize(info.sender.as_str())? != config.owner` is
/// otherwise not a sender check and everything it guards is reported. This
/// stays sound in both directions, because identity preservation only forwards
/// an *already* marked argument: validating an attacker-supplied address still
/// carries attacker taint rather than creating a gate.
fn is_identity_preserving(name: &str) -> (preserving: bool)
    ensures
        preserving == identity_name(name@),
{
    str_eq(name, "as_ref") || str_eq(name, "as_str") || str_eq(name, "as_bytes") || str_eq(
        name,
        "to_string",
    ) || str_eq(name, "to_owned") || str_eq(name, "clone") || str_eq(name, "deref") || str_eq(
        name,
        "deref_mut",
    ) || str_eq(name, "borrow") || str_eq(name, "addr_validate") || str_eq(
        name,
        "addr_canonicalize",
    ) || str_eq(name, "addr_humanize")
}

/// A call hands the sender identity of an argument on to its return value: an
/// identity-preserving conversion or forwarding glue.
pub open spec fn forwards(program: Program, call: Call) -> bool {
    mir_util::callee_of(program, call.func) matches Some(d) && (identity_name(
        cosmwasm::name_of(program, d),
    ) || cosmwasm::is_glue(program, d))
}

/// The type of a local with at most one reference layer taken off.
pub open spec fn local_base_ty(program: Program, body: Body, local: Local) -> Ty {
    let ty = body.local_decls@[local as int];
    match program.types@[ty as int].kind {
        TyKind::Ref(inner, _) => inner,
        _ => ty,
    }
}

/// The field a path selects first, of the local it starts from. What it selects
/// behind that belongs to the type of the field.
pub open spec fn first_field(projection: Seq<PlaceElem>) -> Option<usize>
    decreases projection.len(),
{
    if projection.len() == 0 {
        None
    } else {
        match projection[0] {
            PlaceElem::Field(k) => Some(k),
            PlaceElem::Other => first_field(projection.skip(1)),
        }
    }
}

/// Returns the field a place selects first, of the local it starts from.
#[verifier::loop_isolation(false)]
fn selected_field(place: &Place) -> (field: Option<usize>)
    ensures
        field == first_field(place.projection@),
{
    assert(place.projection@.skip(0) =~= place.projection@);
    for i in 0..place.projection.len()
        invariant
            first_field(place.projection@) == first_field(place.projection@.skip(i as int)),
    {
        assert(place.projection@.skip(i as int).skip(1) =~= place.projection@.skip(i + 1));
        if let PlaceElem::Field(k) = place.projection[i] {
            return Some(k);
        }
    }
    None
}

/// A place reads `info.sender`.
pub open spec fn sender_field(program: Program, body: Body, place: Place) -> bool {
    match program.types@[local_base_ty(program, body, place.local) as int].kind {
        TyKind::Adt(def, _) => cosmwasm::message_info(program, def) && (
        program.defs@[def as int].fields matches Some(fields) && (first_field(
            place.projection@,
        ) matches Some(k) && k < fields@.len() && fields@[k as int]@ == "sender"@)),
        _ => false,
    }
}

/// Returns whether `place` reads `info.sender`.
fn place_is_sender_field(program: &Program, body: &Body, place: &Place) -> (sender: bool)
    requires
        program.wf(),
        body.wf(*program),
        place.local < body.local_decls@.len(),
    ensures
        sender == sender_field(*program, *body, *place),
{
    let local_ty: Ty = body.local_decls[place.local];
    assert(program.types@[local_ty as int].kind.wf(program.defs@.len(), local_ty as nat));
    let base_ty: Ty = match program.types[local_ty].kind {
        TyKind::Ref(inner, _) => inner,
        _ => local_ty,
    };
    assert(program.types@[base_ty as int].kind.wf(program.defs@.len(), base_ty as nat));
    match &program.types[base_ty].kind {
        TyKind::Adt(def, _) => {
            if !cosmwasm::is_message_info(program, *def) {
                return false;
            }
            // `MessageInfo` is a struct, so it has exactly one variant whose
            // fields resolve the projection's field index to a name.
            match (&program.defs[*def].fields, selected_field(place)) {
                (Some(fields), Some(k)) => k < fields.len() && str_eq(
                    fields[k].as_str(),
                    "sender",
                ),
                _ => false,
            }
        },
        _ => false,
    }
}

/// A place reads one of the given closure upvars.
pub open spec fn reads_upvar(place: Place, upvars: Set<usize>) -> bool {
    place.local == 1 && (first_field(place.projection@) matches Some(k) && upvars.contains(k))
}

/// Returns whether `place` reads a closure upvar that the interprocedural
/// seeding marked as sender-tainted.
///
/// Inside a closure body the environment is the first local and each captured
/// upvar is a field of it, accessed as `((*_1).k)` for a by-reference capture
/// or `(_1.k)` for a by-value one. Only closures ever receive `upvar_indices`,
/// so this never fires for an ordinary function.
fn place_reads_seeded_upvar(place: &Place, seeds: &SenderSeeds) -> (reads: bool)
    ensures
        reads == reads_upvar(*place, seeds.upvar_indices@),
{
    if place.local != 1 {
        return false;
    }
    match selected_field(place) {
        Some(k) => seeds.upvar_indices.contains(k),
        None => false,
    }
}

/// The place whose value an rvalue passes on as it is.
pub open spec fn passed_place(rvalue: Rvalue) -> Option<Place> {
    match rvalue {
        Rvalue::Use(Operand::Copy(place)) => Some(place),
        Rvalue::Use(Operand::Move(place)) => Some(place),
        Rvalue::Ref(_, place) => Some(place),
        Rvalue::RawPtr(place) => Some(place),
        _ => None,
    }
}

/// An rvalue is the sender itself: `info.sender`, or a seeded upvar.
pub open spec fn is_sender(program: Program, body: Body, upvars: Set<usize>, rvalue: Rvalue) -> bool {
    passed_place(rvalue) matches Some(place) && (sender_field(program, body, place) || reads_upvar(
        place,
        upvars,
    ))
}

/// An rvalue hands on what `local` carries. An aggregate does so for each of its
/// fields.
pub open spec fn hands_on(rvalue: Rvalue, local: Local) -> bool {
    match rvalue {
        Rvalue::Aggregate(_, operands) => mir_util::read_locals(operands@).contains(local),
        _ => passed_place(rvalue) matches Some(place) && place.local == local,
    }
}

/// Point `k` of a block, its terminator being the last one, assigns the sender
/// itself to `to`.
pub open spec fn source_at(
    program: Program,
    body: Body,
    upvars: Set<usize>,
    block: int,
    k: int,
    to: Local,
) -> bool {
    let data = body.basic_blocks@[block];
    0 <= block < body.basic_blocks@.len() && 0 <= k < data.statements@.len() && (
    data.statements@[k] matches Statement::Assign(assign) && assign.place.local == to && is_sender(
        program,
        body,
        upvars,
        assign.rvalue,
    ))
}

/// Point `k` of a block hands what `from` carries on to `to`.
pub open spec fn handed_at(
    program: Program,
    body: Body,
    block: int,
    k: int,
    from: Local,
    to: Local,
) -> bool {
    let data = body.basic_blocks@[block];
    0 <= block < body.basic_blocks@.len() && if 0 <= k < data.statements@.len() {
        data.statements@[k] matches Statement::Assign(assign) && assign.place.local == to
            && hands_on(assign.rvalue, from)
    } else {
        k == data.statements@.len() && (data.terminator matches Terminator::Call(call)
            && call.destination.local == to && forwards(program, call) && mir_util::read_locals(
            call.args@,
        ).contains(from))
    }
}

/// What one local carries is handed on to another somewhere in the body.
pub open spec fn sender_edge(program: Program, body: Body) -> spec_fn(usize, usize) -> bool {
    |from: usize, to: usize|
        exists|block: int, k: int| #[trigger] handed_at(program, body, block, k, from, to)
}

/// The locals that carry the sender without having it from another local.
pub open spec fn sender_starts(
    program: Program,
    body: Body,
    params: Set<usize>,
    upvars: Set<usize>,
) -> Set<usize> {
    Set::new(
        |l: usize|
            params.contains(l) || exists|block: int, k: int| #[trigger]
                source_at(program, body, upvars, block, k, l),
    )
}

/// The locals that directly or indirectly originate from the sender.
pub open spec fn sender_locals(
    program: Program,
    body: Body,
    params: Set<usize>,
    upvars: Set<usize>,
) -> Set<usize> {
    Set::new(
        |l: usize|
            graph::reaches(
                sender_edge(program, body),
                sender_starts(program, body, params, upvars),
                l,
            ),
    )
}

/// More seeds never take the sender away from a local.
pub proof fn lemma_sender_locals_monotone(
    program: Program,
    body: Body,
    params: Set<usize>,
    upvars: Set<usize>,
    more_params: Set<usize>,
    more_upvars: Set<usize>,
)
    requires
        params.subset_of(more_params),
        upvars.subset_of(more_upvars),
    ensures
        sender_locals(program, body, params, upvars).subset_of(
            sender_locals(program, body, more_params, more_upvars),
        ),
{
    let edge = sender_edge(program, body);
    let starts = sender_starts(program, body, params, upvars);
    let more = sender_starts(program, body, more_params, more_upvars);
    assert forall|l: usize| starts.contains(l) implies more.contains(l) by {
        if !params.contains(l) {
            let (block, k) = choose|block: int, k: int| #[trigger]
                source_at(program, body, upvars, block, k, l);
            assert(source_at(program, body, more_upvars, block, k, l));
        }
    }
    assert forall|l: usize|
        sender_locals(program, body, params, upvars).contains(l) implies sender_locals(
        program,
        body,
        more_params,
        more_upvars,
    ).contains(l) by {
        let path = choose|path: Seq<usize>| graph::leads(edge, starts, path, l);
        assert(graph::leads(edge, more, path, l));
    }
}

/// Returns whether `rhs` is the sender itself.
fn rvalue_is_sender(
    program: &Program,
    body: &Body,
    rhs: &Rvalue,
    seeds: &SenderSeeds,
) -> (sender: bool)
    requires
        program.wf(),
        body.wf(*program),
        rhs.wf(*program, body.local_decls@.len()),
    ensures
        sender == is_sender(*program, *body, seeds.upvar_indices@, *rhs),
{
    let place = match rhs {
        Rvalue::Use(Operand::Copy(place)) => place,
        Rvalue::Use(Operand::Move(place)) => place,
        // `&info.sender`, or the capture `&sender` of a closure.
        Rvalue::Ref(_, place) => place,
        // A raw pointer taints only where its target really is the sender.
        Rvalue::RawPtr(place) => place,
        _ => {
            return false;
        },
    };
    place_is_sender_field(program, body, place) || place_reads_seeded_upvar(place, seeds)
}

/// Returns the locals whose sender value `rhs` hands on.
///
/// An aggregate (closure environment, tuple, struct) hands on each of its
/// fields. That is what makes the closure of `iter().any(|x| x == info.sender)`
/// visible as a sender-carrying argument at the call site.
fn handed_locals(rhs: &Rvalue) -> (locals: Vec<Local>)
    ensures
        forall|l: Local| #[trigger] locals@.contains(l) == hands_on(*rhs, l),
{
    let place = match rhs {
        Rvalue::Use(Operand::Copy(place)) => place,
        Rvalue::Use(Operand::Move(place)) => place,
        Rvalue::Ref(_, place) => place,
        Rvalue::RawPtr(place) => place,
        Rvalue::Aggregate(_, operands) => {
            return mir_util::read_operand_locals(operands);
        },
        _ => {
            return Vec::new();
        },
    };
    let locals: Vec<Local> = vec![place.local];
    assert(locals@[0] == place.local);
    locals
}

/// Adds an edge from each of `sources` to `to`.
#[verifier::loop_isolation(false)]
fn add_edges(lists: &mut Vec<Vec<usize>>, sources: &Vec<Local>, to: Local)
    requires
        graph::lists_wf(old(lists)@),
        to < old(lists)@.len(),
        forall|l: Local| #[trigger] sources@.contains(l) ==> l < old(lists)@.len(),
    ensures
        final(lists)@.len() == old(lists)@.len(),
        graph::lists_wf(final(lists)@),
        forall|a: usize, b: usize| #[trigger]
            graph::list_edge(final(lists)@)(a, b) <==> graph::list_edge(old(lists)@)(a, b) || (
            sources@.contains(a) && b == to),
{
    let ghost lists0 = lists@;
    for i in 0..sources.len()
        invariant
            lists@.len() == lists0.len(),
            graph::lists_wf(lists@),
            forall|a: usize, b: usize| #[trigger]
                graph::list_edge(lists@)(a, b) <==> graph::list_edge(lists0)(a, b) || (
                sources@.take(i as int).contains(a) && b == to),
    {
        let from: Local = sources[i];
        assert(sources@.contains(from));
        let ghost before = lists@;
        lists[from].push(to);
        proof {
            assert forall|a: usize, b: usize| #[trigger]
                graph::list_edge(lists@)(a, b) <==> graph::list_edge(lists0)(a, b) || (
                sources@.take(i + 1).contains(a) && b == to) by {
                assert(graph::list_edge(before)(a, b) <==> graph::list_edge(lists0)(a, b) || (
                sources@.take(i as int).contains(a) && b == to));
                assert(sources@.take(i + 1) =~= sources@.take(i as int).push(from));
                graph::lemma_push_contains(sources@.take(i as int), from, a);
                if a < lists0.len() {
                    if a == from {
                        assert(lists@[a as int]@ == before[a as int]@.push(to));
                        graph::lemma_push_contains(before[a as int]@, to, b);
                    } else {
                        assert(lists@[a as int] == before[a as int]);
                    }
                }
            }
            assert forall|a: int, k: int|
                0 <= a < lists@.len() && 0 <= k < lists@[a]@.len() implies #[trigger] lists@[a]@[k]
                < lists@.len() by {
                if a == from && k == before[a]@.len() {
                } else {
                    assert(lists@[a]@[k] == before[a]@[k]);
                }
            }
        }
    }
    assert(sources@.take(sources@.len() as int) =~= sources@);
}

/// Returns whether a call hands the sender identity of an argument on.
///
/// Two kinds of call preserve the sender identity and therefore forward the
/// taint to their return value: identity-preserving conversions (`as_str`,
/// `to_string`, `addr_canonicalize`, ...), and forwarding glue (`?` via
/// `Try::branch`/`from_residual`, `unwrap`, `ok_or`, `map_err`, ...), which hands
/// its payload straight through. Without the glue the taint would die at the
/// `?` of a fallible conversion.
fn call_forwards(program: &Program, call: &Call, locals: Ghost<nat>) -> (answer: bool)
    requires
        program.wf(),
        call.func.wf(*program, locals@),
    ensures
        answer == forwards(*program, *call),
{
    proof {
        mir_util::lemma_operand_wf(*program, call.func, locals@);
    }
    match mir_util::callee_def_id(program, &call.func) {
        Some(callee) => is_identity_preserving(program.defs[callee].name.as_str())
            || cosmwasm::is_forwarding_glue_fn(program, callee),
        None => false,
    }
}

/// The point `(b, p)` stands in front of point `k` of `block`.
spec fn earlier(b: int, p: int, block: int, k: int) -> bool {
    b < block || (b == block && p < k)
}

/// Collects all locals that directly or indirectly originate from
/// `cosmwasm_std::MessageInfo::sender`, starting from the interprocedural
/// seeds.
///
/// A definition may stand after its use in block order, which is common with
/// closure captures, so the hand-over steps are collected first and followed
/// from the seeds afterwards.
#[verifier::loop_isolation(false)]
#[verifier::rlimit(40)]
pub fn compute_sender_locals(program: &Program, body: &Body, seeds: &SenderSeeds) -> (
    locals: DenseSet)
    requires
        program.wf(),
        body.wf(*program),
    ensures
        locals@ == sender_locals(
            *program,
            *body,
            seeds.param_locals@,
            seeds.upvar_indices@,
        ),
{
    let ghost upvars = seeds.upvar_indices@;
    let bound: usize = seeds.param_locals.bound();
    let n: usize = if bound > body.local_decls.len() {
        bound
    } else {
        body.local_decls.len()
    };
    let mut lists: Vec<Vec<usize>> = Vec::new();
    for l in 0..n
        invariant
            lists@.len() == l,
            forall|m: int| 0 <= m < l ==> (#[trigger] lists@[m])@.len() == 0,
    {
        lists.push(Vec::new());
    }
    // Parameters a caller passed a sender-tainted argument to are tainted from
    // the start.
    let mut starts = seeds.param_locals.clone();

    for block in 0..body.basic_blocks.len()
        invariant
            lists@.len() == n,
            graph::lists_wf(lists@),
            forall|l: usize| #[trigger] starts@.contains(l) ==> l < n,
            forall|l: usize| #[trigger]
                starts@.contains(l) <==> seeds.param_locals@.contains(l) || exists|b: int, p: int|
                    b < block && #[trigger] source_at(*program, *body, upvars, b, p, l),
            forall|from: usize, to: usize| #[trigger]
                graph::list_edge(lists@)(from, to) <==> exists|b: int, p: int|
                    b < block && #[trigger] handed_at(*program, *body, b, p, from, to),
    {
        let data = &body.basic_blocks[block];
        assert(data.wf(*program, body.local_decls@.len(), body.basic_blocks@.len()));
        for k in 0..data.statements.len()
            invariant
                lists@.len() == n,
                graph::lists_wf(lists@),
                forall|l: usize| #[trigger] starts@.contains(l) ==> l < n,
                forall|l: usize| #[trigger]
                    starts@.contains(l) <==> seeds.param_locals@.contains(l) || exists|
                        b: int,
                        p: int,
                    |
                        earlier(b, p, block as int, k as int) && #[trigger] source_at(
                            *program,
                            *body,
                            upvars,
                            b,
                            p,
                            l,
                        ),
                forall|from: usize, to: usize| #[trigger]
                    graph::list_edge(lists@)(from, to) <==> exists|b: int, p: int|
                        earlier(b, p, block as int, k as int) && #[trigger] handed_at(
                            *program,
                            *body,
                            b,
                            p,
                            from,
                            to,
                        ),
        {
            assert(data.statements@[k as int].wf(*program, body.local_decls@.len()));
            let ghost lists0 = lists@;
            let ghost starts0 = starts@;
            if let Statement::Assign(assign) = &data.statements[k] {
                if rvalue_is_sender(program, body, &assign.rvalue, seeds) {
                    starts.insert(assign.place.local);
                }
                let sources = handed_locals(&assign.rvalue);
                proof {
                    mir_util::lemma_rvalue_reads_wf(
                        *program,
                        assign.rvalue,
                        body.local_decls@.len(),
                    );
                    assert forall|l: Local| #[trigger] sources@.contains(l) implies l < n by {
                        assert(hands_on(assign.rvalue, l));
                        if let Rvalue::Aggregate(_, operands) = assign.rvalue {
                            assert(mir_util::rvalue_reads(assign.rvalue).contains(l));
                        }
                    }
                }
                add_edges(&mut lists, &sources, assign.place.local);
            }
            proof {
                assert forall|l: usize| #[trigger]
                    starts@.contains(l) <==> seeds.param_locals@.contains(l) || exists|
                        b: int,
                        p: int,
                    |
                        earlier(b, p, block as int, k + 1) && #[trigger] source_at(
                            *program,
                            *body,
                            upvars,
                            b,
                            p,
                            l,
                        ) by {
                    let here = source_at(*program, *body, upvars, block as int, k as int, l);
                    assert(starts@.contains(l) <==> starts0.contains(l) || here);
                    if starts0.contains(l) && !seeds.param_locals@.contains(l) {
                        let (b, p) = choose|b: int, p: int|
                            earlier(b, p, block as int, k as int) && #[trigger] source_at(
                                *program,
                                *body,
                                upvars,
                                b,
                                p,
                                l,
                            );
                        assert(earlier(b, p, block as int, k + 1));
                    }
                    if exists|b: int, p: int|
                        earlier(b, p, block as int, k + 1) && #[trigger] source_at(
                            *program,
                            *body,
                            upvars,
                            b,
                            p,
                            l,
                        ) {
                        let (b, p) = choose|b: int, p: int|
                            earlier(b, p, block as int, k + 1) && #[trigger] source_at(
                                *program,
                                *body,
                                upvars,
                                b,
                                p,
                                l,
                            );
                        if !here {
                            assert(earlier(b, p, block as int, k as int));
                        }
                    }
                }
                assert forall|from: usize, to: usize| #[trigger]
                    graph::list_edge(lists@)(from, to) <==> exists|b: int, p: int|
                        earlier(b, p, block as int, k + 1) && #[trigger] handed_at(
                            *program,
                            *body,
                            b,
                            p,
                            from,
                            to,
                        ) by {
                    let here = handed_at(*program, *body, block as int, k as int, from, to);
                    assert(graph::list_edge(lists@)(from, to) <==> graph::list_edge(lists0)(
                        from,
                        to,
                    ) || here);
                    if graph::list_edge(lists0)(from, to) {
                        let (b, p) = choose|b: int, p: int|
                            earlier(b, p, block as int, k as int) && #[trigger] handed_at(
                                *program,
                                *body,
                                b,
                                p,
                                from,
                                to,
                            );
                        assert(earlier(b, p, block as int, k + 1));
                    }
                    if exists|b: int, p: int|
                        earlier(b, p, block as int, k + 1) && #[trigger] handed_at(
                            *program,
                            *body,
                            b,
                            p,
                            from,
                            to,
                        ) {
                        let (b, p) = choose|b: int, p: int|
                            earlier(b, p, block as int, k + 1) && #[trigger] handed_at(
                                *program,
                                *body,
                                b,
                                p,
                                from,
                                to,
                            );
                        if !here {
                            assert(earlier(b, p, block as int, k as int));
                        }
                    }
                }
            }
        }
        let ghost lists0 = lists@;
        let ghost last = data.statements@.len() as int;
        if let Terminator::Call(call) = &data.terminator {
            if call_forwards(program, call, Ghost(body.local_decls@.len())) {
                let sources = mir_util::read_operand_locals(&call.args);
                proof {
                    assert forall|l: Local| #[trigger] sources@.contains(l) implies l < n by {
                        mir_util::lemma_read_locals(call.args@, l);
                        let i = choose|i: int|
                            0 <= i < call.args@.len() && mir_util::local_of(
                                #[trigger] call.args@[i],
                            ) == Some(l);
                        assert(call.args@[i].wf(*program, body.local_decls@.len()));
                    }
                }
                add_edges(&mut lists, &sources, call.destination.local);
            }
        }
        proof {
            assert forall|l: usize| #[trigger]
                starts@.contains(l) <==> seeds.param_locals@.contains(l) || exists|b: int, p: int|
                    b < block + 1 && #[trigger] source_at(*program, *body, upvars, b, p, l) by {
                if exists|b: int, p: int|
                    b < block + 1 && #[trigger] source_at(*program, *body, upvars, b, p, l) {
                    let (b, p) = choose|b: int, p: int|
                        b < block + 1 && #[trigger] source_at(*program, *body, upvars, b, p, l);
                    assert(earlier(b, p, block as int, last));
                }
            }
            assert forall|from: usize, to: usize| #[trigger]
                graph::list_edge(lists@)(from, to) <==> exists|b: int, p: int|
                    b < block + 1 && #[trigger] handed_at(*program, *body, b, p, from, to) by {
                let here = handed_at(*program, *body, block as int, last, from, to);
                assert(graph::list_edge(lists@)(from, to) <==> graph::list_edge(lists0)(from, to)
                    || here);
                if exists|b: int, p: int|
                    b < block + 1 && #[trigger] handed_at(*program, *body, b, p, from, to) {
                    let (b, p) = choose|b: int, p: int|
                        b < block + 1 && #[trigger] handed_at(*program, *body, b, p, from, to);
                    if !here {
                        assert(earlier(b, p, block as int, last));
                    }
                }
            }
        }
    }
    let locals = graph::reach(&lists, &starts);
    proof {
        assert(graph::list_edge(lists@) =~= sender_edge(*program, *body)) by {
            assert forall|from: usize, to: usize| #[trigger]
                graph::list_edge(lists@)(from, to) == sender_edge(*program, *body)(from, to) by {}
        }
        assert(starts@ =~= sender_starts(*program, *body, seeds.param_locals@, upvars));
        assert(locals@ =~= sender_locals(*program, *body, seeds.param_locals@, upvars));
    }
    locals
}

// ---- across the call graph -----------------------------------------------

/// A type, through any reference layers, can carry a sender identity.
pub open spec fn sender_like(program: Program, ty: Ty) -> bool {
    match program.types@[mir_util::without_refs(program, ty) as int].kind {
        TyKind::Str => true,
        TyKind::Adt(def, _) => cosmwasm::addr_def(program, def) || cosmwasm::name_of(program, def)
            == "String"@,
        _ => false,
    }
}

/// Returns whether `ty`, after stripping references, can carry a sender
/// identity: a CosmWasm address type, `String`, or `str`.
///
/// Used to type-gate the interprocedural seeds so that a non-address parameter
/// such as `Vec<Asset>` is never mistaken for the sender, which is the main
/// source of false positives in a naive argument and capture propagation.
pub fn ty_is_sender_like(program: &Program, ty: Ty) -> (like: bool)
    requires
        program.wf(),
        ty < program.types@.len(),
    ensures
        like == sender_like(*program, ty),
{
    let base: Ty = mir_util::strip_refs(program, ty);
    assert(program.types@[base as int].kind.wf(program.defs@.len(), base as nat));
    match &program.types[base].kind {
        TyKind::Str => true,
        TyKind::Adt(def, _) => cosmwasm::is_cosmwasm_addr(program, *def) || cosmwasm::item_name_is(
            program,
            *def,
            "String",
        ),
        _ => false,
    }
}

/// A closure created inside a function, with the locals captured as its upvars,
/// in upvar-field order (`None` for constant captures).
#[derive(Debug)]
pub struct ClosureCapture {
    pub enclosing: DefId,
    pub closure: DefId,
    pub captures: Vec<Option<Local>>,
}

/// What a [`ClosureCapture`] holds.
#[verifier::ext_equal]
pub ghost struct CaptureView {
    pub enclosing: DefId,
    pub closure: DefId,
    pub captures: Seq<Option<Local>>,
}

impl View for ClosureCapture {
    type V = CaptureView;

    open spec fn view(&self) -> CaptureView {
        CaptureView {
            enclosing: self.enclosing,
            closure: self.closure,
            captures: self.captures@,
        }
    }
}

/// What a list of captures holds.
pub open spec fn capture_views(captures: Seq<ClosureCapture>) -> Seq<CaptureView> {
    captures.map_values(|capture: ClosureCapture| capture@)
}

/// The closure a statement creates.
pub open spec fn capture_at(body: Body, statement: Statement) -> Option<CaptureView> {
    match statement {
        Statement::Assign(assign) => match assign.rvalue {
            Rvalue::Aggregate(AggregateKind::Closure(closure), operands) => Some(
                CaptureView {
                    enclosing: body.def_id,
                    closure,
                    captures: mir_util::operand_locals_of(operands@),
                },
            ),
            _ => None,
        },
        Statement::Other => None,
    }
}

/// The closures created in the blocks below `block` and in the first `statement`
/// statements of `block`.
pub open spec fn captures_before(body: Body, block: nat, statement: nat) -> Seq<CaptureView>
    decreases block, statement,
{
    if statement > 0 {
        let before = captures_before(body, block, (statement - 1) as nat);
        match capture_at(body, body.basic_blocks@[block as int].statements@[statement - 1]) {
            Some(capture) => before.push(capture),
            None => before,
        }
    } else if block > 0 {
        captures_before(
            body,
            (block - 1) as nat,
            body.basic_blocks@[block - 1].statements@.len(),
        )
    } else {
        Seq::empty()
    }
}

/// The closures created in a body, in program order.
pub open spec fn captures_of(body: Body) -> Seq<CaptureView> {
    captures_before(body, body.basic_blocks@.len(), 0)
}

/// Finds every closure created in `body` through an aggregate, returning each
/// closure together with the locals captured as its upvars.
#[verifier::loop_isolation(false)]
fn find_closure_captures(program: &Program, body: &Body) -> (found: Vec<ClosureCapture>)
    requires
        body.wf(*program),
    ensures
        capture_views(found@) == captures_of(*body),
        forall|i: int|
            0 <= i < found@.len() ==> (#[trigger] found@[i]).closure < program.defs@.len(),
{
    let mut found: Vec<ClosureCapture> = Vec::new();
    assert(capture_views(found@) =~= Seq::<CaptureView>::empty());
    for b in 0..body.basic_blocks.len()
        invariant
            capture_views(found@) == captures_before(*body, b as nat, 0),
            forall|i: int|
                0 <= i < found@.len() ==> (#[trigger] found@[i]).closure < program.defs@.len(),
    {
        let data = &body.basic_blocks[b];
        assert(data.wf(*program, body.local_decls@.len(), body.basic_blocks@.len()));
        for s in 0..data.statements.len()
            invariant
                capture_views(found@) == captures_before(*body, b as nat, s as nat),
                forall|i: int|
                    0 <= i < found@.len() ==> (#[trigger] found@[i]).closure < program.defs@.len(),
        {
            assert(data.statements@[s as int].wf(*program, body.local_decls@.len()));
            let ghost before = found@;
            if let Statement::Assign(assign) = &data.statements[s] {
                if let Rvalue::Aggregate(AggregateKind::Closure(closure), operands) = &assign.rvalue {
                    let capture = ClosureCapture {
                        enclosing: body.def_id,
                        closure: *closure,
                        captures: mir_util::operand_locals(operands),
                    };
                    assert(capture_at(*body, data.statements@[s as int]) == Some(capture@));
                    found.push(capture);
                    assert(capture_views(found@) =~= capture_views(before).push(capture@));
                }
            }
        }
    }
    found
}

/// The state of the search for the bodies stage 3 works on.
#[verifier::ext_equal]
pub ghost struct TargetSearch {
    pub targets: Seq<DefId>,
    pub worklist: Seq<DefId>,
    pub captures: Seq<CaptureView>,
}

/// The search after the closures in `found` were met: each is recorded, and
/// those of the crate itself that are not known yet become targets.
pub open spec fn with_closures(
    program: Program,
    search: TargetSearch,
    found: Seq<CaptureView>,
) -> TargetSearch
    decreases found.len(),
{
    if found.len() == 0 {
        search
    } else {
        let before = with_closures(program, search, found.drop_last());
        let closure = found.last().closure;
        let captures = before.captures.push(found.last());
        if program.defs@[closure as int].is_local && !before.targets.contains(closure) {
            TargetSearch {
                targets: before.targets.push(closure),
                worklist: before.worklist.push(closure),
                captures,
            }
        } else {
            TargetSearch { captures, ..before }
        }
    }
}

/// Depth-first search for closures, the last entry of the worklist first.
pub open spec fn searched(
    program: Program,
    search: TargetSearch,
    scanned: Set<usize>,
) -> TargetSearch
    decreases graph::missing(scanned, program.defs@.len()), search.worklist.len(),
    via searched_decreases
{
    if search.worklist.len() == 0 {
        search
    } else {
        let f = search.worklist.last();
        let rest = TargetSearch { worklist: search.worklist.drop_last(), ..search };
        if scanned.contains(f) || f >= program.defs@.len() {
            searched(program, rest, scanned)
        } else if cosmwasm::analysable(program, f) {
            searched(
                program,
                with_closures(program, rest, captures_of(cosmwasm::body_at(program, f))),
                scanned.insert(f),
            )
        } else {
            searched(program, rest, scanned.insert(f))
        }
    }
}

#[via_fn]
proof fn searched_decreases(program: Program, search: TargetSearch, scanned: Set<usize>) {
    if search.worklist.len() > 0 {
        let f = search.worklist.last();
        if !(scanned.contains(f) || f >= program.defs@.len()) {
            assert(program.defs.len() == program.defs@.len());
            graph::lemma_missing_grows(scanned, scanned.insert(f), program.defs@.len(), f);
        }
    }
}

/// The definitions of a list that have a body at hand.
pub open spec fn with_body(program: Program, defs: Seq<DefId>) -> Seq<DefId>
    decreases defs.len(),
{
    if defs.len() == 0 {
        Seq::empty()
    } else {
        let before = with_body(program, defs.drop_last());
        if defs.last() < program.defs@.len() && cosmwasm::analysable(program, defs.last()) {
            before.push(defs.last())
        } else {
            before
        }
    }
}

/// The search from the nodes of a call graph, run to its end.
pub open spec fn target_search(program: Program, nodes: Seq<DefId>) -> TargetSearch {
    searched(
        program,
        TargetSearch { targets: nodes, worklist: nodes, captures: Seq::empty() },
        Set::empty(),
    )
}

/// The bodies stage 3 analyses.
pub open spec fn targets_of(program: Program, nodes: Seq<DefId>) -> Seq<DefId> {
    with_body(program, target_search(program, nodes).targets)
}

/// Some entry of the list records the closure.
pub open spec fn records_closure(found: Seq<CaptureView>, closure: DefId) -> bool {
    exists|i: int| 0 <= i < found.len() && (#[trigger] found[i]).closure == closure
}

/// The body of one definition creates the other, a closure of the crate itself.
pub open spec fn creates_closure(program: Program) -> spec_fn(usize, usize) -> bool {
    |a: usize, b: usize|
        a < program.defs@.len() && cosmwasm::analysable(program, a)
            && program.defs@[b as int].is_local && records_closure(
            captures_of(cosmwasm::body_at(program, a)),
            b,
        )
}

/// What a search has found is closed as far as it went: every target was reached
/// from the nodes, and is scanned or still listed.
spec fn search_sound(
    program: Program,
    nodes: Seq<DefId>,
    search: TargetSearch,
    scanned: Set<usize>,
) -> bool {
    let edge = creates_closure(program);
    &&& forall|f: usize| #[trigger]
        search.targets.contains(f) ==> graph::reaches(edge, call_graph::node_set(nodes), f)
    &&& forall|f: usize| #[trigger] nodes.contains(f) ==> search.targets.contains(f)
    &&& forall|f: usize| #[trigger]
        search.worklist.contains(f) ==> search.targets.contains(f)
    &&& forall|f: usize| #[trigger]
        search.targets.contains(f) ==> scanned.contains(f) || search.worklist.contains(f) || f
            >= program.defs@.len()
    &&& forall|a: usize, b: usize|
        scanned.contains(a) && #[trigger] edge(a, b) ==> search.targets.contains(b)
    &&& nodes.no_duplicates() ==> search.targets.no_duplicates()
}

proof fn lemma_with_closures(program: Program, search: TargetSearch, found: Seq<CaptureView>)
    ensures
        ({
            let after = with_closures(program, search, found);
            &&& forall|f: usize| #[trigger]
                after.targets.contains(f) <==> search.targets.contains(f) || (
                program.defs@[f as int].is_local && records_closure(found, f))
            &&& forall|f: usize| #[trigger]
                after.worklist.contains(f) <==> search.worklist.contains(f) || (
                after.targets.contains(f) && !search.targets.contains(f))
            &&& search.targets.no_duplicates() ==> after.targets.no_duplicates()
        }),
    decreases found.len(),
{
    if found.len() > 0 {
        let fewer = found.drop_last();
        let closure = found.last().closure;
        lemma_with_closures(program, search, fewer);
        let before = with_closures(program, search, fewer);
        let after = with_closures(program, search, found);
        assert forall|f: usize| records_closure(found, f) <==> records_closure(fewer, f) || f
            == closure by {
            if records_closure(fewer, f) {
                let i = choose|i: int| 0 <= i < fewer.len() && (#[trigger] fewer[i]).closure == f;
                assert(found[i].closure == f);
            }
            assert(found[found.len() - 1].closure == closure);
            if records_closure(found, f) && f != closure {
                let i = choose|i: int| 0 <= i < found.len() && (#[trigger] found[i]).closure == f;
                assert(fewer[i].closure == f);
            }
        }
        assert forall|f: usize| #[trigger] after.targets.contains(f) <==> before.targets.contains(f)
            || (f == closure && program.defs@[f as int].is_local) by {
            graph::lemma_push_contains(before.targets, closure, f);
        }
        assert forall|f: usize| #[trigger] after.worklist.contains(f) <==> search.worklist.contains(
            f,
        ) || (after.targets.contains(f) && !search.targets.contains(f)) by {
            graph::lemma_push_contains(before.worklist, closure, f);
            assert(before.worklist.contains(f) <==> search.worklist.contains(f) || (
            before.targets.contains(f) && !search.targets.contains(f)));
            assert(before.targets.contains(closure) || !search.targets.contains(closure));
        }
    }
}

proof fn lemma_searched(
    program: Program,
    nodes: Seq<DefId>,
    search: TargetSearch,
    scanned: Set<usize>,
)
    requires
        search_sound(program, nodes, search, scanned),
    ensures
        ({
            let done = searched(program, search, scanned);
            let edge = creates_closure(program);
            &&& forall|f: usize| #[trigger]
                done.targets.contains(f) <==> graph::reaches(
                    edge,
                    call_graph::node_set(nodes),
                    f,
                )
            &&& nodes.no_duplicates() ==> done.targets.no_duplicates()
        }),
    decreases graph::missing(scanned, program.defs@.len()), search.worklist.len(),
{
    let edge = creates_closure(program);
    let starts = call_graph::node_set(nodes);
    if search.worklist.len() == 0 {
        let all = call_graph::node_set(search.targets);
        assert forall|a: usize, b: usize| all.contains(a) && #[trigger] edge(
            a,
            b,
        ) implies all.contains(b) by {
            assert(search.targets.contains(a));
            assert(!search.worklist.contains(a));
        }
        assert forall|f: usize| #[trigger] search.targets.contains(f) <==> graph::reaches(
            edge,
            starts,
            f,
        ) by {
            if graph::reaches(edge, starts, f) {
                graph::lemma_reaches_closed(edge, starts, all, f);
            }
        }
        assert(searched(program, search, scanned) == search);
    } else {
        let f = search.worklist.last();
        let rest = TargetSearch { worklist: search.worklist.drop_last(), ..search };
        assert(search.worklist =~= rest.worklist.push(f));
        assert forall|g: usize| #[trigger] search.worklist.contains(g) <==> rest.worklist.contains(
            g,
        ) || g == f by {
            graph::lemma_push_contains(rest.worklist, f, g);
        }
        assert(search.worklist.contains(f));
        assert(search.targets.contains(f));
        if scanned.contains(f) || f >= program.defs@.len() {
            assert(search_sound(program, nodes, rest, scanned)) by {
                assert forall|g: usize| #[trigger] rest.worklist.contains(
                    g,
                ) implies rest.targets.contains(g) by {
                    assert(search.worklist.contains(g));
                }
                assert forall|g: usize| #[trigger] rest.targets.contains(g) implies scanned.contains(
                    g,
                ) || rest.worklist.contains(g) || g >= program.defs@.len() by {
                    assert(search.worklist.contains(g) <==> rest.worklist.contains(g) || g == f);
                }
            }
            lemma_searched(program, nodes, rest, scanned);
            assert(searched(program, search, scanned) == searched(program, rest, scanned));
        } else {
            assert(program.defs.len() == program.defs@.len());
            graph::lemma_missing_grows(scanned, scanned.insert(f), program.defs@.len(), f);
            let found = if cosmwasm::analysable(program, f) {
                captures_of(cosmwasm::body_at(program, f))
            } else {
                Seq::empty()
            };
            let next = with_closures(program, rest, found);
            lemma_with_closures(program, rest, found);
            assert(search_sound(program, nodes, next, scanned.insert(f))) by {
                assert forall|g: usize| #[trigger] next.targets.contains(g) implies graph::reaches(
                    edge,
                    starts,
                    g,
                ) by {
                    if !search.targets.contains(g) {
                        assert(edge(f, g));
                        graph::lemma_reaches_step(edge, starts, f, g);
                    }
                }
                assert forall|g: usize| #[trigger] nodes.contains(g) implies next.targets.contains(
                    g,
                ) by {
                    assert(rest.targets.contains(g));
                }
                assert forall|g: usize| #[trigger] next.worklist.contains(
                    g,
                ) implies next.targets.contains(g) by {
                    if rest.worklist.contains(g) {
                        assert(search.worklist.contains(g));
                        assert(rest.targets.contains(g));
                    }
                }
                assert forall|g: usize| #[trigger]
                    next.targets.contains(g) implies scanned.insert(f).contains(g)
                    || next.worklist.contains(g) || g >= program.defs@.len() by {
                    if rest.targets.contains(g) {
                        assert(search.targets.contains(g));
                        assert(search.worklist.contains(g) <==> rest.worklist.contains(g) || g == f);
                    }
                }
                assert forall|a: usize, b: usize| scanned.insert(f).contains(a) && #[trigger] edge(
                    a,
                    b,
                ) implies next.targets.contains(b) by {
                    if a != f {
                        assert(search.targets.contains(b));
                    }
                }
            }
            lemma_searched(program, nodes, next, scanned.insert(f));
            if !cosmwasm::analysable(program, f) {
                assert(next == rest);
            }
            assert(searched(program, search, scanned) == searched(
                program,
                next,
                scanned.insert(f),
            ));
        }
    }
}

/// The bodies stage 3 analyses are exactly the analysable functions of the call
/// graph and the closures created inside them, transitively; each of them once.
pub proof fn lemma_targets_of(program: Program, nodes: Seq<DefId>)
    ensures
        forall|f: usize| #[trigger]
            targets_of(program, nodes).contains(f) <==> f < program.defs@.len()
                && cosmwasm::analysable(program, f) && graph::reaches(
                creates_closure(program),
                call_graph::node_set(nodes),
                f,
            ),
        nodes.no_duplicates() ==> targets_of(program, nodes).no_duplicates(),
{
    let edge = creates_closure(program);
    let starts = call_graph::node_set(nodes);
    let start = TargetSearch { targets: nodes, worklist: nodes, captures: Seq::empty() };
    assert(search_sound(program, nodes, start, Set::empty())) by {
        assert forall|f: usize| #[trigger] start.targets.contains(f) implies graph::reaches(
            edge,
            starts,
            f,
        ) by {
            graph::lemma_reaches_start(edge, starts, f);
        }
    }
    lemma_searched(program, nodes, start, Set::empty());
    lemma_with_body(program, target_search(program, nodes).targets);
}

proof fn lemma_with_body(program: Program, defs: Seq<DefId>)
    ensures
        forall|f: usize| #[trigger]
            with_body(program, defs).contains(f) <==> defs.contains(f) && f < program.defs@.len()
                && cosmwasm::analysable(program, f),
        defs.no_duplicates() ==> with_body(program, defs).no_duplicates(),
    decreases defs.len(),
{
    if defs.len() > 0 {
        let fewer = defs.drop_last();
        lemma_with_body(program, fewer);
        let before = with_body(program, fewer);
        assert(defs =~= fewer.push(defs.last()));
        assert forall|f: usize| #[trigger] with_body(program, defs).contains(f)
            <==> defs.contains(f) && f < program.defs@.len() && cosmwasm::analysable(
            program,
            f,
        ) by {
            graph::lemma_push_contains(fewer, defs.last(), f);
            graph::lemma_push_contains(before, defs.last(), f);
        }
        if defs.no_duplicates() {
            assert(fewer.no_duplicates());
            assert(!fewer.contains(defs.last())) by {
                if fewer.contains(defs.last()) {
                    let k = choose|k: int| 0 <= k < fewer.len() && fewer[k] == defs.last();
                    assert(defs[k] == defs[defs.len() - 1]);
                }
            }
            assert(!before.contains(defs.last()));
        }
    }
}

/// Determines the bodies stage 3 works on: the call-graph nodes plus every
/// closure created inside them, transitively. Closures are not call edges but
/// still have to be tainted and analysed. The second return value records, per
/// closure, the enclosing function and the locals captured as upvars.
#[verifier::loop_isolation(false)]
fn collect_targets(program: &Program, call_graph: &CallGraph) -> (found: (
    Vec<DefId>,
    Vec<ClosureCapture>,
))
    requires
        program.wf(),
        call_graph.describes(*program),
    ensures
        found.0@ == targets_of(*program, call_graph.node_list()),
        capture_views(found.1@) == target_search(*program, call_graph.node_list()).captures,
        forall|i: int|
            0 <= i < found.0@.len() ==> #[trigger] found.0@[i] < program.defs@.len()
                && cosmwasm::analysable(*program, found.0@[i]),
{
    let mut targets: Vec<DefId> = call_graph.nodes().clone();
    let mut worklist: Vec<DefId> = call_graph.nodes().clone();
    assert(targets@ =~= call_graph.node_list());
    assert(worklist@ =~= call_graph.node_list());
    let mut known = DenseSet::new();
    assert(known@ =~= call_graph::node_set(targets@.take(0)));
    for i in 0..targets.len()
        invariant
            known@ == call_graph::node_set(targets@.take(i as int)),
    {
        let ghost before = known@;
        known.insert(targets[i]);
        proof {
            assert(targets@.take(i + 1) =~= targets@.take(i as int).push(targets@[i as int]));
            assert forall|e: usize| #[trigger] known@.contains(e) == call_graph::node_set(
                targets@.take(i + 1),
            ).contains(e) by {
                graph::lemma_push_contains(targets@.take(i as int), targets@[i as int], e);
            }
            assert(known@ =~= call_graph::node_set(targets@.take(i + 1)));
        }
    }
    assert(targets@.take(targets@.len() as int) =~= targets@);
    let mut captures: Vec<ClosureCapture> = Vec::new();
    let mut scanned = DenseSet::new();
    assert(capture_views(captures@) =~= Seq::<CaptureView>::empty());

    while worklist.len() > 0
        invariant
            known@ == call_graph::node_set(targets@),
            searched(
                *program,
                TargetSearch {
                    targets: targets@,
                    worklist: worklist@,
                    captures: capture_views(captures@),
                },
                scanned@,
            ) == target_search(*program, call_graph.node_list()),
            forall|i: int| 0 <= i < worklist@.len() ==> #[trigger] worklist@[i] < program.defs@.len(),
            forall|i: int| 0 <= i < targets@.len() ==> #[trigger] targets@[i] < program.defs@.len(),
        decreases graph::missing(scanned@, program.defs@.len()), worklist@.len(),
    {
        let ghost worklist0 = worklist@;
        let ghost scanned0 = scanned@;
        let f: DefId = worklist.pop().unwrap();
        assert(worklist0.last() == f);
        assert(worklist@ =~= worklist0.drop_last());
        assert(worklist0[worklist0.len() - 1] == f);
        if scanned.insert(f) {
            proof {
                assert(program.defs.len() == program.defs@.len());
                graph::lemma_missing_grows(scanned0, scanned@, program.defs@.len(), f);
            }
            if let Some(body) = cosmwasm::body_of(program, f) {
                let found = find_closure_captures(program, body);
                let ghost all = capture_views(found@);
                let ghost start = TargetSearch {
                    targets: targets@,
                    worklist: worklist@,
                    captures: capture_views(captures@),
                };
                assert(all.take(0) =~= Seq::<CaptureView>::empty());
                for i in 0..found.len()
                    invariant
                        known@ == call_graph::node_set(targets@),
                        with_closures(*program, start, all.take(i as int)) == (TargetSearch {
                            targets: targets@,
                            worklist: worklist@,
                            captures: capture_views(captures@),
                        }),
                        forall|k: int|
                            0 <= k < worklist@.len() ==> #[trigger] worklist@[k]
                                < program.defs@.len(),
                        forall|k: int|
                            0 <= k < targets@.len() ==> #[trigger] targets@[k]
                                < program.defs@.len(),
                {
                    assert(all.take(i + 1).drop_last() =~= all.take(i as int));
                    let capture = ClosureCapture {
                        enclosing: found[i].enclosing,
                        closure: found[i].closure,
                        captures: found[i].captures.clone(),
                    };
                    assert(capture.captures@ =~= found@[i as int].captures@);
                    assert(capture@ == all[i as int]);
                    let closure: DefId = capture.closure;
                    let ghost captures0 = captures@;
                    let ghost targets0 = targets@;
                    captures.push(capture);
                    assert(capture_views(captures@) =~= capture_views(captures0).push(
                        all[i as int],
                    ));
                    if program.defs[closure].is_local && !known.contains(closure) {
                        known.insert(closure);
                        targets.push(closure);
                        worklist.push(closure);
                        proof {
                            assert forall|e: usize| #[trigger] known@.contains(
                                e,
                            ) == call_graph::node_set(targets@).contains(e) by {
                                graph::lemma_push_contains(targets0, closure, e);
                            }
                            assert(known@ =~= call_graph::node_set(targets@));
                        }
                    }
                }
                assert(all.take(all.len() as int) =~= all);
            }
        } else {
            assert(scanned@ =~= scanned0);
        }
    }

    let mut kept: Vec<DefId> = Vec::new();
    assert(targets@.take(0) =~= Seq::<DefId>::empty());
    for i in 0..targets.len()
        invariant
            kept@ == with_body(*program, targets@.take(i as int)),
            forall|k: int|
                0 <= k < kept@.len() ==> #[trigger] kept@[k] < program.defs@.len()
                    && cosmwasm::analysable(*program, kept@[k]),
    {
        assert(targets@.take(i + 1).drop_last() =~= targets@.take(i as int));
        if cosmwasm::is_analysable(program, targets[i]) {
            kept.push(targets[i]);
        }
    }
    assert(targets@.take(targets@.len() as int) =~= targets@);
    (kept, captures)
}

/// The seeds of every function: pairs of a function and a parameter local, and
/// pairs of a closure and an upvar index.
#[verifier::ext_equal]
pub ghost struct SeedState {
    pub params: Set<(usize, usize)>,
    pub upvars: Set<(usize, usize)>,
}

/// The second components that stand beside `first`.
pub open spec fn row_of(pairs: Set<(usize, usize)>, first: usize) -> Set<usize> {
    Set::new(|second: usize| pairs.contains((first, second)))
}

/// The locals of a function that carry the sender under the given seeds.
pub open spec fn seeded_locals(program: Program, seeds: SeedState, f: DefId) -> Set<usize> {
    sender_locals(
        program,
        cosmwasm::body_at(program, f),
        row_of(seeds.params, f),
        row_of(seeds.upvars, f),
    )
}

/// A local carries the sender and has a type that can.
pub open spec fn passes_sender(
    program: Program,
    body: Body,
    taint: Set<usize>,
    local: Option<Local>,
) -> bool {
    local matches Some(l) && taint.contains(l) && l < body.local_decls@.len() && sender_like(
        program,
        body.local_decls@[l as int],
    )
}

/// What a call seeds: the actual at position `i` seeds the callee's formal
/// parameter `_{i+1}`.
pub open spec fn site_seeds(
    program: Program,
    body: Body,
    taint: Set<usize>,
    site: CallSiteView,
) -> Set<(usize, usize)> {
    Set::new(
        |p: (usize, usize)|
            p.0 == site.callee && 1 <= p.1 <= site.arg_locals.len() && passes_sender(
                program,
                body,
                taint,
                site.arg_locals[p.1 - 1],
            ),
    )
}

/// What the creation of a closure seeds: the capture at index `k` seeds upvar
/// `k`.
pub open spec fn capture_seeds(
    program: Program,
    body: Body,
    taint: Set<usize>,
    capture: CaptureView,
) -> Set<(usize, usize)> {
    Set::new(
        |p: (usize, usize)|
            p.0 == capture.closure && p.1 < capture.captures.len() && passes_sender(
                program,
                body,
                taint,
                capture.captures[p.1 as int],
            ),
    )
}

/// The parameters that the calls made inside `f` seed.
pub open spec fn params_from(
    program: Program,
    nodes: Seq<DefId>,
    seeds: SeedState,
    f: DefId,
) -> Set<(usize, usize)> {
    Set::new(
        |p: (usize, usize)|
            nodes.contains(f) && exists|i: int|
                0 <= i < call_graph::node_sites(program, f).len() && site_seeds(
                    program,
                    cosmwasm::body_at(program, f),
                    seeded_locals(program, seeds, f),
                    #[trigger] call_graph::node_sites(program, f)[i],
                ).contains(p),
    )
}

/// The upvars that the closures created inside `f` seed.
pub open spec fn upvars_from(
    program: Program,
    captures: Seq<CaptureView>,
    seeds: SeedState,
    f: DefId,
) -> Set<(usize, usize)> {
    Set::new(
        |p: (usize, usize)|
            exists|i: int|
                0 <= i < captures.len() && (#[trigger] captures[i]).enclosing == f && capture_seeds(
                    program,
                    cosmwasm::body_at(program, f),
                    seeded_locals(program, seeds, f),
                    captures[i],
                ).contains(p),
    )
}

/// One round of the seeding over the first `count` targets: what each of them
/// seeds while it is tainted with the seeds of the round's start.
pub open spec fn seeds_after(
    program: Program,
    nodes: Seq<DefId>,
    seeds: SeedState,
    count: nat,
) -> SeedState {
    let targets = targets_of(program, nodes);
    let captures = target_search(program, nodes).captures;
    SeedState {
        params: Set::new(
            |p: (usize, usize)|
                seeds.params.contains(p) || exists|t: int|
                    0 <= t < count && params_from(
                        program,
                        nodes,
                        seeds,
                        #[trigger] targets[t],
                    ).contains(p),
        ),
        upvars: Set::new(
            |p: (usize, usize)|
                seeds.upvars.contains(p) || exists|t: int|
                    0 <= t < count && upvars_from(
                        program,
                        captures,
                        seeds,
                        #[trigger] targets[t],
                    ).contains(p),
        ),
    }
}

/// One round of the seeding.
pub open spec fn seed_round(program: Program, nodes: Seq<DefId>, seeds: SeedState) -> SeedState {
    seeds_after(program, nodes, seeds, targets_of(program, nodes).len())
}

/// The seeds after a number of rounds.
pub open spec fn seed_rounds(program: Program, nodes: Seq<DefId>, rounds: nat) -> SeedState
    decreases rounds,
{
    if rounds == 0 {
        SeedState { params: Set::empty(), upvars: Set::empty() }
    } else {
        seed_round(program, nodes, seed_rounds(program, nodes, (rounds - 1) as nat))
    }
}

/// A local of a body has a type that can carry the sender.
pub open spec fn sender_typed(program: Program, body: Body, local: Option<Local>) -> bool {
    local matches Some(l) && l < body.local_decls@.len() && sender_like(
        program,
        body.local_decls@[l as int],
    )
}

/// Call `i` of `f`, a function of the call graph, passes a value of a type that
/// can carry the sender to parameter `p.1` of `p.0`.
pub open spec fn typed_actual(
    program: Program,
    nodes: Seq<DefId>,
    f: DefId,
    i: int,
    p: (usize, usize),
) -> bool {
    let sites = call_graph::node_sites(program, f);
    nodes.contains(f) && 0 <= i < sites.len() && sites[i].callee == p.0 && 1 <= p.1
        <= sites[i].arg_locals.len() && sender_typed(
        program,
        cosmwasm::body_at(program, f),
        sites[i].arg_locals[p.1 - 1],
    )
}

/// Capture `i` of the search captures a value of a type that can carry the sender
/// as upvar `p.1` of the closure `p.0`.
pub open spec fn typed_capture(
    program: Program,
    nodes: Seq<DefId>,
    i: int,
    p: (usize, usize),
) -> bool {
    let captures = target_search(program, nodes).captures;
    0 <= i < captures.len() && captures[i].closure == p.0 && p.1 < captures[i].captures.len()
        && sender_typed(
        program,
        cosmwasm::body_at(program, captures[i].enclosing),
        captures[i].captures[p.1 as int],
    )
}

/// A parameter is seeded only where some call passes it a value of a type that
/// can carry the sender, and an upvar only where some closure is created with
/// such a value, so a parameter such as a list of assets is never mistaken for
/// the sender.
pub proof fn lemma_seeds_are_sender_typed(program: Program, nodes: Seq<DefId>, rounds: nat)
    ensures
        forall|p: (usize, usize)| #[trigger]
            seed_rounds(program, nodes, rounds).params.contains(p) ==> exists|f: DefId, i: int|
                typed_actual(program, nodes, f, i, p),
        forall|p: (usize, usize)| #[trigger]
            seed_rounds(program, nodes, rounds).upvars.contains(p) ==> exists|i: int|
                typed_capture(program, nodes, i, p),
    decreases rounds,
{
    if rounds > 0 {
        lemma_seeds_are_sender_typed(program, nodes, (rounds - 1) as nat);
        let seeds = seed_rounds(program, nodes, (rounds - 1) as nat);
        let after = seed_rounds(program, nodes, rounds);
        let targets = targets_of(program, nodes);
        let captures = target_search(program, nodes).captures;
        assert forall|p: (usize, usize)| #[trigger] after.params.contains(p) implies exists|
            f: DefId,
            i: int,
        | typed_actual(program, nodes, f, i, p) by {
            if !seeds.params.contains(p) {
                let t = choose|t: int|
                    0 <= t < targets.len() && params_from(
                        program,
                        nodes,
                        seeds,
                        #[trigger] targets[t],
                    ).contains(p);
                let f = targets[t];
                let i = choose|i: int|
                    0 <= i < call_graph::node_sites(program, f).len() && site_seeds(
                        program,
                        cosmwasm::body_at(program, f),
                        seeded_locals(program, seeds, f),
                        #[trigger] call_graph::node_sites(program, f)[i],
                    ).contains(p);
                assert(typed_actual(program, nodes, f, i, p));
            }
        }
        assert forall|p: (usize, usize)| #[trigger] after.upvars.contains(p) implies exists|
            i: int,
        | typed_capture(program, nodes, i, p) by {
            if !seeds.upvars.contains(p) {
                let t = choose|t: int|
                    0 <= t < targets.len() && upvars_from(
                        program,
                        captures,
                        seeds,
                        #[trigger] targets[t],
                    ).contains(p);
                let f = targets[t];
                let i = choose|i: int|
                    0 <= i < captures.len() && (#[trigger] captures[i]).enclosing == f
                        && capture_seeds(
                        program,
                        cosmwasm::body_at(program, f),
                        seeded_locals(program, seeds, f),
                        captures[i],
                    ).contains(p);
                assert(typed_capture(program, nodes, i, p));
            }
        }
    }
}

/// Every round keeps the seeds of the rounds in front of it.
pub proof fn lemma_seeds_grow(program: Program, nodes: Seq<DefId>, fewer: nat, more: nat)
    requires
        fewer <= more,
    ensures
        seed_rounds(program, nodes, fewer).params.subset_of(
            seed_rounds(program, nodes, more).params,
        ),
        seed_rounds(program, nodes, fewer).upvars.subset_of(
            seed_rounds(program, nodes, more).upvars,
        ),
    decreases more,
{
    if fewer < more {
        lemma_seeds_grow(program, nodes, fewer, (more - 1) as nat);
    }
}

/// Seeds that a round leaves as they are stay so in every later round.
pub proof fn lemma_seeds_stable(program: Program, nodes: Seq<DefId>, rounds: nat, more: nat)
    requires
        rounds <= more,
        seed_rounds(program, nodes, rounds + 1) == seed_rounds(program, nodes, rounds),
    ensures
        seed_rounds(program, nodes, more) == seed_rounds(program, nodes, rounds),
    decreases more,
{
    if rounds < more {
        lemma_seeds_stable(program, nodes, rounds, (more - 1) as nat);
    }
}

/// Upper bound on the seeding iterations. The seed sets grow monotonically and
/// converge long before this in practice; the bound only guards against
/// pathological call graphs.
pub const MAX_SEED_ROUNDS: usize = 16;

/// The bodies stage 3 analyses: the call-graph nodes plus every closure
/// created inside them, together with the seeds each of them was reached with.
#[derive(Debug)]
pub struct SenderTaint {
    /// Analysable bodies in deterministic order.
    pub targets: Vec<DefId>,
    /// Pairs of a function and a seeded parameter local.
    pub params: PairSet,
    /// Pairs of a closure and a seeded upvar index.
    pub upvars: PairSet,
}

impl SenderTaint {
    /// The seeds of every function.
    pub open spec fn seeds(self) -> SeedState {
        SeedState { params: self.params@, upvars: self.upvars@ }
    }

    /// The seeds a body was reached with; none for a body that was not reached.
    pub fn seeds_of(&self, def_id: DefId) -> (seeds: SenderSeeds)
        ensures
            seeds.param_locals@ == row_of(self.seeds().params, def_id),
            seeds.upvar_indices@ == row_of(self.seeds().upvars, def_id),
    {
        let seeds = SenderSeeds {
            param_locals: self.params.row(def_id),
            upvar_indices: self.upvars.row(def_id),
        };
        assert(seeds.param_locals@ =~= row_of(self.params@, def_id));
        assert(seeds.upvar_indices@ =~= row_of(self.upvars@, def_id));
        seeds
    }
}

/// Returns whether a local carries the sender and has a type that can.
fn local_passes_sender(
    program: &Program,
    body: &Body,
    taint: &DenseSet,
    local: Option<Local>,
) -> (passes: bool)
    requires
        program.wf(),
        body.wf(*program),
    ensures
        passes == passes_sender(*program, *body, taint@, local),
{
    match local {
        Some(l) => taint.contains(l) && l < body.local_decls.len() && ty_is_sender_like(
            program,
            body.local_decls[l],
        ),
        None => false,
    }
}

/// Argument wiring: a sender-tainted actual at position `i` taints the
/// callee's formal parameter `_{i+1}`, but only if the passed value has a
/// sender-compatible type. The restriction is on the *caller's* argument type, not on
/// the callee's parameter: the callee may be generic (`addr: impl AsRef<str>`),
/// whose formal type is only a type parameter, while the actual passed at the
/// call site is concrete. This keeps the taint out of non-address parameters
/// such as a `Vec<Asset>` while still seeding generic helpers like `is_admin`.
fn wire_site(
    program: &Program,
    body: &Body,
    taint: &DenseSet,
    site: &CallSite,
    params: &mut PairSet,
) -> (changed: bool)
    requires
        program.wf(),
        body.wf(*program),
    ensures
        final(params)@ == old(params)@.union(site_seeds(*program, *body, taint@, site@)),
        changed == (final(params)@ != old(params)@),
{
    let ghost before = params@;
    let ghost seeds = site_seeds(*program, *body, taint@, site@);
    let mut changed = false;
    for i in 0..site.arg_locals.len()
        invariant
            program.wf(),
            body.wf(*program),
            seeds == site_seeds(*program, *body, taint@, site@),
            params@ == before.union(seeds.filter(|p: (usize, usize)| p.1 <= i)),
            changed ==> params@ != before,
            !changed ==> params@ == before,
    {
        let ghost params0 = params@;
        if local_passes_sender(program, body, taint, site.arg_locals[i]) {
            let newly = params.insert(site.callee, i + 1);
            assert(seeds.contains((site.callee, (i + 1) as usize)));
            proof {
                if newly {
                    assert(params@.contains((site.callee, (i + 1) as usize)));
                    assert(!before.contains((site.callee, (i + 1) as usize)));
                } else {
                    assert(params@ =~= params0);
                }
            }
            if newly {
                changed = true;
            }
        }
        assert(params@ =~= before.union(seeds.filter(|p: (usize, usize)| p.1 <= i + 1)));
    }
    assert(params@ =~= before.union(seeds));
    changed
}

/// Capture wiring: a sender-tainted capture at index `k` taints upvar `k` of the
/// closure, again only for sender-compatible types.
fn wire_capture(
    program: &Program,
    body: &Body,
    taint: &DenseSet,
    capture: &ClosureCapture,
    upvars: &mut PairSet,
) -> (changed: bool)
    requires
        program.wf(),
        body.wf(*program),
    ensures
        final(upvars)@ == old(upvars)@.union(capture_seeds(*program, *body, taint@, capture@)),
        changed == (final(upvars)@ != old(upvars)@),
{
    let ghost before = upvars@;
    let ghost seeds = capture_seeds(*program, *body, taint@, capture@);
    let mut changed = false;
    for k in 0..capture.captures.len()
        invariant
            program.wf(),
            body.wf(*program),
            seeds == capture_seeds(*program, *body, taint@, capture@),
            upvars@ == before.union(seeds.filter(|p: (usize, usize)| p.1 < k)),
            changed ==> upvars@ != before,
            !changed ==> upvars@ == before,
    {
        let ghost upvars0 = upvars@;
        if local_passes_sender(program, body, taint, capture.captures[k]) {
            let newly = upvars.insert(capture.closure, k);
            assert(seeds.contains((capture.closure, k)));
            proof {
                if newly {
                    assert(upvars@.contains((capture.closure, k)));
                    assert(!before.contains((capture.closure, k)));
                } else {
                    assert(upvars@ =~= upvars0);
                }
            }
            if newly {
                changed = true;
            }
        }
        assert(upvars@ =~= before.union(seeds.filter(|p: (usize, usize)| p.1 < k + 1)));
    }
    assert(upvars@ =~= before.union(seeds));
    changed
}

/// What one more target adds in a round.
proof fn lemma_seeds_after_step(
    program: Program,
    nodes: Seq<DefId>,
    start: SeedState,
    t: nat,
    before: SeedState,
    after: SeedState,
    sites: Seq<CallSiteView>,
    captures: Seq<CaptureView>,
)
    requires
        t < targets_of(program, nodes).len(),
        before == seeds_after(program, nodes, start, t),
        captures == target_search(program, nodes).captures,
        sites == (if nodes.contains(targets_of(program, nodes)[t as int]) {
            call_graph::node_sites(program, targets_of(program, nodes)[t as int])
        } else {
            Seq::empty()
        }),
        forall|p: (usize, usize)| #[trigger]
            after.params.contains(p) <==> before.params.contains(p) || exists|j: int|
                0 <= j < sites.len() && site_seeds(
                    program,
                    cosmwasm::body_at(program, targets_of(program, nodes)[t as int]),
                    seeded_locals(program, start, targets_of(program, nodes)[t as int]),
                    #[trigger] sites[j],
                ).contains(p),
        forall|p: (usize, usize)| #[trigger]
            after.upvars.contains(p) <==> before.upvars.contains(p) || exists|j: int|
                0 <= j < captures.len() && (#[trigger] captures[j]).enclosing == targets_of(
                    program,
                    nodes,
                )[t as int] && capture_seeds(
                    program,
                    cosmwasm::body_at(program, targets_of(program, nodes)[t as int]),
                    seeded_locals(program, start, targets_of(program, nodes)[t as int]),
                    captures[j],
                ).contains(p),
    ensures
        after == seeds_after(program, nodes, start, t + 1),
{
    let targets = targets_of(program, nodes);
    let f = targets[t as int];
    let body = cosmwasm::body_at(program, f);
    let locals = seeded_locals(program, start, f);
    let goal = seeds_after(program, nodes, start, t + 1);
    assert forall|p: (usize, usize)| #[trigger] after.params.contains(p) == goal.params.contains(
        p,
    ) by {
        if after.params.contains(p) && !before.params.contains(p) {
            let j = choose|j: int|
                0 <= j < sites.len() && site_seeds(program, body, locals, #[trigger] sites[j]).contains(
                    p,
                );
            assert(call_graph::node_sites(program, f)[j] == sites[j]);
            assert(params_from(program, nodes, start, targets[t as int]).contains(p));
        }
        if goal.params.contains(p) && !before.params.contains(p) {
            let u = choose|u: int|
                0 <= u < t + 1 && params_from(program, nodes, start, #[trigger] targets[u]).contains(
                    p,
                );
            assert(u == t);
            let j = choose|j: int|
                0 <= j < call_graph::node_sites(program, f).len() && site_seeds(
                    program,
                    body,
                    locals,
                    #[trigger] call_graph::node_sites(program, f)[j],
                ).contains(p);
            assert(sites[j] == call_graph::node_sites(program, f)[j]);
        }
    }
    assert forall|p: (usize, usize)| #[trigger] after.upvars.contains(p) == goal.upvars.contains(
        p,
    ) by {
        if after.upvars.contains(p) && !before.upvars.contains(p) {
            assert(upvars_from(program, captures, start, targets[t as int]).contains(p));
        }
        if goal.upvars.contains(p) && !before.upvars.contains(p) {
            let u = choose|u: int|
                0 <= u < t + 1 && upvars_from(program, captures, start, #[trigger] targets[u]).contains(
                    p,
                );
            assert(u == t);
        }
    }
    assert(after =~= goal);
}

/// Interprocedural sender-taint seeding over the call graph.
///
/// An intraprocedural taint alone misses every check in which the sender
/// arrives indirectly: as a function argument or as a closure upvar. This
/// computes a fixpoint (taint each body with its current seeds, and propagate
/// sender-tainted actuals into the callee's formal parameters and sender-tainted
/// captures into the closure's upvars) until the seeds stop growing. Stage 3's
/// detection pass then runs on stable seeds.
#[verifier::loop_isolation(false)]
#[verifier::rlimit(40)]
pub fn seed_sender_taint(program: &Program, call_graph: &CallGraph) -> (taint: SenderTaint)
    requires
        program.wf(),
        call_graph.describes(*program),
    ensures
        taint.targets@ == targets_of(*program, call_graph.node_list()),
        taint.seeds() == seed_rounds(
            *program,
            call_graph.node_list(),
            MAX_SEED_ROUNDS as nat,
        ),
        forall|i: int|
            0 <= i < taint.targets@.len() ==> #[trigger] taint.targets@[i] < program.defs@.len()
                && cosmwasm::analysable(*program, taint.targets@[i]),
{
    let ghost nodes = call_graph.node_list();
    let (targets, closure_captures) = collect_targets(program, call_graph);
    let ghost captures = capture_views(closure_captures@);
    let mut taint = SenderTaint { targets, params: PairSet::new(), upvars: PairSet::new() };
    let mut round: usize = 0;
    let mut changed = true;
    while round < MAX_SEED_ROUNDS && changed
        invariant
            round <= MAX_SEED_ROUNDS,
            taint.targets@ == targets_of(*program, nodes),
            forall|i: int|
                0 <= i < taint.targets@.len() ==> #[trigger] taint.targets@[i] < program.defs@.len()
                    && cosmwasm::analysable(*program, taint.targets@[i]),
            taint.seeds() == seed_rounds(*program, nodes, round as nat),
            !changed ==> seed_round(*program, nodes, taint.seeds()) == taint.seeds(),
        decreases MAX_SEED_ROUNDS - round,
    {
        let ghost start = taint.seeds();
        let mut params = taint.params.clone();
        let mut upvars = taint.upvars.clone();
        changed = false;
        assert(seeds_after(*program, nodes, start, 0) =~= start);
        for t in 0..taint.targets.len()
            invariant
                (SeedState { params: params@, upvars: upvars@ }) == seeds_after(
                    *program,
                    nodes,
                    start,
                    t as nat,
                ),
                !changed ==> params@ == start.params && upvars@ == start.upvars,
        {
            let f: DefId = taint.targets[t];
            if let Some(body) = cosmwasm::body_of(program, f) {
                let locals = compute_sender_locals(program, body, &taint.seeds_of(f));
                assert(locals@ == seeded_locals(*program, start, f));
                let sites = call_graph.call_sites_in(f);
                let ghost views = call_graph::site_views(sites@);
                let ghost params0 = params@;
                let ghost upvars0 = upvars@;
                for i in 0..sites.len()
                    invariant
                        forall|p: (usize, usize)| #[trigger]
                            params@.contains(p) <==> params0.contains(p) || exists|j: int|
                                0 <= j < i && site_seeds(
                                    *program,
                                    *body,
                                    locals@,
                                    #[trigger] views[j],
                                ).contains(p),
                        !changed ==> params@ == start.params && upvars@ == start.upvars,
                {
                    let ghost params1 = params@;
                    let wired = wire_site(program, body, &locals, &sites[i], &mut params);
                    if wired {
                        changed = true;
                    }
                    proof {
                        assert(views[i as int] == sites@[i as int]@);
                        assert forall|p: (usize, usize)| #[trigger]
                            params@.contains(p) <==> params0.contains(p) || exists|j: int|
                                0 <= j < i + 1 && site_seeds(
                                    *program,
                                    *body,
                                    locals@,
                                    #[trigger] views[j],
                                ).contains(p) by {
                            if params1.contains(p) && !params0.contains(p) {
                                let j = choose|j: int|
                                    0 <= j < i && site_seeds(
                                        *program,
                                        *body,
                                        locals@,
                                        #[trigger] views[j],
                                    ).contains(p);
                                assert(views[j] == sites@[j]@);
                            }
                        }
                    }
                }
                for i in 0..closure_captures.len()
                    invariant
                        forall|p: (usize, usize)| #[trigger]
                            upvars@.contains(p) <==> upvars0.contains(p) || exists|j: int|
                                0 <= j < i && (#[trigger] captures[j]).enclosing == f
                                    && capture_seeds(
                                    *program,
                                    *body,
                                    locals@,
                                    captures[j],
                                ).contains(p),
                        !changed ==> params@ == start.params && upvars@ == start.upvars,
                {
                    let ghost upvars1 = upvars@;
                    assert(captures[i as int] == closure_captures@[i as int]@);
                    if closure_captures[i].enclosing == f {
                        let wired = wire_capture(
                            program,
                            body,
                            &locals,
                            &closure_captures[i],
                            &mut upvars,
                        );
                        if wired {
                            changed = true;
                        }
                    }
                    proof {
                        assert forall|p: (usize, usize)| #[trigger]
                            upvars@.contains(p) <==> upvars0.contains(p) || exists|j: int|
                                0 <= j < i + 1 && (#[trigger] captures[j]).enclosing == f
                                    && capture_seeds(
                                    *program,
                                    *body,
                                    locals@,
                                    captures[j],
                                ).contains(p) by {}
                    }
                }
                proof {
                    lemma_seeds_after_step(
                        *program,
                        nodes,
                        start,
                        t as nat,
                        SeedState { params: params0, upvars: upvars0 },
                        SeedState { params: params@, upvars: upvars@ },
                        views,
                        captures,
                    );
                }
            }
        }
        taint.params = params;
        taint.upvars = upvars;
        round = round + 1;
        assert(taint.seeds() =~= seed_round(*program, nodes, start));
        assert(!changed ==> taint.seeds() =~= start);
    }
    proof {
        if !changed {
            assert(seed_rounds(*program, nodes, (round + 1) as nat) == seed_round(
                *program,
                nodes,
                seed_rounds(*program, nodes, round as nat),
            ));
            lemma_seeds_stable(*program, nodes, round as nat, MAX_SEED_ROUNDS as nat);
        }
    }
    taint
}

} // verus!
