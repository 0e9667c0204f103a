//! Which storage constant stands behind a receiver.

use crate::graph;
use crate::laws;
use crate::laws::addresses;
use crate::laws::flows;
use crate::mir::{Assign, Body, DefId, DefKind, Local, Operand, Program, Rvalue, Statement, Ty};
use crate::mir_util;
use crate::storage_inventory;
use crate::storage_inventory::ConstDef;
use vstd::prelude::*;

verus! {

/// Statement `k` of a block is the only assignment to a local.
pub open spec fn is_only_assignment(body: Body, block: int, k: int, assign: Assign) -> bool {
    laws::assigns(body, block, k, assign) && forall|b: int, j: int| #[trigger]
        flows::assigns_local(body, b, j, assign.place.local) ==> b == block && j == k
}

/// The only assignment to a local copies, moves, borrows or dereferences another.
pub open spec fn is_made_of(body: Body, to: Local, from: Local) -> bool {
    exists|block: int, k: int, assign: Assign| #[trigger]
        is_only_assignment(body, block, k, assign) && assign.place.local == to
            && match assign.rvalue {
            Rvalue::Use(op) => laws::reads(op, from),
            Rvalue::Ref(_, place) => place.local == from,
            Rvalue::CopyForDeref(place) => place.local == from,
            _ => false,
        }
}

/// The only assignment to a local gives it a constant item of the crate itself that
/// is not evaluated yet.
pub open spec fn is_made_of_constant(program: Program, body: Body, local: Local, item: DefId) -> bool {
    exists|block: int, k: int, assign: Assign| #[trigger]
        is_only_assignment(body, block, k, assign) && assign.place.local == local && (
        assign.rvalue matches Rvalue::Use(Operand::Constant(constant)) && constant.unevaluated
            == Some(item) && program.defs@[item as int].is_local
            && program.defs@[item as int].kind is Const)
}

proof fn lemma_steps(
    program: Program,
    body: Body,
    local: Local,
    block: nat,
    k: nat,
    b: int,
    j: int,
    assign: Assign,
)
    requires
        is_only_assignment(body, b, j, assign),
        assign.place.local == local,
        block <= body.basic_blocks@.len(),
        k > 0 ==> block < body.basic_blocks@.len() && k
            <= body.basic_blocks@[block as int].statements@.len(),
    ensures
        storage_inventory::const_steps_before(program, body, local, block, k) == (if (b < block
            || (b == block && j < k)) && storage_inventory::const_step(program, assign.rvalue)
            is Some {
            seq![storage_inventory::const_step(program, assign.rvalue)->0]
        } else {
            Seq::empty()
        }),
    decreases block, k,
{
    if k > 0 {
        lemma_steps(program, body, local, block, (k - 1) as nat, b, j, assign);
        if let Statement::Assign(other) = body.basic_blocks@[block as int].statements@[k - 1] {
            assert(laws::assigns(body, block as int, k - 1, other));
            if other.place.local == local {
                assert(flows::assigns_local(body, block as int, k - 1, local));
                assert(other == assign);
            }
        }
    } else if block > 0 {
        lemma_steps(
            program,
            body,
            local,
            (block - 1) as nat,
            body.basic_blocks@[block - 1].statements@.len(),
            b,
            j,
            assign,
        );
    }
}

proof fn lemma_made_of(program: Program, body: Body, to: Local, from: Local)
    requires
        is_made_of(body, to, from),
    ensures
        storage_inventory::const_steps(program, body, to) == seq![ConstDef::CopiedFrom(from)],
{
    let (block, k, assign) = choose|block: int, k: int, assign: Assign| #[trigger]
        is_only_assignment(body, block, k, assign) && assign.place.local == to
            && match assign.rvalue {
            Rvalue::Use(op) => laws::reads(op, from),
            Rvalue::Ref(_, place) => place.local == from,
            Rvalue::CopyForDeref(place) => place.local == from,
            _ => false,
        };
    lemma_steps(program, body, to, body.basic_blocks@.len(), 0, block, k, assign);
}

proof fn lemma_made_of_constant(program: Program, body: Body, local: Local, item: DefId)
    requires
        is_made_of_constant(program, body, local, item),
    ensures
        storage_inventory::const_steps(program, body, local) == seq![ConstDef::Item(item)],
{
    let (block, k, assign) = choose|block: int, k: int, assign: Assign| #[trigger]
        is_only_assignment(body, block, k, assign) && assign.place.local == local && (
        assign.rvalue matches Rvalue::Use(Operand::Constant(constant)) && constant.unevaluated
            == Some(item) && program.defs@[item as int].is_local
            && program.defs@[item as int].kind is Const);
    lemma_steps(program, body, local, body.basic_blocks@.len(), 0, block, k, assign);
}

proof fn lemma_search(
    program: Program,
    body: Body,
    chain: Seq<Local>,
    item: DefId,
    seen: Set<usize>,
)
    requires
        chain.len() > 0,
        chain.no_duplicates(),
        forall|i: int| 0 <= i < chain.len() ==> #[trigger] chain[i] < body.local_decls@.len(),
        forall|i: int|
            0 <= i < chain.len() - 1 ==> is_made_of(body, #[trigger] chain[i], chain[i + 1]),
        is_made_of_constant(program, body, chain.last(), item),
        forall|i: int| 0 <= i < chain.len() ==> !seen.contains(#[trigger] chain[i]),
    ensures
        storage_inventory::search_const(program, body, seq![chain[0]], seen) == Some(item),
    decreases chain.len(),
{
    let local = chain[0];
    let worklist = seq![local];
    assert(worklist.last() == local);
    assert(worklist.drop_last() =~= Seq::empty());
    assert(!seen.contains(chain[0]));
    let steps = storage_inventory::const_steps(program, body, local);
    if chain.len() == 1 {
        lemma_made_of_constant(program, body, local, item);
        assert(steps[0] == ConstDef::Item(item));
    } else {
        let rest = chain.skip(1);
        assert(is_made_of(body, chain[0], chain[0 + 1int]));
        lemma_made_of(program, body, local, chain[1]);
        assert(steps[0] == ConstDef::CopiedFrom(chain[1]));
        assert(steps.skip(1) =~= Seq::empty());
        assert(storage_inventory::first_item(steps.skip(1)) is None);
        assert(storage_inventory::first_item(steps) is None);
        assert(steps.drop_last() =~= Seq::empty());
        assert(storage_inventory::copied_locals(steps.drop_last()) =~= Seq::empty());
        assert(storage_inventory::copied_locals(steps) =~= seq![chain[1]]);
        assert(Seq::<Local>::empty() + storage_inventory::copied_locals(steps) =~= seq![rest[0]]);
        assert forall|i: int| 0 <= i < rest.len() - 1 implies is_made_of(
            body,
            #[trigger] rest[i],
            rest[i + 1],
        ) by {
            assert(is_made_of(body, chain[i + 1], chain[i + 1 + 1]));
        }
        assert forall|i: int| 0 <= i < rest.len() implies !seen.insert(local).contains(
            #[trigger] rest[i],
        ) by {
            assert(rest[i] == chain[i + 1]);
        }
        assert(rest.last() == chain.last());
        lemma_search(program, body, rest, item, seen.insert(local));
    }
}

/// The storage constant behind a receiver is the constant item that it was made of,
/// through copies, moves and borrows; it is reported under the item's name.
pub proof fn law_receiver_is_the_constant_it_was_made_of(
    program: Program,
    body: Body,
    chain: Seq<Local>,
    item: DefId,
)
    requires
        chain.len() > 0,
        chain.no_duplicates(),
        forall|i: int| 0 <= i < chain.len() ==> #[trigger] chain[i] < body.local_decls@.len(),
        forall|i: int|
            0 <= i < chain.len() - 1 ==> is_made_of(body, #[trigger] chain[i], chain[i + 1]),
        is_made_of_constant(program, body, chain.last(), item),
    ensures
        storage_inventory::storage_def(program, body, chain[0]) == Some(item),
        storage_inventory::storage_name(program, body, chain[0])
            == program.defs@[item as int].name@,
{
    lemma_search(program, body, chain, item, Set::empty());
}

/// A constant of the crate itself has a type, its regions left aside.
pub open spec fn is_constant_of(program: Program, item: DefId, ty: Ty) -> bool {
    program.defs@[item as int].kind matches DefKind::Const(declared)
        && program.types@[declared as int].erased == program.types@[ty as int].erased
}

proof fn lemma_consts_by_ty(program: Program, defs: Seq<DefId>, ty: Ty, item: DefId)
    ensures
        ({
            let consts = storage_inventory::consts_by_ty(program, defs);
            let erased = program.types@[ty as int].erased;
            consts.contains_key(erased) && consts[erased] == item <==> exists|i: int|
                0 <= i < defs.len() && #[trigger] defs[i] == item && is_constant_of(
                    program,
                    item,
                    ty,
                ) && forall|j: int|
                    0 <= j < i ==> !is_constant_of(program, #[trigger] defs[j], ty)
        }),
        ({
            let consts = storage_inventory::consts_by_ty(program, defs);
            consts.contains_key(program.types@[ty as int].erased) <==> exists|i: int|
                0 <= i < defs.len() && is_constant_of(program, #[trigger] defs[i], ty)
        }),
    decreases defs.len(),
{
    if defs.len() > 0 {
        let rest = defs.drop_last();
        let last = defs.last();
        lemma_consts_by_ty(program, rest, ty, item);
        let consts = storage_inventory::consts_by_ty(program, defs);
        let before = storage_inventory::consts_by_ty(program, rest);
        let erased = program.types@[ty as int].erased;
        assert(defs[defs.len() - 1] == last);
        assert forall|i: int| 0 <= i < rest.len() implies rest[i] == #[trigger] defs[i] by {}
        if before.contains_key(erased) {
            let i = choose|i: int|
                0 <= i < rest.len() && is_constant_of(program, #[trigger] rest[i], ty);
            assert(is_constant_of(program, defs[i], ty));
            if before[erased] == item {
                let m = choose|m: int|
                    0 <= m < rest.len() && #[trigger] rest[m] == item && is_constant_of(
                        program,
                        item,
                        ty,
                    ) && forall|j: int|
                        0 <= j < m ==> !is_constant_of(program, #[trigger] rest[j], ty);
                assert(defs[m] == item);
                assert forall|j: int| 0 <= j < m implies !is_constant_of(
                    program,
                    #[trigger] defs[j],
                    ty,
                ) by {
                    assert(rest[j] == defs[j]);
                }
            }
            if exists|m: int|
                0 <= m < defs.len() && #[trigger] defs[m] == item && is_constant_of(
                    program,
                    item,
                    ty,
                ) && forall|j: int|
                    0 <= j < m ==> !is_constant_of(program, #[trigger] defs[j], ty) {
                let m = choose|m: int|
                    0 <= m < defs.len() && #[trigger] defs[m] == item && is_constant_of(
                        program,
                        item,
                        ty,
                    ) && forall|j: int|
                        0 <= j < m ==> !is_constant_of(program, #[trigger] defs[j], ty);
                if m == rest.len() {
                    assert(!is_constant_of(program, defs[i], ty));
                }
                assert(rest[m] == item);
                assert forall|j: int| 0 <= j < m implies !is_constant_of(
                    program,
                    #[trigger] rest[j],
                    ty,
                ) by {
                    assert(rest[j] == defs[j]);
                }
            }
        } else {
            assert forall|i: int| 0 <= i < rest.len() implies !is_constant_of(
                program,
                #[trigger] defs[i],
                ty,
            ) by {
                assert(!is_constant_of(program, rest[i], ty));
            }
            if is_constant_of(program, last, ty) {
                assert(consts.contains_key(erased) && consts[erased] == last);
                if last == item {
                    assert(defs[defs.len() - 1] == item);
                }
            }
        }
    }
}

/// A receiver that no statement assigns is the first constant of the crate itself
/// with its type, references and regions left aside; without one it has no
/// definition and is reported by its type.
pub proof fn law_receiver_without_a_source_goes_by_its_type(
    program: Program,
    body: Body,
    receiver: Local,
    item: DefId,
)
    requires
        receiver < body.local_decls@.len(),
        forall|b: int, j: int| !#[trigger] flows::assigns_local(body, b, j, receiver),
    ensures
        ({
            let base = addresses::peeled(program, body.local_decls@[receiver as int]);
            let consts = program.local_defs@;
            &&& storage_inventory::storage_def(program, body, receiver) == Some(item) <==> exists|
                i: int,
            |
                0 <= i < consts.len() && #[trigger] consts[i] == item && is_constant_of(
                    program,
                    item,
                    base,
                ) && forall|j: int|
                    0 <= j < i ==> !is_constant_of(program, #[trigger] consts[j], base)
            &&& storage_inventory::storage_def(program, body, receiver) is None
                ==> storage_inventory::storage_name(program, body, receiver)
                == mir_util::normalized(program.types@[base as int].debug@)
        }),
{
    let base = addresses::peeled(program, body.local_decls@[receiver as int]);
    addresses::lemma_peeled(program, body.local_decls@[receiver as int]);
    lemma_consts_by_ty(program, program.local_defs@, base, item);
    lemma_no_steps(program, body, receiver, body.basic_blocks@.len(), 0);
    let worklist = seq![receiver];
    assert(worklist.last() == receiver);
    assert(worklist.drop_last() =~= Seq::empty());
    let steps = storage_inventory::const_steps(program, body, receiver);
    assert(storage_inventory::first_item(steps) is None);
    assert(storage_inventory::copied_locals(steps) =~= Seq::empty());
    assert(Seq::<Local>::empty() + storage_inventory::copied_locals(steps) =~= Seq::empty());
    assert(storage_inventory::search_const(
        program,
        body,
        Seq::empty(),
        Set::empty().insert(receiver),
    ) is None);
    assert(storage_inventory::const_behind(program, body, receiver) is None);
}

proof fn lemma_no_steps(program: Program, body: Body, local: Local, block: nat, k: nat)
    requires
        forall|b: int, j: int| !#[trigger] flows::assigns_local(body, b, j, local),
        block <= body.basic_blocks@.len(),
        k > 0 ==> block < body.basic_blocks@.len() && k
            <= body.basic_blocks@[block as int].statements@.len(),
    ensures
        storage_inventory::const_steps_before(program, body, local, block, k) == Seq::<
            ConstDef,
        >::empty(),
    decreases block, k,
{
    if k > 0 {
        lemma_no_steps(program, body, local, block, (k - 1) as nat);
        if let Statement::Assign(other) = body.basic_blocks@[block as int].statements@[k - 1] {
            assert(laws::assigns(body, block as int, k - 1, other));
            assert(!flows::assigns_local(body, block as int, k - 1, local));
        }
    } else if block > 0 {
        lemma_no_steps(
            program,
            body,
            local,
            (block - 1) as nat,
            body.basic_blocks@[block - 1].statements@.len(),
        );
    }
}

// ---- every assignment to a receiver ----------------------------------------

/// Statement `j` of block `b` gives a local a constant item of the crate itself.
pub open spec fn gives(
    program: Program,
    body: Body,
    b: int,
    j: int,
    local: Local,
    item: DefId,
) -> bool {
    exists|assign: Assign| #[trigger]
        laws::assigns(body, b, j, assign) && assign.place.local == local && (
        assign.rvalue matches Rvalue::Use(Operand::Constant(constant)) && constant.unevaluated
            == Some(item) && program.defs@[item as int].is_local
            && program.defs@[item as int].kind is Const)
}

/// Statement `j` of block `b` makes a local of another one.
pub open spec fn makes(body: Body, b: int, j: int, to: Local, from: Local) -> bool {
    exists|assign: Assign| #[trigger]
        laws::assigns(body, b, j, assign) && assign.place.local == to && match assign.rvalue {
            Rvalue::Use(op) => laws::reads(op, from),
            Rvalue::Ref(_, place) => place.local == from,
            Rvalue::CopyForDeref(place) => place.local == from,
            _ => false,
        }
}

/// One statement stands in front of another in the text of a body.
pub open spec fn stands_earlier(b: int, j: int, block: int, k: int) -> bool {
    b < block || (b == block && j < k)
}

/// A constant is the first one that a local is given.
pub open spec fn is_first_given(program: Program, body: Body, local: Local, item: DefId) -> bool {
    exists|b: int, j: int| #[trigger]
        gives(program, body, b, j, local, item) && gives_none_before(program, body, b, j, local)
}

/// A local is given no constant in front of a statement.
pub open spec fn gives_none_before(
    program: Program,
    body: Body,
    block: int,
    k: int,
    local: Local,
) -> bool {
    forall|b: int, j: int, item: DefId| #[trigger]
        gives(program, body, b, j, local, item) ==> !stands_earlier(b, j, block, k)
}

/// Some statement makes a local of another one.
pub open spec fn makes_of(body: Body) -> spec_fn(usize, usize) -> bool {
    |to: usize, from: usize|
        from < body.local_decls@.len() && exists|b: int, j: int| #[trigger]
            makes(body, b, j, to, from)
}

proof fn lemma_first_item_push(steps: Seq<ConstDef>, step: ConstDef)
    ensures
        storage_inventory::first_item(steps.push(step)) == (match storage_inventory::first_item(
            steps,
        ) {
            Some(item) => Some(item),
            None => match step {
                ConstDef::Item(item) => Some(item),
                ConstDef::CopiedFrom(_) => None,
            },
        }),
    decreases steps.len(),
{
    let longer = steps.push(step);
    if steps.len() == 0 {
        assert(longer.skip(1) =~= Seq::empty());
        assert(storage_inventory::first_item(longer.skip(1)) is None);
    } else {
        assert(longer[0] == steps[0]);
        assert(longer.skip(1) =~= steps.skip(1).push(step));
        lemma_first_item_push(steps.skip(1), step);
    }
}

proof fn lemma_at_statement(
    program: Program,
    body: Body,
    local: Local,
    b: int,
    j: int,
    other: DefId,
    from: Local,
)
    requires
        0 <= b < body.basic_blocks@.len(),
        0 <= j < body.basic_blocks@[b].statements@.len(),
    ensures
        ({
            let step = match body.basic_blocks@[b].statements@[j] {
                Statement::Assign(assign) => if assign.place.local == local {
                    storage_inventory::const_step(program, assign.rvalue)
                } else {
                    None
                },
                Statement::Other => None,
            };
            &&& gives(program, body, b, j, local, other) <==> step == Some(ConstDef::Item(other))
            &&& makes(body, b, j, local, from) <==> step == Some(ConstDef::CopiedFrom(from))
        }),
{
    if let Statement::Assign(assign) = body.basic_blocks@[b].statements@[j] {
        assert(laws::assigns(body, b, j, assign));
    }
}

proof fn lemma_first_given(program: Program, body: Body, local: Local, block: nat, k: nat)
    requires
        block <= body.basic_blocks@.len(),
        k > 0 ==> block < body.basic_blocks@.len() && k
            <= body.basic_blocks@[block as int].statements@.len(),
    ensures
        match storage_inventory::first_item(
            storage_inventory::const_steps_before(program, body, local, block, k),
        ) {
            Some(item) => is_first_given(program, body, local, item),
            None => gives_none_before(program, body, block as int, k as int, local),
        },
    decreases block, k,
{
    let steps = storage_inventory::const_steps_before(program, body, local, block, k);
    if k > 0 {
        let before = storage_inventory::const_steps_before(
            program,
            body,
            local,
            block,
            (k - 1) as nat,
        );
        lemma_first_given(program, body, local, block, (k - 1) as nat);
        if steps != before {
            lemma_first_item_push(before, steps.last());
            assert(steps == before.push(steps.last()));
        }
        match storage_inventory::first_item(steps) {
            Some(item) => {
                lemma_at_statement(program, body, local, block as int, k - 1, item, 0);
                if storage_inventory::first_item(before) is None {
                    assert(gives(program, body, block as int, k - 1, local, item));
                }
            },
            None => {
                assert forall|b: int, j: int, item: DefId| #[trigger]
                    gives(program, body, b, j, local, item) implies !stands_earlier(
                    b,
                    j,
                    block as int,
                    k as int,
                ) by {
                    lemma_at_statement(program, body, local, block as int, k - 1, item, 0);
                    assert(!stands_earlier(b, j, block as int, k - 1));
                }
            },
        }
    } else if block > 0 {
        let last = body.basic_blocks@[block - 1].statements@.len();
        lemma_first_given(program, body, local, (block - 1) as nat, last);
        if storage_inventory::first_item(steps) is None {
            assert forall|b: int, j: int, item: DefId| #[trigger]
                gives(program, body, b, j, local, item) implies !stands_earlier(
                b,
                j,
                block as int,
                0,
            ) by {
                assert(!stands_earlier(b, j, block - 1, last as int));
            }
        }
    } else {
        assert(storage_inventory::first_item(steps) is None);
    }
}

proof fn lemma_copied(
    program: Program,
    body: Body,
    local: Local,
    from: Local,
    block: nat,
    k: nat,
)
    requires
        block <= body.basic_blocks@.len(),
        k > 0 ==> block < body.basic_blocks@.len() && k
            <= body.basic_blocks@[block as int].statements@.len(),
    ensures
        storage_inventory::copied_locals(
            storage_inventory::const_steps_before(program, body, local, block, k),
        ).contains(from) <==> exists|b: int, j: int| #[trigger]
            makes(body, b, j, local, from) && stands_earlier(b, j, block as int, k as int),
    decreases block, k,
{
    let steps = storage_inventory::const_steps_before(program, body, local, block, k);
    let all = storage_inventory::copied_locals(steps);
    if k > 0 {
        let before = storage_inventory::const_steps_before(
            program,
            body,
            local,
            block,
            (k - 1) as nat,
        );
        let some = storage_inventory::copied_locals(before);
        lemma_copied(program, body, local, from, block, (k - 1) as nat);
        lemma_at_statement(program, body, local, block as int, k - 1, 0, from);
        if steps != before {
            assert(steps.drop_last() =~= before);
            if let ConstDef::CopiedFrom(next) = steps.last() {
                assert(all == some.push(next));
                assert(all[all.len() - 1] == next);
                if some.contains(from) {
                    let i = choose|i: int| 0 <= i < some.len() && some[i] == from;
                    assert(all[i] == from);
                }
            }
        }
        if all.contains(from) {
            if some.contains(from) {
                let (b, j) = choose|b: int, j: int| #[trigger]
                    makes(body, b, j, local, from) && stands_earlier(b, j, block as int, k - 1);
                assert(stands_earlier(b, j, block as int, k as int));
            } else {
                assert(makes(body, block as int, k - 1, local, from));
            }
        }
        if exists|b: int, j: int| #[trigger]
            makes(body, b, j, local, from) && stands_earlier(b, j, block as int, k as int) {
            let (b, j) = choose|b: int, j: int| #[trigger]
                makes(body, b, j, local, from) && stands_earlier(b, j, block as int, k as int);
            if !stands_earlier(b, j, block as int, k - 1) {
                assert(b == block && j == k - 1);
            }
        }
    } else if block > 0 {
        let last = body.basic_blocks@[block - 1].statements@.len();
        lemma_copied(program, body, local, from, (block - 1) as nat, last);
        if all.contains(from) {
            let (b, j) = choose|b: int, j: int| #[trigger]
                makes(body, b, j, local, from) && stands_earlier(b, j, block - 1, last as int);
            assert(stands_earlier(b, j, block as int, 0));
        }
        if exists|b: int, j: int| #[trigger]
            makes(body, b, j, local, from) && stands_earlier(b, j, block as int, 0) {
            let (b, j) = choose|b: int, j: int| #[trigger]
                makes(body, b, j, local, from) && stands_earlier(b, j, block as int, 0);
            assert(stands_earlier(b, j, block - 1, last as int));
        }
    } else {
        assert(all =~= Seq::empty());
        if exists|b: int, j: int| #[trigger]
            makes(body, b, j, local, from) && stands_earlier(b, j, 0, 0) {
            let (b, j) = choose|b: int, j: int| #[trigger]
                makes(body, b, j, local, from) && stands_earlier(b, j, 0, 0);
            assert(false);
        }
    }
}

proof fn lemma_local(program: Program, body: Body, local: Local, from: Local)
    requires
        from < body.local_decls@.len(),
    ensures
        storage_inventory::copied_locals(
            storage_inventory::const_steps(program, body, local),
        ).contains(from) <==> makes_of(body)(local, from),
        storage_inventory::first_item(
            storage_inventory::const_steps(program, body, local),
        ) matches Some(item) ==> is_first_given(program, body, local, item),
        storage_inventory::first_item(storage_inventory::const_steps(program, body, local))
            is None ==> forall|b: int, j: int, item: DefId|
            !#[trigger] gives(program, body, b, j, local, item),
{
    let n = body.basic_blocks@.len();
    lemma_copied(program, body, local, from, n, 0);
    lemma_first_given(program, body, local, n, 0);
    if makes_of(body)(local, from) {
        let (b, j) = choose|b: int, j: int| #[trigger] makes(body, b, j, local, from);
        assert(stands_earlier(b, j, n as int, 0));
    }
    if storage_inventory::first_item(storage_inventory::const_steps(program, body, local))
        is None {
        assert forall|b: int, j: int, item: DefId|
            !#[trigger] gives(program, body, b, j, local, item) by {
            if gives(program, body, b, j, local, item) {
                assert(!stands_earlier(b, j, n as int, 0));
            }
        }
    }
}

proof fn lemma_search_found(
    program: Program,
    body: Body,
    receiver: Local,
    worklist: Seq<Local>,
    seen: Set<usize>,
)
    requires
        forall|i: int|
            0 <= i < worklist.len() ==> worklist[i] >= body.local_decls@.len() || graph::reaches(
                makes_of(body),
                set![receiver],
                #[trigger] worklist[i],
            ),
    ensures
        storage_inventory::search_const(program, body, worklist, seen) matches Some(item)
            ==> exists|local: Local|
            graph::reaches(makes_of(body), set![receiver], local) && #[trigger] is_first_given(
                program,
                body,
                local,
                item,
            ),
    decreases graph::missing(seen, body.local_decls@.len()), worklist.len(),
{
    if worklist.len() > 0 {
        let local = worklist.last();
        let rest = worklist.drop_last();
        assert(worklist[worklist.len() - 1] == local);
        if seen.contains(local) || local >= body.local_decls@.len() {
            assert forall|i: int| 0 <= i < rest.len() implies rest[i] >= body.local_decls@.len()
                || graph::reaches(makes_of(body), set![receiver], #[trigger] rest[i]) by {
                assert(rest[i] == worklist[i]);
            }
            lemma_search_found(program, body, receiver, rest, seen);
        } else {
            let steps = storage_inventory::const_steps(program, body, local);
            let copied = storage_inventory::copied_locals(steps);
            lemma_local(program, body, local, local);
            if storage_inventory::first_item(steps) is None {
                assert(body.local_decls.len() == body.local_decls@.len());
                graph::lemma_missing_grows(
                    seen,
                    seen.insert(local),
                    body.local_decls@.len(),
                    local,
                );
                let next = rest + copied;
                assert forall|i: int| 0 <= i < next.len() implies next[i]
                    >= body.local_decls@.len() || graph::reaches(
                    makes_of(body),
                    set![receiver],
                    #[trigger] next[i],
                ) by {
                    if i < rest.len() {
                        assert(next[i] == worklist[i]);
                    } else if next[i] < body.local_decls@.len() {
                        assert(copied[i - rest.len()] == next[i]);
                        assert(copied.contains(next[i]));
                        lemma_local(program, body, local, next[i]);
                        graph::lemma_reaches_step(
                            makes_of(body),
                            set![receiver],
                            local,
                            next[i],
                        );
                    }
                }
                lemma_search_found(program, body, receiver, next, seen.insert(local));
            }
        }
    }
}

proof fn lemma_search_empty(
    program: Program,
    body: Body,
    worklist: Seq<Local>,
    seen: Set<usize>,
) -> (done: Set<usize>)
    requires
        storage_inventory::search_const(program, body, worklist, seen) is None,
        forall|l: usize| #[trigger]
            seen.contains(l) ==> storage_inventory::first_item(
                storage_inventory::const_steps(program, body, l),
            ) is None,
        forall|l: usize, from: usize| #[trigger]
            makes_of(body)(l, from) && seen.contains(l) ==> seen.contains(from)
                || worklist.contains(from),
    ensures
        seen.subset_of(done),
        forall|i: int|
            0 <= i < worklist.len() && worklist[i] < body.local_decls@.len() ==> done.contains(
                #[trigger] worklist[i],
            ),
        forall|l: usize| #[trigger]
            done.contains(l) ==> storage_inventory::first_item(
                storage_inventory::const_steps(program, body, l),
            ) is None,
        forall|l: usize, from: usize| #[trigger]
            makes_of(body)(l, from) && done.contains(l) ==> done.contains(from),
    decreases graph::missing(seen, body.local_decls@.len()), worklist.len(),
{
    if worklist.len() == 0 {
        seen
    } else {
        let local = worklist.last();
        let rest = worklist.drop_last();
        if seen.contains(local) || local >= body.local_decls@.len() {
            assert forall|l: usize, from: usize| #[trigger]
                makes_of(body)(l, from) && seen.contains(l) implies seen.contains(from)
                || rest.contains(from) by {
                if !seen.contains(from) {
                    let i = choose|i: int| 0 <= i < worklist.len() && worklist[i] == from;
                    assert(from < body.local_decls@.len());
                    assert(rest[i] == from);
                }
            }
            let done = lemma_search_empty(program, body, rest, seen);
            assert forall|i: int|
                0 <= i < worklist.len() && worklist[i] < body.local_decls@.len() implies
                done.contains(#[trigger] worklist[i]) by {
                if i < rest.len() {
                    assert(rest[i] == worklist[i]);
                }
            }
            done
        } else {
            let steps = storage_inventory::const_steps(program, body, local);
            let copied = storage_inventory::copied_locals(steps);
            let next = rest + copied;
            let more = seen.insert(local);
            assert(body.local_decls.len() == body.local_decls@.len());
            graph::lemma_missing_grows(seen, more, body.local_decls@.len(), local);
            assert forall|l: usize, from: usize| #[trigger]
                makes_of(body)(l, from) && more.contains(l) implies more.contains(from)
                || next.contains(from) by {
                if l == local {
                    lemma_local(program, body, local, from);
                    let i = choose|i: int| 0 <= i < copied.len() && copied[i] == from;
                    assert(next[rest.len() + i] == from);
                } else if !more.contains(from) {
                    let i = choose|i: int| 0 <= i < worklist.len() && worklist[i] == from;
                    assert(rest[i] == from);
                    assert(next[i] == from);
                }
            }
            let done = lemma_search_empty(program, body, next, more);
            assert forall|i: int|
                0 <= i < worklist.len() && worklist[i] < body.local_decls@.len() implies
                done.contains(#[trigger] worklist[i]) by {
                if i < rest.len() {
                    assert(next[i] == worklist[i]);
                }
            }
            done
        }
    }
}

/// A constant stands behind a receiver exactly when the receiver, or a local that it
/// was made of through copies, moves and borrows, is somewhere given one; it is then
/// the first one that such a local is given, and the receiver's own comes first.
pub proof fn law_constant_behind_a_receiver(program: Program, body: Body, receiver: Local)
    requires
        receiver < body.local_decls@.len(),
    ensures
        storage_inventory::const_behind(program, body, receiver) is Some <==> exists|
            local: Local,
            b: int,
            j: int,
            item: DefId,
        |
            graph::reaches(makes_of(body), set![receiver], local) && #[trigger] gives(
                program,
                body,
                b,
                j,
                local,
                item,
            ),
        storage_inventory::const_behind(program, body, receiver) matches Some(item) ==> exists|
            local: Local,
        |
            graph::reaches(makes_of(body), set![receiver], local) && #[trigger] is_first_given(
                program,
                body,
                local,
                item,
            ),
        (exists|b: int, j: int, item: DefId| #[trigger]
            gives(program, body, b, j, receiver, item)) ==> (storage_inventory::const_behind(
            program,
            body,
            receiver,
        ) matches Some(item) && is_first_given(program, body, receiver, item)),
        storage_inventory::const_behind(program, body, receiver) matches Some(item)
            ==> storage_inventory::storage_def(program, body, receiver) == Some(item),
{
    let edge = makes_of(body);
    let worklist = seq![receiver];
    assert(worklist.last() == receiver);
    graph::lemma_reaches_start(edge, set![receiver], receiver);
    lemma_search_found(program, body, receiver, worklist, Set::empty());
    lemma_local(program, body, receiver, receiver);
    if let Some(item) = storage_inventory::const_behind(program, body, receiver) {
        let local = choose|local: Local|
            graph::reaches(edge, set![receiver], local) && #[trigger] is_first_given(
                program,
                body,
                local,
                item,
            );
        let (b, j) = choose|b: int, j: int| #[trigger]
            gives(program, body, b, j, local, item) && gives_none_before(
                program,
                body,
                b,
                j,
                local,
            );
        assert(gives(program, body, b, j, local, item));
    } else {
        let done = lemma_search_empty(program, body, worklist, Set::empty());
        assert(done.contains(worklist[0]));
        assert forall|local: Local, b: int, j: int, item: DefId|
            graph::reaches(edge, set![receiver], local) implies !#[trigger] gives(
            program,
            body,
            b,
            j,
            local,
            item,
        ) by {
            graph::lemma_reaches_closed(edge, set![receiver], done, local);
            lemma_local(program, body, local, receiver);
        }
    }
}

/// A local was last made of another one in front of a statement.
pub open spec fn is_last_made(
    body: Body,
    to: Local,
    from: Local,
    block: int,
    k: int,
) -> bool {
    exists|b: int, j: int| #[trigger]
        makes(body, b, j, to, from) && stands_earlier(b, j, block, k) && forall|
            x: int,
            y: int,
            other: Local,
        | #[trigger]
            makes(body, x, y, to, other) && stands_earlier(x, y, block, k) ==> !stands_earlier(
                b,
                j,
                x,
                y,
            )
}

proof fn lemma_last_made(program: Program, body: Body, local: Local, block: nat, k: nat)
    requires
        block <= body.basic_blocks@.len(),
        k > 0 ==> block < body.basic_blocks@.len() && k
            <= body.basic_blocks@[block as int].statements@.len(),
    ensures
        ({
            let copied = storage_inventory::copied_locals(
                storage_inventory::const_steps_before(program, body, local, block, k),
            );
            copied.len() > 0 ==> is_last_made(
                body,
                local,
                copied.last(),
                block as int,
                k as int,
            )
        }),
    decreases block, k,
{
    let steps = storage_inventory::const_steps_before(program, body, local, block, k);
    let copied = storage_inventory::copied_locals(steps);
    if k > 0 {
        let before = storage_inventory::const_steps_before(
            program,
            body,
            local,
            block,
            (k - 1) as nat,
        );
        lemma_last_made(program, body, local, block, (k - 1) as nat);
        if steps != before {
            assert(steps.drop_last() =~= before);
        }
        if copied.len() > 0 {
            lemma_at_statement(program, body, local, block as int, k - 1, 0, copied.last());
            if makes(body, block as int, k - 1, local, copied.last()) {
                assert(stands_earlier(block as int, k - 1, block as int, k as int));
            } else {
                assert(copied == storage_inventory::copied_locals(before)) by {
                    if let Some(step) = match body.basic_blocks@[block as int].statements@[k - 1] {
                        Statement::Assign(assign) => if assign.place.local == local {
                            storage_inventory::const_step(program, assign.rvalue)
                        } else {
                            None
                        },
                        Statement::Other => None,
                    } {
                        if let ConstDef::CopiedFrom(next) = step {
                            assert(copied.last() == next);
                        }
                    }
                }
                let (b, j) = choose|b: int, j: int| #[trigger]
                    makes(body, b, j, local, copied.last()) && stands_earlier(
                        b,
                        j,
                        block as int,
                        k - 1,
                    ) && forall|x: int, y: int, other: Local| #[trigger]
                        makes(body, x, y, local, other) && stands_earlier(x, y, block as int, k - 1)
                            ==> !stands_earlier(b, j, x, y);
                assert forall|x: int, y: int, other: Local| #[trigger]
                    makes(body, x, y, local, other) && stands_earlier(
                        x,
                        y,
                        block as int,
                        k as int,
                    ) implies !stands_earlier(b, j, x, y) by {
                    if !stands_earlier(x, y, block as int, k - 1) {
                        lemma_at_statement(program, body, local, block as int, k - 1, 0, other);
                        assert(steps == before.push(ConstDef::CopiedFrom(other)));
                        assert(false);
                    }
                }
            }
        }
    } else if block > 0 {
        let last = body.basic_blocks@[block - 1].statements@.len();
        lemma_last_made(program, body, local, (block - 1) as nat, last);
        if copied.len() > 0 {
            let (b, j) = choose|b: int, j: int| #[trigger]
                makes(body, b, j, local, copied.last()) && stands_earlier(
                    b,
                    j,
                    block - 1,
                    last as int,
                ) && forall|x: int, y: int, other: Local| #[trigger]
                    makes(body, x, y, local, other) && stands_earlier(x, y, block - 1, last as int)
                        ==> !stands_earlier(b, j, x, y);
            assert forall|x: int, y: int, other: Local| #[trigger]
                makes(body, x, y, local, other) && stands_earlier(x, y, block as int, 0) implies
                !stands_earlier(b, j, x, y) by {
                assert(stands_earlier(x, y, block - 1, last as int));
            }
        }
    } else {
        assert(copied =~= Seq::empty());
    }
}

/// Of several locals that a receiver was made of, the last one is followed first: where
/// the receiver is given no constant and that one is, its first constant stands
/// behind the receiver.
pub proof fn law_last_source_is_followed_first(
    program: Program,
    body: Body,
    receiver: Local,
    from: Local,
)
    requires
        receiver < body.local_decls@.len(),
        from < body.local_decls@.len(),
        from != receiver,
        is_last_made(body, receiver, from, body.basic_blocks@.len() as int, 0),
        forall|b: int, j: int, item: DefId|
            !#[trigger] gives(program, body, b, j, receiver, item),
        exists|b: int, j: int, item: DefId| #[trigger] gives(program, body, b, j, from, item),
    ensures
        storage_inventory::const_behind(program, body, receiver) matches Some(item)
            && is_first_given(program, body, from, item),
{
    let n = body.basic_blocks@.len();
    let steps = storage_inventory::const_steps(program, body, receiver);
    let copied = storage_inventory::copied_locals(steps);
    let (b, j) = choose|b: int, j: int| #[trigger]
        makes(body, b, j, receiver, from) && stands_earlier(b, j, n as int, 0) && forall|
            x: int,
            y: int,
            other: Local,
        | #[trigger]
            makes(body, x, y, receiver, other) && stands_earlier(x, y, n as int, 0)
                ==> !stands_earlier(b, j, x, y);
    assert(makes_of(body)(receiver, from));
    lemma_local(program, body, receiver, from);
    lemma_local(program, body, from, from);
    lemma_last_made(program, body, receiver, n, 0);
    let (x, y) = choose|x: int, y: int| #[trigger]
        makes(body, x, y, receiver, copied.last()) && stands_earlier(x, y, n as int, 0) && forall|
            p: int,
            q: int,
            other: Local,
        | #[trigger]
            makes(body, p, q, receiver, other) && stands_earlier(p, q, n as int, 0)
                ==> !stands_earlier(x, y, p, q);
    assert(!stands_earlier(b, j, x, y));
    assert(!stands_earlier(x, y, b, j));
    assert(b == x && j == y);
    assert(copied.last() == from);
    if let Some(item) = storage_inventory::first_item(steps) {
        let (p, q) = choose|p: int, q: int| #[trigger]
            gives(program, body, p, q, receiver, item) && gives_none_before(
                program,
                body,
                p,
                q,
                receiver,
            );
        assert(false);
    }
    let worklist = seq![receiver];
    assert(worklist.last() == receiver);
    let next = worklist.drop_last() + copied;
    assert(next.last() == from);
    let seen = Set::<usize>::empty().insert(receiver);
    assert(storage_inventory::search_const(program, body, next, seen)
        == storage_inventory::first_item(storage_inventory::const_steps(program, body, from)));
}

} // verus!
