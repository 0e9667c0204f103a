//! Which values are taken for addresses that the sender of a message chose.

use crate::cosmwasm;
use crate::laws;
use crate::mir::{Assign, Body, DefId, Local, Operand, Place, Program, Rvalue, Statement, Ty, TyKind};
use crate::mir_util;
use crate::taint;
use vstd::prelude::*;

verus! {

/// A type without the references around it.
pub open spec fn peeled(program: Program, ty: Ty) -> Ty
    decreases ty,
{
    match program.types@[ty as int].kind {
        TyKind::Ref(inner, _) if inner < ty => peeled(program, inner),
        _ => ty,
    }
}

/// A type, behind any references, is a type of a crate.
pub open spec fn is_type(program: Program, ty: Ty, krate: Seq<char>, name: Seq<char>) -> bool {
    program.types@[peeled(program, ty) as int].kind matches TyKind::Adt(def, _) && laws::is_item(
        program,
        def,
        krate,
        name,
    )
}

/// A type, behind any references, is what the CosmWasm runtime passes to a
/// handler besides the message and its sender.
pub open spec fn is_plumbing(program: Program, ty: Ty) -> bool {
    ||| is_type(program, ty, "cosmwasm_std"@, "Deps"@)
    ||| is_type(program, ty, "cosmwasm_std"@, "DepsMut"@)
    ||| is_type(program, ty, "cosmwasm_std"@, "OwnedDeps"@)
    ||| is_type(program, ty, "cosmwasm_std"@, "Env"@)
    ||| program.types@[peeled(program, ty) as int].kind matches TyKind::Dynamic(Some(principal))
        && laws::is_item(program, principal, "cosmwasm_std"@, "Storage"@)
}

/// A definition is an address type or the owned string.
pub open spec fn is_address(program: Program, def: DefId) -> bool {
    ||| laws::is_item(program, def, "cosmwasm_std"@, "Addr"@)
    ||| laws::is_item(program, def, "cosmwasm_std"@, "CanonicalAddr"@)
    ||| laws::is_item(program, def, "alloc"@, "String"@)
    ||| laws::is_item(program, def, "std"@, "String"@)
    ||| program.defs@[def as int].is_string
}

/// A type without the references around it is what is left when they are stripped.
pub proof fn lemma_peeled(program: Program, ty: Ty)
    ensures
        mir_util::without_refs(program, ty) == peeled(program, ty),
    decreases ty,
{
    if let TyKind::Ref(inner, _) = program.types@[ty as int].kind {
        if inner < ty {
            lemma_peeled(program, inner);
        }
    }
}

/// The names of the runtime's own types differ from that of the message info.
proof fn lemma_plumbing_names()
    ensures
        "MessageInfo"@ != "Deps"@,
        "MessageInfo"@ != "DepsMut"@,
        "MessageInfo"@ != "OwnedDeps"@,
        "MessageInfo"@ != "Env"@,
{
    reveal_strlit("MessageInfo");
    reveal_strlit("Deps");
    reveal_strlit("DepsMut");
    reveal_strlit("OwnedDeps");
    reveal_strlit("Env");
    assert("MessageInfo"@[0] == 'M');
    assert("Deps"@[0] == 'D');
    assert("DepsMut"@[0] == 'D');
    assert("OwnedDeps"@[0] == 'O');
    assert("Env"@[0] == 'E');
}

/// The types supplied by the runtime are the message info and the plumbing; the
/// latter is what no parameter of a handler is taken for input by.
pub proof fn law_framework_types(program: Program, body: Body, ty: Ty, local: Local)
    ensures
        cosmwasm::framework_ty(program, ty) <==> is_plumbing(program, ty) || is_type(
            program,
            ty,
            "cosmwasm_std"@,
            "MessageInfo"@,
        ),
        taint::framework_param(program, body, local) <==> is_plumbing(
            program,
            body.local_decls@[local as int],
        ),
{
    lemma_peeled(program, ty);
    lemma_peeled(program, body.local_decls@[local as int]);
    lemma_plumbing_names();
}

proof fn lemma_some_mention(program: Program, tys: Seq<Ty>, below: Ty)
    requires
        forall|i: int| 0 <= i < tys.len() ==> #[trigger] tys[i] < below,
    ensures
        taint::some_mention_address(program, tys, below) <==> exists|i: int|
            0 <= i < tys.len() && taint::mentions_address(program, #[trigger] tys[i]),
    decreases tys.len(),
{
    if tys.len() > 0 {
        let rest = tys.drop_last();
        assert forall|i: int| 0 <= i < rest.len() implies #[trigger] rest[i] < below by {
            assert(tys[i] < below);
        }
        lemma_some_mention(program, rest, below);
        assert(tys[tys.len() - 1] < below);
        if exists|i: int| 0 <= i < rest.len() && taint::mentions_address(program, #[trigger] rest[i]) {
            let i = choose|i: int|
                0 <= i < rest.len() && taint::mentions_address(program, #[trigger] rest[i]);
            assert(tys[i] == rest[i]);
        }
        if exists|i: int| 0 <= i < tys.len() && taint::mentions_address(program, #[trigger] tys[i]) {
            let i = choose|i: int|
                0 <= i < tys.len() && taint::mentions_address(program, #[trigger] tys[i]);
            if i < rest.len() {
                assert(rest[i] == tys[i]);
            }
        }
    }
}

/// A type mentions an address exactly when it is one, or is text, or refers to or
/// is built from a type that mentions one.
pub proof fn law_address_types(program: Program, ty: Ty)
    requires
        program.wf(),
        ty < program.types@.len(),
    ensures
        taint::mentions_address(program, ty) <==> match program.types@[ty as int].kind {
            TyKind::Str => true,
            TyKind::Ref(inner, _) => taint::mentions_address(program, inner),
            TyKind::Slice(inner) => taint::mentions_address(program, inner),
            TyKind::Array(inner) => taint::mentions_address(program, inner),
            TyKind::Tuple(tys) => exists|i: int|
                0 <= i < tys@.len() && taint::mentions_address(program, #[trigger] tys@[i]),
            TyKind::Adt(def, args) => is_address(program, def) || exists|i: int|
                0 <= i < args@.len() && taint::mentions_address(program, #[trigger] args@[i]),
            _ => false,
        },
{
    assert(program.types@[ty as int].kind.wf(program.defs@.len(), ty as nat));
    match program.types@[ty as int].kind {
        TyKind::Tuple(tys) => {
            lemma_some_mention(program, tys@, ty);
        },
        TyKind::Adt(def, args) => {
            lemma_some_mention(program, args@, ty);
        },
        _ => {},
    }
}

/// An rvalue copies, moves or borrows a place.
pub open spec fn reads_place(rvalue: Rvalue, place: Place) -> bool {
    ||| rvalue == Rvalue::Use(Operand::Copy(place))
    ||| rvalue == Rvalue::Use(Operand::Move(place))
    ||| rvalue == Rvalue::Ref(true, place)
    ||| rvalue == Rvalue::Ref(false, place)
}

/// A place is a part of a parameter that the message fills: the parameter is no
/// plumbing and no buffer behind `&mut`, and the part mentions an address.
pub open spec fn is_address_part(program: Program, body: Body, place: Place) -> bool {
    &&& 1 <= place.local <= body.arg_count
    &&& place.projection@.len() > 0
    &&& !is_plumbing(program, body.local_decls@[place.local as int])
    &&& !(program.types@[body.local_decls@[place.local as int] as int].kind matches TyKind::Ref(
        _,
        mutable,
    ) && mutable)
    &&& taint::mentions_address(program, place.ty)
}

/// The seeds of the taint are the parameters whose type mentions an address, and
/// whatever an address-typed part of a message is copied, moved or borrowed into,
/// whichever of the three it is; and nothing else.
pub proof fn law_seeds_are_the_addresses_of_the_message(program: Program, body: Body, local: Local)
    ensures
        taint::address_seeds(program, body).contains(local) <==> (1 <= local <= body.arg_count
            && taint::mentions_address(program, body.local_decls@[local as int])) || exists|
            block: int,
            k: int,
            assign: Assign,
            place: Place,
        | #[trigger]
            laws::assigns(body, block, k, assign) && assign.place.local == local && #[trigger]
                reads_place(assign.rvalue, place) && is_address_part(program, body, place),
{
    if exists|block: int, k: int|
        0 <= block < body.basic_blocks@.len() && 0 <= k < body.basic_blocks@[block].statements@.len()
            && taint::reads_address(program, body, #[trigger] body.basic_blocks@[block].statements@[k])
            == Some(local) {
        let (block, k) = choose|block: int, k: int|
            0 <= block < body.basic_blocks@.len() && 0 <= k
                < body.basic_blocks@[block].statements@.len() && taint::reads_address(
                program,
                body,
                #[trigger] body.basic_blocks@[block].statements@[k],
            ) == Some(local);
        if let Statement::Assign(assign) = body.basic_blocks@[block].statements@[k] {
            assert(laws::assigns(body, block, k, assign));
            let place = match assign.rvalue {
                Rvalue::Use(Operand::Copy(place)) => place,
                Rvalue::Use(Operand::Move(place)) => place,
                Rvalue::Ref(_, place) => place,
                _ => assign.place,
            };
            law_framework_types(program, body, 0, place.local);
            assert(reads_place(assign.rvalue, place));
        }
    }
    if exists|block: int, k: int, assign: Assign, place: Place| #[trigger]
        laws::assigns(body, block, k, assign) && assign.place.local == local && #[trigger]
            reads_place(assign.rvalue, place) && is_address_part(program, body, place) {
        let (block, k, assign, place) = choose|
            block: int,
            k: int,
            assign: Assign,
            place: Place,
        | #[trigger]
            laws::assigns(body, block, k, assign) && assign.place.local == local && #[trigger]
                reads_place(assign.rvalue, place) && is_address_part(program, body, place);
        law_framework_types(program, body, 0, place.local);
        assert(taint::reads_address(program, body, body.basic_blocks@[block].statements@[k])
            == Some(local));
    }
}

} // verus!
