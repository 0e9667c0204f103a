//! Recognition of the CosmWasm framework and of `cw-storage-plus`.
//!
//! Every place where the analysis has to decide "is this the framework?" is
//! collected here. All predicates match by defining crate plus item name rather
//! than by a formatted path.

use crate::mir::{Body, DefId, DefKind, Program, Ty, TyKind};
use crate::mir_util;
use crate::text::str_eq;
use vstd::prelude::*;

verus! {

/// The item name of a definition.
pub open spec fn name_of(program: Program, def_id: DefId) -> Seq<char> {
    program.defs@[def_id as int].name@
}

/// The name of the crate a definition belongs to.
pub open spec fn krate_of(program: Program, def_id: DefId) -> Seq<char> {
    program.defs@[def_id as int].krate@
}

/// Returns whether `def_id` is defined in the crate called `name`.
pub fn crate_name_is(program: &Program, def_id: DefId, name: &str) -> (same: bool)
    requires
        def_id < program.defs@.len(),
    ensures
        same == (krate_of(*program, def_id) == name@),
{
    str_eq(program.defs[def_id].krate.as_str(), name)
}

/// Returns whether the item name of `def_id` is `name`.
pub fn item_name_is(program: &Program, def_id: DefId, name: &str) -> (same: bool)
    requires
        def_id < program.defs@.len(),
    ensures
        same == (name_of(*program, def_id) == name@),
{
    str_eq(program.defs[def_id].name.as_str(), name)
}

/// The names of identity-preserving glue.
pub open spec fn glue_name(name: Seq<char>) -> bool {
    ||| name == "branch"@
    ||| name == "from_residual"@
    ||| name == "unwrap"@
    ||| name == "expect"@
    ||| name == "ok_or"@
    ||| name == "ok_or_else"@
    ||| name == "map_err"@
    ||| name == "into_ok"@
    ||| name == "deref"@
    ||| name == "deref_mut"@
}

/// A definition is identity-preserving glue.
pub open spec fn is_glue(program: Program, def_id: DefId) -> bool {
    glue_name(name_of(program, def_id))
}

/// Identity-preserving glue that the analysis looks through: the `?`
/// desugaring (`branch`/`from_residual`), `Option`/`Result` adapters that pass
/// the success value on unchanged, and deref coercions.
///
/// `may_load` deliberately does not belong here: it is the load *sink*
/// ([`is_storage_load_fn`]), and listing it as glue would make a backward trace
/// step through the load instead of stopping at it.
pub fn is_forwarding_glue_fn(program: &Program, def_id: DefId) -> (glue: bool)
    requires
        def_id < program.defs@.len(),
    ensures
        glue == is_glue(*program, def_id),
{
    let name = program.defs[def_id].name.as_str();
    str_eq(name, "branch") || str_eq(name, "from_residual") || str_eq(name, "unwrap") || str_eq(
        name,
        "expect",
    ) || str_eq(name, "ok_or") || str_eq(name, "ok_or_else") || str_eq(name, "map_err") || str_eq(
        name,
        "into_ok",
    ) || str_eq(name, "deref") || str_eq(name, "deref_mut")
}

/// A definition is a mutating `cw-storage-plus` operation.
pub open spec fn is_write(program: Program, def_id: DefId) -> bool {
    krate_of(program, def_id) == "cw_storage_plus"@ && (name_of(program, def_id) == "save"@
        || name_of(program, def_id) == "insert"@ || name_of(program, def_id) == "update"@)
}

/// Returns whether `def_id` is a mutating `cw-storage-plus` operation.
/// `update` counts as a write sink because it persists the closure's result.
pub fn is_storage_write_fn(program: &Program, def_id: DefId) -> (write: bool)
    requires
        def_id < program.defs@.len(),
    ensures
        write == is_write(*program, def_id),
{
    crate_name_is(program, def_id, "cw_storage_plus") && (item_name_is(program, def_id, "save")
        || item_name_is(program, def_id, "insert") || item_name_is(program, def_id, "update"))
}

/// A definition is a reading `cw-storage-plus` operation.
pub open spec fn is_load(program: Program, def_id: DefId) -> bool {
    krate_of(program, def_id) == "cw_storage_plus"@ && (name_of(program, def_id) == "load"@
        || name_of(program, def_id) == "may_load"@ || name_of(program, def_id) == "get"@)
}

/// Returns whether `def_id` is a reading `cw-storage-plus` operation.
pub fn is_storage_load_fn(program: &Program, def_id: DefId) -> (load: bool)
    requires
        def_id < program.defs@.len(),
    ensures
        load == is_load(*program, def_id),
{
    crate_name_is(program, def_id, "cw_storage_plus") && (item_name_is(program, def_id, "load")
        || item_name_is(program, def_id, "may_load") || item_name_is(program, def_id, "get"))
}

/// The storage writes, the storage loads and the forwarding glue have no
/// function in common.
pub proof fn lemma_storage_roles_disjoint(program: Program, def_id: DefId)
    ensures
        !(is_write(program, def_id) && is_load(program, def_id)),
        !(is_write(program, def_id) && is_glue(program, def_id)),
        !(is_load(program, def_id) && is_glue(program, def_id)),
{
    reveal_strlit("save");
    reveal_strlit("insert");
    reveal_strlit("update");
    reveal_strlit("load");
    reveal_strlit("may_load");
    reveal_strlit("get");
    reveal_strlit("branch");
    reveal_strlit("from_residual");
    reveal_strlit("unwrap");
    reveal_strlit("expect");
    reveal_strlit("ok_or");
    reveal_strlit("ok_or_else");
    reveal_strlit("map_err");
    reveal_strlit("into_ok");
    reveal_strlit("deref");
    reveal_strlit("deref_mut");
    let name = name_of(program, def_id);
    assert("save"@[0] == 's');
    assert("insert"@[0] == 'i' && "insert"@[1] == 'n' && "insert"@[2] == 's');
    assert("into_ok"@[2] == 't');
    assert("update"@[0] == 'u' && "update"@[1] == 'p');
    assert("unwrap"@[0] == 'u' && "unwrap"@[1] == 'n');
    assert("load"@[0] == 'l');
    assert("may_load"@[0] == 'm' && "may_load"@[2] == 'y');
    assert("map_err"@[0] == 'm' && "map_err"@[2] == 'p');
    assert("get"@[0] == 'g');
    assert("branch"@[0] == 'b');
    assert("from_residual"@[0] == 'f');
    assert("expect"@[0] == 'e');
    assert("ok_or"@[0] == 'o');
    assert("ok_or_else"@[0] == 'o');
    assert("deref"@[0] == 'd');
    assert("deref_mut"@[0] == 'd');
    assert("into_ok"@[0] == 'i');
}

/// Returns whether `def_id` identifies the `Result` enum.
pub fn is_result_def(program: &Program, def_id: DefId) -> (result: bool)
    requires
        def_id < program.defs@.len(),
    ensures
        result == program.defs@[def_id as int].is_result,
{
    program.defs[def_id].is_result
}

/// A type is `core::result::Result<_, _>`.
pub open spec fn result_ty(program: Program, ty: Ty) -> bool {
    program.types@[ty as int].kind matches TyKind::Adt(def, _)
        && program.defs@[def as int].is_result
}

/// Returns whether `ty` is `core::result::Result<_, _>`.
pub fn is_result_ty(program: &Program, ty: Ty) -> (result: bool)
    requires
        program.wf(),
        ty < program.types@.len(),
    ensures
        result == result_ty(*program, ty),
{
    match &program.types[ty].kind {
        TyKind::Adt(def, _) => {
            assert(program.types@[ty as int].kind.wf(program.defs@.len(), ty as nat));
            program.defs[*def].is_result
        },
        _ => false,
    }
}

/// A definition is `cosmwasm_std::MessageInfo`.
pub open spec fn message_info(program: Program, def_id: DefId) -> bool {
    krate_of(program, def_id) == "cosmwasm_std"@ && name_of(program, def_id) == "MessageInfo"@
}

/// Returns whether `def_id` is `cosmwasm_std::MessageInfo`.
pub fn is_message_info(program: &Program, def_id: DefId) -> (info: bool)
    requires
        def_id < program.defs@.len(),
    ensures
        info == message_info(*program, def_id),
{
    crate_name_is(program, def_id, "cosmwasm_std") && item_name_is(program, def_id, "MessageInfo")
}

/// A type, through any reference layers, is `cosmwasm_std::MessageInfo`.
pub open spec fn message_info_ty(program: Program, ty: Ty) -> bool {
    program.types@[mir_util::without_refs(program, ty) as int].kind matches TyKind::Adt(def, _)
        && message_info(program, def)
}

/// Returns whether `ty`, through any reference layers, is
/// `cosmwasm_std::MessageInfo`.
pub fn is_message_info_ty(program: &Program, ty: Ty) -> (info: bool)
    requires
        program.wf(),
        ty < program.types@.len(),
    ensures
        info == message_info_ty(*program, ty),
{
    let base: Ty = mir_util::strip_refs(program, ty);
    match &program.types[base].kind {
        TyKind::Adt(def, _) => {
            assert(program.types@[base as int].kind.wf(program.defs@.len(), base as nat));
            is_message_info(program, *def)
        },
        _ => false,
    }
}

/// A definition is one of the types the CosmWasm runtime supplies.
pub open spec fn framework_def(program: Program, def_id: DefId) -> bool {
    krate_of(program, def_id) == "cosmwasm_std"@ && {
        let name = name_of(program, def_id);
        ||| name == "MessageInfo"@
        ||| name == "Deps"@
        ||| name == "DepsMut"@
        ||| name == "OwnedDeps"@
        ||| name == "Env"@
    }
}

/// A definition is the `cosmwasm_std::Storage` trait.
pub open spec fn storage_trait(program: Program, def_id: DefId) -> bool {
    krate_of(program, def_id) == "cosmwasm_std"@ && name_of(program, def_id) == "Storage"@
}

/// A type, through any reference layers, is supplied by the CosmWasm runtime.
pub open spec fn framework_ty(program: Program, ty: Ty) -> bool {
    match program.types@[mir_util::without_refs(program, ty) as int].kind {
        TyKind::Adt(def, _) => framework_def(program, def),
        TyKind::Dynamic(Some(principal)) => storage_trait(program, principal),
        _ => false,
    }
}

/// Returns whether `ty` is a CosmWasm framework type.
///
/// The framework types (`Deps`, `DepsMut`, `OwnedDeps`, `MessageInfo`, `Env`)
/// and the `dyn Storage` trait object are supplied by the runtime, not by the
/// caller of a handler, and are therefore excluded from taint seeding.
/// Reference layers are stripped before the check.
pub fn is_framework_ty(program: &Program, ty: Ty) -> (framework: bool)
    requires
        program.wf(),
        ty < program.types@.len(),
    ensures
        framework == framework_ty(*program, ty),
{
    let base: Ty = mir_util::strip_refs(program, ty);
    assert(program.types@[base as int].kind.wf(program.defs@.len(), base as nat));
    match &program.types[base].kind {
        TyKind::Adt(def, _) => crate_name_is(program, *def, "cosmwasm_std") && (item_name_is(
            program,
            *def,
            "MessageInfo",
        ) || item_name_is(program, *def, "Deps") || item_name_is(program, *def, "DepsMut")
            || item_name_is(program, *def, "OwnedDeps") || item_name_is(program, *def, "Env")),
        TyKind::Dynamic(principal) => match principal {
            Some(def) => crate_name_is(program, *def, "cosmwasm_std") && item_name_is(
                program,
                *def,
                "Storage",
            ),
            None => false,
        },
        _ => false,
    }
}

/// A definition is one of the CosmWasm address types.
pub open spec fn addr_def(program: Program, def_id: DefId) -> bool {
    krate_of(program, def_id) == "cosmwasm_std"@ && (name_of(program, def_id) == "Addr"@
        || name_of(program, def_id) == "CanonicalAddr"@)
}

/// Returns whether `def_id` is one of the CosmWasm address types.
pub fn is_cosmwasm_addr(program: &Program, def_id: DefId) -> (addr: bool)
    requires
        def_id < program.defs@.len(),
    ensures
        addr == addr_def(*program, def_id),
{
    crate_name_is(program, def_id, "cosmwasm_std") && (item_name_is(program, def_id, "Addr")
        || item_name_is(program, def_id, "CanonicalAddr"))
}

/// A definition is the owned string type.
pub open spec fn string_def(program: Program, def_id: DefId) -> bool {
    name_of(program, def_id) == "String"@ && (krate_of(program, def_id) == "alloc"@ || krate_of(
        program,
        def_id,
    ) == "std"@)
}

/// Returns whether `def_id` is the standard library's owned string type
/// (`alloc::string::String`, re-exported as `std::string::String`).
///
/// Matching by crate plus item name rather than through the `String`
/// diagnostic item is deliberate: the diagnostic-item lookup does not resolve
/// on every toolchain, which would leave `String` and `Option<String>` message
/// fields unrecognised as taint sources.
pub fn is_std_string(program: &Program, def_id: DefId) -> (string: bool)
    requires
        def_id < program.defs@.len(),
    ensures
        string == string_def(*program, def_id),
{
    item_name_is(program, def_id, "String") && (crate_name_is(program, def_id, "alloc")
        || crate_name_is(program, def_id, "std"))
}

/// The free item at position `i` is a function named `execute`.
pub open spec fn execute_at(program: Program, i: int) -> bool {
    let def_id = program.free_items@[i];
    program.defs@[def_id as int].kind is Fn && name_of(program, def_id) == "execute"@
}

/// The first free function named `execute`, from position `i` on.
pub open spec fn execute_from(program: Program, i: int) -> Option<DefId>
    decreases program.free_items@.len() - i,
{
    if i < 0 || i >= program.free_items@.len() {
        None
    } else if execute_at(program, i) {
        Some(program.free_items@[i])
    } else {
        execute_from(program, i + 1)
    }
}

/// Locates the `execute` entry point of the contract crate.
///
/// CosmWasm contracts expose their state-changing operations through a single
/// free function named `execute`, so the search is over the crate's free items.
#[verifier::loop_isolation(false)]
pub fn find_execute(program: &Program) -> (entry: Option<DefId>)
    requires
        program.wf(),
    ensures
        entry == execute_from(*program, 0),
        entry matches Some(d) ==> d < program.defs@.len(),
{
    for i in 0..program.free_items.len()
        invariant
            execute_from(*program, 0) == execute_from(*program, i as int),
    {
        let def_id: DefId = program.free_items[i];
        let is_fn = match program.defs[def_id].kind {
            DefKind::Fn => true,
            _ => false,
        };
        if is_fn && item_name_is(program, def_id, "execute") {
            return Some(def_id);
        }
    }
    None
}

/// A body is at hand for a definition of the crate itself.
pub open spec fn analysable(program: Program, def_id: DefId) -> bool {
    program.defs@[def_id as int].is_local && program.defs@[def_id as int].body is Some
}

/// The body of an analysable definition.
pub open spec fn body_at(program: Program, def_id: DefId) -> Body {
    program.defs@[def_id as int].body->0
}

/// Returns whether the compiler can hand us a body for a definition: locally
/// defined and with a body available. Every stage skips the remaining nodes,
/// because a dependency's body cannot be inspected.
pub fn is_analysable(program: &Program, def_id: DefId) -> (analysable: bool)
    requires
        def_id < program.defs@.len(),
    ensures
        analysable == self::analysable(*program, def_id),
{
    program.defs[def_id].is_local && program.defs[def_id].body.is_some()
}

/// Returns the body of an analysable function.
pub fn body_of(program: &Program, def_id: DefId) -> (body: Option<&Body>)
    requires
        program.wf(),
        def_id < program.defs@.len(),
    ensures
        body == (if analysable(*program, def_id) {
            Some(&body_at(*program, def_id))
        } else {
            None
        }),
        body matches Some(b) ==> b.wf(*program) && b.def_id == def_id,
{
    assert(program.defs@[def_id as int].wf(*program, def_id));
    if program.defs[def_id].is_local {
        program.defs[def_id].body.as_ref()
    } else {
        None
    }
}

} // verus!
