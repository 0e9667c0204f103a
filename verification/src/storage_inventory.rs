//! Stage 1: storage inventory.
//!
//! Collects every `cw-storage-plus` constant (`Item`/`Map`) the crate defines,
//! and provides the two indices with which a local can later be traced back to
//! one of those constants. Stages 4 and 6 need that mapping: stage 4 marks the
//! items an authorization check reads, stage 6 recognises writes to exactly
//! those items.

use crate::cosmwasm;
use crate::dense::{DenseMap, DenseSet};
use crate::graph;
use crate::mir::{Body, DefId, DefKind, Local, Operand, Program, Rvalue, Statement, Ty, TyKind};
use crate::mir_util;
use crate::text::str_eq;
use vstd::prelude::*;

verus! {

/// The storage constants defined by the crate under analysis.
#[derive(Debug, Clone)]
pub struct StorageInventory {
    pub items: Vec<StorageItem>,
}

#[derive(Debug, Clone)]
pub struct StorageItem {
    pub name: String,
    pub def_id: DefId,
    pub ty_string: String,
    pub kind: StorageItemKind,
    /// Set by stage 4 once a sender comparison was seen to read this item.
    pub is_auth: bool,
}

#[derive(Debug, Clone, Copy, PartialEq, Eq, Structural)]
pub enum StorageItemKind {
    Item,
    KeyedMap,
}

/// What a [`StorageItem`] holds.
pub ghost struct StorageItemView {
    pub name: Seq<char>,
    pub def_id: DefId,
    pub ty_string: Seq<char>,
    pub kind: StorageItemKind,
    pub is_auth: bool,
}

impl View for StorageItem {
    type V = StorageItemView;

    open spec fn view(&self) -> StorageItemView {
        StorageItemView {
            name: self.name@,
            def_id: self.def_id,
            ty_string: self.ty_string@,
            kind: self.kind,
            is_auth: self.is_auth,
        }
    }
}

impl View for StorageInventory {
    type V = Seq<StorageItemView>;

    open spec fn view(&self) -> Seq<StorageItemView> {
        self.items@.map_values(|item: StorageItem| item@)
    }
}

/// The kind of storage a type stands for.
pub open spec fn storage_kind(program: Program, ty: Ty) -> Option<StorageItemKind> {
    match program.types@[ty as int].kind {
        TyKind::Adt(def, _) => if cosmwasm::krate_of(program, def) != "cw_storage_plus"@ {
            None
        } else if cosmwasm::name_of(program, def) == "Item"@ {
            Some(StorageItemKind::Item)
        } else if cosmwasm::name_of(program, def) == "Map"@ {
            Some(StorageItemKind::KeyedMap)
        } else {
            None
        },
        _ => None,
    }
}

/// The storage item a definition declares: a constant of a storage type.
pub open spec fn declared_item(program: Program, def_id: DefId) -> Option<StorageItemView> {
    match program.defs@[def_id as int].kind {
        DefKind::Const(ty) => match storage_kind(program, ty) {
            Some(kind) => Some(
                StorageItemView {
                    name: cosmwasm::name_of(program, def_id),
                    def_id,
                    ty_string: mir_util::normalized(program.types@[ty as int].display@),
                    kind,
                    is_auth: false,
                },
            ),
            None => None,
        },
        _ => None,
    }
}

/// The storage items among the given definitions, in order.
pub open spec fn declared_items(program: Program, defs: Seq<DefId>) -> Seq<StorageItemView>
    decreases defs.len(),
{
    if defs.len() == 0 {
        Seq::empty()
    } else {
        let before = declared_items(program, defs.drop_last());
        match declared_item(program, defs.last()) {
            Some(item) => before.push(item),
            None => before,
        }
    }
}

/// An inventory with the given definitions marked.
pub open spec fn marked(items: Seq<StorageItemView>, auth: Set<usize>) -> Seq<StorageItemView> {
    items.map_values(
        |item: StorageItemView|
            StorageItemView { is_auth: item.is_auth || auth.contains(item.def_id), ..item },
    )
}

/// Some item of that name is marked.
pub open spec fn auth_name(items: Seq<StorageItemView>, name: Seq<char>) -> bool {
    exists|i: int| 0 <= i < items.len() && (#[trigger] items[i]).is_auth && items[i].name == name
}

/// Marking twice is marking once, in either order with both sets at once.
pub proof fn lemma_mark_twice(items: Seq<StorageItemView>, first: Set<usize>, second: Set<usize>)
    ensures
        marked(marked(items, first), second) == marked(items, first.union(second)),
        marked(marked(items, first), second) == marked(marked(items, second), first),
{
    assert(marked(marked(items, first), second) =~= marked(items, first.union(second)));
    assert(marked(marked(items, first), second) =~= marked(marked(items, second), first));
}

/// Marking goes by definition: an item whose definition is not given keeps its
/// mark as it was, whatever its name.
pub proof fn lemma_mark_by_definition(items: Seq<StorageItemView>, auth: Set<usize>, i: int)
    requires
        0 <= i < items.len(),
        !auth.contains(items[i].def_id),
    ensures
        marked(items, auth)[i] == items[i],
{
}

/// Marking never removes a mark.
pub proof fn lemma_mark_keeps_names(
    items: Seq<StorageItemView>,
    auth: Set<usize>,
    name: Seq<char>,
)
    requires
        auth_name(items, name),
    ensures
        auth_name(marked(items, auth), name),
{
    let i = choose|i: int|
        0 <= i < items.len() && (#[trigger] items[i]).is_auth && items[i].name == name;
    assert(marked(items, auth)[i].is_auth);
}

fn kind_of_storage(program: &Program, ty: Ty) -> (kind: Option<StorageItemKind>)
    requires
        program.wf(),
        ty < program.types@.len(),
    ensures
        kind == storage_kind(*program, ty),
{
    match &program.types[ty].kind {
        TyKind::Adt(def, _) => {
            assert(program.types@[ty as int].kind.wf(program.defs@.len(), ty as nat));
            if !cosmwasm::crate_name_is(program, *def, "cw_storage_plus") {
                None
            } else if cosmwasm::item_name_is(program, *def, "Item") {
                Some(StorageItemKind::Item)
            } else if cosmwasm::item_name_is(program, *def, "Map") {
                Some(StorageItemKind::KeyedMap)
            } else {
                None
            }
        },
        _ => None,
    }
}

impl StorageInventory {
    /// Walks the crate's free items and records every `const` whose type is a
    /// `cw_storage_plus::Item` or `cw_storage_plus::Map`.
    #[verifier::loop_isolation(false)]
    pub fn build(program: &Program) -> (inventory: Self)
        requires
            program.wf(),
        ensures
            inventory@ == declared_items(*program, program.free_items@),
    {
        let mut items: Vec<StorageItem> = Vec::new();
        assert(program.free_items@.take(0) =~= Seq::<DefId>::empty());
        assert(items@.map_values(|item: StorageItem| item@) =~= Seq::<StorageItemView>::empty());
        for i in 0..program.free_items.len()
            invariant
                items@.map_values(|item: StorageItem| item@) == declared_items(
                    *program,
                    program.free_items@.take(i as int),
                ),
        {
            assert(program.free_items@.take(i + 1).drop_last() =~= program.free_items@.take(
                i as int,
            ));
            let ghost before = items@;
            let def_id: DefId = program.free_items[i];
            assert(program.defs@[def_id as int].wf(*program, def_id));
            if let DefKind::Const(ty) = &program.defs[def_id].kind {
                if let Some(kind) = kind_of_storage(program, *ty) {
                    let item = StorageItem {
                        name: program.defs[def_id].name.clone(),
                        def_id,
                        ty_string: mir_util::normalize_ty_str(program.types[*ty].display.as_str()),
                        kind,
                        is_auth: false,
                    };
                    items.push(item);
                    assert(items@.map_values(|item: StorageItem| item@) =~= before.map_values(
                        |item: StorageItem| item@,
                    ).push(item@));
                }
            }
        }
        assert(program.free_items@.take(program.free_items@.len() as int) =~= program.free_items@);
        StorageInventory { items }
    }

    /// Marks the given items as authorization-relevant.
    ///
    /// Matching is by definition, not by name: several storage constants may
    /// share a name across modules (a `CONFIG` in `state` and one in
    /// `migrations::*`), and name matching would mark all of them.
    pub fn mark_auth(&mut self, auth_items: &DenseSet)
        ensures
            final(self)@ == marked(old(self)@, auth_items@),
    {
        let ghost before = self@;
        let count: usize = self.items.len();
        for i in 0..count
            invariant
                count == self.items@.len(),
                before.len() == count,
                forall|j: int|
                    0 <= j < i ==> (#[trigger] self.items@[j])@ == marked(before, auth_items@)[j],
                forall|j: int| i <= j < count ==> (#[trigger] self.items@[j])@ == before[j],
        {
            let ghost items0 = self.items@;
            if auth_items.contains(self.items[i].def_id) {
                self.items[i].is_auth = true;
            }
            assert(self.items@[i as int]@ == marked(before, auth_items@)[i as int]);
            assert forall|j: int| 0 <= j < count && j != i implies self.items@[j] == items0[j] by {}
        }
        assert(self@ =~= marked(before, auth_items@));
    }

    /// Names of the items marked authorization-relevant. Stage 6 reports a
    /// write as a sink when the written item resolves to one of these.
    pub fn auth_item_names(&self) -> (names: Vec<String>)
        ensures
            forall|name: Seq<char>| #[trigger] holds_name(names@, name) == auth_name(self@, name),
    {
        let mut names: Vec<String> = Vec::new();
        for i in 0..self.items.len()
            invariant
                forall|name: Seq<char>| #[trigger]
                    holds_name(names@, name) == auth_name(self@.take(i as int), name),
        {
            let ghost before = names@;
            let ghost seen = self@.take(i as int);
            let ghost wider = self@.take(i + 1);
            assert(wider =~= seen.push(self@[i as int]));
            if self.items[i].is_auth {
                names.push(self.items[i].name.clone());
            }
            assert forall|name: Seq<char>| #[trigger]
                holds_name(names@, name) == auth_name(wider, name) by {
                if holds_name(before, name) {
                    let k = choose|k: int| 0 <= k < before.len() && (#[trigger] before[k])@ == name;
                    assert(names@[k]@ == name);
                    let k = choose|k: int|
                        0 <= k < seen.len() && (#[trigger] seen[k]).is_auth && seen[k].name == name;
                    assert(wider[k] == seen[k]);
                } else {
                    if holds_name(names@, name) {
                        let k = choose|k: int|
                            0 <= k < names@.len() && (#[trigger] names@[k])@ == name;
                        assert(k == before.len());
                        assert(wider[i as int].is_auth && wider[i as int].name == name);
                    }
                    if auth_name(wider, name) {
                        let k = choose|k: int|
                            0 <= k < wider.len() && (#[trigger] wider[k]).is_auth && wider[k].name
                                == name;
                        if k < i {
                            assert(seen[k] == wider[k]);
                        } else {
                            assert(names@[before.len() as int]@ == name);
                        }
                    }
                }
            }
        }
        assert(self@.take(self@.len() as int) =~= self@);
        names
    }
}

/// A list holds a text.
pub open spec fn holds_name(names: Seq<String>, name: Seq<char>) -> bool {
    exists|i: int| 0 <= i < names.len() && (#[trigger] names[i])@ == name
}

/// Returns whether a list holds a text.
pub fn list_holds(names: &Vec<String>, name: &str) -> (found: bool)
    ensures
        found == holds_name(names@, name@),
{
    for i in 0..names.len()
        invariant
            forall|j: int| 0 <= j < i ==> (#[trigger] names@[j])@ != name@,
    {
        if str_eq(names[i].as_str(), name) {
            return true;
        }
    }
    false
}

// ---- constants by type ---------------------------------------------------

/// Constant items indexed by their region-erased type.
///
/// Serves as the fallback for storage receivers whose constant cannot be read
/// off the operand. Two constants of the same type are indistinguishable on
/// that path, so the first one wins, which is why the index is built in
/// definition order and never overwrites an existing entry.
#[derive(Debug)]
pub struct ConstTypeIndex {
    by_ty: DenseMap<DefId>,
}

/// The first constant of each erased type among the given definitions.
pub open spec fn consts_by_ty(program: Program, defs: Seq<DefId>) -> Map<usize, DefId>
    decreases defs.len(),
{
    if defs.len() == 0 {
        Map::empty()
    } else {
        let before = consts_by_ty(program, defs.drop_last());
        match program.defs@[defs.last() as int].kind {
            DefKind::Const(ty) => {
                let erased = program.types@[ty as int].erased;
                if before.contains_key(erased) {
                    before
                } else {
                    before.insert(erased, defs.last())
                }
            },
            _ => before,
        }
    }
}

/// The constant a type names.
pub open spec fn const_for_ty(program: Program, ty: Ty) -> Option<DefId> {
    let consts = consts_by_ty(program, program.local_defs@);
    let erased = program.types@[mir_util::without_refs(program, ty) as int].erased;
    if consts.contains_key(erased) {
        Some(consts[erased])
    } else {
        None
    }
}

proof fn lemma_consts_by_ty(program: Program, defs: Seq<DefId>, ty: usize)
    requires
        consts_by_ty(program, defs).contains_key(ty),
    ensures
        defs.contains(consts_by_ty(program, defs)[ty]),
        program.defs@[consts_by_ty(program, defs)[ty] as int].kind is Const,
    decreases defs.len(),
{
    let before = consts_by_ty(program, defs.drop_last());
    let chosen = consts_by_ty(program, defs)[ty];
    if before.contains_key(ty) {
        lemma_consts_by_ty(program, defs.drop_last(), ty);
        let k = choose|k: int| 0 <= k < defs.drop_last().len() && defs.drop_last()[k] == chosen;
        assert(defs[k] == chosen);
    } else {
        assert(defs[defs.len() - 1] == chosen);
    }
}

impl ConstTypeIndex {
    /// The index belongs to this program.
    pub closed spec fn indexes(self, program: Program) -> bool {
        self.by_ty@ == consts_by_ty(program, program.local_defs@)
    }

    /// Builds the index once per crate. Scanning all local definitions per
    /// lookup instead would dominate the runtime of the taint fixpoints.
    #[verifier::loop_isolation(false)]
    pub fn build(program: &Program) -> (index: Self)
        requires
            program.wf(),
        ensures
            index.indexes(*program),
    {
        let mut by_ty: DenseMap<DefId> = DenseMap::new();
        assert(program.local_defs@.take(0) =~= Seq::<DefId>::empty());
        for i in 0..program.local_defs.len()
            invariant
                by_ty@ == consts_by_ty(*program, program.local_defs@.take(i as int)),
        {
            assert(program.local_defs@.take(i + 1).drop_last() =~= program.local_defs@.take(
                i as int,
            ));
            let def_id: DefId = program.local_defs[i];
            assert(program.defs@[def_id as int].wf(*program, def_id));
            if let DefKind::Const(ty) = &program.defs[def_id].kind {
                let erased: Ty = program.types[*ty].erased;
                if !by_ty.contains_key(erased) {
                    by_ty.insert(erased, def_id);
                }
            }
        }
        assert(program.local_defs@.take(program.local_defs@.len() as int) =~= program.local_defs@);
        ConstTypeIndex { by_ty }
    }

    /// Looks up the constant whose type matches `ty` after peeling references
    /// and erasing regions.
    fn lookup(&self, program: &Program, ty: Ty) -> (found: Option<DefId>)
        requires
            program.wf(),
            self.indexes(*program),
            ty < program.types@.len(),
        ensures
            found == const_for_ty(*program, ty),
            found matches Some(d) ==> d < program.defs@.len(),
    {
        let erased: Ty = program.types[mir_util::strip_refs(program, ty)].erased;
        match self.by_ty.get(erased) {
            Some(def_id) => {
                proof {
                    lemma_consts_by_ty(*program, program.local_defs@, erased);
                    let k = choose|k: int|
                        0 <= k < program.local_defs@.len() && program.local_defs@[k] == *def_id;
                    assert(program.local_defs@[k] < program.defs@.len());
                }
                Some(*def_id)
            },
            None => None,
        }
    }
}

// ---- constants by assignment ---------------------------------------------

/// One step of the assignment chain that leads from a storage receiver local
/// back to the constant it refers to.
#[derive(Debug, Clone, Copy)]
pub enum ConstDef {
    /// The local is assigned a not yet evaluated local `const` item.
    Item(DefId),
    /// The local copies, moves, borrows or derefs another local.
    CopiedFrom(Local),
}

/// The step an assignment contributes to a chain.
pub open spec fn const_step(program: Program, rvalue: Rvalue) -> Option<ConstDef> {
    match rvalue {
        Rvalue::Use(Operand::Constant(constant)) => match constant.unevaluated {
            Some(def) => if program.defs@[def as int].is_local
                && program.defs@[def as int].kind is Const {
                Some(ConstDef::Item(def))
            } else {
                None
            },
            None => None,
        },
        Rvalue::Use(Operand::Copy(place)) => Some(ConstDef::CopiedFrom(place.local)),
        Rvalue::Use(Operand::Move(place)) => Some(ConstDef::CopiedFrom(place.local)),
        Rvalue::Ref(_, place) => Some(ConstDef::CopiedFrom(place.local)),
        Rvalue::CopyForDeref(place) => Some(ConstDef::CopiedFrom(place.local)),
        _ => None,
    }
}

/// The chain steps that define `local` in the blocks below `block` and in the
/// first `statement` statements of `block`, in program order.
pub open spec fn const_steps_before(
    program: Program,
    body: Body,
    local: Local,
    block: nat,
    statement: nat,
) -> Seq<ConstDef>
    decreases block, statement,
{
    if statement > 0 {
        let before = const_steps_before(program, body, local, block, (statement - 1) as nat);
        match body.basic_blocks@[block as int].statements@[statement - 1] {
            Statement::Assign(assign) => if assign.place.local == local {
                match const_step(program, assign.rvalue) {
                    Some(step) => before.push(step),
                    None => before,
                }
            } else {
                before
            },
            Statement::Other => before,
        }
    } else if block > 0 {
        const_steps_before(
            program,
            body,
            local,
            (block - 1) as nat,
            body.basic_blocks@[block - 1].statements@.len(),
        )
    } else {
        Seq::empty()
    }
}

/// The chain steps that define `local`, in program order.
pub open spec fn const_steps(program: Program, body: Body, local: Local) -> Seq<ConstDef> {
    const_steps_before(program, body, local, body.basic_blocks@.len(), 0)
}

/// The first constant among the steps, if any.
pub open spec fn first_item(steps: Seq<ConstDef>) -> Option<DefId>
    decreases steps.len(),
{
    if steps.len() == 0 {
        None
    } else {
        match steps[0] {
            ConstDef::Item(def) => Some(def),
            ConstDef::CopiedFrom(_) => first_item(steps.skip(1)),
        }
    }
}

/// The locals the steps continue with.
pub open spec fn copied_locals(steps: Seq<ConstDef>) -> Seq<Local>
    decreases steps.len(),
{
    if steps.len() == 0 {
        Seq::empty()
    } else {
        let before = copied_locals(steps.drop_last());
        match steps.last() {
            ConstDef::Item(_) => before,
            ConstDef::CopiedFrom(next) => before.push(next),
        }
    }
}

/// Depth-first search for the constant behind the locals in `worklist`, the
/// last of them first. A local already in `seen` is not followed again.
pub open spec fn search_const(
    program: Program,
    body: Body,
    worklist: Seq<Local>,
    seen: Set<usize>,
) -> Option<DefId>
    decreases graph::missing(seen, body.local_decls@.len()), worklist.len(),
    via search_const_decreases
{
    if worklist.len() == 0 {
        None
    } else {
        let local = worklist.last();
        let rest = worklist.drop_last();
        if seen.contains(local) || local >= body.local_decls@.len() {
            search_const(program, body, rest, seen)
        } else {
            let steps = const_steps(program, body, local);
            match first_item(steps) {
                Some(def) => Some(def),
                None => search_const(
                    program,
                    body,
                    rest + copied_locals(steps),
                    seen.insert(local),
                ),
            }
        }
    }
}

#[via_fn]
proof fn search_const_decreases(
    program: Program,
    body: Body,
    worklist: Seq<Local>,
    seen: Set<usize>,
) {
    if worklist.len() > 0 {
        let local = worklist.last();
        if !(seen.contains(local) || local >= body.local_decls@.len()) {
            assert(body.local_decls.len() == body.local_decls@.len());
            graph::lemma_missing_grows(
                seen,
                seen.insert(local),
                body.local_decls@.len(),
                local,
            );
        }
    }
}

/// The constant the assignment chain of `receiver` leads to.
pub open spec fn const_behind(program: Program, body: Body, receiver: Local) -> Option<DefId> {
    search_const(program, body, seq![receiver], Set::empty())
}

/// Per-body index of the assignments that can define a storage receiver, in
/// program order.
///
/// A receiver is built as `_a = &_b; _b = const ITEM`, and the operand still
/// carries the constant's own definition, so the item can be identified exactly
/// instead of by type identity. Indexing the definitions once lets the chain be
/// followed without rescanning the body for every receiver.
#[derive(Debug)]
pub struct ConstDefIndex {
    by_local: Vec<Vec<ConstDef>>,
}

impl ConstDefIndex {
    /// The index belongs to this body.
    pub closed spec fn indexes(self, program: Program, body: Body) -> bool {
        &&& self.by_local@.len() == body.local_decls@.len()
        &&& forall|l: usize|
            l < self.by_local@.len() ==> (#[trigger] self.by_local@[l as int])@ == const_steps(
                program,
                body,
                l,
            )
    }

    #[verifier::loop_isolation(false)]
    pub fn build(program: &Program, body: &Body) -> (index: Self)
        requires
            body.wf(*program),
        ensures
            index.indexes(*program, *body),
    {
        let locals: usize = body.local_decls.len();
        let mut by_local: Vec<Vec<ConstDef>> = Vec::new();
        for l in 0..locals
            invariant
                by_local@.len() == l,
                forall|k: int| 0 <= k < l ==> (#[trigger] by_local@[k])@ == Seq::<ConstDef>::empty(),
        {
            by_local.push(Vec::new());
        }
        for b in 0..body.basic_blocks.len()
            invariant
                by_local@.len() == locals,
                forall|l: usize|
                    l < locals ==> (#[trigger] by_local@[l as int])@ == const_steps_before(
                        *program,
                        *body,
                        l,
                        b as nat,
                        0,
                    ),
        {
            let data = &body.basic_blocks[b];
            assert(data.wf(*program, body.local_decls@.len(), body.basic_blocks@.len()));
            for s in 0..data.statements.len()
                invariant
                    by_local@.len() == locals,
                    forall|l: usize|
                        l < locals ==> (#[trigger] by_local@[l as int])@ == const_steps_before(
                            *program,
                            *body,
                            l,
                            b as nat,
                            s as nat,
                        ),
            {
                assert(data.statements@[s as int].wf(*program, body.local_decls@.len()));
                let ghost before = by_local@;
                if let Statement::Assign(assign) = &data.statements[s] {
                    let step = match &assign.rvalue {
                        Rvalue::Use(Operand::Constant(constant)) => match constant.unevaluated {
                            Some(def) => {
                                let is_const = match program.defs[def].kind {
                                    DefKind::Const(_) => true,
                                    _ => false,
                                };
                                if program.defs[def].is_local && is_const {
                                    Some(ConstDef::Item(def))
                                } else {
                                    None
                                }
                            },
                            None => None,
                        },
                        Rvalue::Use(Operand::Copy(place)) => Some(
                            ConstDef::CopiedFrom(place.local),
                        ),
                        Rvalue::Use(Operand::Move(place)) => Some(
                            ConstDef::CopiedFrom(place.local),
                        ),
                        Rvalue::Ref(_, place) => Some(ConstDef::CopiedFrom(place.local)),
                        Rvalue::CopyForDeref(place) => Some(ConstDef::CopiedFrom(place.local)),
                        _ => None,
                    };
                    assert(step == const_step(*program, assign.rvalue));
                    if let Some(step) = step {
                        by_local[assign.place.local].push(step);
                    }
                }
                assert forall|l: usize| l < locals implies (#[trigger] by_local@[l as int])@
                    == const_steps_before(*program, *body, l, b as nat, (s + 1) as nat) by {
                    assert(before[l as int]@ == const_steps_before(
                        *program,
                        *body,
                        l,
                        b as nat,
                        s as nat,
                    ));
                }
            }
            assert forall|l: usize| l < locals implies (#[trigger] by_local@[l as int])@
                == const_steps_before(*program, *body, l, (b + 1) as nat, 0) by {}
        }
        ConstDefIndex { by_local }
    }

    /// Follows the chain from `receiver` and returns the constant it refers to,
    /// or `None` when the chain ends in an already evaluated constant, in a
    /// non-local constant, or in an unsupported rvalue.
    #[verifier::loop_isolation(false)]
    fn resolve(&self, program: &Program, body: &Body, receiver: Local) -> (found: Option<DefId>)
        requires
            self.indexes(*program, *body),
        ensures
            found == const_behind(*program, *body, receiver),
    {
        let mut worklist: Vec<Local> = vec![receiver];
        let mut seen = DenseSet::new();
        assert(worklist@ =~= seq![receiver]);
        while worklist.len() > 0
            invariant
                search_const(*program, *body, worklist@, seen@) == const_behind(
                    *program,
                    *body,
                    receiver,
                ),
            decreases graph::missing(seen@, body.local_decls@.len()), worklist@.len(),
        {
            let ghost worklist0 = worklist@;
            let ghost seen0 = seen@;
            let local: Local = worklist.pop().unwrap();
            if local < self.by_local.len() && seen.insert(local) {
                proof {
                    graph::lemma_missing_grows(seen0, seen@, body.local_decls@.len(), local);
                }
                let ghost steps = const_steps(*program, *body, local);
                let ghost rest = worklist@;
                assert(self.by_local@[local as int]@ == steps);
                assert(steps.take(0) =~= Seq::<ConstDef>::empty());
                assert(steps.skip(0) =~= steps);
                assert(rest + copied_locals(steps.take(0)) =~= rest);
                for i in 0..self.by_local[local].len()
                    invariant
                        first_item(steps) == first_item(steps.skip(i as int)),
                        worklist@ == rest + copied_locals(steps.take(i as int)),
                {
                    assert(steps.take(i + 1).drop_last() =~= steps.take(i as int));
                    assert(steps.skip(i as int).skip(1) =~= steps.skip(i + 1));
                    match self.by_local[local][i] {
                        ConstDef::Item(def_id) => {
                            return Some(def_id);
                        },
                        ConstDef::CopiedFrom(next) => {
                            let ghost before = worklist@;
                            worklist.push(next);
                            assert(worklist@ =~= rest + copied_locals(steps.take(i + 1)));
                        },
                    }
                }
                assert(steps.take(steps.len() as int) =~= steps);
                assert(steps.skip(steps.len() as int) =~= Seq::<ConstDef>::empty());
            } else {
                assert(seen@ =~= seen0);
            }
        }
        None
    }
}

/// What a found constant is: a constant item of the crate itself.
proof fn lemma_search_const(program: Program, body: Body, worklist: Seq<Local>, seen: Set<usize>)
    requires
        body.wf(program),
        search_const(program, body, worklist, seen) is Some,
    ensures
        search_const(program, body, worklist, seen)->0 < program.defs@.len(),
        program.defs@[search_const(program, body, worklist, seen)->0 as int].kind is Const,
    decreases graph::missing(seen, body.local_decls@.len()), worklist.len(),
{
    let local = worklist.last();
    let rest = worklist.drop_last();
    if seen.contains(local) || local >= body.local_decls@.len() {
        lemma_search_const(program, body, rest, seen);
    } else {
        let steps = const_steps(program, body, local);
        if first_item(steps) is Some {
            lemma_first_item(steps);
            let k = choose|k: int|
                0 <= k < steps.len() && #[trigger] steps[k] == ConstDef::Item(first_item(steps)->0);
            lemma_const_steps(program, body, local, body.basic_blocks@.len(), 0, k);
        } else {
            assert(body.local_decls.len() == body.local_decls@.len());
            graph::lemma_missing_grows(seen, seen.insert(local), body.local_decls@.len(), local);
            lemma_search_const(program, body, rest + copied_locals(steps), seen.insert(local));
        }
    }
}

proof fn lemma_first_item(steps: Seq<ConstDef>)
    requires
        first_item(steps) is Some,
    ensures
        exists|k: int|
            0 <= k < steps.len() && #[trigger] steps[k] == ConstDef::Item(first_item(steps)->0),
    decreases steps.len(),
{
    match steps[0] {
        ConstDef::Item(def) => {
            assert(steps[0] == ConstDef::Item(def));
        },
        ConstDef::CopiedFrom(_) => {
            let tail = steps.skip(1);
            lemma_first_item(tail);
            let k = choose|k: int|
                0 <= k < tail.len() && #[trigger] tail[k] == ConstDef::Item(first_item(tail)->0);
            assert(steps[k + 1] == tail[k]);
        },
    }
}

proof fn lemma_const_steps(
    program: Program,
    body: Body,
    local: Local,
    block: nat,
    statement: nat,
    k: int,
)
    requires
        body.wf(program),
        block <= body.basic_blocks@.len(),
        statement > 0 ==> block < body.basic_blocks@.len() && statement
            <= body.basic_blocks@[block as int].statements@.len(),
        0 <= k < const_steps_before(program, body, local, block, statement).len(),
    ensures
        const_steps_before(program, body, local, block, statement)[k] matches ConstDef::Item(def)
            ==> def < program.defs@.len() && program.defs@[def as int].kind is Const,
    decreases block, statement,
{
    if statement > 0 {
        let before = const_steps_before(program, body, local, block, (statement - 1) as nat);
        if k < before.len() {
            lemma_const_steps(program, body, local, block, (statement - 1) as nat, k);
        }
        assert(body.basic_blocks@[block as int].wf(
            program,
            body.local_decls@.len(),
            body.basic_blocks@.len(),
        ));
        assert(body.basic_blocks@[block as int].statements@[statement - 1].wf(
            program,
            body.local_decls@.len(),
        ));
    } else if block > 0 {
        lemma_const_steps(
            program,
            body,
            local,
            (block - 1) as nat,
            body.basic_blocks@[block - 1].statements@.len(),
            k,
        );
    }
}

// ---- resolving a receiver ------------------------------------------------

/// The storage constant behind a receiver: read off its assignment chain, or
/// else found by its type.
pub open spec fn storage_def(program: Program, body: Body, receiver: Local) -> Option<DefId> {
    match const_behind(program, body, receiver) {
        Some(def) => Some(def),
        None => const_for_ty(program, body.local_decls@[receiver as int]),
    }
}

/// The name a receiver is reported under.
pub open spec fn storage_name(program: Program, body: Body, receiver: Local) -> Seq<char> {
    match storage_def(program, body, receiver) {
        Some(def) => cosmwasm::name_of(program, def),
        None => mir_util::normalized(
            program.types@[mir_util::without_refs(
                program,
                body.local_decls@[receiver as int],
            ) as int].debug@,
        ),
    }
}

/// Resolves the storage constant behind a load or write receiver.
///
/// The exact path reads the constant's own definition off the operand
/// ([`ConstDefIndex`]); the fallback matches the receiver's type against the
/// crate's constants ([`ConstTypeIndex`]).
pub fn resolve_storage_def_id(
    program: &Program,
    body: &Body,
    receiver: Local,
    defs: &ConstDefIndex,
    consts: &ConstTypeIndex,
) -> (found: Option<DefId>)
    requires
        program.wf(),
        body.wf(*program),
        receiver < body.local_decls@.len(),
        defs.indexes(*program, *body),
        consts.indexes(*program),
    ensures
        found == storage_def(*program, *body, receiver),
        found matches Some(d) ==> d < program.defs@.len(),
{
    match defs.resolve(program, body, receiver) {
        Some(def_id) => {
            proof {
                lemma_search_const(*program, *body, seq![receiver], Set::empty());
            }
            Some(def_id)
        },
        None => consts.lookup(program, body.local_decls[receiver]),
    }
}

/// Resolves a storage receiver to the constant's name and definition. When
/// neither path resolves, the normalized type string is returned for display
/// only, without a definition.
pub fn resolve_storage_item(
    program: &Program,
    body: &Body,
    receiver: Local,
    defs: &ConstDefIndex,
    consts: &ConstTypeIndex,
) -> (item: (String, Option<DefId>))
    requires
        program.wf(),
        body.wf(*program),
        receiver < body.local_decls@.len(),
        defs.indexes(*program, *body),
        consts.indexes(*program),
    ensures
        item.0@ == storage_name(*program, *body, receiver),
        item.1 == storage_def(*program, *body, receiver),
{
    match resolve_storage_def_id(program, body, receiver, defs, consts) {
        Some(def_id) => (program.defs[def_id].name.clone(), Some(def_id)),
        None => {
            let base: Ty = mir_util::strip_refs(program, body.local_decls[receiver]);
            (mir_util::normalize_ty_str(program.types[base].debug.as_str()), None)
        },
    }
}

} // verus!
