use airlock::auth_gate::{ok_return_points, solve, AuthState};
use airlock::auth_storage::find_auth_state_variables;
use airlock::call_graph::{callee_locations, CallGraph};
use airlock::cosmwasm::{
    is_framework_ty, is_forwarding_glue_fn, is_storage_load_fn, is_storage_write_fn,
};
use airlock::debug::{closure_result, closure_sink, closure_skipped, Traces};
use airlock::dense::{DenseMap, DenseSet, PairSet};
use airlock::evaluation::{AccessControlFinding, SensitiveSink, TaintSource};
use airlock::gating::{
    closures_always_checking, compute_always_checks, compute_entry_checked, GatingIndex,
};
use airlock::mir::{
    AggregateKind, Assign, BasicBlockData, BinOp, Body, Call, ConstOperand, Def, DefKind, Location,
    Operand, Place, PlaceElem, Program, Rvalue, Statement, SwitchInt, Terminator, TyData,
    TyKind, UnOp,
};
use airlock::mir_util::{blocks_after, blocks_reaching, rvalue_locals, strip_refs};
use airlock::pipeline::run;
use airlock::predicates::{
    bool_predicate_fns, option_predicate_comparisons, predicate_call_comparisons,
    sender_predicate_summary,
};
use airlock::report::{
    crate_header, entry_point, findings, function_header, return_taint, FunctionFinding,
};
use airlock::sender_comparisons::{
    comparison_result_local, find_sender_comparisons, is_auth_sink, SenderComparison,
};
use airlock::sender_taint::{
    compute_sender_locals, seed_sender_taint, ty_is_sender_like, SenderSeeds,
};
use airlock::storage_inventory::{
    resolve_storage_def_id, resolve_storage_item, ConstDefIndex, ConstTypeIndex, StorageInventory,
    StorageItemKind,
};
use airlock::taint::{
    address_seed, compute_return_taint_params, propagate_taint_forward, ty_mentions_address,
    TaintFacts,
};

/// A program under construction.
struct World {
    program: Program,
}

impl World {
    fn new() -> World {
        World {
            program: Program {
                defs: vec![],
                types: vec![],
                free_items: vec![],
                local_defs: vec![],
            },
        }
    }

    fn ty(&mut self, kind: TyKind, text: &str) -> usize {
        let erased = self.program.types.len();
        self.program.types.push(TyData {
            kind,
            debug: text.to_string(),
            display: text.to_string(),
            erased,
        });
        erased
    }

    fn def(&mut self, name: &str, krate: &str, kind: DefKind) -> usize {
        let id = self.program.defs.len();
        let is_local = krate == "contract";
        self.program.defs.push(Def {
            name: name.to_string(),
            krate: krate.to_string(),
            path: format!("{krate}::{name}"),
            debug: format!("DefId({id})"),
            is_local,
            kind,
            is_result: name == "Result",
            is_string: name == "String",
            fields: None,
            body: None,
        });
        if is_local {
            self.program.local_defs.push(id);
            self.program.free_items.push(id);
        }
        id
    }

    fn adt(&mut self, name: &str, krate: &str, args: Vec<usize>) -> usize {
        let id = self.def(name, krate, DefKind::Other);
        self.ty(TyKind::Adt(id, args), name)
    }

    /// A function and the type of its name.
    fn function(&mut self, name: &str, krate: &str) -> (usize, usize) {
        let id = self.def(name, krate, DefKind::Fn);
        (id, self.ty(TyKind::FnDef(id), name))
    }

    fn body(&mut self, def_id: usize, arg_count: usize, locals: Vec<usize>, blocks: Vec<BasicBlockData>) {
        self.program.defs[def_id].body = Some(Body {
            def_id,
            arg_count,
            local_decls: locals,
            basic_blocks: blocks,
        });
    }

    fn done(self) -> Program {
        assert!(self.program.is_valid());
        self.program
    }
}

fn body_of(program: &Program, def_id: usize) -> &Body {
    program.defs[def_id].body.as_ref().unwrap()
}

fn place(local: usize) -> Place {
    Place { local, projection: vec![], ty: 0 }
}

fn field(local: usize, index: usize, ty: usize) -> Place {
    Place { local, projection: vec![PlaceElem::Field(index)], ty }
}

fn moved(local: usize) -> Operand {
    Operand::Move(place(local))
}

/// An operand of a known type.
fn typed(local: usize, ty: usize) -> Operand {
    Operand::Move(Place { local, projection: vec![], ty })
}

fn constant(ty: usize) -> Operand {
    Operand::Constant(ConstOperand { ty, unevaluated: None, bool_value: None })
}

fn item_constant(ty: usize, item: usize) -> Operand {
    Operand::Constant(ConstOperand { ty, unevaluated: Some(item), bool_value: None })
}

fn bool_constant(ty: usize, value: bool) -> Operand {
    Operand::Constant(ConstOperand { ty, unevaluated: None, bool_value: Some(value) })
}

fn assign(local: usize, rvalue: Rvalue) -> Statement {
    Statement::Assign(Assign { place: place(local), rvalue, text: format!("rhs{local}") })
}

fn reference(local: usize, of: usize) -> Statement {
    assign(local, Rvalue::Ref(false, place(of)))
}

fn aggregate(result: usize, variant: usize, operand: Operand) -> Statement {
    assign(0, Rvalue::Aggregate(AggregateKind::Adt(result, variant), vec![operand]))
}

fn call(fn_ty: usize, args: Vec<Operand>, local: usize) -> Terminator {
    Terminator::Call(Call {
        func: constant(fn_ty),
        func_text: "callee".to_string(),
        resolved: None,
        args,
        destination: place(local),
    })
}

fn switch(local: usize, on_zero: usize, otherwise: usize) -> BasicBlockData {
    BasicBlockData {
        statements: vec![],
        terminator: Terminator::SwitchInt(SwitchInt {
            discr: moved(local),
            values: vec![0],
            targets: vec![on_zero, otherwise],
        }),
        successors: vec![on_zero, otherwise],
    }
}

fn block(
    statements: Vec<Statement>,
    terminator: Terminator,
    successors: Vec<usize>,
) -> BasicBlockData {
    BasicBlockData { statements, terminator, successors }
}

fn goto(target: usize) -> BasicBlockData {
    block(vec![], Terminator::Other, vec![target])
}

fn last(statements: Vec<Statement>) -> BasicBlockData {
    block(statements, Terminator::Other, vec![])
}

fn set(indices: &[usize]) -> DenseSet {
    let mut out = DenseSet::new();
    for &i in indices {
        out.insert(i);
    }
    out
}

fn no_seeds() -> SenderSeeds {
    SenderSeeds::default()
}

fn comparison(block: usize, statement_index: usize, op: BinOp) -> SenderComparison {
    SenderComparison {
        location: Location { block, statement_index },
        compared_local: 0,
        op,
        description: String::new(),
    }
}

// ---- the framework and types ---------------------------------------------

#[test]
fn storage_functions_are_told_by_crate_and_name() {
    let mut world = World::new();
    let save = world.def("save", "cw_storage_plus", DefKind::Fn);
    let may_load = world.def("may_load", "cw_storage_plus", DefKind::Fn);
    let other_save = world.def("save", "contract", DefKind::Fn);
    let unwrap = world.def("unwrap", "core", DefKind::Fn);
    let program = world.done();
    assert!(is_storage_write_fn(&program, save) && !is_storage_load_fn(&program, save));
    assert!(is_storage_load_fn(&program, may_load) && !is_forwarding_glue_fn(&program, may_load));
    assert!(!is_storage_write_fn(&program, other_save));
    assert!(is_forwarding_glue_fn(&program, unwrap));
}

#[test]
fn address_types_are_recognised_through_their_layers() {
    let mut world = World::new();
    let addr = world.adt("Addr", "cosmwasm_std", vec![]);
    let text = world.ty(TyKind::Str, "str");
    let text_ref = world.ty(TyKind::Ref(text, false), "&str");
    let string = world.adt("String", "alloc", vec![]);
    let number = world.ty(TyKind::Other, "u64");
    let list = world.adt("Vec", "alloc", vec![string]);
    let numbers = world.adt("Vec", "alloc", vec![number]);
    let pair = world.ty(TyKind::Tuple(vec![number, addr]), "(u64, Addr)");
    let deps = world.adt("DepsMut", "cosmwasm_std", vec![]);
    let deps_ref = world.ty(TyKind::Ref(deps, true), "&mut DepsMut");
    let storage = world.def("Storage", "cosmwasm_std", DefKind::Other);
    let dyn_storage = world.ty(TyKind::Dynamic(Some(storage)), "dyn Storage");
    let program = world.done();
    assert!(ty_is_sender_like(&program, addr));
    assert!(ty_is_sender_like(&program, text_ref));
    assert!(ty_is_sender_like(&program, string));
    assert!(!ty_is_sender_like(&program, list));
    assert!(ty_mentions_address(&program, list));
    assert!(ty_mentions_address(&program, pair));
    assert!(!ty_mentions_address(&program, numbers));
    assert!(is_framework_ty(&program, deps_ref) && is_framework_ty(&program, dyn_storage));
    assert!(!is_framework_ty(&program, addr));
    assert_eq!(strip_refs(&program, text_ref), text);
}

#[test]
fn an_rvalue_reads_its_operands_and_places() {
    assert_eq!(rvalue_locals(&Rvalue::BinaryOp(BinOp::Eq, moved(3), moved(1))), vec![3, 1]);
    assert_eq!(rvalue_locals(&Rvalue::Ref(true, place(4))), vec![4]);
    assert_eq!(
        rvalue_locals(&Rvalue::Aggregate(AggregateKind::Other, vec![moved(2), constant(0)])),
        vec![2]
    );
    assert_eq!(rvalue_locals(&Rvalue::Use(constant(0))), Vec::<usize>::new());
}

// ---- the dataflow --------------------------------------------------------

/// A diamond: block 0 branches to 1 and 2, which meet in 3.
fn diamond() -> (Program, usize) {
    let mut world = World::new();
    let flag = world.ty(TyKind::Bool, "bool");
    let result = world.adt("Result", "core", vec![]);
    let (f, _) = world.function("f", "contract");
    world.body(
        f,
        0,
        vec![result, flag],
        vec![
            switch(1, 1, 2),
            goto(3),
            goto(3),
            last(vec![aggregate(0, 0, constant(0))]),
        ],
    );
    (world.done(), f)
}

#[test]
fn a_join_is_checked_only_when_every_path_is() {
    let (program, f) = diamond();
    let body = body_of(&program, f);
    let ok_points = ok_return_points(&program, body);
    assert_eq!(ok_points, vec![Location { block: 3, statement_index: 0 }]);

    let mut one_arm = PairSet::new();
    one_arm.insert(1, 0);
    let gating = solve(&program, body, one_arm.clone(), AuthState::Unchecked, &ok_points);
    assert!(!gating.at(3).is_checked() && !gating.always().is_checked());

    let mut both_arms = one_arm.clone();
    both_arms.insert(2, 0);
    let gating = solve(&program, body, both_arms, AuthState::Unchecked, &ok_points);
    assert!(!gating.at(1).is_checked());
    assert!(gating.at(3).is_checked() && gating.always().is_checked());

    let gating = solve(&program, body, one_arm, AuthState::Checked, &ok_points);
    assert!(gating.at(0).is_checked() && gating.always().is_checked());
}

#[test]
fn a_function_without_successful_return_never_vouches() {
    let (program, f) = diamond();
    let body = body_of(&program, f);
    let gating = solve(&program, body, PairSet::new(), AuthState::Checked, &vec![]);
    assert!(gating.at(3).is_checked());
    assert!(!gating.always().is_checked());
}

#[test]
fn blocks_are_found_backwards() {
    let (program, f) = diamond();
    let blocks = blocks_reaching(&program, body_of(&program, f), &set(&[1]));
    assert!(blocks.contains(0) && blocks.contains(1));
    assert!(!blocks.contains(2) && !blocks.contains(3));
}

#[test]
fn a_block_comes_after_itself_only_in_a_loop() {
    let (mut program, f) = diamond();
    let later = blocks_after(&program, body_of(&program, f), 1);
    assert!(later.contains(3) && later.len() == 1);
    program.defs[f].body.as_mut().unwrap().basic_blocks[3].successors = vec![1];
    let later = blocks_after(&program, body_of(&program, f), 1);
    assert!(later.contains(1) && later.contains(3) && later.len() == 2);
}

#[test]
fn a_check_counts_behind_its_own_point() {
    let (program, f) = diamond();
    let body = body_of(&program, f);
    let mut inside = PairSet::new();
    inside.insert(3, 0);
    let gating = solve(&program, body, inside, AuthState::Unchecked, &vec![]);
    assert!(!gating.at(3).is_checked());
    assert!(!gating.before(Location { block: 3, statement_index: 0 }).is_checked());
    assert!(gating.before(Location { block: 3, statement_index: 1 }).is_checked());
    assert!(!gating.before(Location { block: 2, statement_index: 1 }).is_checked());
}

// ---- the call graph ------------------------------------------------------

#[test]
fn the_graph_lists_functions_in_discovery_order() {
    let mut world = World::new();
    let unit = world.ty(TyKind::Tuple(vec![]), "()");
    let (root, root_ty) = world.function("execute", "contract");
    let (a, a_ty) = world.function("a", "contract");
    let (b, b_ty) = world.function("b", "contract");
    let (outside, outside_ty) = world.function("clone", "core");
    let (unused, _) = world.function("unused", "contract");
    let body = |terminators: Vec<Terminator>| {
        let count = terminators.len();
        let mut blocks: Vec<BasicBlockData> = terminators
            .into_iter()
            .enumerate()
            .map(|(i, t)| block(vec![], t, vec![i + 1]))
            .collect();
        blocks.push(last(vec![]));
        assert_eq!(blocks.len(), count + 1);
        blocks
    };
    let blocks = body(vec![call(b_ty, vec![moved(1), constant(unit)], 1), call(a_ty, vec![], 1)]);
    world.body(root, 0, vec![unit, unit], blocks);
    let blocks = body(vec![call(outside_ty, vec![], 1), call(root_ty, vec![], 1)]);
    world.body(b, 0, vec![unit, unit], blocks);
    let blocks = body(vec![call(b_ty, vec![], 1)]);
    world.body(a, 0, vec![unit, unit], blocks);
    let program = world.done();

    let graph = CallGraph::build_from_root(&program, root);
    assert_eq!(graph.root(), root);
    assert_eq!(graph.nodes(), &vec![root, b, a, outside]);
    assert!(!graph.nodes().contains(&unused));
    let sites = graph.call_sites_in(root);
    assert_eq!(sites.len(), 2);
    assert_eq!(sites[0].callee, b);
    assert_eq!(sites[0].caller, root);
    assert_eq!(sites[0].arg_locals, vec![Some(1), None]);
    assert_eq!(sites[1].location, Location { block: 1, statement_index: 0 });
    assert!(graph.call_sites_in(outside).is_empty());
    assert_eq!(graph.all_call_sites().len(), 5);
    let callees = callee_locations(graph.call_sites_in(b));
    assert_eq!(callees.get(1, 0), Some(&root));
    assert_eq!(callees.get(2, 0), None);
}

#[test]
fn trait_calls_are_resolved_where_possible() {
    let mut world = World::new();
    let unit = world.ty(TyKind::Tuple(vec![]), "()");
    let (root, _) = world.function("execute", "contract");
    let (declared, declared_ty) = world.function("check", "contract");
    let (implemented, _) = world.function("check", "contract");
    let resolved = Terminator::Call(Call {
        func: constant(declared_ty),
        func_text: "check".to_string(),
        resolved: Some(implemented),
        args: vec![],
        destination: place(0),
    });
    world.body(
        root,
        0,
        vec![unit],
        vec![
            block(vec![], resolved, vec![1]),
            block(vec![], call(declared_ty, vec![], 0), vec![2]),
            last(vec![]),
        ],
    );
    let program = world.done();
    let graph = CallGraph::build_from_root(&program, root);
    assert_eq!(graph.nodes(), &vec![root, implemented, declared]);
}

// ---- the sender ----------------------------------------------------------

/// A contract whose `execute` passes `&info.sender` and a list to a helper, and
/// captures the sender in a closure.
struct SenderWorld {
    program: Program,
    execute: usize,
    helper: usize,
    closure: usize,
}

fn sender_world() -> SenderWorld {
    let mut world = World::new();
    let unit = world.ty(TyKind::Tuple(vec![]), "()");
    let addr = world.adt("Addr", "cosmwasm_std", vec![]);
    let addr_ref = world.ty(TyKind::Ref(addr, false), "&Addr");
    let info = world.adt("MessageInfo", "cosmwasm_std", vec![]);
    let info_def = world.program.defs.len() - 1;
    world.program.defs[info_def].fields = Some(vec!["sender".to_string(), "funds".to_string()]);
    let list = world.adt("Assets", "contract", vec![]);
    let flag = world.ty(TyKind::Bool, "bool");
    let (execute, _) = world.function("execute", "contract");
    let (helper, helper_ty) = world.function("helper", "contract");
    let (_, eq_ty) = world.function("eq", "core");
    let closure = world.def("{closure}", "contract", DefKind::Closure);
    let closure_ty = world.ty(TyKind::Closure(closure), "{closure}");
    world.body(
        execute,
        2,
        vec![unit, info, list, addr_ref, list, closure_ty],
        vec![
            block(
                vec![
                    assign(3, Rvalue::Ref(false, field(1, 0, addr))),
                    // A list that the sender was put into.
                    assign(4, Rvalue::Aggregate(AggregateKind::Other, vec![moved(3)])),
                    assign(
                        5,
                        Rvalue::Aggregate(AggregateKind::Closure(closure), vec![moved(2), moved(3)]),
                    ),
                ],
                call(helper_ty, vec![moved(4), moved(3)], 0),
                vec![1],
            ),
            last(vec![]),
        ],
    );
    world.body(
        helper,
        2,
        vec![flag, list, addr_ref, addr_ref],
        vec![
            block(vec![], call(eq_ty, vec![moved(3), moved(2)], 0), vec![1]),
            last(vec![]),
        ],
    );
    world.body(
        closure,
        2,
        vec![flag, closure_ty, addr_ref, addr_ref],
        vec![
            block(
                vec![assign(3, Rvalue::Use(Operand::Copy(field(1, 1, addr_ref))))],
                call(eq_ty, vec![moved(2), moved(3)], 0),
                vec![1],
            ),
            last(vec![]),
        ],
    );
    SenderWorld { program: world.done(), execute, helper, closure }
}

#[test]
fn the_sender_spreads_inside_a_body() {
    let SenderWorld { program, execute, .. } = sender_world();
    let locals = compute_sender_locals(&program, body_of(&program, execute), &no_seeds());
    assert!(locals.contains(3) && locals.contains(4) && locals.contains(5));
    assert!(!locals.contains(1) && !locals.contains(2) && !locals.contains(0));
}

#[test]
fn a_field_behind_another_is_not_the_sender() {
    let SenderWorld { mut program, execute, closure, .. } = sender_world();
    let path = |steps: Vec<PlaceElem>| Place { local: 1, projection: steps, ty: 0 };
    let read = |steps: Vec<PlaceElem>| assign(3, Rvalue::Use(Operand::Copy(path(steps))));
    let mut carries = |f: usize, seeds: &SenderSeeds, steps: Vec<PlaceElem>| {
        program.defs[f].body.as_mut().unwrap().basic_blocks[0].statements = vec![read(steps)];
        compute_sender_locals(&program, body_of(&program, f), seeds).contains(3)
    };
    // Field 0 of the message info is the sender, field 1 the funds.
    let none = no_seeds();
    assert!(carries(execute, &none, vec![PlaceElem::Other, PlaceElem::Field(0)]));
    assert!(carries(execute, &none, vec![PlaceElem::Field(0), PlaceElem::Field(1)]));
    assert!(!carries(execute, &none, vec![PlaceElem::Field(1), PlaceElem::Field(0)]));
    // Upvar 1 of the closure is the sender.
    let mut seeds = no_seeds();
    seeds.upvar_indices.insert(1);
    assert!(carries(closure, &seeds, vec![PlaceElem::Other, PlaceElem::Field(1)]));
    assert!(!carries(closure, &seeds, vec![PlaceElem::Field(0), PlaceElem::Field(1)]));
    assert!(!carries(closure, &seeds, vec![PlaceElem::Other]));
}

#[test]
fn seeds_reach_helpers_and_closures_by_type() {
    let SenderWorld { program, execute, helper, closure } = sender_world();
    let graph = CallGraph::build_from_root(&program, execute);
    let taint = seed_sender_taint(&program, &graph);
    assert_eq!(taint.targets, vec![execute, helper, closure]);
    // The address is seeded, the list that carries it is not.
    let seeds = taint.seeds_of(helper);
    assert!(seeds.param_locals.contains(2) && !seeds.param_locals.contains(1));
    let seeds = taint.seeds_of(closure);
    assert!(seeds.upvar_indices.contains(1) && !seeds.upvar_indices.contains(0));
    assert!(taint.seeds_of(execute).param_locals.is_empty());
}

#[test]
fn comparisons_are_found_in_helpers_and_closures() {
    let SenderWorld { program, execute, helper, closure } = sender_world();
    let graph = CallGraph::build_from_root(&program, execute);
    let taint = seed_sender_taint(&program, &graph);
    let found =
        find_sender_comparisons(&program, body_of(&program, helper), &taint.seeds_of(helper));
    assert_eq!(found.len(), 1);
    assert_eq!(found[0].compared_local, 3);
    assert_eq!(found[0].op, BinOp::Eq);
    assert_eq!(found[0].description, "Call \"callee\": info.sender (_2) == _3");
    assert!(find_sender_comparisons(&program, body_of(&program, helper), &no_seeds()).is_empty());
    let found =
        find_sender_comparisons(&program, body_of(&program, closure), &taint.seeds_of(closure));
    assert_eq!(found.len(), 1);
    assert_eq!(found[0].compared_local, 2);
    assert_eq!(comparison_result_local(body_of(&program, closure), &found[0]), Some(0));
}

/// Runs the search on a body of one block with parameter `_1` as the sender.
fn comparisons_in_call(name: &str, krate: &str, args: Vec<Operand>) -> Vec<SenderComparison> {
    let mut world = World::new();
    let addr = world.adt("Addr", "cosmwasm_std", vec![]);
    let (f, _) = world.function("f", "contract");
    let (_, callee_ty) = world.function(name, krate);
    world.body(
        f,
        2,
        vec![addr, addr, addr, addr],
        vec![block(vec![], call(callee_ty, args, 3), vec![1]), last(vec![])],
    );
    let program = world.done();
    let seeds = SenderSeeds { param_locals: set(&[1]), upvar_indices: DenseSet::new() };
    find_sender_comparisons(&program, body_of(&program, f), &seeds)
}

#[test]
fn calls_compare_the_sender_in_several_shapes() {
    let found = comparisons_in_call("contains", "core", vec![moved(2), moved(1)]);
    assert_eq!(found.len(), 1);
    assert_eq!(
        found[0].description,
        "contains() check 'callee': collection (_2) contains info.sender (_1)"
    );
    assert!(comparisons_in_call("contains", "core", vec![moved(1), moved(2)]).is_empty());

    let found = comparisons_in_call("any", "core", vec![moved(2), moved(1)]);
    assert_eq!(found.len(), 1);
    assert_eq!(
        found[0].description,
        "iter search 'callee': info.sender (_1) in iterator over (_2) "
    );

    let found = comparisons_in_call("ne", "core", vec![moved(1), moved(2)]);
    assert_eq!(found.len(), 1);
    assert_eq!(found[0].op, BinOp::Ne);
    assert!(comparisons_in_call("ne", "core", vec![moved(1)]).is_empty());

    let found = comparisons_in_call("assert_owner", "cw_ownable", vec![moved(2), moved(1)]);
    assert_eq!(found.len(), 1);
    assert_eq!(found[0].compared_local, 1);
    assert_eq!(
        found[0].description,
        "auth-sink 'cw_ownable::assert_owner': info.sender (_1) checked against stored owner/admin"
    );
    assert!(comparisons_in_call("assert_owner", "contract", vec![moved(1)]).is_empty());
    assert!(comparisons_in_call("assert_owner", "cw_ownable", vec![moved(2)]).is_empty());
}

#[test]
fn the_sender_may_stand_on_either_side_of_an_operator() {
    let mut world = World::new();
    let addr = world.adt("Addr", "cosmwasm_std", vec![]);
    let (f, _) = world.function("f", "contract");
    world.body(
        f,
        2,
        vec![addr, addr, addr, addr],
        vec![last(vec![
            assign(3, Rvalue::BinaryOp(BinOp::Ne, moved(2), moved(1))),
            assign(3, Rvalue::BinaryOp(BinOp::Arithmetic, moved(2), moved(1))),
            assign(3, Rvalue::BinaryOp(BinOp::Eq, moved(1), moved(2))),
        ])],
    );
    let program = world.done();
    let seeds = SenderSeeds { param_locals: set(&[1]), upvar_indices: DenseSet::new() };
    let found = find_sender_comparisons(&program, body_of(&program, f), &seeds);
    assert_eq!(found.len(), 2);
    assert_eq!(found[0].location, Location { block: 0, statement_index: 0 });
    assert_eq!((found[0].compared_local, found[0].op), (2, BinOp::Ne));
    assert_eq!(found[1].location, Location { block: 0, statement_index: 2 });
    assert_eq!((found[1].compared_local, found[1].op), (2, BinOp::Eq));
}

#[test]
fn authorization_helpers_are_told_by_name() {
    for name in [
        "assert_admin",
        "update_ownership",
        "is_admin",
        "check_admin_privileges",
        "ensure_owner",
        "only_operator",
        "verify_permissions",
        "is_approved_or_owner",
        "require_minter",
    ] {
        assert!(is_auth_sink(name), "{name}");
    }
    for name in [
        "validate_owner",
        "get_owner",
        "load_admin",
        "query_permissions",
        "addr_validate",
        "is_empty",
        "owner",
        "assert_",
    ] {
        assert!(!is_auth_sink(name), "{name}");
    }
}

// ---- predicates ----------------------------------------------------------

/// A caller that hands a predicate closure to `Option::<name>`.
fn combinator_world(name: &str, op: BinOp, default: Option<bool>) -> Vec<SenderComparison> {
    let mut world = World::new();
    let flag = world.ty(TyKind::Bool, "bool");
    let (f, _) = world.function("f", "contract");
    let (_, combinator_ty) = world.function(name, "core");
    let closure = world.def("{closure}", "contract", DefKind::Closure);
    let closure_ty = world.ty(TyKind::Closure(closure), "{closure}");
    let mut args = vec![moved(3)];
    if let Some(value) = default {
        args.push(bool_constant(flag, value));
    }
    args.push(typed(2, closure_ty));
    world.body(
        f,
        0,
        vec![flag, flag, closure_ty, closure_ty],
        vec![block(vec![], call(combinator_ty, args, 1), vec![1]), last(vec![])],
    );
    let mut predicates: DenseMap<BinOp> = DenseMap::new();
    predicates.insert(closure, op);
    // The first operand is an option, not a `bool`.
    let program = {
        let mut program = world.done();
        let body = program.defs[f].body.as_mut().unwrap();
        if let Terminator::Call(call) = &mut body.basic_blocks[0].terminator {
            call.args[0] = typed(3, closure_ty + 1);
        }
        program.types.push(TyData {
            kind: TyKind::Other,
            debug: "Option<Addr>".to_string(),
            display: "Option<Addr>".to_string(),
            erased: closure_ty + 1,
        });
        assert!(program.is_valid());
        program
    };
    option_predicate_comparisons(&program, body_of(&program, f), &predicates)
}

#[test]
fn option_combinators_gate_only_where_absence_rejects() {
    let accepted = [
        ("map_or", BinOp::Ne, Some(true)),
        ("map_or", BinOp::Eq, Some(false)),
        ("is_none_or", BinOp::Ne, None),
        ("is_some_and", BinOp::Eq, None),
    ];
    for (name, op, default) in accepted {
        let found = combinator_world(name, op, default);
        assert_eq!(found.len(), 1, "{name}");
        assert_eq!(found[0].op, op);
        assert_eq!(found[0].description, format!("Option::{name} sender-predicate gate"));
    }
    let refused = [
        ("map_or", BinOp::Ne, Some(false)),
        ("map_or", BinOp::Eq, Some(true)),
        ("map_or", BinOp::Eq, None),
        ("is_none_or", BinOp::Eq, None),
        ("is_some_and", BinOp::Ne, None),
        ("map", BinOp::Eq, None),
    ];
    for (name, op, default) in refused {
        assert!(combinator_world(name, op, default).is_empty(), "{name}");
    }
}

#[test]
fn boolean_helpers_are_predicates() {
    let SenderWorld { program, helper, closure, execute } = sender_world();
    let mut map: DenseMap<Vec<SenderComparison>> = DenseMap::new();
    map.insert(helper, vec![comparison(0, 0, BinOp::Eq)]);
    map.insert(closure, vec![]);
    map.insert(execute, vec![comparison(0, 3, BinOp::Eq)]);
    let helpers = bool_predicate_fns(&program, &map);
    assert!(helpers.contains(helper));
    assert!(!helpers.contains(closure) && !helpers.contains(execute));

    let found = predicate_call_comparisons(&program, body_of(&program, execute), &helpers);
    assert_eq!(found.len(), 1);
    // The polarity of a helper's result is unknown.
    assert_ne!(found[0].op, BinOp::Eq);
    assert_ne!(found[0].op, BinOp::Ne);
    assert_eq!(found[0].location, Location { block: 0, statement_index: 3 });
    assert_eq!(
        found[0].description,
        "sender-predicate helper 'helper': result branches as an authorization guard"
    );
}

#[test]
fn a_comparison_that_is_returned_makes_a_predicate() {
    let SenderWorld { program, helper, closure, .. } = sender_world();
    let mut map: DenseMap<Vec<SenderComparison>> = DenseMap::new();
    map.insert(helper, vec![comparison(0, 0, BinOp::Ne)]);
    map.insert(closure, vec![comparison(0, 0, BinOp::Ne)]);
    let summary = sender_predicate_summary(&program, &map);
    // `_0` is the destination of the call that compares.
    assert_eq!(summary.get(helper), Some(&BinOp::Ne));
    // Statement 0 of the closure compares nothing into the result.
    assert_eq!(summary.get(closure), None);
}

/// The summary of a function whose first statement compares `_1` with `_2` into
/// `result`, followed by `rest` and, where `tail` is given, by a second block.
fn summary_of(
    result: usize,
    rest: Vec<Statement>,
    tail: Option<Vec<Statement>>,
    question_mark: bool,
) -> Option<BinOp> {
    let mut world = World::new();
    let wrapped = world.adt("Result", "core", vec![]);
    let flag = world.ty(TyKind::Bool, "bool");
    let (f, _) = world.function("f", "contract");
    let (_, residual_ty) = world.function("from_residual", "core");
    let mut statements = vec![assign(result, Rvalue::BinaryOp(BinOp::Ne, moved(1), moved(2)))];
    statements.extend(rest);
    let mut blocks = vec![block(statements, Terminator::Other, vec![1])];
    blocks.push(last(tail.unwrap_or_default()));
    if question_mark {
        blocks.push(block(vec![], call(residual_ty, vec![moved(3)], 0), vec![]));
    }
    world.body(f, 2, vec![wrapped, flag, flag, flag, flag], blocks);
    let program = world.done();
    let mut map: DenseMap<Vec<SenderComparison>> = DenseMap::new();
    map.insert(f, vec![comparison(0, 0, BinOp::Ne)]);
    sender_predicate_summary(&program, &map).get(f).copied()
}

#[test]
fn a_predicate_answers_by_its_comparison_alone() {
    let copied = || vec![assign(0, Rvalue::Use(moved(3)))];
    let wrapped = || vec![aggregate(0, 0, moved(3))];
    assert_eq!(summary_of(0, vec![], None, false), Some(BinOp::Ne));
    assert_eq!(summary_of(3, copied(), None, false), Some(BinOp::Ne));
    assert_eq!(summary_of(3, wrapped(), None, false), Some(BinOp::Ne));
    // A failure is no answer.
    let failed = || Some(vec![aggregate(0, 1, moved(1))]);
    assert_eq!(summary_of(3, wrapped(), failed(), true), Some(BinOp::Ne));

    // Nothing hands the result on.
    assert_eq!(summary_of(3, vec![], None, false), None);
    let negated = vec![assign(0, Rvalue::UnaryOp(UnOp::Not, moved(3)))];
    assert_eq!(summary_of(3, negated, None, false), None);
    // Another way out answers by itself.
    let early = || Some(vec![aggregate(0, 0, constant(0))]);
    assert_eq!(summary_of(3, wrapped(), early(), false), None);
    let fixed = || Some(vec![assign(0, Rvalue::Use(constant(0)))]);
    assert_eq!(summary_of(3, copied(), fixed(), false), None);
    assert_eq!(summary_of(0, vec![], fixed(), false), None);
    // The result is set again, or can be through a pointer.
    let again = || Some(vec![assign(3, Rvalue::Use(moved(1)))]);
    assert_eq!(summary_of(3, copied(), again(), false), None);
    let lent = || Some(vec![assign(4, Rvalue::Ref(true, place(3)))]);
    assert_eq!(summary_of(3, copied(), lent(), false), None);
}

/// `option.map_or(_2, closure)`, where `_2` is set by `settings`, the closure
/// being an inequality.
fn default_through(settings: Vec<bool>) -> usize {
    let mut world = World::new();
    let flag = world.ty(TyKind::Bool, "bool");
    let (f, _) = world.function("f", "contract");
    let (_, combinator_ty) = world.function("map_or", "core");
    let closure = world.def("{closure}", "contract", DefKind::Closure);
    let closure_ty = world.ty(TyKind::Closure(closure), "{closure}");
    let statements = settings
        .into_iter()
        .map(|value| assign(2, Rvalue::Use(bool_constant(flag, value))))
        .collect();
    let args = vec![typed(2, flag), typed(3, closure_ty)];
    world.body(
        f,
        0,
        vec![flag, flag, flag, closure_ty],
        vec![block(statements, call(combinator_ty, args, 1), vec![1]), last(vec![])],
    );
    let program = world.done();
    let mut predicates: DenseMap<BinOp> = DenseMap::new();
    predicates.insert(closure, BinOp::Ne);
    option_predicate_comparisons(&program, body_of(&program, f), &predicates).len()
}

#[test]
fn a_default_is_read_through_a_temporary_only() {
    assert_eq!(default_through(vec![true]), 1);
    assert_eq!(default_through(vec![false]), 0);
    assert_eq!(default_through(vec![]), 0);
    // What is set again may be either.
    assert_eq!(default_through(vec![true, false]), 0);
    assert_eq!(default_through(vec![false, true]), 0);
}

// ---- storage -------------------------------------------------------------

/// A body that loads `CONFIG` and saves `ADMIN`.
struct StorageWorld {
    program: Program,
    f: usize,
    config: usize,
    admin: usize,
    item_ref: usize,
}

fn storage_world() -> StorageWorld {
    let mut world = World::new();
    let unit = world.ty(TyKind::Tuple(vec![]), "()");
    let addr = world.adt("Addr", "cosmwasm_std", vec![]);
    let item = world.adt("Item", "cw_storage_plus", vec![addr]);
    let item_ref = world.ty(TyKind::Ref(item, false), "&Item");
    let map = world.adt("Map", "cw_storage_plus", vec![addr]);
    let config = world.def("CONFIG", "contract", DefKind::Const(item));
    let admin = world.def("ADMIN", "contract", DefKind::Const(item));
    let other_admin = world.def("ADMIN", "contract", DefKind::Const(map));
    assert_eq!(other_admin, admin + 1);
    world.def("LIMIT", "contract", DefKind::Const(unit));
    let (f, _) = world.function("f", "contract");
    let (_, load_ty) = world.function("load", "cw_storage_plus");
    let (_, save_ty) = world.function("save", "cw_storage_plus");
    let (_, deref_ty) = world.function("deref", "core");
    // _1 storage, _2 new address, _3 &CONFIG, _4 CONFIG, _5 loaded, _6 &loaded,
    // _7 &ADMIN, _8 ADMIN, _9 result of the save, _10 loaded again
    world.body(
        f,
        2,
        vec![unit, unit, addr, item_ref, item, addr, addr, item_ref, item, unit, addr],
        vec![
            block(
                vec![assign(4, Rvalue::Use(item_constant(item, config))), reference(3, 4)],
                call(load_ty, vec![moved(3), moved(1)], 5),
                vec![1],
            ),
            block(vec![], call(deref_ty, vec![moved(5)], 6), vec![2]),
            block(
                vec![assign(8, Rvalue::Use(item_constant(item, admin))), reference(7, 8)],
                call(save_ty, vec![moved(7), moved(1), moved(2)], 9),
                vec![3],
            ),
            block(vec![], call(load_ty, vec![moved(7), moved(1)], 10), vec![4]),
            last(vec![]),
        ],
    );
    StorageWorld { program: world.done(), f, config, admin, item_ref }
}

#[test]
fn the_inventory_lists_items_and_maps() {
    let StorageWorld { program, config, admin, .. } = storage_world();
    let mut inventory = StorageInventory::build(&program);
    let listed: Vec<(&str, usize)> =
        inventory.items.iter().map(|item| (item.name.as_str(), item.def_id)).collect();
    assert_eq!(listed, vec![("CONFIG", config), ("ADMIN", admin), ("ADMIN", admin + 1)]);
    assert!(matches!(inventory.items[0].kind, StorageItemKind::Item));
    assert!(matches!(inventory.items[2].kind, StorageItemKind::KeyedMap));
    assert!(inventory.auth_item_names().is_empty());
    // Marking goes by definition, not by name.
    inventory.mark_auth(&set(&[admin]));
    let marks: Vec<bool> = inventory.items.iter().map(|item| item.is_auth).collect();
    assert_eq!(marks, vec![false, true, false]);
    inventory.mark_auth(&set(&[config]));
    inventory.mark_auth(&set(&[config]));
    let names = inventory.auth_item_names();
    assert_eq!(names.len(), 2);
    assert!(names.contains(&"CONFIG".to_string()) && names.contains(&"ADMIN".to_string()));
}

#[test]
fn receivers_resolve_to_their_constant() {
    let StorageWorld { program, f, config, admin, .. } = storage_world();
    let body = body_of(&program, f);
    let defs = ConstDefIndex::build(&program, body);
    let types = ConstTypeIndex::build(&program);
    assert_eq!(resolve_storage_def_id(&program, body, 3, &defs, &types), Some(config));
    assert_eq!(resolve_storage_def_id(&program, body, 7, &defs, &types), Some(admin));
    // A parameter of an address type is no storage constant.
    assert_eq!(resolve_storage_def_id(&program, body, 2, &defs, &types), None);
    assert_eq!(
        resolve_storage_item(&program, body, 2, &defs, &types),
        ("Addr".to_string(), None)
    );
}

#[test]
fn the_first_constant_of_a_type_stands_for_it() {
    let StorageWorld { mut program, f, config, item_ref, .. } = storage_world();
    // A receiver that arrives as a parameter is resolved by its type.
    program.defs[f].body.as_mut().unwrap().local_decls[1] = item_ref;
    let body = body_of(&program, f);
    let defs = ConstDefIndex::build(&program, body);
    let types = ConstTypeIndex::build(&program);
    assert_eq!(resolve_storage_def_id(&program, body, 1, &defs, &types), Some(config));
    assert_eq!(
        resolve_storage_item(&program, body, 1, &defs, &types),
        ("CONFIG".to_string(), Some(config))
    );
}

#[test]
fn counterparts_are_traced_to_their_load() {
    let StorageWorld { program, f, config, .. } = storage_world();
    let body = body_of(&program, f);
    let defs = ConstDefIndex::build(&program, body);
    let types = ConstTypeIndex::build(&program);
    let mut traced = comparison(4, 0, BinOp::Eq);
    traced.compared_local = 6;
    let mut untraced = comparison(4, 0, BinOp::Eq);
    untraced.compared_local = 9;
    let found =
        find_auth_state_variables(&program, body, &vec![traced, untraced], &defs, &types);
    // The save that `_9` comes from is no load.
    assert_eq!(found.len(), 1);
    assert_eq!(found[0].symbolic_name, "CONFIG");
    assert_eq!(found[0].storage_def_id, Some(config));
    assert_eq!(found[0].load_location, Location { block: 0, statement_index: 2 });
}

// ---- taint ---------------------------------------------------------------

#[test]
fn only_the_written_item_becomes_tainted() {
    let StorageWorld { program, f, .. } = storage_world();
    let body = body_of(&program, f);
    let graph = CallGraph::build_from_root(&program, f);
    let seed = address_seed(&program, body);
    assert!(seed.contains(2) && seed.len() == 1);
    let defs = ConstDefIndex::build(&program, body);
    let types = ConstTypeIndex::build(&program);
    let facts = TaintFacts::build(&program, body, &defs, &types);
    let callees = callee_locations(graph.call_sites_in(f));
    let result =
        propagate_taint_forward(&program, body, &seed, &facts, &callees, &DenseMap::new());
    // `ADMIN` was written with `_2`, `CONFIG` was not; the handle stays clean.
    assert!(result.is_tainted(10));
    assert_eq!(result.origin_of(10), 2);
    assert!(!result.is_tainted(5) && !result.is_tainted(6) && !result.is_tainted(1));
    assert_eq!(result.origin_of(5), 5);
}

/// `fn pick(skip: u64, a: Addr, b: Addr) -> Addr { a }` and a caller that passes
/// a constant first.
#[test]
fn summaries_forward_by_argument_position() {
    let mut world = World::new();
    let number = world.ty(TyKind::Other, "u64");
    let addr = world.adt("Addr", "cosmwasm_std", vec![]);
    let (caller, _) = world.function("caller", "contract");
    let (pick, pick_ty) = world.function("pick", "contract");
    world.body(
        pick,
        3,
        vec![addr, number, addr, addr],
        vec![last(vec![assign(0, Rvalue::Use(moved(2)))])],
    );
    world.body(
        caller,
        2,
        vec![addr, addr, addr, addr],
        vec![
            block(
                vec![],
                call(pick_ty, vec![constant(number), moved(1), moved(2)], 3),
                vec![1],
            ),
            last(vec![assign(0, Rvalue::Use(moved(3)))]),
        ],
    );
    let program = world.done();
    let graph = CallGraph::build_from_root(&program, caller);
    let types = ConstTypeIndex::build(&program);
    let summary = compute_return_taint_params(&program, &graph, &types);
    let flows = summary.get(pick).unwrap();
    assert!(flows.contains(1) && flows.len() == 1);
    // The caller's first parameter is the second argument of `pick`.
    let flows = summary.get(caller).unwrap();
    assert!(flows.contains(0) && flows.len() == 1);
    assert_eq!(
        return_taint(&program, &summary),
        vec![
            "\n[4] Return-tainted-by-param functions: 2/2",
            "\tcontract::caller <- param [0]",
            "\tcontract::pick <- param [1]",
        ]
    );
}

#[test]
fn a_mutable_borrow_takes_taint_back() {
    let mut world = World::new();
    let addr = world.adt("Addr", "cosmwasm_std", vec![]);
    let number = world.ty(TyKind::Other, "u64");
    let (f, _) = world.function("f", "contract");
    let (_, push_ty) = world.function("push", "alloc");
    world.body(
        f,
        1,
        vec![number, addr, number, number, number, number, number],
        vec![
            block(
                vec![
                    assign(3, Rvalue::Ref(true, place(2))),
                    assign(5, Rvalue::Ref(false, place(4))),
                ],
                call(push_ty, vec![moved(3), moved(5), moved(1)], 6),
                vec![1],
            ),
            last(vec![]),
        ],
    );
    let program = world.done();
    let body = body_of(&program, f);
    let defs = ConstDefIndex::build(&program, body);
    let types = ConstTypeIndex::build(&program);
    let facts = TaintFacts::build(&program, body, &defs, &types);
    let graph = CallGraph::build_from_root(&program, f);
    let callees = callee_locations(graph.call_sites_in(f));
    let result =
        propagate_taint_forward(&program, body, &set(&[1]), &facts, &callees, &DenseMap::new());
    assert!(result.is_tainted(2) && result.is_tainted(6));
    assert!(!result.is_tainted(4));
    assert_eq!(result.origin_of(2), 1);
}

/// Runs the propagation over `f` from the new address `_2`.
fn tainted_by_address(program: &Program, f: usize) -> Vec<usize> {
    let body = body_of(program, f);
    let defs = ConstDefIndex::build(program, body);
    let types = ConstTypeIndex::build(program);
    let facts = TaintFacts::build(program, body, &defs, &types);
    let graph = CallGraph::build_from_root(program, f);
    let callees = callee_locations(graph.call_sites_in(f));
    let result =
        propagate_taint_forward(program, body, &set(&[2]), &facts, &callees, &DenseMap::new());
    (0..body.local_decls.len()).filter(|&local| result.is_tainted(local)).collect()
}

#[test]
fn a_load_before_the_write_stays_clean() {
    let StorageWorld { mut program, f, .. } = storage_world();
    let body = program.defs[f].body.as_mut().unwrap();
    // The save goes to the item that block 0 has loaded before it.
    if let Terminator::Call(call) = &mut body.basic_blocks[2].terminator {
        call.args[0] = moved(3);
    }
    assert_eq!(tainted_by_address(&program, f), vec![2]);

    // In a loop the load comes after the save, and what is derived from it too.
    program.defs[f].body.as_mut().unwrap().basic_blocks[4].successors = vec![0];
    assert_eq!(tainted_by_address(&program, f), vec![2, 5, 6]);
}

#[test]
fn a_write_on_another_path_taints_nothing() {
    let StorageWorld { mut program, f, .. } = storage_world();
    let body = program.defs[f].body.as_mut().unwrap();
    assert_eq!(body.basic_blocks[2].successors, vec![3]);
    body.basic_blocks[1].successors = vec![2, 3];
    body.basic_blocks[2].successors = vec![4];
    assert_eq!(tainted_by_address(&program, f), vec![2]);
}

#[test]
fn a_write_to_an_unknown_item_taints_every_later_load() {
    let StorageWorld { mut program, f, .. } = storage_world();
    let body = program.defs[f].body.as_mut().unwrap();
    // The receiver of the save is an address, which names no item.
    if let Terminator::Call(call) = &mut body.basic_blocks[2].terminator {
        call.args[0] = moved(2);
    }
    // The load in block 0 comes before it.
    assert_eq!(tainted_by_address(&program, f), vec![2, 10]);
    program.defs[f].body.as_mut().unwrap().basic_blocks[4].successors = vec![0];
    assert_eq!(tainted_by_address(&program, f), vec![2, 5, 6, 10]);
}

#[test]
fn only_fields_of_message_parameters_seed_taint() {
    let mut world = World::new();
    let addr = world.adt("Addr", "cosmwasm_std", vec![]);
    let msg = world.adt("UpdateMsg", "contract", vec![]);
    let config = world.adt("Config", "contract", vec![]);
    let config_mut = world.ty(TyKind::Ref(config, true), "&mut Config");
    let env = world.adt("Env", "cosmwasm_std", vec![]);
    let info = world.adt("MessageInfo", "cosmwasm_std", vec![]);
    let (f, _) = world.function("f", "contract");
    world.body(
        f,
        4,
        vec![addr, msg, config_mut, env, info, addr, addr, addr, addr],
        vec![last(vec![
            assign(5, Rvalue::Use(Operand::Copy(field(1, 0, addr)))),
            assign(6, Rvalue::Use(Operand::Copy(field(2, 0, addr)))),
            assign(7, Rvalue::Use(Operand::Copy(field(3, 0, addr)))),
            assign(8, Rvalue::Use(Operand::Copy(field(4, 0, addr)))),
        ])],
    );
    let program = world.done();
    let seed = address_seed(&program, body_of(&program, f));
    // Neither an in-out buffer nor framework plumbing is a source; the message
    // and the message info are.
    assert!(seed.contains(5) && seed.contains(8) && seed.len() == 2);
}

// ---- gating --------------------------------------------------------------

/// `if sender != owner && sender != manager { return Err(..) } Ok(..)`, the
/// comparisons being statement 0 of blocks 0 and 1.
fn disjunctive() -> (Program, usize) {
    let mut world = World::new();
    let flag = world.ty(TyKind::Bool, "bool");
    let result = world.adt("Result", "core", vec![]);
    let (f, _) = world.function("f", "contract");
    let compare = |local: usize, target: (usize, usize)| BasicBlockData {
        statements: vec![assign(local, Rvalue::BinaryOp(BinOp::Ne, moved(1), moved(2)))],
        terminator: Terminator::SwitchInt(SwitchInt {
            discr: moved(local),
            values: vec![0],
            targets: vec![target.0, target.1],
        }),
        successors: vec![target.0, target.1],
    };
    world.body(
        f,
        2,
        vec![result, flag, flag, flag, flag],
        vec![
            compare(3, (3, 1)),
            compare(4, (3, 2)),
            last(vec![aggregate(0, 1, constant(flag))]),
            goto(4),
            last(vec![aggregate(0, 0, constant(flag))]),
        ],
    );
    (world.done(), f)
}

fn index_of(program: &Program, f: usize, comparisons: Vec<SenderComparison>) -> GatingIndex {
    let mut map: DenseMap<Vec<SenderComparison>> = DenseMap::new();
    map.insert(f, comparisons);
    GatingIndex::build(program, &map)
}

#[test]
fn a_disjunctive_guard_checks_both_principals() {
    let (program, f) = disjunctive();
    let graph = CallGraph::build_from_root(&program, f);
    let both = vec![comparison(0, 0, BinOp::Ne), comparison(1, 0, BinOp::Ne)];
    let index = index_of(&program, f, both);
    let always = compute_always_checks(&program, &graph, &index);
    assert_eq!(always.get(f), Some(&true));

    // Without the first comparison the owner's way in is open.
    let index = index_of(&program, f, vec![comparison(1, 0, BinOp::Ne)]);
    let always = compute_always_checks(&program, &graph, &index);
    assert_eq!(always.get(f), Some(&false));

    // Without a polarity no edge authorizes.
    let vague = vec![comparison(0, 0, BinOp::Ge), comparison(1, 0, BinOp::Ge)];
    let index = index_of(&program, f, vague);
    let always = compute_always_checks(&program, &graph, &index);
    assert_eq!(always.get(f), Some(&false));
}

/// Two alternative comparisons, the first tested through `steps` from its
/// result `_3` to `_4`: block 0 goes on to `targets`, of which 1 holds the
/// second comparison and 3 succeeds.
fn always_checks_through(steps: Vec<Statement>, targets: (usize, usize)) -> bool {
    let mut world = World::new();
    let flag = world.ty(TyKind::Bool, "bool");
    let result = world.adt("Result", "core", vec![]);
    let (f, _) = world.function("f", "contract");
    let mut statements = vec![assign(3, Rvalue::BinaryOp(BinOp::Eq, moved(1), moved(2)))];
    statements.extend(steps);
    let mut first = switch(4, targets.0, targets.1);
    first.statements = statements;
    let mut second = switch(5, 2, 3);
    second.statements = vec![assign(5, Rvalue::BinaryOp(BinOp::Eq, moved(1), moved(2)))];
    world.body(
        f,
        2,
        vec![result, flag, flag, flag, flag, flag, flag],
        vec![
            first,
            second,
            last(vec![aggregate(0, 1, constant(flag))]),
            last(vec![aggregate(0, 0, constant(flag))]),
        ],
    );
    let program = world.done();
    let graph = CallGraph::build_from_root(&program, f);
    let both = vec![comparison(0, 0, BinOp::Eq), comparison(1, 0, BinOp::Eq)];
    let index = index_of(&program, f, both);
    let always = compute_always_checks(&program, &graph, &index);
    *always.get(f).unwrap()
}

#[test]
fn a_negated_comparison_authorizes_the_other_branch() {
    let copy = || vec![assign(4, Rvalue::Use(moved(3)))];
    let not = || vec![assign(4, Rvalue::UnaryOp(UnOp::Not, moved(3)))];
    // The second target is taken when `_4` holds.
    assert!(always_checks_through(copy(), (1, 3)));
    assert!(!always_checks_through(copy(), (3, 1)));
    assert!(always_checks_through(not(), (3, 1)));
    assert!(!always_checks_through(not(), (1, 3)));

    let twice = || {
        vec![
            assign(6, Rvalue::UnaryOp(UnOp::Not, moved(3))),
            assign(4, Rvalue::UnaryOp(UnOp::Not, moved(6))),
        ]
    };
    assert!(always_checks_through(twice(), (1, 3)));
    assert!(!always_checks_through(twice(), (3, 1)));
}

#[test]
fn a_value_of_its_own_authorizes_no_branch() {
    let steps: [fn() -> Rvalue; 3] = [
        || Rvalue::UnaryOp(UnOp::Other, moved(3)),
        || Rvalue::Discriminant(place(3)),
        || Rvalue::Cast(moved(3)),
    ];
    for step in steps {
        assert!(!always_checks_through(vec![assign(4, step())], (1, 3)));
        assert!(!always_checks_through(vec![assign(4, step())], (3, 1)));
    }
    // A flag that is set again no longer tells how the comparison came out.
    let again = vec![assign(4, Rvalue::Use(moved(3))), assign(4, Rvalue::Use(moved(1)))];
    assert!(!always_checks_through(again, (1, 3)));
    // Nor does a parameter, which the caller has set before.
    let passed = vec![assign(2, Rvalue::Use(moved(3))), assign(4, Rvalue::Use(moved(2)))];
    assert!(!always_checks_through(passed, (1, 3)));
}

/// `if is_owner(..)` or else a second comparison, the result of the first passing
/// through the calls named by `glue` and then through a payload read where
/// `payload`. The block behind the true edge of the first succeeds.
fn always_checks_behind(glue: &[&str], payload: bool) -> bool {
    let mut world = World::new();
    let flag = world.ty(TyKind::Bool, "bool");
    let result = world.adt("Result", "core", vec![]);
    let (f, _) = world.function("f", "contract");
    let (_, owner_ty) = world.function("is_owner", "helpers");
    let mut locals = vec![result, flag, flag, result, flag];
    let mut blocks = vec![block(vec![], call(owner_ty, vec![moved(1)], 3), vec![1])];
    let mut current = 3;
    for name in glue {
        let (_, glue_ty) = world.function(name, "core");
        let next = locals.len();
        locals.push(result);
        let here = blocks.len();
        blocks.push(block(vec![], call(glue_ty, vec![moved(current)], next), vec![here + 1]));
        current = next;
    }
    let test = blocks.len();
    let path = vec![PlaceElem::Other, PlaceElem::Field(0)];
    let mut first = switch(4, test + 1, test + 3);
    first.statements = vec![assign(
        4,
        Rvalue::Use(Operand::Copy(Place {
            local: current,
            projection: if payload { path } else { vec![] },
            ty: flag,
        })),
    )];
    let again = locals.len();
    locals.push(flag);
    let mut second = switch(again, test + 2, test + 3);
    second.statements = vec![assign(again, Rvalue::BinaryOp(BinOp::Eq, moved(1), moved(2)))];
    blocks.push(first);
    blocks.push(second);
    blocks.push(last(vec![aggregate(0, 1, constant(flag))]));
    blocks.push(last(vec![aggregate(0, 0, constant(flag))]));
    world.body(f, 2, locals, blocks);
    let program = world.done();
    let graph = CallGraph::build_from_root(&program, f);
    let both = vec![comparison(0, 0, BinOp::Eq), comparison(test + 1, 0, BinOp::Eq)];
    let index = index_of(&program, f, both);
    let always = compute_always_checks(&program, &graph, &index);
    *always.get(f).unwrap()
}

#[test]
fn a_result_is_followed_through_glue_and_its_payload() {
    assert!(always_checks_behind(&[], false));
    assert!(always_checks_behind(&[], true));
    assert!(always_checks_behind(&["branch"], true));
    assert!(always_checks_behind(&["unwrap"], false));
    assert!(always_checks_behind(&["map_err", "branch"], true));
    // Any other call has a result of its own.
    assert!(!always_checks_behind(&["is_ok"], false));
    assert!(!always_checks_behind(&["branch", "not"], true));
}

/// `execute` with a disjunctive guard whose branches meet in a block that holds
/// `statements` and calls `helper`; returns whether `helper` is entered checked.
fn entered_behind_guard(statements: Vec<Statement>) -> bool {
    let (mut program, f) = disjunctive();
    let mut world = World { program };
    let (helper, helper_ty) = world.function("helper", "contract");
    world.body(helper, 0, vec![0], vec![last(vec![])]);
    program = world.done();
    let body = program.defs[f].body.as_mut().unwrap();
    body.basic_blocks[3] = block(statements, call(helper_ty, vec![], 0), vec![4]);
    let graph = CallGraph::build_from_root(&program, f);
    let mut map: DenseMap<Vec<SenderComparison>> = DenseMap::new();
    map.insert(f, vec![comparison(0, 0, BinOp::Ne), comparison(1, 0, BinOp::Ne)]);
    map.insert(helper, vec![]);
    let index = GatingIndex::build(&program, &map);
    let always = compute_always_checks(&program, &graph, &index);
    let entry = compute_entry_checked(&program, &graph, &index, &always);
    *entry.get(helper).unwrap()
}

#[test]
fn a_disjunctive_guard_covers_the_block_it_meets_in() {
    assert!(entered_behind_guard(vec![]));
    assert!(entered_behind_guard(vec![Statement::Other, Statement::Other]));
}

#[test]
fn a_call_at_the_end_of_the_checking_block_is_covered() {
    let mut world = World::new();
    let flag = world.ty(TyKind::Bool, "bool");
    let result = world.adt("Result", "core", vec![]);
    let (root, _) = world.function("execute", "contract");
    let (before, before_ty) = world.function("before", "contract");
    let (behind, behind_ty) = world.function("behind", "contract");
    world.body(before, 0, vec![flag], vec![last(vec![])]);
    world.body(behind, 0, vec![flag], vec![last(vec![])]);
    world.body(
        root,
        2,
        vec![result, flag, flag, flag, flag],
        vec![
            block(vec![], call(before_ty, vec![], 4), vec![1]),
            block(
                vec![assign(3, Rvalue::BinaryOp(BinOp::Ne, moved(1), moved(2)))],
                call(behind_ty, vec![], 4),
                vec![2],
            ),
            switch(3, 4, 3),
            last(vec![aggregate(0, 1, constant(flag))]),
            last(vec![aggregate(0, 0, constant(flag))]),
        ],
    );
    let program = world.done();
    let graph = CallGraph::build_from_root(&program, root);
    let mut map: DenseMap<Vec<SenderComparison>> = DenseMap::new();
    map.insert(root, vec![comparison(1, 0, BinOp::Ne)]);
    map.insert(before, vec![]);
    map.insert(behind, vec![]);
    let index = GatingIndex::build(&program, &map);
    let always = compute_always_checks(&program, &graph, &index);
    let entry = compute_entry_checked(&program, &graph, &index, &always);
    assert_eq!(entry.get(before), Some(&false));
    assert_eq!(entry.get(behind), Some(&true));
}

#[test]
fn a_function_is_entered_checked_only_if_every_call_is() {
    let mut world = World::new();
    let flag = world.ty(TyKind::Bool, "bool");
    let result = world.adt("Result", "core", vec![]);
    let (root, _) = world.function("execute", "contract");
    let (guarded, guarded_ty) = world.function("guarded", "contract");
    let (shared, shared_ty) = world.function("shared", "contract");
    let leaf = || vec![last(vec![aggregate(0, 0, constant(flag))])];
    world.body(guarded, 0, vec![result], leaf());
    world.body(shared, 0, vec![result], leaf());
    world.body(
        root,
        2,
        vec![result, flag, flag, flag],
        vec![
            block(vec![], call(shared_ty, vec![], 0), vec![1]),
            BasicBlockData {
                statements: vec![assign(3, Rvalue::BinaryOp(BinOp::Ne, moved(1), moved(2)))],
                terminator: Terminator::SwitchInt(SwitchInt {
                    discr: moved(3),
                    values: vec![0],
                    targets: vec![3, 2],
                }),
                successors: vec![3, 2],
            },
            last(vec![aggregate(0, 1, constant(flag))]),
            block(vec![], call(guarded_ty, vec![], 0), vec![4]),
            block(vec![], call(shared_ty, vec![], 0), vec![5]),
            last(vec![aggregate(0, 0, constant(flag))]),
        ],
    );
    let program = world.done();
    let graph = CallGraph::build_from_root(&program, root);
    let mut map: DenseMap<Vec<SenderComparison>> = DenseMap::new();
    map.insert(root, vec![comparison(1, 0, BinOp::Ne)]);
    map.insert(guarded, vec![]);
    map.insert(shared, vec![]);
    let index = GatingIndex::build(&program, &map);
    let always = compute_always_checks(&program, &graph, &index);
    assert_eq!(always.get(root), Some(&true));
    assert_eq!(always.get(guarded), Some(&false));
    let entry = compute_entry_checked(&program, &graph, &index, &always);
    assert_eq!(entry.get(root), Some(&false));
    assert_eq!(entry.get(guarded), Some(&true));
    assert_eq!(entry.get(shared), Some(&false));
}

#[test]
fn a_call_of_an_always_checking_function_is_a_check() {
    let mut world = World::new();
    let flag = world.ty(TyKind::Bool, "bool");
    let result = world.adt("Result", "core", vec![]);
    let (root, _) = world.function("execute", "contract");
    let (assert_fn, assert_ty) = world.function("assert_it", "contract");
    world.body(
        root,
        0,
        vec![result, flag],
        vec![
            block(vec![], call(assert_ty, vec![], 1), vec![1]),
            last(vec![aggregate(0, 0, constant(flag))]),
        ],
    );
    world.body(
        assert_fn,
        2,
        vec![result, flag, flag, flag],
        vec![
            BasicBlockData {
                statements: vec![assign(3, Rvalue::BinaryOp(BinOp::Eq, moved(1), moved(2)))],
                terminator: Terminator::SwitchInt(SwitchInt {
                    discr: moved(3),
                    values: vec![0],
                    targets: vec![1, 2],
                }),
                successors: vec![1, 2],
            },
            last(vec![aggregate(0, 1, constant(flag))]),
            last(vec![aggregate(0, 0, constant(flag))]),
        ],
    );
    let program = world.done();
    let graph = CallGraph::build_from_root(&program, root);
    let mut map: DenseMap<Vec<SenderComparison>> = DenseMap::new();
    map.insert(root, vec![]);
    map.insert(assert_fn, vec![comparison(0, 0, BinOp::Eq)]);
    let index = GatingIndex::build(&program, &map);
    let always = compute_always_checks(&program, &graph, &index);
    assert_eq!(always.get(assert_fn), Some(&true));
    assert_eq!(always.get(root), Some(&true));
    let gating = index
        .solve_for(
            &program,
            body_of(&program, root),
            root,
            graph.call_sites_in(root),
            &always,
            AuthState::Unchecked,
        )
        .unwrap();
    assert!(!gating.at(0).is_checked() && gating.at(1).is_checked());
}

#[test]
fn an_update_closure_may_carry_the_guard() {
    let mut world = World::new();
    let flag = world.ty(TyKind::Bool, "bool");
    let result = world.adt("Result", "core", vec![]);
    let closure = world.def("{closure}", "contract", DefKind::Closure);
    let plain = world.def("{closure2}", "contract", DefKind::Closure);
    let guard = |targets: (usize, usize)| {
        vec![
            BasicBlockData {
                statements: vec![assign(3, Rvalue::BinaryOp(BinOp::Ne, moved(1), moved(2)))],
                terminator: Terminator::SwitchInt(SwitchInt {
                    discr: moved(3),
                    values: vec![0],
                    targets: vec![targets.0, targets.1],
                }),
                successors: vec![targets.0, targets.1],
            },
            last(vec![aggregate(0, 1, constant(flag))]),
            last(vec![aggregate(0, 0, constant(flag))]),
        ]
    };
    world.body(closure, 2, vec![result, flag, flag, flag], guard((2, 1)));
    world.body(plain, 2, vec![result, flag, flag, flag], guard((2, 2)));
    let program = world.done();
    let mut map: DenseMap<Vec<SenderComparison>> = DenseMap::new();
    map.insert(closure, vec![comparison(0, 0, BinOp::Ne)]);
    map.insert(plain, vec![comparison(0, 0, BinOp::Ne)]);
    let index = GatingIndex::build(&program, &map);
    let checking = closures_always_checking(&program, &map, &index, &DenseMap::new());
    assert!(checking.contains(closure));
    assert!(!checking.contains(plain));

    assert_eq!(
        closure_sink(&program, Location { block: 4, statement_index: 1 }, closure, &checking),
        "[closure-ac] sink @ bb4[1] closure-arg contract::{closure} in_ac=true"
    );
    assert_eq!(
        closure_skipped(&program, plain, 3),
        "[closure-ac] SKIP contract::{closure2} — comps=3 ok_points=0"
    );
    assert_eq!(
        closure_result(&program, closure, 1, 2, 3, AuthState::Checked),
        "[closure-ac] contract::{closure} — comps=1 ok_points=2 checks=3 always=Checked"
    );
}

// ---- the report ----------------------------------------------------------

fn finding(function: &str, block: usize, tainted: bool, gated: bool) -> FunctionFinding {
    FunctionFinding {
        function: function.to_string(),
        finding: AccessControlFinding {
            sink: SensitiveSink {
                location: Location { block, statement_index: 2 },
                symbolic_name: "OWNER".to_string(),
            },
            taint: if tainted {
                Some(TaintSource { param_local: 3, param_ty: "Addr".to_string() })
            } else {
                None
            },
            gated,
        },
    }
}

#[test]
fn findings_are_sorted_by_function_and_block() {
    let all = vec![
        finding("b", 1, true, false),
        finding("a", 10, false, false),
        finding("a", 9, true, true),
        finding("B", 4, false, true),
    ];
    assert_eq!(
        findings(&all),
        vec![
            "\n=== Access-Control findings: 4 sink(s), 1 vulnerability(ies)",
            "\t[gated] B writes OWNER @ bb4[2]",
            "\t[gated] a writes OWNER @ bb9[2] <- tainted by _3 : Addr",
            "\t[clean] a writes OWNER @ bb10[2]",
            "\t[VULN ] b writes OWNER @ bb1[2] <- tainted by _3 : Addr",
        ]
    );
}

#[test]
fn a_finding_is_vulnerable_only_when_tainted_and_open() {
    for (tainted, gated, vulnerable, label) in [
        (true, false, true, "VULN "),
        (true, true, false, "gated"),
        (false, true, false, "gated"),
        (false, false, false, "clean"),
    ] {
        let FunctionFinding { finding, .. } = finding("f", 0, tainted, gated);
        assert_eq!(finding.is_vulnerability(), vulnerable);
        assert_eq!(finding.verdict(), label);
    }
}

#[test]
fn headers_name_the_crate_and_the_function() {
    let mut world = World::new();
    let (f, _) = world.function("f", "contract");
    world.program.defs[f].path = "contract::\"inner\"::update_owner".to_string();
    let program = world.done();
    assert_eq!(crate_header("vault"), "══ Analyze Contract-Crate: vault ══");
    assert_eq!(
        entry_point(&program, f),
        "Found Execute Entry Point: \"contract::\\\"inner\\\"::update_owner\""
    );
    assert_eq!(function_header(&program, f), "\nchecking function: 'update_owner'");
}

#[test]
fn the_taint_trace_follows_the_written_value() {
    // fn execute(msg: Addr) { ADMIN.save(storage, msg) }, with ADMIN compared
    // to the sender.
    let mut world = World::new();
    let unit = world.ty(TyKind::Tuple(vec![]), "()");
    let addr = world.adt("Addr", "cosmwasm_std", vec![]);
    let item = world.adt("Item", "cw_storage_plus", vec![addr]);
    let item_ref = world.ty(TyKind::Ref(item, false), "&Item");
    let info = world.adt("MessageInfo", "cosmwasm_std", vec![]);
    let info_def = world.program.defs.len() - 1;
    world.program.defs[info_def].fields = Some(vec!["sender".to_string()]);
    let admin = world.def("ADMIN", "contract", DefKind::Const(item));
    let (execute, _) = world.function("execute", "contract");
    let (_, load_ty) = world.function("load", "cw_storage_plus");
    let (_, save_ty) = world.function("save", "cw_storage_plus");
    let (_, eq_ty) = world.function("eq", "core");
    world.body(
        execute,
        3,
        vec![unit, unit, info, addr, item, item_ref, addr, addr, unit, unit],
        vec![
            block(
                vec![assign(4, Rvalue::Use(item_constant(item, admin))), reference(5, 4)],
                call(load_ty, vec![moved(5), moved(1)], 6),
                vec![1],
            ),
            block(
                vec![assign(7, Rvalue::Use(Operand::Copy(field(2, 0, addr))))],
                call(eq_ty, vec![moved(7), moved(6)], 8),
                vec![2],
            ),
            block(vec![], call(save_ty, vec![moved(5), moved(1), moved(3)], 9), vec![3]),
            last(vec![]),
        ],
    );
    let program = world.done();
    let quiet = run(&program, Traces { taint: false, closure: false });
    let lines = run(&program, Traces { taint: true, closure: false });
    let added: Vec<&String> = lines.iter().filter(|line| !quiet.contains(line)).collect();
    assert_eq!(
        added,
        vec![
            "\t[dbg] TAINTED sink ADMIN @ bb2[0]: value=_3  origin=_3 : Addr",
            "\t[dbgT] _3 (parameter or undefined)",
        ]
    );
}
