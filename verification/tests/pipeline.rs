use airlock::debug::Traces;
use airlock::mir::{
    AggregateKind, Assign, BasicBlockData, BinOp, Body, Call, ConstOperand, Def, DefKind, Operand, Place,
    PlaceElem, Program, Rvalue, Statement, SwitchInt, Terminator, TyData, TyKind,
};
use airlock::pipeline::run;

// Types of the contract below.
const UNIT: usize = 0;
const BOOL: usize = 1;
const ADDR: usize = 2;
const ADDR_REF: usize = 3;
const INFO: usize = 4;
const DEPS: usize = 5;
const ITEM: usize = 6;
const ITEM_REF: usize = 7;
const RESULT: usize = 8;
const FN_LOAD: usize = 9;
const FN_BRANCH: usize = 10;
const FN_NE: usize = 11;
const FN_SAVE: usize = 12;
const FN_HELPER: usize = 13;
const FN_POINTER: usize = 14;

// Definitions of the contract below.
const EXECUTE: usize = 0;
const OWNER: usize = 1;
const HELPER: usize = 11;

fn ty(kind: TyKind, text: &str, erased: usize) -> TyData {
    TyData { kind, debug: text.to_string(), display: text.to_string(), erased }
}

fn def(name: &str, krate: &str, is_local: bool, kind: DefKind) -> Def {
    Def {
        name: name.to_string(),
        krate: krate.to_string(),
        path: if is_local { name.to_string() } else { format!("{krate}::{name}") },
        debug: format!("DefId({name})"),
        is_local,
        kind,
        is_result: false,
        is_string: false,
        fields: None,
        body: None,
    }
}

fn place(local: usize, ty: usize) -> Place {
    Place { local, projection: vec![], ty }
}

fn moved(local: usize, ty: usize) -> Operand {
    Operand::Move(place(local, ty))
}

fn constant(ty: usize, unevaluated: Option<usize>) -> Operand {
    Operand::Constant(ConstOperand { ty, unevaluated, bool_value: None })
}

fn assign(local: usize, ty: usize, rvalue: Rvalue) -> Statement {
    Statement::Assign(Assign { place: place(local, ty), rvalue, text: format!("rhs of _{local}") })
}

fn call(fn_ty: usize, text: &str, args: Vec<Operand>, local: usize, ty: usize) -> Terminator {
    Terminator::Call(Call {
        func: constant(fn_ty, None),
        func_text: text.to_string(),
        resolved: None,
        args,
        destination: place(local, ty),
    })
}

fn block(
    statements: Vec<Statement>,
    terminator: Terminator,
    successors: Vec<usize>,
) -> BasicBlockData {
    BasicBlockData { statements, terminator, successors }
}

fn ok() -> Statement {
    assign(
        0,
        RESULT,
        Rvalue::Aggregate(AggregateKind::Adt(8, 0), vec![constant(UNIT, None)]),
    )
}

fn err() -> Statement {
    assign(
        0,
        RESULT,
        Rvalue::Aggregate(AggregateKind::Adt(8, 1), vec![constant(UNIT, None)]),
    )
}

/// `if info.sender != OWNER.load(deps.storage)? { return Err(..) }`, with the
/// branch left out where the comparison is not enforced, then `rest`.
fn checked_body(enforced: bool, rest: Vec<BasicBlockData>) -> Body {
    let mut blocks = vec![
        block(
            vec![
                assign(
                    4,
                    ADDR_REF,
                    Rvalue::Ref(
                        false,
                        Place { local: 2, projection: vec![PlaceElem::Field(0)], ty: ADDR },
                    ),
                ),
                assign(6, ITEM, Rvalue::Use(constant(ITEM, Some(OWNER)))),
                assign(5, ITEM_REF, Rvalue::Ref(false, place(6, ITEM))),
            ],
            call(FN_LOAD, "Item::load", vec![moved(5, ITEM_REF), moved(1, DEPS)], 7, RESULT),
            vec![1],
        ),
        block(
            vec![],
            call(FN_BRANCH, "Try::branch", vec![moved(7, RESULT)], 8, ADDR),
            vec![2],
        ),
        block(
            vec![assign(9, ADDR_REF, Rvalue::Ref(false, place(8, ADDR)))],
            call(
                FN_NE,
                "<Addr as PartialEq>::ne",
                vec![moved(4, ADDR_REF), moved(9, ADDR_REF)],
                10,
                BOOL,
            ),
            vec![3],
        ),
        if enforced {
            block(
                vec![],
                Terminator::SwitchInt(SwitchInt {
                    discr: moved(10, BOOL),
                    values: vec![0],
                    targets: vec![5, 4],
                }),
                vec![5, 4],
            )
        } else {
            block(vec![], Terminator::Other, vec![5])
        },
        block(vec![err()], Terminator::Other, vec![]),
    ];
    blocks.extend(rest);
    Body {
        def_id: EXECUTE,
        arg_count: 3,
        local_decls: vec![
            RESULT, DEPS, INFO, ADDR, ADDR_REF, ITEM_REF, ITEM, RESULT, ADDR, ADDR_REF, BOOL,
            ITEM_REF, ITEM, ADDR_REF, RESULT,
        ],
        basic_blocks: blocks,
    }
}

/// `OWNER.save(deps.storage, &new_owner)`, then `Ok(())`.
fn save_owner() -> Vec<BasicBlockData> {
    vec![
        block(
            vec![
                assign(12, ITEM, Rvalue::Use(constant(ITEM, Some(OWNER)))),
                assign(11, ITEM_REF, Rvalue::Ref(false, place(12, ITEM))),
                assign(13, ADDR_REF, Rvalue::Ref(false, place(3, ADDR))),
            ],
            call(
                FN_SAVE,
                "Item::save",
                vec![moved(11, ITEM_REF), moved(1, DEPS), moved(13, ADDR_REF)],
                14,
                RESULT,
            ),
            vec![6],
        ),
        block(vec![ok()], Terminator::Other, vec![]),
    ]
}

/// `helper(deps, new_owner)`, then `Ok(())`.
fn call_helper() -> Vec<BasicBlockData> {
    vec![
        block(
            vec![],
            call(FN_HELPER, "helper", vec![moved(1, DEPS), moved(3, ADDR)], 14, RESULT),
            vec![6],
        ),
        block(vec![ok()], Terminator::Other, vec![]),
    ]
}

/// `fn helper(deps: DepsMut, new_owner: Addr)`, which saves the owner.
fn helper_body() -> Body {
    Body {
        def_id: HELPER,
        arg_count: 2,
        local_decls: vec![RESULT, DEPS, ADDR, ITEM_REF, ITEM, ADDR_REF, RESULT],
        basic_blocks: vec![
            block(
                vec![
                    assign(4, ITEM, Rvalue::Use(constant(ITEM, Some(OWNER)))),
                    assign(3, ITEM_REF, Rvalue::Ref(false, place(4, ITEM))),
                    assign(5, ADDR_REF, Rvalue::Ref(false, place(2, ADDR))),
                ],
                call(
                    FN_SAVE,
                    "Item::save",
                    vec![moved(3, ITEM_REF), moved(1, DEPS), moved(5, ADDR_REF)],
                    6,
                    RESULT,
                ),
                vec![1],
            ),
            block(vec![ok()], Terminator::Other, vec![]),
        ],
    }
}

fn contract(body: Option<Body>, helper: Option<Body>) -> Program {
    let mut defs = vec![
        def("execute", "contract", true, DefKind::Fn),
        def("OWNER", "contract", true, DefKind::Const(ITEM)),
        def("Addr", "cosmwasm_std", false, DefKind::Other),
        def("MessageInfo", "cosmwasm_std", false, DefKind::Other),
        def("Item", "cw_storage_plus", false, DefKind::Other),
        def("ne", "core", false, DefKind::Fn),
        def("load", "cw_storage_plus", false, DefKind::Fn),
        def("save", "cw_storage_plus", false, DefKind::Fn),
        def("Result", "core", false, DefKind::Other),
        def("DepsMut", "cosmwasm_std", false, DefKind::Other),
        def("branch", "core", false, DefKind::Fn),
        def("helper", "contract", true, DefKind::Fn),
    ];
    defs[3].fields = Some(vec!["sender".to_string(), "funds".to_string()]);
    defs[8].is_result = true;
    defs[EXECUTE].body = body;
    defs[HELPER].body = helper;
    Program {
        defs,
        types: vec![
            ty(TyKind::Tuple(vec![]), "()", UNIT),
            ty(TyKind::Bool, "bool", BOOL),
            ty(TyKind::Adt(2, vec![]), "Addr", ADDR),
            ty(TyKind::Ref(ADDR, false), "&'{erased} Addr", ADDR_REF),
            ty(TyKind::Adt(3, vec![]), "MessageInfo", INFO),
            ty(TyKind::Adt(9, vec![]), "DepsMut<'a>", DEPS),
            ty(TyKind::Adt(4, vec![ADDR]), "Item<'erased, Addr>", ITEM),
            ty(TyKind::Ref(ITEM, false), "&Item<'erased, Addr>", ITEM_REF),
            ty(TyKind::Adt(8, vec![UNIT]), "Result<(), StdError>", RESULT),
            ty(TyKind::FnDef(6), "fn load", FN_LOAD),
            ty(TyKind::FnDef(10), "fn branch", FN_BRANCH),
            ty(TyKind::FnDef(5), "fn ne", FN_NE),
            ty(TyKind::FnDef(7), "fn save", FN_SAVE),
            ty(TyKind::FnDef(11), "fn helper", FN_HELPER),
            ty(TyKind::FnPtr, "fn()", FN_POINTER),
        ],
        free_items: vec![OWNER, EXECUTE, HELPER],
        local_defs: vec![EXECUTE, OWNER, HELPER],
    }
}

const QUIET: Traces = Traces { taint: false, closure: false };

#[test]
fn a_checked_write_is_gated() {
    let program = contract(Some(checked_body(true, save_owner())), None);
    assert!(program.is_valid());
    assert_eq!(
        run(&program, QUIET),
        vec![
            "Found Execute Entry Point: \"execute\"",
            "[call_graph] Reachable functions from DefId(execute): 5",
            "\nchecking function: 'execute'",
            "[1] info.sender comparisons: 1",
            "\tbb2[1] Call \"<Addr as PartialEq>::ne\": info.sender (_4) != _9",
            "[2] Auth-State-Variables: 1",
            "\tOWNER (load @ bb0[3])",
            "══ Storage Inventory ══",
            "Name: OWNER, DefId: DefId(OWNER), Type: Item<Addr>, Kind: Item,    [auth]",
            "\n[3] Always-checking functions: 1/5",
            "\texecute",
            "\n[4] Return-tainted-by-param functions: 0/1",
            "\n[5] Entry-checked functions (local): 0/5",
            "\n=== Access-Control findings: 1 sink(s), 0 vulnerability(ies)",
            "\t[gated] execute writes OWNER @ bb5[3] <- tainted by _3 : Addr",
        ]
    );
}

#[test]
fn a_comparison_that_enforces_nothing_leaves_a_vulnerability() {
    let program = contract(Some(checked_body(false, save_owner())), None);
    assert!(program.is_valid());
    let lines = run(&program, QUIET);
    assert_eq!(
        lines[9..],
        [
            "\n[3] Always-checking functions: 0/5",
            "\n[4] Return-tainted-by-param functions: 0/1",
            "\n[5] Entry-checked functions (local): 0/5",
            "\n=== Access-Control findings: 1 sink(s), 1 vulnerability(ies)",
            "\t[VULN ] execute writes OWNER @ bb5[3] <- tainted by _3 : Addr",
        ]
    );
}

#[test]
fn a_helper_behind_the_check_is_entered_checked() {
    let program = contract(Some(checked_body(true, call_helper())), Some(helper_body()));
    assert!(program.is_valid());
    let lines = run(&program, QUIET);
    assert_eq!(
        lines,
        vec![
            "Found Execute Entry Point: \"execute\"",
            "[call_graph] Reachable functions from DefId(execute): 6",
            "\nchecking function: 'execute'",
            "[1] info.sender comparisons: 1",
            "\tbb2[1] Call \"<Addr as PartialEq>::ne\": info.sender (_4) != _9",
            "[2] Auth-State-Variables: 1",
            "\tOWNER (load @ bb0[3])",
            "\nchecking function: 'helper'",
            "[1] info.sender comparisons: none",
            "[2] Auth-State-Variables: none",
            "══ Storage Inventory ══",
            "Name: OWNER, DefId: DefId(OWNER), Type: Item<Addr>, Kind: Item,    [auth]",
            "\n[3] Always-checking functions: 1/6",
            "\texecute",
            "\n[4] Return-tainted-by-param functions: 0/2",
            "\n[5] Entry-checked functions (local): 1/6",
            "\thelper",
            "\n=== Access-Control findings: 1 sink(s), 0 vulnerability(ies)",
            "\t[gated] helper writes OWNER @ bb0[3] <- tainted by _2 : Addr",
        ]
    );
}

#[test]
fn a_helper_behind_no_check_is_vulnerable() {
    let program = contract(Some(checked_body(false, call_helper())), Some(helper_body()));
    let lines = run(&program, QUIET);
    assert_eq!(
        lines[lines.len() - 1],
        "\t[VULN ] helper writes OWNER @ bb0[3] <- tainted by _2 : Addr"
    );
}

/// The write of `save_owner`, as the last block before `next`, behind
/// `statements`.
fn save_block(statements: Vec<Statement>, next: usize) -> BasicBlockData {
    let mut save = save_owner().remove(0);
    let mut all = statements;
    all.append(&mut save.statements);
    block(all, save.terminator, vec![next])
}

#[test]
fn a_write_behind_a_check_in_the_same_block_is_gated() {
    let mut body = checked_body(true, vec![block(vec![ok()], Terminator::Other, vec![])]);
    // The comparison is an operator here, and the write ends its block.
    body.basic_blocks[2] = save_block(
        vec![
            assign(9, ADDR_REF, Rvalue::Ref(false, place(8, ADDR))),
            assign(
                10,
                BOOL,
                Rvalue::BinaryOp(BinOp::Ne, moved(4, ADDR_REF), moved(9, ADDR_REF)),
            ),
        ],
        3,
    );
    let program = contract(Some(body), None);
    assert!(program.is_valid());
    let lines = run(&program, QUIET);
    assert_eq!(
        lines[lines.len() - 1],
        "\t[gated] execute writes OWNER @ bb2[5] <- tainted by _3 : Addr"
    );
}

/// `if sender != owner && sender != owner { return Err(..) }` with both ways in
/// meeting in the block of the write, which holds `statements` first where
/// `padded`, and none at all otherwise.
fn alternative_guard(padded: bool) -> Body {
    let mut body = checked_body(true, vec![]);
    let second = call(
        FN_NE,
        "<Addr as PartialEq>::ne",
        vec![moved(4, ADDR_REF), moved(9, ADDR_REF)],
        15,
        BOOL,
    );
    body.local_decls.push(BOOL);
    let mut setup = save_owner().remove(0);
    if let Terminator::SwitchInt(switch) = &mut body.basic_blocks[3].terminator {
        switch.targets = vec![7, 5];
    }
    body.basic_blocks[3].successors = vec![7, 5];
    body.basic_blocks.push(block(vec![], second, vec![6]));
    body.basic_blocks.push(block(
        vec![],
        Terminator::SwitchInt(SwitchInt {
            discr: moved(15, BOOL),
            values: vec![0],
            targets: vec![7, 4],
        }),
        vec![7, 4],
    ));
    if !padded {
        // What the write needs is set up ahead of the guard.
        body.basic_blocks[0].statements.append(&mut setup.statements);
    }
    body.basic_blocks.push(block(setup.statements, setup.terminator, vec![8]));
    body.basic_blocks.push(block(vec![ok()], Terminator::Other, vec![]));
    body
}

#[test]
fn a_write_where_alternative_guards_meet_is_gated() {
    for (padded, location) in [(true, "bb7[3]"), (false, "bb7[0]")] {
        let program = contract(Some(alternative_guard(padded)), None);
        assert!(program.is_valid());
        let lines = run(&program, QUIET);
        assert_eq!(
            lines[lines.len() - 1],
            format!("\t[gated] execute writes OWNER @ {location} <- tainted by _3 : Addr")
        );
    }
}

#[test]
fn a_constant_write_is_clean() {
    let mut rest = save_owner();
    rest[0].terminator = call(
        FN_SAVE,
        "Item::save",
        vec![moved(11, ITEM_REF), moved(1, DEPS), constant(ADDR_REF, None)],
        14,
        RESULT,
    );
    let program = contract(Some(checked_body(false, rest)), None);
    let lines = run(&program, QUIET);
    assert_eq!(lines[lines.len() - 1], "\t[clean] execute writes OWNER @ bb5[3]");
}

#[test]
fn a_crate_without_entry_point_only_lists_its_storage() {
    let mut program = contract(None, None);
    program.free_items = vec![OWNER, HELPER];
    assert_eq!(
        run(&program, QUIET),
        vec![
            "══ Storage Inventory ══",
            "Name: OWNER, DefId: DefId(OWNER), Type: Item<Addr>, Kind: Item,  ",
            "No execute-Entry-Point, skipping analysis",
        ]
    );
}

#[test]
fn a_call_through_a_function_pointer_is_skipped() {
    let mut rest = save_owner();
    rest[0].terminator = Terminator::Call(Call {
        func: moved(13, FN_POINTER),
        func_text: "_13".to_string(),
        resolved: None,
        args: vec![],
        destination: place(14, RESULT),
    });
    let mut body = checked_body(true, rest);
    body.local_decls[13] = FN_POINTER;
    let program = contract(Some(body), None);
    let lines = run(&program, QUIET);
    assert_eq!(
        lines[1],
        "[call_graph] Skipping function pointer call at bb5 in DefId(execute)"
    );
    assert_eq!(lines[2], "[call_graph] Reachable functions from DefId(execute): 4");
}

#[test]
fn traces_only_add_lines() {
    let program = contract(Some(checked_body(false, save_owner())), None);
    let quiet = run(&program, QUIET);
    let traced = run(&program, Traces { taint: true, closure: true });
    assert!(traced.len() > quiet.len());
    let mut kept = traced.iter();
    for line in &quiet {
        assert!(kept.any(|other| other == line));
    }
}

#[test]
fn an_unknown_index_makes_a_program_invalid() {
    let mut program = contract(Some(checked_body(true, save_owner())), None);
    program.defs[EXECUTE].body.as_mut().unwrap().basic_blocks[6].successors = vec![7];
    assert!(!program.is_valid());
    program.defs[EXECUTE].body.as_mut().unwrap().basic_blocks[6].successors = vec![];
    assert!(program.is_valid());
    program.local_defs.push(12);
    assert!(!program.is_valid());
    program.local_defs.pop();
    program.types[UNIT].kind = TyKind::Slice(UNIT);
    assert!(!program.is_valid());
}
