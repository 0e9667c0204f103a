use airlock::driver::{
    argument_value, carries_contract_code, delegate_arguments, is_wrapper_mode, plan, source_file,
    Invocation,
};

fn args(list: &[&str]) -> Vec<String> {
    list.iter().map(|arg| arg.to_string()).collect()
}

const BUILD: [&str; 8] = [
    "airlock",
    "--crate-name",
    "vault",
    "--edition=2021",
    "src/lib.rs",
    "--crate-type",
    "cdylib",
    "--emit=link",
];

#[test]
fn the_compiler_path_tells_wrapper_mode() {
    assert!(is_wrapper_mode(&args(&["airlock", "/bin/rustc", "-vV"])));
    assert!(is_wrapper_mode(&args(&["airlock", "C:\\bin\\rustc.exe"])));
    assert!(!is_wrapper_mode(&args(&["airlock", "contract.rs"])));
    assert!(!is_wrapper_mode(&args(&["rustc"])));
}

#[test]
fn builds_of_the_workspace_carry_contract_code() {
    assert!(carries_contract_code(&args(&BUILD)));
}

#[test]
fn other_builds_carry_no_contract_code() {
    let with = |extra: &[&str]| {
        let mut all = args(&BUILD);
        all.extend(args(extra));
        carries_contract_code(&all)
    };
    assert!(!with(&["-"]));
    assert!(!with(&["--print=cfg"]));
    assert!(with(&["--print", "cfg"]));
    assert!(!with(&["--cap-lints", "allow"]));
    assert!(with(&["--cap-lints", "warn"]));
    assert!(with(&["--cap-lints"]));
    assert!(!with(&["-o", "target/build_script_main"]));
    assert!(!carries_contract_code(&args(&["airlock", "src/lib.rs"])));
    assert!(!carries_contract_code(&args(&["airlock", "--crate-type=lib"])));
}

#[test]
fn the_value_behind_a_flag_is_found() {
    assert_eq!(argument_value(&args(&BUILD), "--crate-name"), Some("vault"));
    assert_eq!(argument_value(&args(&BUILD), "--emit=link"), None);
    assert_eq!(argument_value(&args(&["-o", "a", "-o", "b"]), "-o"), Some("a"));
    assert_eq!(argument_value(&args(&[]), "-o"), None);
}

#[test]
fn the_source_file_is_the_first_rs_argument() {
    assert_eq!(source_file(&args(&BUILD)), Some("src/lib.rs"));
    assert_eq!(source_file(&args(&["a.rs", "b.rs"])), Some("a.rs"));
    assert_eq!(source_file(&args(&["airlock", "a.txt"])), None);
}

#[test]
fn nothing_to_work_on_asks_for_usage() {
    assert!(matches!(plan(args(&["airlock"])), Invocation::Usage));
    assert!(matches!(plan(args(&[])), Invocation::Usage));
}

#[test]
fn a_source_file_is_analysed_standalone() {
    match plan(args(&["airlock", "contract.rs"])) {
        Invocation::Standalone(given) => assert_eq!(given, args(&["airlock", "contract.rs"])),
        other => panic!("{other:?}"),
    }
}

#[test]
fn probes_are_delegated() {
    match plan(args(&["airlock", "/bin/rustc", "-", "--print=cfg"])) {
        Invocation::Delegated(given) => {
            assert_eq!(given, args(&["airlock", "-", "--print=cfg"]));
            assert_eq!(
                delegate_arguments(&given),
                args(&["run", "nightly-2026-07-04", "rustc", "-", "--print=cfg"])
            );
        }
        other => panic!("{other:?}"),
    }
}

#[test]
fn contract_builds_are_analysed_and_delegated() {
    let mut all = args(&BUILD);
    all.insert(1, "/bin/rustc".to_string());
    match plan(all) {
        Invocation::Wrapped(wrapped) => {
            assert_eq!(wrapped.crate_name, "vault");
            assert_eq!(wrapped.args, args(&BUILD));
            assert_eq!(delegate_arguments(&wrapped.args)[3..], args(&BUILD)[1..]);
        }
        other => panic!("{other:?}"),
    }
}

#[test]
fn a_build_without_name_is_shown_as_unknown() {
    match plan(args(&["airlock", "rustc", "src/lib.rs", "--crate-type", "lib"])) {
        Invocation::Wrapped(wrapped) => assert_eq!(wrapped.crate_name, "<unknown>"),
        other => panic!("{other:?}"),
    }
}

#[test]
fn delegation_of_nothing_runs_the_bare_compiler() {
    assert_eq!(
        delegate_arguments(&args(&[])),
        args(&["run", "nightly-2026-07-04", "rustc"])
    );
}
