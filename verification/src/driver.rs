//! What an invocation of the program asks for.
//!
//! The analysis needs the compiler's own representation of a contract crate, so
//! the program runs in place of the compiler (`RUSTC_WRAPPER`). It filters out
//! the invocations that carry no contract code, analyses the remaining ones and
//! delegates the real compilation to the pinned toolchain so the build proceeds
//! normally. Started directly on a single `.rs` file, it analyses that file.

use crate::text;
use crate::text::{contains_text, ends_with, starts_with, str_eq, text_of};
use vstd::prelude::*;

verus! {

/// Toolchain that the actual compilation is delegated to.
pub open spec fn toolchain() -> Seq<char> {
    "nightly-2026-07-04"@
}

/// What an invocation asks for.
#[derive(Debug)]
pub enum Invocation {
    /// Nothing to work on was given.
    Usage,
    /// The program was started directly: analyse the file among these arguments.
    Standalone(Vec<String>),
    /// A compiler invocation without contract code: hand these arguments on.
    Delegated(Vec<String>),
    /// A compiler invocation that builds a contract crate: analyse the file
    /// among these arguments, then hand them on.
    Wrapped(WrappedInvocation),
}

/// A compiler invocation that builds a contract crate.
#[derive(Debug)]
pub struct WrappedInvocation {
    /// The arguments, the program's own name in front.
    pub args: Vec<String>,
    /// Name of the crate as the report shows it.
    pub crate_name: String,
}

/// The invocation names the compiler to stand in for, as Cargo does.
pub open spec fn names_compiler(args: Seq<Seq<char>>) -> bool {
    args.len() > 1 && (text::finishes_with(args[1], "rustc"@) || text::finishes_with(
        args[1],
        "rustc.exe"@,
    ))
}

/// Position `i` holds `flag`, with a value behind it.
pub open spec fn flag_at(args: Seq<Seq<char>>, flag: Seq<char>, i: int) -> bool {
    0 <= i && i + 1 < args.len() && args[i] == flag
}

/// The invocation asks for the compiler's capabilities.
pub open spec fn is_probe(args: Seq<Seq<char>>) -> bool {
    exists|i: int|
        0 <= i < args.len() && (#[trigger] args[i] == "-"@ || text::begins_with(
            args[i],
            "--print="@,
        ))
}

/// The invocation builds a dependency.
pub open spec fn is_dependency(args: Seq<Seq<char>>) -> bool {
    exists|i: int| #[trigger]
        flag_at(args, "--cap-lints"@, i) && args[i + 1] == "allow"@
}

/// The invocation builds a build script.
pub open spec fn is_build_script(args: Seq<Seq<char>>) -> bool {
    exists|i: int|
        0 <= i < args.len() && text::holds_text(#[trigger] args[i], "build_script"@)
}

/// The invocation builds a crate of the workspace itself.
pub open spec fn carries_code(args: Seq<Seq<char>>) -> bool {
    !is_probe(args) && !is_dependency(args) && !is_build_script(args) && args.contains(
        "--crate-type"@,
    )
}

/// The value behind the first occurrence of `flag` that has one, from position
/// `i` on.
pub open spec fn value_from(args: Seq<Seq<char>>, flag: Seq<char>, i: int) -> Option<Seq<char>>
    decreases args.len() - i,
{
    if i < 0 || i + 1 >= args.len() {
        None
    } else if args[i] == flag {
        Some(args[i + 1])
    } else {
        value_from(args, flag, i + 1)
    }
}

/// The name the report shows for the crate.
pub open spec fn shown_crate_name(args: Seq<Seq<char>>) -> Seq<char> {
    match value_from(args, "--crate-name"@, 0) {
        Some(name) => name,
        None => "<unknown>"@,
    }
}

/// The first argument that names a source file, from position `i` on.
pub open spec fn source_from(args: Seq<Seq<char>>, i: int) -> Option<Seq<char>>
    decreases args.len() - i,
{
    if i < 0 || i >= args.len() {
        None
    } else if text::finishes_with(args[i], ".rs"@) {
        Some(args[i])
    } else {
        source_from(args, i + 1)
    }
}

/// `invocation` is what the arguments ask for.
pub open spec fn asks_for(args: Seq<Seq<char>>, invocation: Invocation) -> bool {
    if !names_compiler(args) {
        if args.len() < 2 {
            invocation is Usage
        } else {
            invocation matches Invocation::Standalone(given) && text::texts(given@) == args
        }
    } else {
        let rest = args.remove(1);
        if carries_code(rest) {
            &&& invocation matches Invocation::Wrapped(wrapped)
            &&& text::texts(wrapped.args@) == rest
            &&& wrapped.crate_name@ == shown_crate_name(rest)
        } else {
            invocation matches Invocation::Delegated(given) && text::texts(given@) == rest
        }
    }
}

/// Returns whether the first argument behind the program's own name is the
/// compiler to stand in for. Cargo passes its path there; its absence means the
/// program was started directly on a source file.
pub fn is_wrapper_mode(args: &Vec<String>) -> (wrapper: bool)
    ensures
        wrapper == names_compiler(text::texts(args@)),
{
    assert(text::texts(args@).len() == args@.len());
    if args.len() < 2 {
        return false;
    }
    assert(text::texts(args@)[1] == args@[1]@);
    ends_with(args[1].as_str(), "rustc") || ends_with(args[1].as_str(), "rustc.exe")
}

/// Decides whether a wrapped compiler invocation is worth analysing.
///
/// Cargo issues many calls that contain no contract code: capability probes
/// (`-`, `--print=...`), dependency builds (compiled with `--cap-lints allow`)
/// and build scripts. Analysing them would cost time and pollute the report, so
/// only invocations that build a crate of the workspace itself qualify.
#[verifier::loop_isolation(false)]
pub fn carries_contract_code(args: &Vec<String>) -> (carries: bool)
    ensures
        carries == carries_code(text::texts(args@)),
{
    let ghost given = text::texts(args@);
    let mut is_probe = false;
    let mut is_dependency = false;
    let mut is_build_script = false;
    let mut has_crate_type = false;
    for i in 0..args.len()
        invariant
            given.len() == args@.len(),
            is_probe <==> exists|j: int|
                0 <= j < i && (#[trigger] given[j] == "-"@ || text::begins_with(
                    given[j],
                    "--print="@,
                )),
            is_dependency <==> exists|j: int|
                j < i && #[trigger] flag_at(given, "--cap-lints"@, j) && given[j + 1] == "allow"@,
            is_build_script <==> exists|j: int|
                0 <= j < i && text::holds_text(#[trigger] given[j], "build_script"@),
            has_crate_type <==> exists|j: int| 0 <= j < i && given[j] == "--crate-type"@,
    {
        let arg = args[i].as_str();
        assert(given[i as int] == arg@);
        if str_eq(arg, "-") || starts_with(arg, "--print=") {
            is_probe = true;
        }
        if contains_text(arg, "build_script") {
            is_build_script = true;
        }
        if str_eq(arg, "--crate-type") {
            has_crate_type = true;
        }
        if i < args.len() - 1 && str_eq(arg, "--cap-lints") {
            assert(flag_at(given, "--cap-lints"@, i as int));
            assert(given[i + 1] == args@[i + 1]@);
            if str_eq(args[i + 1].as_str(), "allow") {
                is_dependency = true;
            }
        }
    }
    assert(is_dependency == self::is_dependency(given));
    !is_probe && !is_dependency && !is_build_script && has_crate_type
}

/// Returns the value that follows `flag` in the argument list.
#[verifier::loop_isolation(false)]
pub fn argument_value<'a>(args: &'a Vec<String>, flag: &str) -> (value: Option<&'a str>)
    ensures
        match value {
            Some(v) => value_from(text::texts(args@), flag@, 0) == Some(v@),
            None => value_from(text::texts(args@), flag@, 0) is None,
        },
{
    let ghost given = text::texts(args@);
    let mut i: usize = 0;
    while i < args.len() && i < args.len() - 1
        invariant
            i <= args@.len(),
            given.len() == args@.len(),
            value_from(given, flag@, 0) == value_from(given, flag@, i as int),
        decreases args@.len() - i,
    {
        assert(given[i as int] == args@[i as int]@);
        assert(given[i + 1] == args@[i + 1]@);
        if str_eq(args[i].as_str(), flag) {
            return Some(args[i + 1].as_str());
        }
        i = i + 1;
    }
    None
}

/// Returns the source file among the arguments.
#[verifier::loop_isolation(false)]
pub fn source_file<'a>(args: &'a Vec<String>) -> (file: Option<&'a str>)
    ensures
        match file {
            Some(f) => source_from(text::texts(args@), 0) == Some(f@),
            None => source_from(text::texts(args@), 0) is None,
        },
{
    let ghost given = text::texts(args@);
    for i in 0..args.len()
        invariant
            given.len() == args@.len(),
            source_from(given, 0) == source_from(given, i as int),
    {
        assert(given[i as int] == args@[i as int]@);
        if ends_with(args[i].as_str(), ".rs") {
            return Some(args[i].as_str());
        }
    }
    None
}

/// Decides what to do with an invocation. `args` starts with the program's own
/// name.
pub fn plan(args: Vec<String>) -> (invocation: Invocation)
    ensures
        asks_for(text::texts(args@), invocation),
{
    let ghost given = text::texts(args@);
    if !is_wrapper_mode(&args) {
        if args.len() < 2 {
            return Invocation::Usage;
        }
        return Invocation::Standalone(args);
    }
    let mut args = args;
    assert(given.len() == args@.len());
    args.remove(1);
    assert(text::texts(args@) =~= given.remove(1));
    if !carries_contract_code(&args) {
        return Invocation::Delegated(args);
    }
    let crate_name = match argument_value(&args, "--crate-name") {
        Some(name) => text_of(name),
        None => text_of("<unknown>"),
    };
    Invocation::Wrapped(WrappedInvocation { args, crate_name })
}

/// The command line that runs the compiler of the pinned toolchain on what
/// follows the program's own name.
pub open spec fn delegation(args: Seq<Seq<char>>) -> Seq<Seq<char>> {
    seq!["run"@, toolchain(), "rustc"@] + (if args.len() > 0 {
        args.skip(1)
    } else {
        Seq::empty()
    })
}

/// Returns what `rustup` is started with to run the real compiler.
#[verifier::loop_isolation(false)]
pub fn delegate_arguments(args: &Vec<String>) -> (command: Vec<String>)
    ensures
        text::texts(command@) == delegation(text::texts(args@)),
{
    let ghost given = text::texts(args@);
    let mut command: Vec<String> = Vec::new();
    command.push(text_of("run"));
    command.push(text_of("nightly-2026-07-04"));
    command.push(text_of("rustc"));
    let ghost start = seq!["run"@, toolchain(), "rustc"@];
    assert(text::texts(command@) =~= start);
    let mut i: usize = 1;
    assert(start =~= start + given.subrange(0, 0));
    while i < args.len()
        invariant
            1 <= i,
            i <= args@.len() || (i == 1 && args@.len() == 0),
            args@.len() > 0 ==> text::texts(command@) == start + given.subrange(1, i as int),
            args@.len() == 0 ==> text::texts(command@) == start,
        decreases args@.len() - i,
    {
        let ghost before = text::texts(command@);
        command.push(args[i].clone());
        assert(given[i as int] == args@[i as int]@);
        assert(text::texts(command@) =~= before.push(given[i as int]));
        assert(given.subrange(1, i + 1) =~= given.subrange(1, i as int).push(given[i as int]));
        assert(text::texts(command@) =~= start + given.subrange(1, i + 1));
        i = i + 1;
    }
    assert(text::texts(command@) =~= delegation(given));
    command
}

// ---- laws ----------------------------------------------------------------

/// A build without a crate type is handed on without an analysis, and so is
/// every probe, dependency build and build script.
pub proof fn lemma_filtered_invocations_are_delegated(
    args: Seq<Seq<char>>,
    invocation: Invocation,
)
    requires
        asks_for(args, invocation),
        names_compiler(args),
        is_probe(args.remove(1)) || is_dependency(args.remove(1)) || is_build_script(
            args.remove(1),
        ) || !args.remove(1).contains("--crate-type"@),
    ensures
        invocation is Delegated,
{
}

/// Every wrapped invocation reaches the real compiler with exactly the arguments
/// that follow the compiler's path, whether it is analysed or not.
pub proof fn lemma_compiler_gets_every_argument(args: Seq<Seq<char>>, invocation: Invocation)
    requires
        asks_for(args, invocation),
        names_compiler(args),
    ensures
        invocation is Delegated || invocation is Wrapped,
        invocation matches Invocation::Delegated(given) ==> delegation(text::texts(given@))
            == seq!["run"@, toolchain(), "rustc"@] + args.skip(2),
        invocation matches Invocation::Wrapped(wrapped) ==> delegation(
            text::texts(wrapped.args@),
        ) == seq!["run"@, toolchain(), "rustc"@] + args.skip(2),
{
    assert(args.remove(1).skip(1) =~= args.skip(2));
}

} // verus!
