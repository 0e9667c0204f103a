//! What an invocation asks for.

use crate::driver;
use crate::driver::Invocation;
use crate::laws::comparisons;
use crate::text;
use vstd::prelude::*;

verus! {

/// A text ends in another.
pub open spec fn ends_with(text: Seq<char>, suffix: Seq<char>) -> bool {
    exists|front: Seq<char>| text == #[trigger] (front + suffix)
}

proof fn lemma_ends_with(text: Seq<char>, suffix: Seq<char>)
    ensures
        text::finishes_with(text, suffix) <==> ends_with(text, suffix),
{
    let i = text.len() - suffix.len();
    if text::finishes_with(text, suffix) {
        assert(text =~= text.take(i) + suffix);
    }
    if ends_with(text, suffix) {
        let front = choose|front: Seq<char>| text == #[trigger] (front + suffix);
        assert(front.len() == i);
        assert(text.subrange(i, i + suffix.len()) =~= suffix);
    }
}

/// The first argument is the path of a compiler.
pub open spec fn stands_in_for_compiler(args: Seq<Seq<char>>) -> bool {
    args.len() > 1 && (ends_with(args[1], "rustc"@) || ends_with(args[1], "rustc.exe"@))
}

/// A compiler invocation builds a crate of the workspace: it names a crate type,
/// does not ask what the compiler can do, silences no lints as the build of a
/// dependency does, and builds no build script.
pub open spec fn builds_workspace_crate(args: Seq<Seq<char>>) -> bool {
    &&& exists|i: int| 0 <= i < args.len() && #[trigger] args[i] == "--crate-type"@
    &&& forall|i: int|
        0 <= i < args.len() ==> #[trigger] args[i] != "-"@ && !comparisons::starts_with(
            args[i],
            "--print="@,
        ) && !comparisons::has_part(args[i], "build_script"@)
    &&& forall|i: int|
        0 <= i < args.len() - 1 && #[trigger] args[i] == "--cap-lints"@ ==> args[i + 1] != "allow"@
}

/// Which invocations are analysed.
pub proof fn law_analysed_invocations(args: Seq<Seq<char>>)
    ensures
        driver::names_compiler(args) <==> stands_in_for_compiler(args),
        driver::carries_code(args) <==> builds_workspace_crate(args),
{
    if args.len() > 1 {
        lemma_ends_with(args[1], "rustc"@);
        lemma_ends_with(args[1], "rustc.exe"@);
    }
    assert forall|i: int| 0 <= i < args.len() implies (text::begins_with(
        #[trigger] args[i],
        "--print="@,
    ) <==> comparisons::starts_with(args[i], "--print="@)) && (text::holds_text(
        args[i],
        "build_script"@,
    ) <==> comparisons::has_part(args[i], "build_script"@)) by {
        comparisons::lemma_parts(args[i], "--print="@);
        comparisons::lemma_parts(args[i], "build_script"@);
    }
    if driver::carries_code(args) {
        let i = choose|i: int| 0 <= i < args.len() && args[i] == "--crate-type"@;
        assert(args[i] == "--crate-type"@);
        assert forall|j: int|
            0 <= j < args.len() - 1 && #[trigger] args[j] == "--cap-lints"@ implies args[j + 1]
            != "allow"@ by {
            assert(driver::flag_at(args, "--cap-lints"@, j));
        }
    }
    if builds_workspace_crate(args) {
        assert forall|j: int| #[trigger] driver::flag_at(args, "--cap-lints"@, j) implies args[j + 1]
            != "allow"@ by {
            assert(args[j] == "--cap-lints"@);
        }
        let i = choose|i: int| 0 <= i < args.len() && #[trigger] args[i] == "--crate-type"@;
        assert(args.contains(args[i]));
    }
}

/// An invocation is answered by what its arguments say. Without the path of a
/// compiler it is a direct start, on nothing or on the arguments as they are. With
/// one, the path is taken out, and what is left is analysed and handed on where it
/// builds a crate of the workspace, or else only handed on.
pub proof fn law_invocation_is_answered(args: Seq<Seq<char>>, invocation: Invocation)
    requires
        driver::asks_for(args, invocation),
    ensures
        ({
            let rest = seq![args[0]] + args.skip(2);
            &&& invocation is Usage <==> !stands_in_for_compiler(args) && args.len() < 2
            &&& invocation is Standalone <==> !stands_in_for_compiler(args) && args.len() >= 2
            &&& invocation is Wrapped <==> stands_in_for_compiler(args) && builds_workspace_crate(
                rest,
            )
            &&& invocation is Delegated <==> stands_in_for_compiler(args)
                && !builds_workspace_crate(rest)
            &&& invocation matches Invocation::Standalone(given) ==> text::texts(given@) == args
            &&& invocation matches Invocation::Delegated(given) ==> text::texts(given@) == rest
            &&& invocation matches Invocation::Wrapped(wrapped) ==> text::texts(wrapped.args@)
                == rest && wrapped.crate_name@ == driver::shown_crate_name(rest)
        }),
{
    law_analysed_invocations(args);
    if args.len() > 1 {
        let rest = seq![args[0]] + args.skip(2);
        assert(args.remove(1) =~= rest);
        law_analysed_invocations(rest);
    }
}

/// A flag and the value behind it stand at a position, and nowhere in front of it.
pub open spec fn is_first_flag(args: Seq<Seq<char>>, flag: Seq<char>, i: int) -> bool {
    0 <= i < args.len() - 1 && args[i] == flag && forall|j: int|
        0 <= j < i ==> #[trigger] args[j] != flag
}

proof fn lemma_value_from(args: Seq<Seq<char>>, flag: Seq<char>, from: int, value: Seq<char>)
    requires
        0 <= from,
        forall|j: int| 0 <= j < from && j < args.len() ==> #[trigger] args[j] != flag,
    ensures
        driver::value_from(args, flag, from) == Some(value) <==> exists|i: int| #[trigger]
            is_first_flag(args, flag, i) && args[i + 1] == value,
    decreases args.len() - from,
{
    if from + 1 < args.len() {
        if args[from] == flag {
            assert(is_first_flag(args, flag, from));
            assert forall|i: int| #[trigger] is_first_flag(args, flag, i) implies i == from by {
                if i > from {
                    assert(args[from] != flag);
                }
            }
        } else {
            lemma_value_from(args, flag, from + 1, value);
        }
    } else {
        assert forall|i: int| !#[trigger] is_first_flag(args, flag, i) by {
            if is_first_flag(args, flag, i) {
                assert(i < from);
            }
        }
    }
}

/// The value of a flag is what stands behind its first occurrence, and the crate
/// is shown under the value of `--crate-name`.
pub proof fn law_flag_values(args: Seq<Seq<char>>, flag: Seq<char>, value: Seq<char>)
    ensures
        driver::value_from(args, flag, 0) == Some(value) <==> exists|i: int| #[trigger]
            is_first_flag(args, flag, i) && args[i + 1] == value,
        driver::value_from(args, "--crate-name"@, 0) == Some(value) ==> driver::shown_crate_name(
            args,
        ) == value,
        driver::value_from(args, "--crate-name"@, 0) is None ==> driver::shown_crate_name(args)
            == "<unknown>"@,
{
    lemma_value_from(args, flag, 0, value);
}

proof fn lemma_source_from(args: Seq<Seq<char>>, from: int, file: Seq<char>)
    requires
        0 <= from <= args.len(),
        forall|j: int| 0 <= j < from ==> !ends_with(#[trigger] args[j], ".rs"@),
    ensures
        driver::source_from(args, from) == Some(file) <==> exists|i: int|
            0 <= i < args.len() && #[trigger] args[i] == file && ends_with(file, ".rs"@) && forall|
                j: int,
            |
                0 <= j < i ==> !ends_with(#[trigger] args[j], ".rs"@),
    decreases args.len() - from,
{
    if from < args.len() {
        lemma_ends_with(args[from], ".rs"@);
        if ends_with(args[from], ".rs"@) {
            if exists|i: int|
                0 <= i < args.len() && #[trigger] args[i] == file && ends_with(file, ".rs"@)
                    && forall|j: int| 0 <= j < i ==> !ends_with(#[trigger] args[j], ".rs"@) {
                let i = choose|i: int|
                    0 <= i < args.len() && #[trigger] args[i] == file && ends_with(file, ".rs"@)
                        && forall|j: int| 0 <= j < i ==> !ends_with(#[trigger] args[j], ".rs"@);
                if i > from {
                    assert(!ends_with(args[from], ".rs"@));
                }
                if i < from {
                    assert(!ends_with(args[i], ".rs"@));
                }
            }
            if args[from] == file {
                assert(args[from] == file);
            }
        } else {
            lemma_source_from(args, from + 1, file);
        }
    } else {
        assert forall|i: int| 0 <= i < args.len() implies !ends_with(#[trigger] args[i], ".rs"@) by {}
    }
}

/// The file that is analysed is the first argument that ends in `.rs`.
pub proof fn law_source_file(args: Seq<Seq<char>>, file: Seq<char>)
    ensures
        driver::source_from(args, 0) == Some(file) <==> exists|i: int|
            0 <= i < args.len() && #[trigger] args[i] == file && ends_with(file, ".rs"@) && forall|
                j: int,
            |
                0 <= j < i ==> !ends_with(#[trigger] args[j], ".rs"@),
{
    lemma_source_from(args, 0, file);
}

/// The compiler of the pinned toolchain is run on every argument behind the
/// program's own name.
pub proof fn law_compiler_runs_on_the_arguments(args: Seq<Seq<char>>, i: int)
    requires
        args.len() > 0,
        0 < i < args.len(),
    ensures
        driver::delegation(args).len() == args.len() + 2,
        driver::delegation(args)[0] == "run"@,
        driver::delegation(args)[1] == "nightly-2026-07-04"@,
        driver::delegation(args)[2] == "rustc"@,
        driver::delegation(args)[i + 2] == args[i],
{
}

} // verus!
