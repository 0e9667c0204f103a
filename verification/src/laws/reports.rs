//! What a report lists, how much of it and in which order.

use crate::auth_storage::AuthVariableView;
use crate::call_graph;
use crate::cosmwasm;
use crate::debug::Traces;
use crate::evaluation::Evaluation;
use crate::gating;
use crate::laws::findings;
use crate::mir::{DefId, Program};
use crate::mir_util;
use crate::order;
use crate::order::KeyView;
use crate::pipeline;
use crate::report;
use crate::report::FunctionFindingView;
use crate::sender_comparisons::ComparisonView;
use crate::sender_taint;
use crate::storage_inventory::StorageItemView;
use crate::text;
use vstd::prelude::*;

verus! {

// ---- order ---------------------------------------------------------------

/// One text stands in front of another in a dictionary: where they part, it ends or
/// has the smaller character.
pub open spec fn text_precedes(a: Seq<char>, b: Seq<char>) -> bool {
    exists|i: int| #[trigger] parts_at(a, b, i) && i < b.len() && (i == a.len() || a[i] < b[i])
}

/// The first `i` characters of two texts are the same.
pub open spec fn parts_at(a: Seq<char>, b: Seq<char>, i: int) -> bool {
    0 <= i <= a.len() && i <= b.len() && forall|j: int| 0 <= j < i ==> #[trigger] a[j] == b[j]
}

/// Texts are ordered as in a dictionary.
pub proof fn law_text_order(a: Seq<char>, b: Seq<char>)
    ensures
        order::text_before(a, b) <==> text_precedes(a, b),
    decreases a.len(),
{
    if b.len() == 0 {
    } else if a.len() == 0 {
        assert(parts_at(a, b, 0));
    } else if a[0] != b[0] {
        if a[0] < b[0] {
            assert(parts_at(a, b, 0));
        }
        if text_precedes(a, b) {
            let i = choose|i: int| #[trigger]
                parts_at(a, b, i) && i < b.len() && (i == a.len() || a[i] < b[i]);
            if i > 0 {
                assert(a[0] == b[0]);
            }
        }
    } else {
        let x = a.skip(1);
        let y = b.skip(1);
        law_text_order(x, y);
        if text_precedes(x, y) {
            let i = choose|i: int| #[trigger]
                parts_at(x, y, i) && i < y.len() && (i == x.len() || x[i] < y[i]);
            assert forall|j: int| 0 <= j < i + 1 implies #[trigger] a[j] == b[j] by {
                if j > 0 {
                    assert(x[j - 1] == y[j - 1]);
                }
            }
            assert(parts_at(a, b, i + 1));
        }
        if text_precedes(a, b) {
            let i = choose|i: int| #[trigger]
                parts_at(a, b, i) && i < b.len() && (i == a.len() || a[i] < b[i]);
            assert(i > 0);
            assert forall|j: int| 0 <= j < i - 1 implies #[trigger] x[j] == y[j] by {
                assert(a[j + 1] == b[j + 1]);
            }
            assert(parts_at(x, y, i - 1));
        }
    }
}

/// The entries of a list that is put in order are those of the list.
proof fn lemma_in_order<T>(list: Seq<T>, keys: Seq<KeyView>)
    requires
        list.len() == keys.len() <= usize::MAX,
    ensures
        report::in_order(list, keys).len() == list.len(),
        order::order_of(keys).len() == list.len(),
        forall|i: int| 0 <= i < list.len() ==> #[trigger] order::order_of(keys)[i] < list.len(),
        forall|i: int|
            0 <= i < list.len() ==> #[trigger] report::in_order(list, keys)[i]
                == list[order::order_of(keys)[i] as int],
{
    order::lemma_order_exists(keys);
}

/// Each entry of a list has its place when it is put in order.
proof fn lemma_place<T>(list: Seq<T>, keys: Seq<KeyView>, x: int) -> (i: int)
    requires
        list.len() == keys.len() <= usize::MAX,
        0 <= x < list.len(),
    ensures
        0 <= i < list.len(),
        report::in_order(list, keys)[i] == list[x],
{
    lemma_in_order(list, keys);
    order::lemma_order_exists(keys);
    let places = order::order_of(keys);
    assert(places.contains(x as usize));
    choose|i: int| 0 <= i < places.len() && places[i] == x as usize
}

/// The entry with the smaller key comes first.
proof fn lemma_keys_ascend(keys: Seq<KeyView>, i: int, j: int)
    requires
        keys.len() <= usize::MAX,
        0 <= i < j < keys.len(),
    ensures
        ({
            let a = keys[order::order_of(keys)[i] as int];
            let b = keys[order::order_of(keys)[j] as int];
            order::key_before(a, b) || a == b
        }),
{
    order::lemma_order_exists(keys);
    let places = order::order_of(keys);
    assert(order::entry_before(keys, places[i], places[j]));
}

proof fn lemma_members(set: Set<usize>, n: nat)
    requires
        n <= usize::MAX,
    ensures
        forall|f: usize| #[trigger]
            report::members(set, n).contains(f) <==> f < n && set.contains(f),
        report::members(set, n).no_duplicates(),
        report::members(set, n).len() <= n,
    decreases n,
{
    if n > 0 {
        lemma_members(set, (n - 1) as nat);
        let before = report::members(set, (n - 1) as nat);
        let last = (n - 1) as usize;
        if set.contains(last) {
            assert forall|f: usize| #[trigger]
                report::members(set, n).contains(f) <==> f < n && set.contains(f) by {
                crate::graph::lemma_push_contains(before, last, f);
            }
            assert(!before.contains(last));
        }
    }
}

/// A line shows the path of a function of a set.
pub open spec fn shows_member(
    program: Program,
    set: Set<usize>,
    f: usize,
    line: Seq<char>,
) -> bool {
    f < program.defs@.len() && set.contains(f) && line == "\t"@ + program.defs@[f as int].path@
}

/// A line shows the path of some function of a set.
pub open spec fn shows_some(program: Program, set: Set<usize>, line: Seq<char>) -> bool {
    exists|f: usize| shows_member(program, set, f, line)
}

/// Every function of a set has a line under the heading.
pub open spec fn shows_all(program: Program, lines: Seq<Seq<char>>, set: Set<usize>) -> bool {
    forall|f: usize|
        f < program.defs@.len() && #[trigger] set.contains(f) ==> exists|k: int|
            0 < k < lines.len() && shows_member(program, set, f, #[trigger] lines[k])
}

/// Every line under the heading is that of a function of a set.
pub open spec fn shows_only(program: Program, lines: Seq<Seq<char>>, set: Set<usize>) -> bool {
    forall|k: int|
        0 < k < lines.len() ==> shows_some(program, set, #[trigger] lines[k])
}

/// The lines under the heading stand in the order of what they show.
pub open spec fn shows_in_order(lines: Seq<Seq<char>>) -> bool {
    forall|i: int, j: int|
        0 < i < j < lines.len() ==> text_precedes(
            (#[trigger] lines[i]).skip(1),
            (#[trigger] lines[j]).skip(1),
        ) || lines[i] == lines[j]
}

/// A list of functions under a heading: the heading tells how many there are, each
/// function of the set has its line, no other has one, and they stand in the order
/// of their paths.
pub open spec fn lists_functions(
    program: Program,
    lines: Seq<Seq<char>>,
    heading: Seq<char>,
    set: Set<usize>,
    total: nat,
) -> bool {
    &&& lines.len() > 0
    &&& lines[0] == heading + text::decimal((lines.len() - 1) as nat) + "/"@ + text::decimal(total)
    &&& shows_all(program, lines, set)
    &&& shows_only(program, lines, set)
    &&& shows_in_order(lines)
}

/// The lines under the heading are those of the sorted functions.
proof fn lemma_counted_line(
    program: Program,
    heading: Seq<char>,
    fns: Seq<usize>,
    total: nat,
    k: int,
)
    requires
        0 < k <= fns.len(),
    ensures
        report::counted_lines(program, heading, fns, total).len() == fns.len() + 1,
        report::counted_lines(program, heading, fns, total)[k] == "\t"@
            + program.defs@[fns[k - 1] as int].path@,
        report::counted_lines(program, heading, fns, total)[k].skip(1)
            == program.defs@[fns[k - 1] as int].path@,
{
    reveal_strlit("\t");
    let path = program.defs@[fns[k - 1] as int].path@;
    assert(("\t"@ + path).skip(1) =~= path);
}

proof fn lemma_sorted_fns(program: Program, set: Set<usize>)
    ensures
        report::sorted_fns(program, set).len() == report::members(set, program.defs@.len()).len(),
        forall|i: int|
            0 <= i < report::sorted_fns(program, set).len() ==> {
                let f = #[trigger] report::sorted_fns(program, set)[i];
                f < program.defs@.len() && set.contains(f)
            },
        forall|f: usize|
            f < program.defs@.len() && #[trigger] set.contains(f) ==> exists|i: int|
                0 <= i < report::sorted_fns(program, set).len() && #[trigger] report::sorted_fns(
                    program,
                    set,
                )[i] == f,
{
    let n = program.defs@.len();
    assert(program.defs.len() == n);
    let fns = report::members(set, n);
    lemma_members(set, n);
    let keys = fns.map_values(|f: usize| report::path_key(program, f));
    lemma_in_order(fns, keys);
    let sorted = report::sorted_fns(program, set);
    assert forall|i: int| 0 <= i < sorted.len() implies {
        let f = #[trigger] sorted[i];
        f < n && set.contains(f)
    } by {
        let x = order::order_of(keys)[i];
        assert(x < fns.len());
        assert(fns.contains(fns[x as int]));
    }
    assert forall|f: usize| f < n && #[trigger] set.contains(f) implies exists|i: int|
        0 <= i < sorted.len() && #[trigger] sorted[i] == f by {
        assert(fns.contains(f));
        let x = choose|x: int| 0 <= x < fns.len() && fns[x] == f;
        let i = lemma_place(fns, keys, x);
        assert(sorted[i] == f);
    }
}

proof fn lemma_paths_ascend(program: Program, set: Set<usize>, i: int, j: int)
    requires
        0 <= i < j < report::sorted_fns(program, set).len(),
    ensures
        ({
            let a = program.defs@[report::sorted_fns(program, set)[i] as int].path@;
            let b = program.defs@[report::sorted_fns(program, set)[j] as int].path@;
            text_precedes(a, b) || a == b
        }),
{
    let n = program.defs@.len();
    assert(program.defs.len() == n);
    let fns = report::members(set, n);
    lemma_members(set, n);
    let keys = fns.map_values(|f: usize| report::path_key(program, f));
    lemma_in_order(fns, keys);
    lemma_keys_ascend(keys, i, j);
    let sorted = report::sorted_fns(program, set);
    let x = order::order_of(keys)[i];
    let y = order::order_of(keys)[j];
    assert(x < fns.len() && y < fns.len());
    assert(sorted[i] == fns[x as int] && sorted[j] == fns[y as int]);
    let a = keys[x as int];
    let b = keys[y as int];
    assert(a.numbers.len() == 0 && b.numbers.len() == 0);
    law_text_order(a.text, b.text);
}

proof fn lemma_shows_all(program: Program, heading: Seq<char>, set: Set<usize>, total: nat)
    ensures
        shows_all(
            program,
            report::counted_lines(program, heading, report::sorted_fns(program, set), total),
            set,
        ),
{
    let sorted = report::sorted_fns(program, set);
    lemma_sorted_fns(program, set);
    let lines = report::counted_lines(program, heading, sorted, total);
    assert forall|f: usize|
        f < program.defs@.len() && #[trigger] set.contains(f) implies exists|k: int|
        0 < k < lines.len() && shows_member(program, set, f, #[trigger] lines[k]) by {
        let i = choose|i: int| 0 <= i < sorted.len() && #[trigger] sorted[i] == f;
        lemma_counted_line(program, heading, sorted, total, i + 1);
        assert(shows_member(program, set, f, lines[i + 1]));
    }
}

proof fn lemma_shows_only(program: Program, heading: Seq<char>, set: Set<usize>, total: nat)
    ensures
        shows_only(
            program,
            report::counted_lines(program, heading, report::sorted_fns(program, set), total),
            set,
        ),
{
    let sorted = report::sorted_fns(program, set);
    lemma_sorted_fns(program, set);
    let lines = report::counted_lines(program, heading, sorted, total);
    assert(lines.len() == sorted.len() + 1);
    assert forall|k: int| 0 < k < lines.len() implies shows_some(
        program,
        set,
        #[trigger] lines[k],
    ) by {
        let f = sorted[k - 1];
        lemma_counted_line(program, heading, sorted, total, k);
        assert(shows_member(program, set, f, lines[k]));
    }
}

proof fn lemma_shows_in_order(program: Program, heading: Seq<char>, set: Set<usize>, total: nat)
    ensures
        shows_in_order(
            report::counted_lines(program, heading, report::sorted_fns(program, set), total),
        ),
{
    let sorted = report::sorted_fns(program, set);
    let lines = report::counted_lines(program, heading, sorted, total);
    assert(lines.len() == sorted.len() + 1);
    assert forall|i: int, j: int| 0 < i < j < lines.len() implies text_precedes(
        (#[trigger] lines[i]).skip(1),
        (#[trigger] lines[j]).skip(1),
    ) || lines[i] == lines[j] by {
        lemma_counted_line(program, heading, sorted, total, i);
        lemma_counted_line(program, heading, sorted, total, j);
        lemma_paths_ascend(program, set, i - 1, j - 1);
    }
}

proof fn lemma_lists_functions(
    program: Program,
    heading: Seq<char>,
    set: Set<usize>,
    total: nat,
)
    ensures
        lists_functions(
            program,
            report::counted_lines(program, heading, report::sorted_fns(program, set), total),
            heading,
            set,
            total,
        ),
{
    let sorted = report::sorted_fns(program, set);
    let lines = report::counted_lines(program, heading, sorted, total);
    lemma_shows_all(program, heading, set, total);
    lemma_shows_only(program, heading, set, total);
    lemma_shows_in_order(program, heading, set, total);
    assert(lines.len() == sorted.len() + 1);
    assert((lines.len() - 1) as nat == sorted.len());
}

/// The functions that check on every path are listed, all of them, and their number
/// is set against that of all functions.
pub proof fn law_always_checking_functions_are_listed(program: Program, summary: Map<usize, bool>)
    ensures
        lists_functions(
            program,
            report::always_checking_lines(program, summary),
            "\n[3] Always-checking functions: "@,
            Set::new(|f: usize| summary.contains_key(f) && summary[f]),
            summary.dom().len(),
        ),
{
    let set = Set::new(|f: usize| summary.contains_key(f) && summary[f]);
    assert(gating::holding(summary) =~= set);
    lemma_lists_functions(
        program,
        "\n[3] Always-checking functions: "@,
        set,
        summary.dom().len(),
    );
}

/// The functions of the crate itself that are entered only after a check are
/// listed, all of them, and their number is set against that of all functions.
pub proof fn law_entry_checked_functions_are_listed(program: Program, summary: Map<usize, bool>)
    ensures
        lists_functions(
            program,
            report::entry_checked_lines(program, summary),
            "\n[5] Entry-checked functions (local): "@,
            Set::new(
                |f: usize|
                    summary.contains_key(f) && summary[f] && f < program.defs@.len()
                        && program.defs@[f as int].is_local,
            ),
            summary.dom().len(),
        ),
{
    let set = Set::new(
        |f: usize|
            summary.contains_key(f) && summary[f] && f < program.defs@.len()
                && program.defs@[f as int].is_local,
    );
    assert(report::local_holding(program, summary) =~= set);
    lemma_lists_functions(
        program,
        "\n[5] Entry-checked functions (local): "@,
        set,
        summary.dom().len(),
    );
}

// ---- findings ------------------------------------------------------------

/// A finding is a vulnerability: an input is stored, and no check stands in front.
pub open spec fn is_open(entry: FunctionFindingView) -> bool {
    entry.finding.taint is Some && !entry.finding.gated
}

proof fn lemma_vulnerability_count(all: Seq<FunctionFindingView>)
    ensures
        report::vulnerability_count(all) == all.filter(
            |entry: FunctionFindingView| is_open(entry),
        ).len(),
    decreases all.len(),
{
    reveal(Seq::filter);
    if all.len() > 0 {
        lemma_vulnerability_count(all.drop_last());
    }
}

/// The heading of the findings tells how many there are and how many of them are
/// vulnerabilities, and as many lines follow it as there are findings.
pub proof fn law_findings_are_counted(all: Seq<FunctionFindingView>)
    requires
        all.len() <= usize::MAX,
    ensures
        report::finding_lines(all).len() == all.len() + 1,
        report::finding_lines(all)[0] == "\n=== Access-Control findings: "@ + text::decimal(
            all.len(),
        ) + " sink(s), "@ + text::decimal(
            all.filter(|entry: FunctionFindingView| is_open(entry)).len(),
        ) + " vulnerability(ies)"@,
{
    lemma_vulnerability_count(all);
    lemma_in_order(all, all.map_values(|entry: FunctionFindingView| report::finding_key(entry)));
}

/// The lines of the findings stand in the order of the functions, and inside a
/// function in that of the blocks.
pub proof fn law_findings_are_in_order(all: Seq<FunctionFindingView>, i: int, j: int)
    requires
        all.len() <= usize::MAX,
        0 < i < j <= all.len(),
    ensures
        exists|first: FunctionFindingView, second: FunctionFindingView|
            #![trigger all.contains(first), all.contains(second)]
            all.contains(first) && all.contains(second) && report::finding_lines(all)[i]
                == report::finding_line(first) && report::finding_lines(all)[j]
                == report::finding_line(second) && (text_precedes(first.function, second.function)
                || (first.function == second.function && first.finding.sink.location.block
                <= second.finding.sink.location.block)),
{
    let keys = all.map_values(|entry: FunctionFindingView| report::finding_key(entry));
    lemma_in_order(all, keys);
    lemma_keys_ascend(keys, i - 1, j - 1);
    let places = order::order_of(keys);
    let a = places[i - 1] as int;
    let b = places[j - 1] as int;
    assert(places[i - 1] < all.len() && places[j - 1] < all.len());
    let first = all[a];
    let second = all[b];
    assert(all.contains(first) && all.contains(second));
    law_text_order(first.function, second.function);
    let x = keys[a].numbers;
    let y = keys[b].numbers;
    assert(x == seq![first.finding.sink.location.block]);
    assert(y == seq![second.finding.sink.location.block]);
    assert(x.skip(1) =~= Seq::empty() && y.skip(1) =~= Seq::empty());
    assert(!order::numbers_before(x.skip(1), y.skip(1)));
    assert(order::key_before(keys[a], keys[b]) || keys[a] == keys[b]);
    if keys[a] == keys[b] {
        assert(x[0] == y[0]);
    }
}

/// The line of a finding tells the outcome, the function, what is written and where,
/// and, where an input is stored, which one.
pub proof fn law_line_of_a_finding(entry: FunctionFindingView)
    ensures
        ({
            let outcome = if entry.finding.taint is Some && !entry.finding.gated {
                "VULN "@
            } else if entry.finding.gated {
                "gated"@
            } else {
                "clean"@
            };
            let line = "\t["@ + outcome + "] "@ + entry.function + " writes "@
                + entry.finding.sink.symbolic_name + " @ "@ + mir_util::location_text(
                entry.finding.sink.location,
            );
            &&& entry.finding.taint is None ==> report::finding_line(entry) == line + ""@
            &&& entry.finding.taint matches Some(source) ==> report::finding_line(entry) == line + (
            " <- tainted by "@ + mir_util::local_text(source.param_local) + " : "@
                + source.param_ty)
        }),
{
}

// ---- the other stages ----------------------------------------------------

/// The inventory is shown item by item: name, definition, type and kind, and a mark
/// exactly on the items that hold an authority.
pub proof fn law_inventory_is_shown(program: Program, items: Seq<StorageItemView>, i: int)
    requires
        0 <= i < items.len(),
    ensures
        report::inventory_lines(program, items).len() == items.len() + 1,
        report::inventory_lines(program, items)[0] == "══ Storage Inventory ══"@,
        report::inventory_lines(program, items)[i + 1] == "Name: "@ + items[i].name + ", DefId: "@
            + program.defs@[items[i].def_id as int].debug@ + ", Type: "@ + items[i].ty_string
            + ", Kind: "@ + (if items[i].kind is Item {
            "Item"@
        } else {
            "Map"@
        }) + ",  "@ + (if items[i].is_auth {
            "  [auth]"@
        } else {
            ""@
        }),
{
}

/// The comparisons of a function are counted and shown one by one, where and as
/// what they were found; where there is none, that is said.
pub proof fn law_comparisons_are_shown(comparisons: Seq<ComparisonView>, i: int)
    ensures
        comparisons.len() == 0 ==> report::comparison_lines(comparisons)
            == seq!["[1] info.sender comparisons: none"@],
        comparisons.len() > 0 ==> report::comparison_lines(comparisons).len() == comparisons.len()
            + 1 && report::comparison_lines(comparisons)[0] == "[1] info.sender comparisons: "@
            + text::decimal(comparisons.len()),
        0 <= i < comparisons.len() ==> report::comparison_lines(comparisons)[i + 1] == "\t"@
            + mir_util::location_text(comparisons[i].location) + " "@ + comparisons[i].description,
{
}

/// The storage items that a function holds the sender against are counted and shown
/// one by one, with the place of the load; where there is none, that is said.
pub proof fn law_variables_are_shown(variables: Seq<AuthVariableView>, i: int)
    ensures
        variables.len() == 0 ==> report::variable_lines(variables)
            == seq!["[2] Auth-State-Variables: none"@],
        variables.len() > 0 ==> report::variable_lines(variables).len() == variables.len() + 1
            && report::variable_lines(variables)[0] == "[2] Auth-State-Variables: "@
            + text::decimal(variables.len()),
        0 <= i < variables.len() ==> report::variable_lines(variables)[i + 1] == "\t"@
            + variables[i].symbolic_name + " (load @ "@ + mir_util::location_text(
            variables[i].load_location,
        ) + ")"@,
{
}

/// A row of numbers is written with commas in between.
pub proof fn law_rows_of_numbers(numbers: Seq<usize>, last: usize)
    ensures
        report::numbers_text(seq![last]) == text::decimal(last as nat),
        numbers.len() > 0 ==> report::numbers_text(numbers.push(last)) == report::numbers_text(
            numbers,
        ) + ", "@ + text::decimal(last as nat),
{
    assert(seq![last][0] == last);
    assert(numbers.push(last).drop_last() =~= numbers);
}

/// Every function that forwards a parameter is shown with the positions that it
/// forwards, no other function is, and the heading tells how many there are.
pub proof fn law_forwarding_functions_are_listed(
    program: Program,
    flows: Map<usize, Set<usize>>,
    f: usize,
    k: int,
)
    ensures
        ({
            let lines = report::return_taint_lines(program, flows);
            &&& lines.len() > 0
            &&& lines[0] == "\n[4] Return-tainted-by-param functions: "@ + text::decimal(
                (lines.len() - 1) as nat,
            ) + "/"@ + text::decimal(flows.dom().len())
            &&& f < program.defs@.len() && flows.contains_key(f) && flows[f] != Set::<
                usize,
            >::empty() ==> exists|i: int|
                0 < i < lines.len() && #[trigger] lines[i] == "\t"@ + program.defs@[f as int].path@
                    + " <- param ["@ + report::numbers_text(
                    report::members(flows[f], usize::MAX as nat),
                ) + "]"@
            &&& 0 < k < lines.len() ==> exists|g: usize|
                g < program.defs@.len() && #[trigger] flows.contains_key(g) && flows[g] != Set::<
                    usize,
                >::empty() && lines[k] == "\t"@ + program.defs@[g as int].path@ + " <- param ["@
                    + report::numbers_text(report::members(flows[g], usize::MAX as nat)) + "]"@
        }),
{
    let n = program.defs@.len();
    assert(program.defs.len() == n);
    let set = report::forwarding_fns(flows);
    let fns = report::members(set, n);
    lemma_members(set, n);
    let keys = fns.map_values(|g: usize| report::flow_key(program, flows, g));
    lemma_in_order(keys, keys);
    let sorted = report::in_order(keys, keys);
    let lines = report::return_taint_lines(program, flows);
    assert(lines.len() == sorted.len() + 1);
    assert((lines.len() - 1) as nat == fns.len());
    assert forall|i: int| 0 < i < lines.len() implies #[trigger] lines[i] == report::flow_line(
        sorted[i - 1],
    ) by {}
    if f < n && flows.contains_key(f) && flows[f] != Set::<usize>::empty() {
        assert(fns.contains(f));
        let x = choose|x: int| 0 <= x < fns.len() && fns[x] == f;
        let i = lemma_place(keys, keys, x);
        assert(sorted[i] == report::flow_key(program, flows, f));
        assert(lines[i + 1] == report::flow_line(sorted[i]));
    }
    if 0 < k < lines.len() {
        let x = order::order_of(keys)[k - 1];
        assert(x < keys.len());
        assert(sorted[k - 1] == keys[x as int]);
        let g = fns[x as int];
        assert(fns.contains(g));
        assert(set.contains(g));
        assert(flows.contains_key(g));
    }
}

/// The positions are those of the forwarded parameters, from the first to the last.
pub proof fn law_members_in_order(set: Set<usize>, n: nat, i: int, j: int)
    requires
        n <= usize::MAX,
        0 <= i < j < report::members(set, n).len(),
    ensures
        report::members(set, n)[i] < report::members(set, n)[j],
        set.contains(report::members(set, n)[i]),
        set.contains(report::members(set, n)[j]),
    decreases n,
{
    if n > 0 {
        let before = report::members(set, (n - 1) as nat);
        lemma_members(set, (n - 1) as nat);
        let all = report::members(set, n);
        if j < before.len() {
            law_members_in_order(set, (n - 1) as nat, i, j);
        } else {
            assert(before.contains(before[i]));
        }
    }
}

/// A function is headed by the last part of its path.
pub proof fn law_last_part_of_a_path(front: Seq<char>, name: Seq<char>)
    requires
        !text::holds_text(name, "::"@),
        front.len() > 0 ==> front.last() != ':',
        name.len() > 0 ==> name[0] != ':',
    ensures
        report::last_segment(name) == name,
        report::last_segment(front + "::"@ + name) == name,
{
    reveal_strlit("::");
    assert("::"@ =~= seq![':', ':']);
    lemma_no_further_part(name, 0, 0);
    assert(name.skip(0) =~= name);
    let path = front + "::"@ + name;
    lemma_first_parts(front, name, 0, 0);
    lemma_shifted_part(front + "::"@, name, 0);
    assert(path.skip(front.len() as int + 2) =~= name);
}

proof fn lemma_no_further_part(path: Seq<char>, start: int, i: int)
    requires
        0 <= i,
        !text::holds_text(path, seq![':', ':']),
    ensures
        report::segment_from(path, start, i) == path.skip(start),
    decreases path.len() - i,
{
    if i < path.len() {
        if i + 1 < path.len() && path[i] == ':' && path[i + 1] == ':' {
            assert(path.subrange(i, i + 2) =~= seq![':', ':']);
            assert(text::occurs_at(path, seq![':', ':'], i));
        }
        lemma_no_further_part(path, start, i + 1);
    }
}

/// However many parts stand in front, the part behind the last separator counts.
proof fn lemma_first_parts(front: Seq<char>, name: Seq<char>, start: int, i: int)
    requires
        0 <= i <= front.len(),
        front.len() > 0 ==> front.last() != ':',
    ensures
        report::segment_from(front + seq![':', ':'] + name, start, i) == report::segment_from(
            front + seq![':', ':'] + name,
            front.len() as int + 2,
            front.len() as int + 2,
        ),
    decreases front.len() - i,
{
    let path = front + seq![':', ':'] + name;
    if i < front.len() {
        assert(path[i] == front[i]);
        if path[i] == ':' && path[i + 1] == ':' {
            assert(i + 1 < front.len());
            lemma_first_parts(front, name, i + 2, i + 2);
        } else {
            lemma_first_parts(front, name, start, i + 1);
        }
    } else {
        assert(path[i] == ':' && path[i + 1] == ':');
    }
}

proof fn lemma_shifted_part(front: Seq<char>, name: Seq<char>, i: int)
    requires
        0 <= i <= name.len(),
        !text::holds_text(name, seq![':', ':']),
    ensures
        report::segment_from(front + name, front.len() as int, front.len() + i) == (front + name).skip(
            front.len() as int,
        ),
    decreases name.len() - i,
{
    let path = front + name;
    let at = front.len() + i;
    if i < name.len() {
        assert(path[at] == name[i]);
        if at + 1 < path.len() && path[at] == ':' && path[at + 1] == ':' {
            assert(path[at + 1] == name[i + 1]);
            assert(name.subrange(i, i + 2) =~= seq![':', ':']);
            assert(text::occurs_at(name, seq![':', ':'], i));
        }
        lemma_shifted_part(front, name, i + 1);
    }
}

// ---- the report as a whole -----------------------------------------------

/// Without an entry point the inventory is shown, and that there is none.
pub proof fn law_report_without_an_entry_point(program: Program, traces: Traces)
    requires
        cosmwasm::execute_from(program, 0) is None,
    ensures
        pipeline::full_report(program, traces).last()
            == "No execute-Entry-Point, skipping analysis"@,
        pipeline::full_report(program, traces).drop_last() == report::inventory_lines(
            program,
            crate::storage_inventory::declared_items(program, program.free_items@),
        ),
{
    let shown = report::inventory_lines(
        program,
        crate::storage_inventory::declared_items(program, program.free_items@),
    );
    assert((shown + seq!["No execute-Entry-Point, skipping analysis"@]).drop_last() =~= shown);
}

proof fn lemma_functions_lines(
    program: Program,
    nodes: Seq<DefId>,
    fns: Seq<DefId>,
    count: nat,
    t: int,
    line: Seq<char>,
)
    requires
        0 <= t < count <= fns.len(),
        pipeline::function_lines(program, nodes, fns[t]).contains(line),
    ensures
        pipeline::functions_lines(program, nodes, fns, count).contains(line),
    decreases count,
{
    let before = pipeline::functions_lines(program, nodes, fns, (count - 1) as nat);
    let here = pipeline::function_lines(program, nodes, fns[count - 1]);
    let all = pipeline::functions_lines(program, nodes, fns, count);
    if t < count - 1 {
        lemma_functions_lines(program, nodes, fns, (count - 1) as nat, t, line);
        let i = choose|i: int| 0 <= i < before.len() && before[i] == line;
        assert(all[i] == line);
    } else {
        let i = choose|i: int| 0 <= i < here.len() && here[i] == line;
        assert(all[before.len() + i] == line);
    }
}

/// The report names the entry point first. It has a heading for every body that was
/// searched, a line for every comparison found in it, and one for every item of the
/// inventory.
pub proof fn law_report_shows_what_was_found(
    program: Program,
    root: DefId,
    traces: Traces,
    f: DefId,
    m: int,
    i: int,
)
    requires
        cosmwasm::execute_from(program, 0) == Some(root),
        sender_taint::targets_of(
            program,
            call_graph::reachable_from(program, root),
        ).contains(f),
    ensures
        ({
            let nodes = call_graph::reachable_from(program, root);
            let whole = pipeline::full_report(program, traces);
            let found = pipeline::comparisons_in(program, nodes, f);
            let items = pipeline::marked_inventory(program, nodes);
            &&& whole.len() > 0
            &&& whole[0] == "Found Execute Entry Point: "@ + text::debug_quoted(
                program.defs@[root as int].path@,
            )
            &&& whole.contains(
                "[call_graph] Reachable functions from "@ + program.defs@[root as int].debug@
                    + ": "@ + text::decimal(nodes.len()),
            )
            &&& whole.contains(
                "\nchecking function: '"@ + report::last_segment(program.defs@[f as int].path@)
                    + "'"@,
            )
            &&& 0 <= m < found.len() ==> whole.contains(
                "\t"@ + mir_util::location_text(found[m].location) + " "@ + found[m].description,
            )
            &&& 0 <= i < items.len() ==> whole.contains(
                report::inventory_lines(program, items)[i + 1],
            )
        }),
{
    let nodes = call_graph::reachable_from(program, root);
    let targets = sender_taint::targets_of(program, nodes);
    let whole = pipeline::full_report(program, traces);
    let found = pipeline::comparisons_in(program, nodes, f);
    let items = pipeline::marked_inventory(program, nodes);
    let first = seq![report::entry_point_line(program, root)];
    let skipped = pipeline::skipped_lines(
        program,
        call_graph::skipped_calls(program, nodes, nodes.len()),
    );
    let size = report::call_graph_size_line(program, root, nodes.len());
    let functions = pipeline::functions_lines(program, nodes, targets, targets.len());
    let shown = report::inventory_lines(program, items);
    let front = first + skipped + seq![size];
    let detection = front + functions + shown;
    assert(detection =~= pipeline::detection_report(program, root));
    assert(whole == detection + pipeline::evaluation_report(program, root, traces));
    assert(whole[0] == first[0]);
    assert(whole[front.len() - 1] == size);
    let t = choose|t: int| 0 <= t < targets.len() && targets[t] == f;
    let lines = pipeline::function_lines(program, nodes, f);
    let header = report::function_header_line(program, f);
    assert(lines[0] == header);
    lemma_functions_lines(program, nodes, targets, targets.len(), t, header);
    let h = choose|h: int| 0 <= h < functions.len() && functions[h] == header;
    assert(whole[front.len() + h] == header);
    if 0 <= m < found.len() {
        let line = report::comparison_line(found[m]);
        assert(report::comparison_lines(found)[m + 1] == line);
        assert(lines[m + 2] == line);
        lemma_functions_lines(program, nodes, targets, targets.len(), t, line);
        let p = choose|p: int| 0 <= p < functions.len() && functions[p] == line;
        assert(whole[front.len() + p] == line);
    }
    if 0 <= i < items.len() {
        assert(whole[front.len() + functions.len() + i + 1] == shown[i + 1]);
    }
}

/// One row of numbers stands in front of another: where they part, it ends or has
/// the smaller number.
pub open spec fn numbers_precede(a: Seq<usize>, b: Seq<usize>) -> bool {
    exists|i: int|
        #[trigger] same_numbers(a, b, i) && i < b.len() && (i == a.len() || a[i] < b[i])
}

/// The first `i` numbers of two rows are the same.
pub open spec fn same_numbers(a: Seq<usize>, b: Seq<usize>, i: int) -> bool {
    0 <= i <= a.len() && i <= b.len() && forall|j: int| 0 <= j < i ==> #[trigger] a[j] == b[j]
}

/// Rows of numbers are ordered by the first number in which they differ.
pub proof fn law_number_order(a: Seq<usize>, b: Seq<usize>)
    ensures
        order::numbers_before(a, b) <==> numbers_precede(a, b),
    decreases a.len(),
{
    if b.len() == 0 {
    } else if a.len() == 0 {
        assert(same_numbers(a, b, 0));
    } else if a[0] != b[0] {
        if a[0] < b[0] {
            assert(same_numbers(a, b, 0));
        }
        if numbers_precede(a, b) {
            let i = choose|i: int| #[trigger]
                same_numbers(a, b, i) && i < b.len() && (i == a.len() || a[i] < b[i]);
            if i > 0 {
                assert(a[0] == b[0]);
            }
        }
    } else {
        let x = a.skip(1);
        let y = b.skip(1);
        law_number_order(x, y);
        if numbers_precede(x, y) {
            let i = choose|i: int| #[trigger]
                same_numbers(x, y, i) && i < y.len() && (i == x.len() || x[i] < y[i]);
            assert forall|j: int| 0 <= j < i + 1 implies #[trigger] a[j] == b[j] by {
                if j > 0 {
                    assert(x[j - 1] == y[j - 1]);
                }
            }
            assert(same_numbers(a, b, i + 1));
        }
        if numbers_precede(a, b) {
            let i = choose|i: int| #[trigger]
                same_numbers(a, b, i) && i < b.len() && (i == a.len() || a[i] < b[i]);
            assert(i > 0);
            assert forall|j: int| 0 <= j < i - 1 implies #[trigger] x[j] == y[j] by {
                assert(a[j + 1] == b[j + 1]);
            }
            assert(same_numbers(x, y, i - 1));
        }
    }
}

/// The report lists the functions that vouch for their callers, those that forward
/// parameters, and those that are entered only after a check.
pub proof fn law_report_lists_the_summaries(
    program: Program,
    root: DefId,
    traces: Traces,
    k: int,
)
    requires
        cosmwasm::execute_from(program, 0) == Some(root),
    ensures
        ({
            let nodes = call_graph::reachable_from(program, root);
            let whole = pipeline::full_report(program, traces);
            let vouching = report::always_checking_lines(
                program,
                Map::new(
                    |f: usize| nodes.contains(f),
                    |f: usize| findings::vouching_from(program, root).contains(f),
                ),
            );
            let forwarding = report::return_taint_lines(
                program,
                findings::taint_context(program, root, root).flows,
            );
            let entered = report::entry_checked_lines(
                program,
                Map::new(
                    |f: usize| nodes.contains(f),
                    |f: usize| findings::entered_from(program, root).contains(f),
                ),
            );
            &&& 0 <= k < vouching.len() ==> whole.contains(vouching[k])
            &&& 0 <= k < forwarding.len() ==> whole.contains(forwarding[k])
            &&& 0 <= k < entered.len() ==> whole.contains(entered[k])
        }),
{
    let nodes = call_graph::reachable_from(program, root);
    let whole = pipeline::full_report(program, traces);
    let found = pipeline::evaluation_of(program, root);
    let names = pipeline::auth_names(pipeline::marked_inventory(program, nodes));
    let vouching = report::always_checking_lines(
        program,
        Map::new(
            |f: usize| nodes.contains(f),
            |f: usize| findings::vouching_from(program, root).contains(f),
        ),
    );
    let flows = findings::taint_context(program, root, root).flows;
    let forwarding = report::return_taint_lines(program, flows);
    let entered = report::entry_checked_lines(
        program,
        Map::new(
            |f: usize| nodes.contains(f),
            |f: usize| findings::entered_from(program, root).contains(f),
        ),
    );
    assert(pipeline::summary_of(nodes, found.always) =~= Map::new(
        |f: usize| nodes.contains(f),
        |f: usize| findings::vouching_from(program, root).contains(f),
    ));
    assert(pipeline::summary_of(nodes, found.entered) =~= Map::new(
        |f: usize| nodes.contains(f),
        |f: usize| findings::entered_from(program, root).contains(f),
    ));
    findings::lemma_flows(program, root);
    let detection = pipeline::detection_report(program, root);
    let closures = if traces.closure {
        crate::debug::closure_lines(program, found.comparisons, program.defs@.len())
    } else {
        Seq::empty()
    };
    let traced = pipeline::all_traces(found, names, nodes, traces, nodes.len());
    let last = report::finding_lines(pipeline::all_findings(found, names, nodes, nodes.len()));
    lemma_joined(detection, closures, vouching, forwarding, entered, traced, last, k);
}

proof fn lemma_joined(
    first: Seq<Seq<char>>,
    second: Seq<Seq<char>>,
    a: Seq<Seq<char>>,
    b: Seq<Seq<char>>,
    c: Seq<Seq<char>>,
    d: Seq<Seq<char>>,
    last: Seq<Seq<char>>,
    k: int,
)
    ensures
        ({
            let whole = first + (second + a + b + c + d + last);
            &&& 0 <= k < a.len() ==> whole.contains(a[k])
            &&& 0 <= k < b.len() ==> whole.contains(b[k])
            &&& 0 <= k < c.len() ==> whole.contains(c[k])
            &&& 0 <= k < d.len() ==> whole.contains(d[k])
        }),
{
    let whole = first + (second + a + b + c + d + last);
    let start = first.len() + second.len();
    if 0 <= k < a.len() {
        assert(whole[start + k] == a[k]);
    }
    if 0 <= k < b.len() {
        assert(whole[start + a.len() + k] == b[k]);
    }
    if 0 <= k < c.len() {
        assert(whole[start + a.len() + b.len() + k] == c[k]);
    }
    if 0 <= k < d.len() {
        assert(whole[start + a.len() + b.len() + c.len() + k] == d[k]);
    }
}

proof fn lemma_traced(
    found: Evaluation,
    names: Set<Seq<char>>,
    nodes: Seq<DefId>,
    traces: Traces,
    count: nat,
    n: int,
    k: int,
) -> (at: int)
    requires
        0 <= n < count <= nodes.len(),
        nodes[n] < found.program.defs@.len(),
        cosmwasm::analysable(found.program, nodes[n]),
        0 <= k < trace_of(found, names, nodes[n], traces).len(),
    ensures
        0 <= at < pipeline::all_traces(found, names, nodes, traces, count).len(),
        pipeline::all_traces(found, names, nodes, traces, count)[at] == trace_of(
            found,
            names,
            nodes[n],
            traces,
        )[k],
    decreases count,
{
    let before = pipeline::all_traces(found, names, nodes, traces, (count - 1) as nat);
    if n == count - 1 {
        before.len() + k
    } else {
        lemma_traced(found, names, nodes, traces, (count - 1) as nat, n, k)
    }
}

/// What is traced of one function.
pub open spec fn trace_of(
    found: Evaluation,
    names: Set<Seq<char>>,
    f: DefId,
    traces: Traces,
) -> Seq<Seq<char>> {
    crate::debug::function_trace(
        found,
        cosmwasm::body_at(found.program, f),
        f,
        call_graph::node_sites(found.program, f),
        names,
        traces,
    )
}

/// The report shows what is traced of every function that the entry point reaches.
pub proof fn law_report_shows_every_trace(
    program: Program,
    root: DefId,
    traces: Traces,
    n: int,
    k: int,
)
    requires
        cosmwasm::execute_from(program, 0) == Some(root),
    ensures
        ({
            let nodes = call_graph::reachable_from(program, root);
            let lines = trace_of(
                pipeline::evaluation_of(program, root),
                pipeline::auth_names(pipeline::marked_inventory(program, nodes)),
                nodes[n],
                traces,
            );
            0 <= n < nodes.len() && nodes[n] < program.defs@.len() && cosmwasm::analysable(
                program,
                nodes[n],
            ) && 0 <= k < lines.len() ==> pipeline::full_report(program, traces).contains(lines[k])
        }),
{
    let nodes = call_graph::reachable_from(program, root);
    let found = pipeline::evaluation_of(program, root);
    let names = pipeline::auth_names(pipeline::marked_inventory(program, nodes));
    let lines = trace_of(found, names, nodes[n], traces);
    if 0 <= n < nodes.len() && nodes[n] < program.defs@.len() && cosmwasm::analysable(
        program,
        nodes[n],
    ) && 0 <= k < lines.len() {
        let at = lemma_traced(found, names, nodes, traces, nodes.len(), n, k);
        let detection = pipeline::detection_report(program, root);
        let closures = if traces.closure {
            crate::debug::closure_lines(program, found.comparisons, program.defs@.len())
        } else {
            Seq::empty()
        };
        lemma_joined(
            detection,
            closures,
            report::always_checking_lines(program, pipeline::summary_of(nodes, found.always)),
            report::return_taint_lines(program, found.flows),
            report::entry_checked_lines(program, pipeline::summary_of(nodes, found.entered)),
            pipeline::all_traces(found, names, nodes, traces, nodes.len()),
            report::finding_lines(pipeline::all_findings(found, names, nodes, nodes.len())),
            at,
        );
    }
}

} // verus!
