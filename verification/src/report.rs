//! Console output.
//!
//! Every line the tool writes is produced here, so that the analysis modules
//! stay free of formatting and the report format is defined in one place. The
//! output follows the pipeline: the storage inventory and the per-function stage
//! 1 to 4 results first, then the interprocedural summaries `[3]` to `[5]`, then
//! the findings.
//!
//! Lists are sorted before they are shown, which is what makes two runs over the
//! same crate produce byte-identical output.

use crate::auth_storage;
use crate::auth_storage::{AuthStateVariable, AuthVariableView};
use crate::dense::{DenseMap, DenseSet};
use crate::evaluation;
use crate::evaluation::{AccessControlFinding, FindingView};
use crate::gating;
use crate::mir::{BasicBlock, DefId, Program};
use crate::mir_util;
use crate::order;
use crate::order::{KeyView, SortKey};
use crate::sender_comparisons;
use crate::sender_comparisons::{ComparisonView, SenderComparison};
use crate::storage_inventory::{StorageInventory, StorageItemKind, StorageItemView};
use crate::taint;
use crate::text;
use vstd::prelude::*;

verus! {

/// Appends a line to a report.
pub(crate) fn push_line(lines: &mut Vec<String>, line: String)
    ensures
        text::texts(final(lines)@) == text::texts(old(lines)@).push(line@),
{
    lines.push(line);
    assert(text::texts(lines@) =~= text::texts(old(lines)@).push(line@));
}

/// Appends the lines of another report.
pub(crate) fn push_lines(lines: &mut Vec<String>, more: Vec<String>)
    ensures
        text::texts(final(lines)@) == text::texts(old(lines)@) + text::texts(more@),
{
    let mut more = more;
    let ghost before = text::texts(lines@);
    let ghost added = text::texts(more@);
    lines.append(&mut more);
    assert(text::texts(lines@) =~= before + added);
}

// ---- single lines --------------------------------------------------------

/// Header shown once per analysed contract crate.
pub open spec fn crate_header_line(crate_name: Seq<char>) -> Seq<char> {
    "══ Analyze Contract-Crate: "@ + crate_name + " ══"@
}

/// Header shown once per analysed contract crate.
pub fn crate_header(crate_name: &str) -> (line: String)
    ensures
        line@ == crate_header_line(crate_name@),
{
    let mut line = text::text_of("══ Analyze Contract-Crate: ");
    text::push_text(&mut line, crate_name);
    text::push_text(&mut line, " ══");
    line
}

/// Stage 2: the entry point the call graph is built from.
pub open spec fn entry_point_line(program: Program, root: DefId) -> Seq<char> {
    "Found Execute Entry Point: "@ + text::debug_quoted(program.defs@[root as int].path@)
}

/// Stage 2: the entry point the call graph is built from.
pub fn entry_point(program: &Program, root: DefId) -> (line: String)
    requires
        root < program.defs@.len(),
    ensures
        line@ == entry_point_line(*program, root),
{
    let mut line = text::text_of("Found Execute Entry Point: ");
    text::push_text(&mut line, text::quote(program.defs[root].path.as_str()).as_str());
    line
}

/// Stage 2: no entry point was found.
pub fn no_entry_point() -> (line: String)
    ensures
        line@ == "No execute-Entry-Point, skipping analysis"@,
{
    text::text_of("No execute-Entry-Point, skipping analysis")
}

/// Stage 2: a call whose target cannot be resolved statically.
pub open spec fn skipped_line(program: Program, block: BasicBlock, caller: DefId) -> Seq<char> {
    "[call_graph] Skipping function pointer call at "@ + mir_util::block_text(block) + " in "@
        + program.defs@[caller as int].debug@
}

/// Stage 2: a call whose target cannot be resolved statically.
pub fn skipped_function_pointer(program: &Program, block: BasicBlock, caller: DefId) -> (
    line: String)
    requires
        caller < program.defs@.len(),
    ensures
        line@ == skipped_line(*program, block, caller),
{
    let mut line = text::text_of("[call_graph] Skipping function pointer call at ");
    mir_util::push_block(&mut line, block);
    text::push_text(&mut line, " in ");
    text::push_text(&mut line, program.defs[caller].debug.as_str());
    line
}

/// Stage 2: size of the reachable call graph.
pub open spec fn call_graph_size_line(program: Program, root: DefId, node_count: nat) -> Seq<char> {
    "[call_graph] Reachable functions from "@ + program.defs@[root as int].debug@ + ": "@
        + text::decimal(node_count)
}

/// Stage 2: size of the reachable call graph.
pub fn call_graph_size(program: &Program, root: DefId, node_count: usize) -> (line: String)
    requires
        root < program.defs@.len(),
    ensures
        line@ == call_graph_size_line(*program, root, node_count as nat),
{
    let mut line = text::text_of("[call_graph] Reachable functions from ");
    text::push_text(&mut line, program.defs[root].debug.as_str());
    text::push_text(&mut line, ": ");
    text::push_decimal(&mut line, node_count);
    line
}

/// The last segment of a path, found while scanning from position `i` with the
/// current segment beginning at `start`.
pub open spec fn segment_from(path: Seq<char>, start: int, i: int) -> Seq<char>
    decreases path.len() - i,
{
    if i < 0 || i >= path.len() {
        path.skip(start)
    } else if i + 1 < path.len() && path[i] == ':' && path[i + 1] == ':' {
        segment_from(path, i + 2, i + 2)
    } else {
        segment_from(path, start, i + 1)
    }
}

/// The last segment of a path.
pub open spec fn last_segment(path: Seq<char>) -> Seq<char> {
    segment_from(path, 0, 0)
}

#[verifier::loop_isolation(false)]
fn push_last_segment(out: &mut String, path: &str)
    ensures
        final(out)@ == old(out)@ + last_segment(path@),
{
    let chars = text::chars_of(path);
    let mut start: usize = 0;
    let mut i: usize = 0;
    while i < chars.len()
        invariant
            start <= i <= chars@.len(),
            segment_from(chars@, 0, 0) == segment_from(chars@, start as int, i as int),
        decreases chars@.len() - i,
    {
        if i + 1 < chars.len() && chars[i] == ':' && chars[i + 1] == ':' {
            i = i + 2;
            start = i;
        } else {
            i = i + 1;
        }
    }
    let ghost before = out@;
    let ghost segment = chars@.skip(start as int);
    for k in start..chars.len()
        invariant
            start <= chars@.len(),
            out@ == before + segment.take(k - start),
    {
        out.push(chars[k]);
        assert(out@ =~= before + segment.take(k + 1 - start));
    }
    assert(segment.take(segment.len() as int) =~= segment);
}

/// Header of the per-function stage 3 and 4 output.
pub open spec fn function_header_line(program: Program, def_id: DefId) -> Seq<char> {
    "\nchecking function: '"@ + last_segment(program.defs@[def_id as int].path@) + "'"@
}

/// Header of the per-function stage 3 and 4 output.
pub fn function_header(program: &Program, def_id: DefId) -> (line: String)
    requires
        def_id < program.defs@.len(),
    ensures
        line@ == function_header_line(*program, def_id),
{
    let mut line = text::text_of("\nchecking function: '");
    push_last_segment(&mut line, program.defs[def_id].path.as_str());
    text::push_text(&mut line, "'");
    line
}

// ---- lists ---------------------------------------------------------------

/// The line of a comparison.
pub open spec fn comparison_line(comparison: ComparisonView) -> Seq<char> {
    "\t"@ + mir_util::location_text(comparison.location) + " "@ + comparison.description
}

/// Stage 3 result for one function.
pub open spec fn comparison_lines(comparisons: Seq<ComparisonView>) -> Seq<Seq<char>> {
    if comparisons.len() == 0 {
        seq!["[1] info.sender comparisons: none"@]
    } else {
        seq!["[1] info.sender comparisons: "@ + text::decimal(comparisons.len())]
            + comparisons.map_values(|comparison: ComparisonView| comparison_line(comparison))
    }
}

/// Stage 3 result for one function.
#[verifier::loop_isolation(false)]
pub fn sender_comparisons(comparisons: &Vec<SenderComparison>) -> (lines: Vec<String>)
    ensures
        text::texts(lines@) == comparison_lines(
            sender_comparisons::comparison_views(comparisons@),
        ),
{
    let ghost views = sender_comparisons::comparison_views(comparisons@);
    let ghost shown = views.map_values(|comparison: ComparisonView| comparison_line(comparison));
    let mut lines: Vec<String> = Vec::new();
    assert(text::texts(lines@) =~= Seq::<Seq<char>>::empty());
    if comparisons.len() == 0 {
        push_line(&mut lines, text::text_of("[1] info.sender comparisons: none"));
        assert(text::texts(lines@) =~= comparison_lines(views));
        return lines;
    }
    let mut head = text::text_of("[1] info.sender comparisons: ");
    text::push_decimal(&mut head, comparisons.len());
    let ghost first = head@;
    push_line(&mut lines, head);
    assert(text::texts(lines@) =~= seq![first] + shown.take(0));
    for i in 0..comparisons.len()
        invariant
            text::texts(lines@) == seq![first] + shown.take(i as int),
    {
        let mut line = text::text_of("\t");
        mir_util::push_location(&mut line, comparisons[i].location);
        text::push_text(&mut line, " ");
        text::push_text(&mut line, comparisons[i].description.as_str());
        assert(views[i as int] == comparisons@[i as int]@);
        assert(line@ == shown[i as int]);
        push_line(&mut lines, line);
        assert(text::texts(lines@) =~= seq![first] + shown.take(i + 1));
    }
    assert(shown.take(shown.len() as int) =~= shown);
    lines
}

/// The line of an auth-state variable.
pub open spec fn variable_line(variable: AuthVariableView) -> Seq<char> {
    "\t"@ + variable.symbolic_name + " (load @ "@ + mir_util::location_text(variable.load_location)
        + ")"@
}

/// Stage 4 result for one function.
pub open spec fn variable_lines(variables: Seq<AuthVariableView>) -> Seq<Seq<char>> {
    if variables.len() == 0 {
        seq!["[2] Auth-State-Variables: none"@]
    } else {
        seq!["[2] Auth-State-Variables: "@ + text::decimal(variables.len())]
            + variables.map_values(|variable: AuthVariableView| variable_line(variable))
    }
}

/// Stage 4 result for one function.
#[verifier::loop_isolation(false)]
pub fn auth_state_variables(auth_vars: &Vec<AuthStateVariable>) -> (lines: Vec<String>)
    ensures
        text::texts(lines@) == variable_lines(auth_storage::variable_views(auth_vars@)),
{
    let ghost views = auth_storage::variable_views(auth_vars@);
    let ghost shown = views.map_values(|variable: AuthVariableView| variable_line(variable));
    let mut lines: Vec<String> = Vec::new();
    assert(text::texts(lines@) =~= Seq::<Seq<char>>::empty());
    if auth_vars.len() == 0 {
        push_line(&mut lines, text::text_of("[2] Auth-State-Variables: none"));
        assert(text::texts(lines@) =~= variable_lines(views));
        return lines;
    }
    let mut head = text::text_of("[2] Auth-State-Variables: ");
    text::push_decimal(&mut head, auth_vars.len());
    let ghost first = head@;
    push_line(&mut lines, head);
    assert(text::texts(lines@) =~= seq![first] + shown.take(0));
    for i in 0..auth_vars.len()
        invariant
            text::texts(lines@) == seq![first] + shown.take(i as int),
    {
        let mut line = text::text_of("\t");
        text::push_text(&mut line, auth_vars[i].symbolic_name.as_str());
        text::push_text(&mut line, " (load @ ");
        mir_util::push_location(&mut line, auth_vars[i].load_location);
        text::push_text(&mut line, ")");
        assert(views[i as int] == auth_vars@[i as int]@);
        assert(line@ == shown[i as int]);
        push_line(&mut lines, line);
        assert(text::texts(lines@) =~= seq![first] + shown.take(i + 1));
    }
    assert(shown.take(shown.len() as int) =~= shown);
    lines
}

/// A storage kind as a report shows it.
pub open spec fn kind_text(kind: StorageItemKind) -> Seq<char> {
    match kind {
        StorageItemKind::Item => "Item"@,
        StorageItemKind::KeyedMap => "Map"@,
    }
}

/// The line of a storage item.
pub open spec fn item_line(program: Program, item: StorageItemView) -> Seq<char> {
    "Name: "@ + item.name + ", DefId: "@ + program.defs@[item.def_id as int].debug@ + ", Type: "@
        + item.ty_string + ", Kind: "@ + kind_text(item.kind) + ",  "@ + (if item.is_auth {
        "  [auth]"@
    } else {
        ""@
    })
}

/// Stage 1 result, shown once stage 4 has marked the authorization-relevant
/// items.
pub open spec fn inventory_lines(program: Program, items: Seq<StorageItemView>) -> Seq<Seq<char>> {
    seq!["══ Storage Inventory ══"@] + items.map_values(
        |item: StorageItemView| item_line(program, item),
    )
}

/// Stage 1 result, shown once stage 4 has marked the authorization-relevant
/// items.
#[verifier::loop_isolation(false)]
pub fn storage_inventory(program: &Program, inventory: &StorageInventory) -> (lines: Vec<String>)
    requires
        forall|i: int|
            0 <= i < inventory.items@.len() ==> (#[trigger] inventory.items@[i]).def_id
                < program.defs@.len(),
    ensures
        text::texts(lines@) == inventory_lines(*program, inventory@),
{
    let ghost shown = inventory@.map_values(|item: StorageItemView| item_line(*program, item));
    let mut lines: Vec<String> = Vec::new();
    assert(text::texts(lines@) =~= Seq::<Seq<char>>::empty());
    push_line(&mut lines, text::text_of("══ Storage Inventory ══"));
    assert(text::texts(lines@) =~= seq!["══ Storage Inventory ══"@] + shown.take(0));
    for i in 0..inventory.items.len()
        invariant
            text::texts(lines@) == seq!["══ Storage Inventory ══"@] + shown.take(i as int),
    {
        let item = &inventory.items[i];
        let mut line = text::text_of("Name: ");
        text::push_text(&mut line, item.name.as_str());
        text::push_text(&mut line, ", DefId: ");
        text::push_text(&mut line, program.defs[item.def_id].debug.as_str());
        text::push_text(&mut line, ", Type: ");
        text::push_text(&mut line, item.ty_string.as_str());
        text::push_text(&mut line, ", Kind: ");
        let kind = match item.kind {
            StorageItemKind::Item => "Item",
            StorageItemKind::KeyedMap => "Map",
        };
        text::push_text(&mut line, kind);
        text::push_text(&mut line, ",  ");
        let auth = if item.is_auth {
            "  [auth]"
        } else {
            ""
        };
        text::push_text(&mut line, auth);
        assert(inventory@[i as int] == item@);
        assert(line@ == shown[i as int]);
        push_line(&mut lines, line);
        assert(text::texts(lines@) =~= seq!["══ Storage Inventory ══"@] + shown.take(i + 1));
    }
    assert(shown.take(shown.len() as int) =~= shown);
    lines
}

// ---- sorted lists --------------------------------------------------------

/// The functions below `n` in a set, in ascending order.
pub open spec fn members(set: Set<usize>, n: nat) -> Seq<usize>
    decreases n,
{
    if n == 0 {
        Seq::empty()
    } else if set.contains((n - 1) as usize) {
        members(set, (n - 1) as nat).push((n - 1) as usize)
    } else {
        members(set, (n - 1) as nat)
    }
}

/// The key a function is sorted by: its path.
pub open spec fn path_key(program: Program, f: DefId) -> KeyView {
    KeyView { text: program.defs@[f as int].path@, numbers: Seq::empty() }
}

/// The members of a list in the order of their keys.
pub open spec fn in_order<T>(list: Seq<T>, keys: Seq<KeyView>) -> Seq<T> {
    order::order_of(keys).map_values(|i: usize| list[i as int])
}

/// The functions of a set, sorted by path.
pub open spec fn sorted_fns(program: Program, set: Set<usize>) -> Seq<usize> {
    let fns = members(set, program.defs@.len());
    in_order(fns, fns.map_values(|f: usize| path_key(program, f)))
}

/// Returns the functions of a set, sorted by path.
#[verifier::loop_isolation(false)]
fn sorted_by_path(program: &Program, set: &DenseSet) -> (sorted: Vec<DefId>)
    ensures
        sorted@ == sorted_fns(*program, set@),
        forall|i: int| 0 <= i < sorted@.len() ==> #[trigger] sorted@[i] < program.defs@.len(),
{
    let mut fns: Vec<DefId> = Vec::new();
    let mut keys: Vec<SortKey> = Vec::new();
    assert(order::key_views(keys@) =~= members(set@, 0).map_values(
        |f: usize| path_key(*program, f),
    ));
    for f in 0..program.defs.len()
        invariant
            fns@ == members(set@, f as nat),
            order::key_views(keys@) == fns@.map_values(|f: usize| path_key(*program, f)),
            forall|i: int| 0 <= i < fns@.len() ==> #[trigger] fns@[i] < program.defs@.len(),
    {
        if set.contains(f) {
            let ghost keys0 = keys@;
            let ghost fns0 = fns@;
            let key = SortKey {
                text: text::chars_of(program.defs[f].path.as_str()),
                numbers: Vec::new(),
            };
            assert(key@ =~= path_key(*program, f));
            fns.push(f);
            keys.push(key);
            assert(order::key_views(keys@) =~= order::key_views(keys0).push(key@));
            assert(fns@.map_values(|f: usize| path_key(*program, f)) =~= fns0.map_values(
                |f: usize| path_key(*program, f),
            ).push(path_key(*program, f)));
        }
    }
    let order = order::sort_order(&keys);
    let mut sorted: Vec<DefId> = Vec::new();
    for i in 0..order.len()
        invariant
            sorted@ == order@.take(i as int).map_values(|j: usize| fns@[j as int]),
            forall|k: int| 0 <= k < sorted@.len() ==> #[trigger] sorted@[k] < program.defs@.len(),
    {
        assert(order@[i as int] < keys@.len());
        assert(fns@.len() == keys@.len());
        sorted.push(fns[order[i]]);
        assert(sorted@ =~= order@.take(i + 1).map_values(|j: usize| fns@[j as int]));
    }
    assert(order@.take(order@.len() as int) =~= order@);
    assert(sorted@ =~= sorted_fns(*program, set@));
    sorted
}

/// A heading with two counts, and the paths of functions below it.
pub open spec fn counted_lines(
    program: Program,
    heading: Seq<char>,
    fns: Seq<usize>,
    total: nat,
) -> Seq<Seq<char>> {
    seq![heading + text::decimal(fns.len()) + "/"@ + text::decimal(total)] + fns.map_values(
        |f: usize| "\t"@ + program.defs@[f as int].path@,
    )
}

#[verifier::loop_isolation(false)]
fn counted(program: &Program, heading: &str, fns: &Vec<DefId>, total: usize) -> (
    lines: Vec<String>)
    requires
        forall|i: int| 0 <= i < fns@.len() ==> #[trigger] fns@[i] < program.defs@.len(),
    ensures
        text::texts(lines@) == counted_lines(*program, heading@, fns@, total as nat),
{
    let ghost shown = fns@.map_values(|f: usize| "\t"@ + program.defs@[f as int].path@);
    let mut lines: Vec<String> = Vec::new();
    assert(text::texts(lines@) =~= Seq::<Seq<char>>::empty());
    let mut head = text::text_of(heading);
    text::push_decimal(&mut head, fns.len());
    text::push_text(&mut head, "/");
    text::push_decimal(&mut head, total);
    let ghost first = head@;
    push_line(&mut lines, head);
    assert(text::texts(lines@) =~= seq![first] + shown.take(0));
    for i in 0..fns.len()
        invariant
            text::texts(lines@) == seq![first] + shown.take(i as int),
    {
        let mut line = text::text_of("\t");
        text::push_text(&mut line, program.defs[fns[i]].path.as_str());
        push_line(&mut lines, line);
        assert(text::texts(lines@) =~= seq![first] + shown.take(i + 1));
    }
    assert(shown.take(shown.len() as int) =~= shown);
    lines
}

/// Returns the functions a summary says `true` of.
fn holding_set(program: &Program, summary: &DenseMap<bool>, local_only: bool) -> (set: DenseSet)
    requires
        forall|f: usize| #[trigger] summary@.contains_key(f) ==> f < program.defs@.len(),
    ensures
        forall|f: usize| #[trigger]
            set@.contains(f) <==> gating::holding(summary@).contains(f) && (local_only ==> f
                < program.defs@.len() && program.defs@[f as int].is_local),
{
    let mut set = DenseSet::new();
    for f in 0..program.defs.len()
        invariant
            forall|g: usize| #[trigger]
                set@.contains(g) <==> g < f && gating::holding(summary@).contains(g) && (local_only
                    ==> g < program.defs@.len() && program.defs@[g as int].is_local),
    {
        let holds = match summary.get(f) {
            Some(holds) => *holds,
            None => false,
        };
        if holds && (!local_only || program.defs[f].is_local) {
            set.insert(f);
        }
    }
    set
}

/// Stage 5: functions that check the sender on every path.
pub open spec fn always_checking_lines(program: Program, summary: Map<usize, bool>) -> Seq<
    Seq<char>,
> {
    counted_lines(
        program,
        "\n[3] Always-checking functions: "@,
        sorted_fns(program, gating::holding(summary)),
        summary.dom().len(),
    )
}

/// Stage 5: functions that check the sender on every path.
pub fn always_checking(program: &Program, always_checks: &DenseMap<bool>) -> (lines: Vec<String>)
    requires
        forall|f: usize| #[trigger] always_checks@.contains_key(f) ==> f < program.defs@.len(),
    ensures
        text::texts(lines@) == always_checking_lines(*program, always_checks@),
{
    let set = holding_set(program, always_checks, false);
    assert(set@ =~= gating::holding(always_checks@));
    counted(
        program,
        "\n[3] Always-checking functions: ",
        &sorted_by_path(program, &set),
        always_checks.len(),
    )
}

/// The functions of the crate itself that a summary says `true` of.
pub open spec fn local_holding(program: Program, summary: Map<usize, bool>) -> Set<usize> {
    Set::new(
        |f: usize|
            gating::holding(summary).contains(f) && f < program.defs@.len()
                && program.defs@[f as int].is_local,
    )
}

/// Stage 5: functions entered only from an already checked context.
pub open spec fn entry_checked_lines(program: Program, summary: Map<usize, bool>) -> Seq<
    Seq<char>,
> {
    counted_lines(
        program,
        "\n[5] Entry-checked functions (local): "@,
        sorted_fns(program, local_holding(program, summary)),
        summary.dom().len(),
    )
}

/// Stage 5: functions entered only from an already checked context.
///
/// Local functions only. A node from a dependency crate (`String::clone`,
/// `addr_validate`, ...) is vacuously entry-checked whenever all its call sites
/// happen to be gated, and would drown the list.
pub fn entry_checked(program: &Program, summary: &DenseMap<bool>) -> (lines: Vec<String>)
    requires
        forall|f: usize| #[trigger] summary@.contains_key(f) ==> f < program.defs@.len(),
    ensures
        text::texts(lines@) == entry_checked_lines(*program, summary@),
{
    let set = holding_set(program, summary, true);
    assert(set@ =~= local_holding(*program, summary@));
    counted(
        program,
        "\n[5] Entry-checked functions (local): ",
        &sorted_by_path(program, &set),
        summary.len(),
    )
}

/// Numbers, separated by commas.
pub open spec fn numbers_text(numbers: Seq<usize>) -> Seq<char>
    decreases numbers.len(),
{
    if numbers.len() == 0 {
        ""@
    } else if numbers.len() == 1 {
        text::decimal(numbers[0] as nat)
    } else {
        numbers_text(numbers.drop_last()) + ", "@ + text::decimal(numbers.last() as nat)
    }
}

#[verifier::loop_isolation(false)]
fn push_numbers(out: &mut String, numbers: &Vec<usize>)
    ensures
        final(out)@ == old(out)@ + numbers_text(numbers@),
{
    let ghost before = out@;
    proof {
        reveal_strlit("");
    }
    assert(out@ =~= before + numbers_text(numbers@.take(0)));
    for i in 0..numbers.len()
        invariant
            out@ == before + numbers_text(numbers@.take(i as int)),
    {
        assert(numbers@.take(i + 1).drop_last() =~= numbers@.take(i as int));
        if i > 0 {
            text::push_text(out, ", ");
        }
        text::push_decimal(out, numbers[i]);
        assert(out@ =~= before + numbers_text(numbers@.take(i + 1)));
    }
    assert(numbers@.take(numbers@.len() as int) =~= numbers@);
}

/// The functions that forward some parameter.
pub open spec fn forwarding_fns(flows: Map<usize, Set<usize>>) -> Set<usize> {
    Set::new(
        |f: usize| flows.contains_key(f) && flows[f] != Set::<usize>::empty(),
    )
}

/// The key a forwarding function is sorted by: its path, and then the positions
/// of the forwarded parameters. No position is `usize::MAX`.
pub open spec fn flow_key(program: Program, flows: Map<usize, Set<usize>>, f: DefId) -> KeyView {
    KeyView {
        text: program.defs@[f as int].path@,
        numbers: members(flows[f], usize::MAX as nat),
    }
}

/// The line of a forwarding function.
pub open spec fn flow_line(key: KeyView) -> Seq<char> {
    "\t"@ + key.text + " <- param ["@ + numbers_text(key.numbers) + "]"@
}

/// Stage 5: functions that forward parameter taint to their return value.
pub open spec fn return_taint_lines(program: Program, flows: Map<usize, Set<usize>>) -> Seq<
    Seq<char>,
> {
    let fns = members(forwarding_fns(flows), program.defs@.len());
    let keys = fns.map_values(|f: usize| flow_key(program, flows, f));
    seq![
        "\n[4] Return-tainted-by-param functions: "@ + text::decimal(fns.len()) + "/"@
            + text::decimal(flows.dom().len()),
    ] + in_order(keys, keys).map_values(|key: KeyView| flow_line(key))
}

proof fn lemma_members_above(set: Set<usize>, low: nat, high: nat)
    requires
        low <= high <= usize::MAX,
        forall|i: usize| #[trigger] set.contains(i) ==> i < low,
    ensures
        members(set, high) == members(set, low),
    decreases high,
{
    if low < high {
        lemma_members_above(set, low, (high - 1) as nat);
    }
}

/// Returns the elements of a set in ascending order.
fn set_members(set: &DenseSet) -> (elements: Vec<usize>)
    ensures
        elements@ == members(set@, usize::MAX as nat),
{
    let mut elements: Vec<usize> = Vec::new();
    let bound: usize = set.bound();
    for i in 0..bound
        invariant
            elements@ == members(set@, i as nat),
    {
        if set.contains(i) {
            elements.push(i);
        }
    }
    proof {
        lemma_members_above(set@, bound as nat, usize::MAX as nat);
    }
    elements
}

/// Stage 5: functions that forward parameter taint to their return value.
#[verifier::loop_isolation(false)]
pub fn return_taint(program: &Program, return_taint_params: &DenseMap<DenseSet>) -> (
    lines: Vec<String>)
    requires
        forall|f: usize| #[trigger]
            return_taint_params@.contains_key(f) ==> f < program.defs@.len(),
    ensures
        text::texts(lines@) == return_taint_lines(
            *program,
            taint::sets_of(return_taint_params@),
        ),
{
    let ghost flows = taint::sets_of(return_taint_params@);
    let ghost forwarding = forwarding_fns(flows);
    let mut keys: Vec<SortKey> = Vec::new();
    let ghost mut fns: Seq<usize> = Seq::empty();
    assert(order::key_views(keys@) =~= fns.map_values(|f: usize| flow_key(*program, flows, f)));
    for f in 0..program.defs.len()
        invariant
            fns == members(forwarding, f as nat),
            order::key_views(keys@) == fns.map_values(|f: usize| flow_key(*program, flows, f)),
    {
        if let Some(params) = return_taint_params.get(f) {
            assert(flows.contains_key(f));
            assert(flows[f] == params@);
            if !params.is_empty() {
                let ghost keys0 = keys@;
                let ghost fns0 = fns;
                let key = SortKey {
                    text: text::chars_of(program.defs[f].path.as_str()),
                    numbers: set_members(params),
                };
                assert(key@ =~= flow_key(*program, flows, f));
                keys.push(key);
                proof {
                    fns = fns.push(f);
                }
                assert(order::key_views(keys@) =~= order::key_views(keys0).push(key@));
                assert(fns.map_values(|f: usize| flow_key(*program, flows, f)) =~= fns0.map_values(
                    |f: usize| flow_key(*program, flows, f),
                ).push(flow_key(*program, flows, f)));
            }
        }
    }
    let ghost views = order::key_views(keys@);
    let order = order::sort_order(&keys);
    let ghost shown = in_order(views, views).map_values(|key: KeyView| flow_line(key));

    let mut lines: Vec<String> = Vec::new();
    assert(text::texts(lines@) =~= Seq::<Seq<char>>::empty());
    let mut head = text::text_of("\n[4] Return-tainted-by-param functions: ");
    text::push_decimal(&mut head, keys.len());
    text::push_text(&mut head, "/");
    text::push_decimal(&mut head, return_taint_params.len());
    let ghost first = head@;
    push_line(&mut lines, head);
    assert(text::texts(lines@) =~= seq![first] + shown.take(0));
    for i in 0..order.len()
        invariant
            text::texts(lines@) == seq![first] + shown.take(i as int),
    {
        assert(order@[i as int] < views.len());
        let key = &keys[order[i]];
        let mut line = text::text_of("\t");
        for k in 0..key.text.len()
            invariant
                line@ == "\t"@ + key.text@.take(k as int),
        {
            line.push(key.text[k]);
            assert(line@ =~= "\t"@ + key.text@.take(k + 1));
        }
        assert(key.text@.take(key.text@.len() as int) =~= key.text@);
        text::push_text(&mut line, " <- param [");
        push_numbers(&mut line, &key.numbers);
        text::push_text(&mut line, "]");
        assert(views[order@[i as int] as int] == key@);
        assert(in_order(views, views)[i as int] == key@);
        assert(line@ == shown[i as int]);
        push_line(&mut lines, line);
        assert(text::texts(lines@) =~= seq![first] + shown.take(i + 1));
    }
    assert(shown.take(shown.len() as int) =~= shown);
    assert(flows.dom() =~= return_taint_params@.dom());
    lines
}

// ---- findings ------------------------------------------------------------

/// A finding with the path of the function it was made in.
#[derive(Debug)]
pub struct FunctionFinding {
    pub function: String,
    pub finding: AccessControlFinding,
}

/// What a [`FunctionFinding`] holds.
#[verifier::ext_equal]
pub ghost struct FunctionFindingView {
    pub function: Seq<char>,
    pub finding: FindingView,
}

impl View for FunctionFinding {
    type V = FunctionFindingView;

    open spec fn view(&self) -> FunctionFindingView {
        FunctionFindingView { function: self.function@, finding: self.finding@ }
    }
}

/// What a list of findings holds.
pub open spec fn function_finding_views(all: Seq<FunctionFinding>) -> Seq<FunctionFindingView> {
    all.map_values(|entry: FunctionFinding| entry@)
}

/// The key a finding is sorted by: the function and the block of the sink.
pub open spec fn finding_key(entry: FunctionFindingView) -> KeyView {
    KeyView { text: entry.function, numbers: seq![entry.finding.sink.location.block] }
}

/// The line of a finding.
pub open spec fn finding_line(entry: FunctionFindingView) -> Seq<char> {
    "\t["@ + evaluation::verdict_text(entry.finding) + "] "@ + entry.function + " writes "@
        + entry.finding.sink.symbolic_name + " @ "@ + mir_util::location_text(
        entry.finding.sink.location,
    ) + match entry.finding.taint {
        Some(source) => " <- tainted by "@ + mir_util::local_text(source.param_local) + " : "@
            + source.param_ty,
        None => ""@,
    }
}

/// How many of the findings are vulnerabilities.
pub open spec fn vulnerability_count(all: Seq<FunctionFindingView>) -> nat
    decreases all.len(),
{
    if all.len() == 0 {
        0
    } else {
        vulnerability_count(all.drop_last()) + if evaluation::vulnerable(all.last().finding) {
            1nat
        } else {
            0nat
        }
    }
}

/// Stage 6: the findings, sorted by function and sink position.
pub open spec fn finding_lines(all: Seq<FunctionFindingView>) -> Seq<Seq<char>> {
    seq![
        "\n=== Access-Control findings: "@ + text::decimal(all.len()) + " sink(s), "@
            + text::decimal(vulnerability_count(all)) + " vulnerability(ies)"@,
    ] + in_order(
        all,
        all.map_values(|entry: FunctionFindingView| finding_key(entry)),
    ).map_values(|entry: FunctionFindingView| finding_line(entry))
}

/// Every finding has its line in the report.
pub proof fn lemma_every_finding_is_shown(all: Seq<FunctionFindingView>, i: int)
    requires
        0 <= i < all.len() <= usize::MAX,
    ensures
        finding_lines(all).contains(finding_line(all[i])),
{
    let keys = all.map_values(|entry: FunctionFindingView| finding_key(entry));
    order::lemma_order_exists(keys);
    let order = order::order_of(keys);
    assert(order.contains(i as usize));
    let k = choose|k: int| 0 <= k < order.len() && order[k] == i as usize;
    assert(in_order(all, keys)[k] == all[i]);
    assert(finding_lines(all)[k + 1] == finding_line(all[i]));
}

/// The report has one line per finding behind its heading, and each shows a
/// finding.
pub proof fn lemma_only_findings_are_shown(all: Seq<FunctionFindingView>, k: int)
    requires
        all.len() <= usize::MAX,
        0 < k < finding_lines(all).len(),
    ensures
        finding_lines(all).len() == all.len() + 1,
        exists|i: int|
            0 <= i < all.len() && finding_lines(all)[k] == finding_line(#[trigger] all[i]),
{
    let keys = all.map_values(|entry: FunctionFindingView| finding_key(entry));
    order::lemma_order_exists(keys);
    let order = order::order_of(keys);
    assert(order[k - 1] < keys.len());
    assert(in_order(all, keys)[k - 1] == all[order[k - 1] as int]);
}

fn finding_text(entry: &FunctionFinding) -> (line: String)
    ensures
        line@ == finding_line(entry@),
{
    let finding = &entry.finding;
    let mut line = text::text_of("\t[");
    text::push_text(&mut line, finding.verdict());
    text::push_text(&mut line, "] ");
    text::push_text(&mut line, entry.function.as_str());
    text::push_text(&mut line, " writes ");
    text::push_text(&mut line, finding.sink.symbolic_name.as_str());
    text::push_text(&mut line, " @ ");
    mir_util::push_location(&mut line, finding.sink.location);
    let mut source_text = String::new();
    match &finding.taint {
        Some(source) => {
            source_text = text::text_of(" <- tainted by ");
            mir_util::push_local(&mut source_text, source.param_local);
            text::push_text(&mut source_text, " : ");
            text::push_text(&mut source_text, source.param_ty.as_str());
        },
        None => {
            proof {
                reveal_strlit("");
            }
            assert(source_text@ =~= ""@);
        },
    }
    text::push_text(&mut line, source_text.as_str());
    line
}

/// Stage 6: the findings, sorted by function and sink position.
#[verifier::loop_isolation(false)]
pub fn findings(all: &Vec<FunctionFinding>) -> (lines: Vec<String>)
    ensures
        text::texts(lines@) == finding_lines(function_finding_views(all@)),
{
    let ghost views = function_finding_views(all@);
    let ghost key_list = views.map_values(|entry: FunctionFindingView| finding_key(entry));
    let mut keys: Vec<SortKey> = Vec::new();
    let mut vulnerabilities: usize = 0;
    assert(views.take(0) =~= Seq::<FunctionFindingView>::empty());
    assert(order::key_views(keys@) =~= key_list.take(0));
    for i in 0..all.len()
        invariant
            order::key_views(keys@) == key_list.take(i as int),
            vulnerabilities == vulnerability_count(views.take(i as int)),
            vulnerabilities <= i,
    {
        assert(views[i as int] == all@[i as int]@);
        assert(views.take(i + 1).drop_last() =~= views.take(i as int));
        let ghost keys0 = keys@;
        let key = SortKey {
            text: text::chars_of(all[i].function.as_str()),
            numbers: vec![all[i].finding.sink.location.block],
        };
        assert(key@ =~= key_list[i as int]);
        keys.push(key);
        assert(order::key_views(keys@) =~= order::key_views(keys0).push(key@));
        assert(order::key_views(keys@) =~= key_list.take(i + 1));
        if all[i].finding.is_vulnerability() {
            vulnerabilities = vulnerabilities + 1;
        }
    }
    assert(views.take(views.len() as int) =~= views);
    assert(key_list.take(key_list.len() as int) =~= key_list);
    let order = order::sort_order(&keys);
    let ghost shown = in_order(views, key_list).map_values(
        |entry: FunctionFindingView| finding_line(entry),
    );

    let mut lines: Vec<String> = Vec::new();
    assert(text::texts(lines@) =~= Seq::<Seq<char>>::empty());
    let mut head = text::text_of("\n=== Access-Control findings: ");
    text::push_decimal(&mut head, all.len());
    text::push_text(&mut head, " sink(s), ");
    text::push_decimal(&mut head, vulnerabilities);
    text::push_text(&mut head, " vulnerability(ies)");
    let ghost first = head@;
    push_line(&mut lines, head);
    assert(text::texts(lines@) =~= seq![first] + shown.take(0));
    for i in 0..order.len()
        invariant
            text::texts(lines@) == seq![first] + shown.take(i as int),
    {
        assert(order@[i as int] < key_list.len());
        let line = finding_text(&all[order[i]]);
        assert(views[order@[i as int] as int] == all@[order@[i as int] as int]@);
        assert(line@ == shown[i as int]);
        push_line(&mut lines, line);
        assert(text::texts(lines@) =~= seq![first] + shown.take(i + 1));
    }
    assert(shown.take(shown.len() as int) =~= shown);
    lines
}

} // verus!
