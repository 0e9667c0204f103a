//! Stage 3, second half: where the sender is compared.
//!
//! Recognises the program points at which a sender-carrying local
//! ([`crate::sender_taint`]) is compared against another value. A body expresses
//! such a comparison in several shapes, and each needs its own pattern:
//!
//! * a binary operation, for primitive and `Copy` types;
//! * a call to `PartialEq::eq`/`ne`, for `Addr` and other non-`Copy` types;
//! * a collection or iterator search (`contains`, `any`, `find`, ...), where the
//!   sender is checked against a set of principals;
//! * a call into a library authorization helper whose own comparison lives in a
//!   dependency crate and whose body is therefore unavailable.
//!
//! The counterpart of each comparison, the value the sender is checked against,
//! is what stage 4 traces back to a storage load. Comparisons hidden behind a
//! boolean helper or an `Option` combinator are added by [`crate::predicates`].

use crate::cosmwasm;
use crate::dense::DenseSet;
use crate::mir::{
    BinOp, Body, Call, DefId, Local, Location, Program, Rvalue, Statement, Terminator,
};
use crate::mir_util;
use crate::sender_taint;
use crate::sender_taint::SenderSeeds;
use crate::text;
use crate::text::str_eq;
use vstd::prelude::*;

verus! {

/// A detected comparison of `info.sender` against another value.
#[derive(Debug, Clone)]
pub struct SenderComparison {
    /// Block and statement at which the comparison occurs.
    pub location: Location,
    /// The value `info.sender` is compared against: the counterpart stage 4
    /// traces back to a storage load.
    pub compared_local: Local,
    /// The comparison operator.
    pub op: BinOp,
    /// Human-readable description for the report.
    pub description: String,
}

/// What a [`SenderComparison`] holds.
#[verifier::ext_equal]
pub ghost struct ComparisonView {
    pub location: Location,
    pub compared_local: Local,
    pub op: BinOp,
    pub description: Seq<char>,
}

impl View for SenderComparison {
    type V = ComparisonView;

    open spec fn view(&self) -> ComparisonView {
        ComparisonView {
            location: self.location,
            compared_local: self.compared_local,
            op: self.op,
            description: self.description@,
        }
    }
}

/// What a list of comparisons holds.
pub open spec fn comparison_views(comparisons: Seq<SenderComparison>) -> Seq<ComparisonView> {
    comparisons.map_values(|comparison: SenderComparison| comparison@)
}

/// The comparisons stand in blocks of the body.
pub open spec fn comparisons_wf(body: Body, comparisons: Seq<ComparisonView>) -> bool {
    forall|i: int|
        0 <= i < comparisons.len() ==> (#[trigger] comparisons[i]).location.block
            < body.basic_blocks@.len()
}

/// What a map of comparisons by function holds.
pub open spec fn comparison_map(map: Map<usize, Vec<SenderComparison>>) -> Map<
    usize,
    Seq<ComparisonView>,
> {
    map.map_values(|comparisons: Vec<SenderComparison>| comparison_views(comparisons@))
}

/// The functions exist, and their comparisons stand in blocks of their bodies.
pub open spec fn comparison_map_wf(program: Program, map: Map<usize, Seq<ComparisonView>>) -> bool {
    forall|f: usize| #[trigger]
        map.contains_key(f) ==> f < program.defs@.len() && (cosmwasm::analysable(program, f)
            ==> comparisons_wf(cosmwasm::body_at(program, f), map[f]))
}

/// An operator as a report shows it.
pub open spec fn op_text(op: BinOp) -> Seq<char> {
    match op {
        BinOp::Eq => "Eq"@,
        BinOp::Ne => "Ne"@,
        BinOp::Lt => "Lt"@,
        BinOp::Le => "Le"@,
        BinOp::Gt => "Gt"@,
        BinOp::Ge => "Ge"@,
        BinOp::Arithmetic => "Arithmetic"@,
    }
}

fn op_label(op: BinOp) -> (label: &'static str)
    ensures
        label@ == op_text(op),
{
    match op {
        BinOp::Eq => "Eq",
        BinOp::Ne => "Ne",
        BinOp::Lt => "Lt",
        BinOp::Le => "Le",
        BinOp::Gt => "Gt",
        BinOp::Ge => "Ge",
        BinOp::Arithmetic => "Arithmetic",
    }
}

/// Appends a comparison to a list.
fn record(results: &mut Vec<SenderComparison>, comparison: SenderComparison)
    ensures
        comparison_views(final(results)@) == comparison_views(old(results)@).push(comparison@),
{
    results.push(comparison);
    assert(comparison_views(results@) =~= comparison_views(old(results)@).push(comparison@));
}

// ---- comparisons in statements -------------------------------------------

/// The comparisons of a statement. The sender may stand on either side, and
/// both sides are handled symmetrically.
pub open spec fn statement_comparisons(
    senders: Set<usize>,
    statement: Statement,
    location: Location,
) -> Seq<ComparisonView> {
    match statement {
        Statement::Assign(assign) => match assign.rvalue {
            Rvalue::BinaryOp(op, left, right) => match (
                mir_util::local_of(left),
                mir_util::local_of(right),
            ) {
                (Some(l), Some(r)) => if op is Arithmetic {
                    Seq::empty()
                } else {
                    let lhs = mir_util::local_text(assign.place.local);
                    let first = ComparisonView {
                        location,
                        compared_local: r,
                        op,
                        description: "BinOp "@ + lhs + " info.sender ("@ + mir_util::local_text(l)
                            + ") "@ + op_text(op) + " "@ + mir_util::local_text(r),
                    };
                    let second = ComparisonView {
                        location,
                        compared_local: l,
                        op,
                        description: "BinOp "@ + lhs + ": "@ + mir_util::local_text(l) + " "@
                            + op_text(op) + " info.sender ("@ + mir_util::local_text(r) + ")"@,
                    };
                    (if senders.contains(l) {
                        seq![first]
                    } else {
                        Seq::empty()
                    }) + (if senders.contains(r) {
                        seq![second]
                    } else {
                        Seq::empty()
                    })
                },
                _ => Seq::empty(),
            },
            _ => Seq::empty(),
        },
        Statement::Other => Seq::empty(),
    }
}

/// Detects a binary-operation comparison in a statement, which is the shape
/// primitive and `Copy` types are compared in.
fn check_statement_comparison(
    statement: &Statement,
    sender_locals: &DenseSet,
    location: Location,
    results: &mut Vec<SenderComparison>,
)
    ensures
        comparison_views(final(results)@) == comparison_views(old(results)@)
            + statement_comparisons(sender_locals@, *statement, location),
{
    let ghost before = comparison_views(results@);
    if let Statement::Assign(assign) = statement {
        if let Rvalue::BinaryOp(op, left, right) = &assign.rvalue {
            let compares = match op {
                BinOp::Arithmetic => false,
                _ => true,
            };
            if let (Some(l), Some(r)) = (
                mir_util::operand_local(left),
                mir_util::operand_local(right),
            ) {
                if compares && sender_locals.contains(l) {
                    let mut description = text::text_of("BinOp ");
                    mir_util::push_local(&mut description, assign.place.local);
                    text::push_text(&mut description, " info.sender (");
                    mir_util::push_local(&mut description, l);
                    text::push_text(&mut description, ") ");
                    text::push_text(&mut description, op_label(*op));
                    text::push_text(&mut description, " ");
                    mir_util::push_local(&mut description, r);
                    record(
                        results,
                        SenderComparison { location, compared_local: r, op: *op, description },
                    );
                }
                if compares && sender_locals.contains(r) {
                    let mut description = text::text_of("BinOp ");
                    mir_util::push_local(&mut description, assign.place.local);
                    text::push_text(&mut description, ": ");
                    mir_util::push_local(&mut description, l);
                    text::push_text(&mut description, " ");
                    text::push_text(&mut description, op_label(*op));
                    text::push_text(&mut description, " info.sender (");
                    mir_util::push_local(&mut description, r);
                    text::push_text(&mut description, ")");
                    record(
                        results,
                        SenderComparison { location, compared_local: l, op: *op, description },
                    );
                }
            }
        }
    }
    assert(comparison_views(results@) =~= before + statement_comparisons(
        sender_locals@,
        *statement,
        location,
    ));
}

// ---- comparisons expressed as calls --------------------------------------

/// The call target as a report shows it.
pub open spec fn func_label_of(func_text: Seq<char>) -> Seq<char> {
    text::shortened(func_text, 60)
}

/// Shortened rendering of the call target, for the report only.
fn func_label(call: &Call) -> (label: String)
    ensures
        label@ == func_label_of(call.func_text@),
{
    text::shorten(call.func_text.as_str(), 60)
}

/// The comparison of the operand at position `i` of `eq`/`ne` with the other one.
pub open spec fn eq_comparison(
    func_text: Seq<char>,
    args: Seq<Option<Local>>,
    senders: Set<usize>,
    location: Location,
    op: BinOp,
    i: int,
) -> Seq<ComparisonView> {
    match (args[i], args[1 - i]) {
        (Some(sender), Some(other)) => if args.len() >= 2 && senders.contains(sender) {
            seq![
                ComparisonView {
                    location,
                    compared_local: other,
                    op,
                    description: "Call "@ + text::debug_quoted(func_label_of(func_text))
                        + ": info.sender ("@ + mir_util::local_text(sender) + ") "@ + (
                    if op is Ne {
                        "!="@
                    } else {
                        "=="@
                    }) + " "@ + mir_util::local_text(other),
                },
            ]
        } else {
            Seq::empty()
        },
        _ => Seq::empty(),
    }
}

/// Pattern `PartialEq::eq` / `ne`: the two arguments are the compared values.
fn check_eq_call(
    call: &Call,
    arg_locals: &Vec<Option<Local>>,
    sender_locals: &DenseSet,
    location: Location,
    op: BinOp,
    results: &mut Vec<SenderComparison>,
)
    ensures
        comparison_views(final(results)@) == comparison_views(old(results)@) + (
        if arg_locals@.len() >= 2 {
            eq_comparison(
                call.func_text@,
                arg_locals@,
                sender_locals@,
                location,
                op,
                0,
            ) + eq_comparison(call.func_text@, arg_locals@, sender_locals@, location, op, 1)
        } else {
            Seq::empty()
        }),
{
    let ghost before = comparison_views(results@);
    if arg_locals.len() < 2 {
        assert(before =~= before + Seq::<ComparisonView>::empty());
        return;
    }
    // `eq`/`ne` take exactly two operands; the counterpart is the other one.
    for i in 0..2usize
        invariant
            arg_locals@.len() >= 2,
            comparison_views(results@) == before + (if i >= 1 {
                eq_comparison(call.func_text@, arg_locals@, sender_locals@, location, op, 0)
            } else {
                Seq::empty()
            }) + (if i >= 2 {
                eq_comparison(call.func_text@, arg_locals@, sender_locals@, location, op, 1)
            } else {
                Seq::empty()
            }),
    {
        let ghost so_far = comparison_views(results@);
        if let (Some(sender), Some(other)) = (arg_locals[i], arg_locals[1 - i]) {
            if sender_locals.contains(sender) {
                let mut description = text::text_of("Call ");
                text::push_text(&mut description, text::quote(func_label(call).as_str()).as_str());
                text::push_text(&mut description, ": info.sender (");
                mir_util::push_local(&mut description, sender);
                text::push_text(&mut description, ") ");
                let symbol = match op {
                    BinOp::Ne => "!=",
                    _ => "==",
                };
                text::push_text(&mut description, symbol);
                text::push_text(&mut description, " ");
                mir_util::push_local(&mut description, other);
                record(results, SenderComparison { location, compared_local: other, op, description });
            }
        }
        assert(comparison_views(results@) =~= so_far + eq_comparison(
            call.func_text@,
            arg_locals@,
            sender_locals@,
            location,
            op,
            i as int,
        ));
        assert(comparison_views(results@) =~= before + (if i + 1 >= 1 {
            eq_comparison(call.func_text@, arg_locals@, sender_locals@, location, op, 0)
        } else {
            Seq::empty()
        }) + (if i + 1 >= 2 {
            eq_comparison(call.func_text@, arg_locals@, sender_locals@, location, op, 1)
        } else {
            Seq::empty()
        }));
    }
    assert(comparison_views(results@) =~= before + (eq_comparison(
        call.func_text@,
        arg_locals@,
        sender_locals@,
        location,
        op,
        0,
    ) + eq_comparison(call.func_text@, arg_locals@, sender_locals@, location, op, 1)));
}

/// The comparison behind `contains(collection, needle)`.
pub open spec fn contains_comparison(
    func_text: Seq<char>,
    args: Seq<Option<Local>>,
    senders: Set<usize>,
    location: Location,
) -> Seq<ComparisonView> {
    match (args[0], args[1]) {
        (Some(collection), Some(needle)) => if args.len() >= 2 && senders.contains(needle) {
            seq![
                ComparisonView {
                    location,
                    compared_local: collection,
                    op: BinOp::Eq,
                    description: "contains() check '"@ + func_label_of(func_text)
                        + "': collection ("@ + mir_util::local_text(collection)
                        + ") contains info.sender ("@ + mir_util::local_text(needle) + ")"@,
                },
            ]
        } else {
            Seq::empty()
        },
        _ => Seq::empty(),
    }
}

/// Pattern `contains(collection, needle)`, where argument 0 is the collection
/// and argument 1 the value searched for.
///
/// The counterpart of the comparison is the *collection*, because it holds the
/// values the sender is checked against.
fn check_contains_call(
    call: &Call,
    arg_locals: &Vec<Option<Local>>,
    sender_locals: &DenseSet,
    location: Location,
    results: &mut Vec<SenderComparison>,
)
    ensures
        comparison_views(final(results)@) == comparison_views(old(results)@) + contains_comparison(
            call.func_text@,
            arg_locals@,
            sender_locals@,
            location,
        ),
{
    let ghost before = comparison_views(results@);
    if arg_locals.len() >= 2 {
        if let (Some(collection), Some(needle)) = (arg_locals[0], arg_locals[1]) {
            if sender_locals.contains(needle) {
                // The common shape: `admins.contains(&info.sender)`.
                let mut description = text::text_of("contains() check '");
                text::push_text(&mut description, func_label(call).as_str());
                text::push_text(&mut description, "': collection (");
                mir_util::push_local(&mut description, collection);
                text::push_text(&mut description, ") contains info.sender (");
                mir_util::push_local(&mut description, needle);
                text::push_text(&mut description, ")");
                record(
                    results,
                    SenderComparison {
                        location,
                        compared_local: collection,
                        op: BinOp::Eq,
                        description,
                    },
                );
            }
        }
    }
    assert(comparison_views(results@) =~= before + contains_comparison(
        call.func_text@,
        arg_locals@,
        sender_locals@,
        location,
    ));
}

/// The comparison behind an iterator search whose argument `i` carries the
/// sender: the first other argument is the iterated collection.
pub open spec fn search_comparison(
    func_text: Seq<char>,
    args: Seq<Option<Local>>,
    senders: Set<usize>,
    location: Location,
    i: int,
) -> Seq<ComparisonView> {
    let j: int = if i == 0 {
        1
    } else {
        0
    };
    match (args[i], args[j]) {
        (Some(sender), Some(other)) => if j < args.len() && senders.contains(sender) {
            seq![
                ComparisonView {
                    location,
                    compared_local: other,
                    op: BinOp::Eq,
                    description: "iter search '"@ + func_label_of(func_text)
                        + "': info.sender ("@ + mir_util::local_text(sender)
                        + ") in iterator over ("@ + mir_util::local_text(other) + ") "@,
                },
            ]
        } else {
            Seq::empty()
        },
        _ => Seq::empty(),
    }
}

/// The comparisons behind an iterator search, for its first `count` arguments.
pub open spec fn search_comparisons(
    func_text: Seq<char>,
    args: Seq<Option<Local>>,
    senders: Set<usize>,
    location: Location,
    count: nat,
) -> Seq<ComparisonView>
    decreases count,
{
    if count == 0 {
        Seq::empty()
    } else {
        search_comparisons(func_text, args, senders, location, (count - 1) as nat)
            + search_comparison(func_text, args, senders, location, count - 1)
    }
}

/// Pattern `admins.iter().any(|a| a == &info.sender)`.
///
/// The comparison itself happens inside the closure; the call receives the
/// closure and the iterator. When one argument carries the sender, through an
/// upvar of the closure environment, the call is recorded and the other
/// argument is read as the iterated collection.
fn check_iter_search_call(
    call: &Call,
    arg_locals: &Vec<Option<Local>>,
    sender_locals: &DenseSet,
    location: Location,
    results: &mut Vec<SenderComparison>,
)
    ensures
        comparison_views(final(results)@) == comparison_views(old(results)@) + search_comparisons(
            call.func_text@,
            arg_locals@,
            sender_locals@,
            location,
            arg_locals@.len(),
        ),
{
    let ghost before = comparison_views(results@);
    assert(before =~= before + Seq::<ComparisonView>::empty());
    for i in 0..arg_locals.len()
        invariant
            comparison_views(results@) == before + search_comparisons(
                call.func_text@,
                arg_locals@,
                sender_locals@,
                location,
                i as nat,
            ),
    {
        let ghost so_far = comparison_views(results@);
        let j: usize = if i == 0 {
            1
        } else {
            0
        };
        if j < arg_locals.len() {
            if let (Some(sender), Some(other)) = (arg_locals[i], arg_locals[j]) {
                if sender_locals.contains(sender) {
                    let mut description = text::text_of("iter search '");
                    text::push_text(&mut description, func_label(call).as_str());
                    text::push_text(&mut description, "': info.sender (");
                    mir_util::push_local(&mut description, sender);
                    text::push_text(&mut description, ") in iterator over (");
                    mir_util::push_local(&mut description, other);
                    text::push_text(&mut description, ") ");
                    record(
                        results,
                        SenderComparison {
                            location,
                            compared_local: other,
                            op: BinOp::Eq,
                            description,
                        },
                    );
                }
            }
        }
        assert(comparison_views(results@) =~= so_far + search_comparison(
            call.func_text@,
            arg_locals@,
            sender_locals@,
            location,
            i as int,
        ));
        assert(comparison_views(results@) =~= before + search_comparisons(
            call.func_text@,
            arg_locals@,
            sender_locals@,
            location,
            (i + 1) as nat,
        ));
    }
}

/// The names of library functions that perform an authorization check.
pub open spec fn auth_sink_name(name: Seq<char>) -> bool {
    ||| name == "assert_admin"@
    ||| name == "assert_owner"@
    ||| name == "assert_only_owner"@
    ||| name == "update_ownership"@
    ||| name == "is_admin"@
    ||| auth_verb(name) && auth_noun(name)
}

/// A name begins with an asserting or querying verb.
pub open spec fn auth_verb(name: Seq<char>) -> bool {
    ||| text::begins_with(name, "assert_"@)
    ||| text::begins_with(name, "check_"@)
    ||| text::begins_with(name, "ensure_"@)
    ||| text::begins_with(name, "require_"@)
    ||| text::begins_with(name, "verify_"@)
    ||| text::begins_with(name, "only_"@)
    ||| text::begins_with(name, "is_"@)
}

/// A name holds an authorization noun.
pub open spec fn auth_noun(name: Seq<char>) -> bool {
    ||| text::holds_text(name, "admin"@)
    ||| text::holds_text(name, "owner"@)
    ||| text::holds_text(name, "auth"@)
    ||| text::holds_text(name, "privilege"@)
    ||| text::holds_text(name, "permission"@)
    ||| text::holds_text(name, "operator"@)
    ||| text::holds_text(name, "minter"@)
}

/// A name that begins with `validate_`, `get_`, `load_` or `query_` is never taken
/// for an authorization helper.
pub proof fn lemma_validation_is_no_authorization(name: Seq<char>)
    requires
        text::begins_with(name, "validate_"@) || text::begins_with(name, "get_"@)
            || text::begins_with(name, "load_"@) || text::begins_with(name, "query_"@),
    ensures
        !auth_sink_name(name),
{
    reveal_strlit("validate_");
    reveal_strlit("get_");
    reveal_strlit("load_");
    reveal_strlit("query_");
    reveal_strlit("assert_");
    reveal_strlit("check_");
    reveal_strlit("ensure_");
    reveal_strlit("require_");
    reveal_strlit("verify_");
    reveal_strlit("only_");
    reveal_strlit("is_");
    reveal_strlit("assert_admin");
    reveal_strlit("assert_owner");
    reveal_strlit("assert_only_owner");
    reveal_strlit("update_ownership");
    reveal_strlit("is_admin");
    lemma_begins_with_char(name, "validate_"@, 0);
    lemma_begins_with_char(name, "validate_"@, 1);
    lemma_begins_with_char(name, "get_"@, 0);
    lemma_begins_with_char(name, "load_"@, 0);
    lemma_begins_with_char(name, "query_"@, 0);
    lemma_begins_with_char(name, "assert_"@, 0);
    lemma_begins_with_char(name, "check_"@, 0);
    lemma_begins_with_char(name, "ensure_"@, 0);
    lemma_begins_with_char(name, "require_"@, 0);
    lemma_begins_with_char(name, "verify_"@, 0);
    lemma_begins_with_char(name, "verify_"@, 1);
    lemma_begins_with_char(name, "only_"@, 0);
    lemma_begins_with_char(name, "is_"@, 0);
    assert(name[0] == 'v' || name[0] == 'g' || name[0] == 'l' || name[0] == 'q');
    assert("assert_admin"@[0] == 'a' && "assert_owner"@[0] == 'a' && "assert_only_owner"@[0]
        == 'a' && "update_ownership"@[0] == 'u' && "is_admin"@[0] == 'i');
}

proof fn lemma_begins_with_char(text: Seq<char>, pattern: Seq<char>, i: int)
    requires
        0 <= i < pattern.len(),
    ensures
        text::begins_with(text, pattern) ==> text[i] == pattern[i],
{
    if text::begins_with(text, pattern) {
        assert(text.subrange(0, pattern.len() as int)[i] == text[i]);
    }
}

/// Names of library functions that perform an authorization check internally,
/// comparing the caller against a stored owner or admin. Their body lives in a
/// dependency crate and is not available, so the *call*, with `info.sender`
/// among its arguments, is what counts as the check.
///
/// The first names are the established helpers of cw-ownable and
/// cw-controllers. Project-specific authorization helpers living in a sibling
/// workspace crate are recognised by naming convention: an asserting or querying
/// verb combined with an authorization noun, as in `check_admin_privileges`,
/// `ensure_owner`, `only_operator`, `verify_permissions`, or the widespread
/// boolean predicates `OWNER.is_owner(deps, &info.sender)?` and
/// `is_approved_or_owner(..)`.
///
/// The convention is deliberately narrow, so that a real vulnerability is not
/// masked: `validate_*` is excluded, because in CosmWasm it overwhelmingly means
/// *format* validation (`addr_validate`), not authorization; reading verbs
/// (`get_`, `load_`, `query_`) are not asserting verbs. Two further conditions
/// are enforced by the caller and keep the rule sound: the call must receive
/// `info.sender` as an argument, and its result must feed a branch that abandons
/// the success path.
pub fn is_auth_sink(name: &str) -> (sink: bool)
    ensures
        sink == auth_sink_name(name@),
{
    if str_eq(name, "assert_admin") || str_eq(name, "assert_owner") || str_eq(
        name,
        "assert_only_owner",
    ) || str_eq(name, "update_ownership") || str_eq(name, "is_admin") {
        return true;
    }
    let verb = text::starts_with(name, "assert_") || text::starts_with(name, "check_")
        || text::starts_with(name, "ensure_") || text::starts_with(name, "require_")
        || text::starts_with(name, "verify_") || text::starts_with(name, "only_")
        || text::starts_with(name, "is_");
    verb && (text::contains_text(name, "admin") || text::contains_text(name, "owner")
        || text::contains_text(name, "auth") || text::contains_text(name, "privilege")
        || text::contains_text(name, "permission") || text::contains_text(name, "operator")
        || text::contains_text(name, "minter"))
}

/// The first of the given arguments that carries the sender.
pub open spec fn sender_argument(args: Seq<Option<Local>>, senders: Set<usize>) -> Option<Local>
    decreases args.len(),
{
    if args.len() == 0 {
        None
    } else {
        match args[0] {
            Some(l) => if senders.contains(l) {
                Some(l)
            } else {
                sender_argument(args.skip(1), senders)
            },
            None => sender_argument(args.skip(1), senders),
        }
    }
}

/// The comparison behind a call of a library authorization helper.
pub open spec fn sink_comparison(
    program: Program,
    callee: DefId,
    args: Seq<Option<Local>>,
    senders: Set<usize>,
    location: Location,
) -> Seq<ComparisonView> {
    match sender_argument(args, senders) {
        Some(sender) => seq![
            ComparisonView {
                location,
                compared_local: sender,
                op: BinOp::Eq,
                description: "auth-sink '"@ + cosmwasm::krate_of(program, callee) + "::"@
                    + cosmwasm::name_of(program, callee) + "': info.sender ("@
                    + mir_util::local_text(sender) + ") checked against stored owner/admin"@,
            },
        ],
        None => Seq::empty(),
    }
}

/// Records a call to a library authorization helper as a detected sender
/// check, provided `info.sender` is among its arguments.
///
/// The stored owner or admin it is compared against is internal to the
/// dependency, so there is no counterpart in caller space; the comparison
/// points at the sender itself and the description names the helper.
#[verifier::loop_isolation(false)]
fn check_auth_sink_call(
    program: &Program,
    callee: DefId,
    arg_locals: &Vec<Option<Local>>,
    sender_locals: &DenseSet,
    location: Location,
    results: &mut Vec<SenderComparison>,
)
    requires
        callee < program.defs@.len(),
    ensures
        comparison_views(final(results)@) == comparison_views(old(results)@) + sink_comparison(
            *program,
            callee,
            arg_locals@,
            sender_locals@,
            location,
        ),
{
    let ghost before = comparison_views(results@);
    assert(arg_locals@.skip(0) =~= arg_locals@);
    for i in 0..arg_locals.len()
        invariant
            comparison_views(results@) == before,
            sender_argument(arg_locals@, sender_locals@) == sender_argument(
                arg_locals@.skip(i as int),
                sender_locals@,
            ),
    {
        assert(arg_locals@.skip(i as int).skip(1) =~= arg_locals@.skip(i + 1));
        if let Some(sender) = arg_locals[i] {
            if sender_locals.contains(sender) {
                let mut description = text::text_of("auth-sink '");
                text::push_text(&mut description, program.defs[callee].krate.as_str());
                text::push_text(&mut description, "::");
                text::push_text(&mut description, program.defs[callee].name.as_str());
                text::push_text(&mut description, "': info.sender (");
                mir_util::push_local(&mut description, sender);
                text::push_text(&mut description, ") checked against stored owner/admin");
                record(
                    results,
                    SenderComparison {
                        location,
                        compared_local: sender,
                        op: BinOp::Eq,
                        description,
                    },
                );
                assert(comparison_views(results@) =~= before + sink_comparison(
                    *program,
                    callee,
                    arg_locals@,
                    sender_locals@,
                    location,
                ));
                return;
            }
        }
    }
    assert(before =~= before + Seq::<ComparisonView>::empty());
}

/// The comparisons a call expresses by the name of its callee.
pub open spec fn named_comparisons(
    program: Program,
    callee: DefId,
    call: Call,
    senders: Set<usize>,
    location: Location,
) -> Seq<ComparisonView> {
    let name = cosmwasm::name_of(program, callee);
    let args = mir_util::operand_locals_of(call.args@);
    if name == "eq"@ || name == "ne"@ {
        let op = if name == "eq"@ {
            BinOp::Eq
        } else {
            BinOp::Ne
        };
        if args.len() >= 2 {
            eq_comparison(call.func_text@, args, senders, location, op, 0) + eq_comparison(
                call.func_text@,
                args,
                senders,
                location,
                op,
                1,
            )
        } else {
            Seq::empty()
        }
    } else if name == "contains"@ {
        contains_comparison(call.func_text@, args, senders, location)
    } else if name == "any"@ || name == "find"@ || name == "position"@ || name == "filter"@ {
        search_comparisons(call.func_text@, args, senders, location, args.len())
    } else {
        Seq::empty()
    }
}

/// The comparisons of a terminator.
pub open spec fn terminator_comparisons(
    program: Program,
    senders: Set<usize>,
    terminator: Terminator,
    location: Location,
) -> Seq<ComparisonView> {
    match terminator {
        Terminator::Call(call) => match mir_util::callee_of(program, call.func) {
            Some(callee) => named_comparisons(program, callee, call, senders, location) + (
            if !program.defs@[callee as int].is_local && auth_sink_name(
                cosmwasm::name_of(program, callee),
            ) {
                sink_comparison(
                    program,
                    callee,
                    mir_util::operand_locals_of(call.args@),
                    senders,
                    location,
                )
            } else {
                Seq::empty()
            }),
            None => Seq::empty(),
        },
        _ => Seq::empty(),
    }
}

/// Detects the comparisons that a body expresses as a call: the `PartialEq`
/// methods for non-`Copy` types such as `Addr`, the collection and iterator
/// searches, and the calls into library authorization helpers.
fn check_terminator_comparison(
    program: &Program,
    terminator: &Terminator,
    sender_locals: &DenseSet,
    location: Location,
    locals: Ghost<nat>,
    results: &mut Vec<SenderComparison>,
)
    requires
        program.wf(),
        *terminator matches Terminator::Call(call) ==> call.func.wf(*program, locals@),
    ensures
        comparison_views(final(results)@) == comparison_views(old(results)@)
            + terminator_comparisons(*program, sender_locals@, *terminator, location),
{
    let ghost before = comparison_views(results@);
    let ghost found = terminator_comparisons(*program, sender_locals@, *terminator, location);
    if let Terminator::Call(call) = terminator {
        proof {
            mir_util::lemma_operand_wf(*program, call.func, locals@);
        }
        if let Some(callee) = mir_util::callee_def_id(program, &call.func) {
            let name = program.defs[callee].name.as_str();
            let arg_locals = mir_util::operand_locals(&call.args);
            if str_eq(name, "eq") {
                check_eq_call(call, &arg_locals, sender_locals, location, BinOp::Eq, results);
            } else if str_eq(name, "ne") {
                check_eq_call(call, &arg_locals, sender_locals, location, BinOp::Ne, results);
            } else if str_eq(name, "contains") {
                check_contains_call(call, &arg_locals, sender_locals, location, results);
            } else if str_eq(name, "any") || str_eq(name, "find") || str_eq(name, "position")
                || str_eq(name, "filter") {
                check_iter_search_call(call, &arg_locals, sender_locals, location, results);
            }
            assert(comparison_views(results@) =~= before + named_comparisons(
                *program,
                callee,
                *call,
                sender_locals@,
                location,
            ));

            // A call into a known library authorization helper whose actual
            // comparison lives in a dependency crate and whose body is therefore
            // unavailable. If `info.sender` is passed to it, the call itself is
            // what the analysis can observe, and it is recorded as the detected
            // check.
            if !program.defs[callee].is_local && is_auth_sink(name) {
                check_auth_sink_call(
                    program,
                    callee,
                    &arg_locals,
                    sender_locals,
                    location,
                    results,
                );
            }
        }
    }
    assert(comparison_views(results@) =~= before + found);
}

// ---- the comparisons of a body -------------------------------------------

/// The comparisons at point `k` of a block, its terminator being the last one.
pub open spec fn comparisons_at(
    program: Program,
    body: Body,
    senders: Set<usize>,
    block: int,
    k: int,
) -> Seq<ComparisonView> {
    let data = body.basic_blocks@[block];
    let location = Location { block: block as usize, statement_index: k as usize };
    if k < data.statements@.len() {
        statement_comparisons(senders, data.statements@[k], location)
    } else {
        terminator_comparisons(program, senders, data.terminator, location)
    }
}

/// The comparisons in the blocks below `block` and at the first `k` points of
/// `block`.
pub open spec fn comparisons_before(
    program: Program,
    body: Body,
    senders: Set<usize>,
    block: nat,
    k: nat,
) -> Seq<ComparisonView>
    decreases block, k,
{
    if k > 0 {
        comparisons_before(program, body, senders, block, (k - 1) as nat) + comparisons_at(
            program,
            body,
            senders,
            block as int,
            k - 1,
        )
    } else if block > 0 {
        comparisons_before(
            program,
            body,
            senders,
            (block - 1) as nat,
            body.basic_blocks@[block - 1].statements@.len() + 1,
        )
    } else {
        Seq::empty()
    }
}

/// The comparisons of a body under the given seeds, in program order.
pub open spec fn comparisons_of(
    program: Program,
    body: Body,
    params: Set<usize>,
    upvars: Set<usize>,
) -> Seq<ComparisonView> {
    comparisons_before(
        program,
        body,
        sender_taint::sender_locals(program, body, params, upvars),
        body.basic_blocks@.len(),
        0,
    )
}

proof fn lemma_search_comparisons_block(
    func_text: Seq<char>,
    args: Seq<Option<Local>>,
    senders: Set<usize>,
    location: Location,
    count: nat,
)
    ensures
        forall|i: int|
            0 <= i < search_comparisons(func_text, args, senders, location, count).len()
                ==> (#[trigger] search_comparisons(
                func_text,
                args,
                senders,
                location,
                count,
            )[i]).location == location,
    decreases count,
{
    if count > 0 {
        lemma_search_comparisons_block(func_text, args, senders, location, (count - 1) as nat);
    }
}

proof fn lemma_comparisons_at(
    program: Program,
    body: Body,
    senders: Set<usize>,
    block: int,
    k: int,
)
    requires
        0 <= block < body.basic_blocks@.len(),
    ensures
        forall|i: int|
            0 <= i < comparisons_at(program, body, senders, block, k).len()
                ==> (#[trigger] comparisons_at(program, body, senders, block, k)[i]).location.block
                == block,
{
    assert(body.basic_blocks.len() == body.basic_blocks@.len());
    let data = body.basic_blocks@[block];
    let location = Location { block: block as usize, statement_index: k as usize };
    if k >= data.statements@.len() {
        if let Terminator::Call(call) = data.terminator {
            let args = mir_util::operand_locals_of(call.args@);
            lemma_search_comparisons_block(
                call.func_text@,
                args,
                senders,
                location,
                args.len(),
            );
        }
    }
}

proof fn lemma_comparisons_before(
    program: Program,
    body: Body,
    senders: Set<usize>,
    block: nat,
    k: nat,
)
    requires
        block <= body.basic_blocks@.len(),
        k > 0 ==> block < body.basic_blocks@.len(),
    ensures
        comparisons_wf(body, comparisons_before(program, body, senders, block, k)),
    decreases block, k,
{
    if k > 0 {
        lemma_comparisons_before(program, body, senders, block, (k - 1) as nat);
        lemma_comparisons_at(program, body, senders, block as int, k - 1);
        let before = comparisons_before(program, body, senders, block, (k - 1) as nat);
        let here = comparisons_at(program, body, senders, block as int, k - 1);
        let all = comparisons_before(program, body, senders, block, k);
        assert forall|i: int| 0 <= i < all.len() implies (#[trigger] all[i]).location.block
            < body.basic_blocks@.len() by {
            if i < before.len() {
                assert(all[i] == before[i]);
            } else {
                assert(all[i] == here[i - before.len()]);
            }
        }
    } else if block > 0 {
        lemma_comparisons_before(
            program,
            body,
            senders,
            (block - 1) as nat,
            body.basic_blocks@[block - 1].statements@.len() + 1,
        );
    }
}

/// Finds every comparison of `info.sender` in one body.
#[verifier::loop_isolation(false)]
pub fn find_sender_comparisons(program: &Program, body: &Body, seeds: &SenderSeeds) -> (
    results: Vec<SenderComparison>)
    requires
        program.wf(),
        body.wf(*program),
    ensures
        comparison_views(results@) == comparisons_of(
            *program,
            *body,
            seeds.param_locals@,
            seeds.upvar_indices@,
        ),
        comparisons_wf(*body, comparison_views(results@)),
{
    let mut results: Vec<SenderComparison> = Vec::new();
    let sender_locals = sender_taint::compute_sender_locals(program, body, seeds);
    let ghost senders = sender_locals@;
    assert(comparison_views(results@) =~= Seq::<ComparisonView>::empty());
    for block in 0..body.basic_blocks.len()
        invariant
            comparison_views(results@) == comparisons_before(
                *program,
                *body,
                senders,
                block as nat,
                0,
            ),
    {
        let data = &body.basic_blocks[block];
        assert(data.wf(*program, body.local_decls@.len(), body.basic_blocks@.len()));
        for statement_index in 0..data.statements.len()
            invariant
                comparison_views(results@) == comparisons_before(
                    *program,
                    *body,
                    senders,
                    block as nat,
                    statement_index as nat,
                ),
        {
            check_statement_comparison(
                &data.statements[statement_index],
                &sender_locals,
                Location { block, statement_index },
                &mut results,
            );
        }
        check_terminator_comparison(
            program,
            &data.terminator,
            &sender_locals,
            Location { block, statement_index: data.statements.len() },
            Ghost(body.local_decls@.len()),
            &mut results,
        );
        assert(comparison_views(results@) == comparisons_before(
            *program,
            *body,
            senders,
            block as nat,
            data.statements@.len() + 1,
        ));
    }
    proof {
        lemma_comparisons_before(*program, *body, senders, body.basic_blocks@.len(), 0);
    }
    results
}

/// The local that holds the result of a comparison.
pub open spec fn result_local(body: Body, comparison: ComparisonView) -> Option<Local> {
    let data = body.basic_blocks@[comparison.location.block as int];
    let k = comparison.location.statement_index;
    if k < data.statements@.len() {
        match data.statements@[k as int] {
            Statement::Assign(assign) => Some(assign.place.local),
            Statement::Other => None,
        }
    } else {
        match data.terminator {
            Terminator::Call(call) => Some(call.destination.local),
            _ => None,
        }
    }
}

/// The local that holds the result of a comparison: the assigned place for a
/// statement comparison, the call destination for a comparison expressed as a
/// call.
pub fn comparison_result_local(body: &Body, comparison: &SenderComparison) -> (
    local: Option<Local>)
    requires
        comparison.location.block < body.basic_blocks@.len(),
    ensures
        local == result_local(*body, comparison@),
{
    let data = &body.basic_blocks[comparison.location.block];
    if comparison.location.statement_index < data.statements.len() {
        match &data.statements[comparison.location.statement_index] {
            Statement::Assign(assign) => Some(assign.place.local),
            Statement::Other => None,
        }
    } else {
        match &data.terminator {
            Terminator::Call(call) => Some(call.destination.local),
            _ => None,
        }
    }
}

} // verus!
