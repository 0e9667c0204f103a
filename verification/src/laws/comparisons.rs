//! Which comparisons with the sender are found.

use crate::laws;
use crate::mir::{Assign, BinOp, Body, Call, DefId, Local, Location, Operand, Program, Rvalue};
use crate::mir::{Statement, Terminator};
use crate::mir_util;
use crate::sender_comparisons;
use crate::sender_comparisons::ComparisonView;
use crate::sender_taint;
use crate::text;
use crate::writes;
use vstd::prelude::*;

verus! {

/// A text begins with another.
pub open spec fn starts_with(text: Seq<char>, prefix: Seq<char>) -> bool {
    prefix.len() <= text.len() && text.take(prefix.len() as int) == prefix
}

/// A text has another as a part.
pub open spec fn has_part(text: Seq<char>, part: Seq<char>) -> bool {
    exists|before: Seq<char>, after: Seq<char>| text == #[trigger] (before + part + after)
}

/// The name of a helper that checks the caller's authority: one of the well-known
/// ones, or an asserting or querying verb in front and an authority somewhere in
/// the name.
pub open spec fn checks_authority(name: Seq<char>) -> bool {
    ||| name == "assert_admin"@
    ||| name == "assert_owner"@
    ||| name == "assert_only_owner"@
    ||| name == "update_ownership"@
    ||| name == "is_admin"@
    ||| {
        &&& {
            ||| starts_with(name, "assert_"@)
            ||| starts_with(name, "check_"@)
            ||| starts_with(name, "ensure_"@)
            ||| starts_with(name, "require_"@)
            ||| starts_with(name, "verify_"@)
            ||| starts_with(name, "only_"@)
            ||| starts_with(name, "is_"@)
        }
        &&& {
            ||| has_part(name, "admin"@)
            ||| has_part(name, "owner"@)
            ||| has_part(name, "auth"@)
            ||| has_part(name, "privilege"@)
            ||| has_part(name, "permission"@)
            ||| has_part(name, "operator"@)
            ||| has_part(name, "minter"@)
        }
    }
}

/// The name of a search through a collection with a closure.
pub open spec fn searches(name: Seq<char>) -> bool {
    name == "any"@ || name == "find"@ || name == "position"@ || name == "filter"@
}

/// A list has a comparison at a point, with a counterpart and an operator.
pub open spec fn found(
    comparisons: Seq<ComparisonView>,
    at: Location,
    counterpart: Local,
    op: BinOp,
) -> bool {
    exists|i: int|
        0 <= i < comparisons.len() && (#[trigger] comparisons[i]).location == at
            && comparisons[i].compared_local == counterpart && comparisons[i].op == op
}

/// An assignment compares the sender with a counterpart by an operator, on
/// whichever side either stands.
pub open spec fn assignment_compares(
    senders: Set<usize>,
    assign: Assign,
    counterpart: Local,
    op: BinOp,
) -> bool {
    assign.rvalue matches Rvalue::BinaryOp(used, left, right) && used == op && !(op is Arithmetic)
        && exists|sender: Local| #[trigger]
        senders.contains(sender) && ((laws::reads(left, sender) && laws::reads(right, counterpart))
            || (laws::reads(left, counterpart) && laws::reads(right, sender)))
}

/// The arguments at two positions are the sender and its counterpart.
pub open spec fn pairs(args: Seq<Operand>, i: int, sender: Local, j: int, counterpart: Local) -> bool {
    0 <= i < args.len() && 0 <= j < args.len() && laws::reads(args[i], sender) && laws::reads(
        args[j],
        counterpart,
    )
}

/// The argument at a position is the first one to carry the sender.
pub open spec fn first_sender(
    args: Seq<Operand>,
    senders: Set<usize>,
    i: int,
    sender: Local,
) -> bool {
    0 <= i < args.len() && laws::reads(args[i], sender) && forall|j: int, l: Local|
        0 <= j < i && #[trigger] laws::reads(args[j], l) ==> !senders.contains(l)
}

/// A call of `callee` compares the sender with a counterpart. `eq` and `ne` have
/// the two as their operands in either order; `contains` has the searched
/// collection in front of the sender; a search has the iterated collection as its
/// first argument other than the closure that carries the sender; a helper of
/// another crate that checks authority keeps the counterpart to itself, and the
/// sender stands for it.
pub open spec fn callee_compares(
    program: Program,
    senders: Set<usize>,
    call: Call,
    callee: DefId,
    counterpart: Local,
    op: BinOp,
) -> bool {
    let name = program.defs@[callee as int].name@;
    exists|sender: Local| #[trigger]
        senders.contains(sender) && {
            ||| ((name == "eq"@ && op is Eq) || (name == "ne"@ && op is Ne)) && (pairs(
                call.args@,
                0,
                sender,
                1,
                counterpart,
            ) || pairs(call.args@, 1, sender, 0, counterpart))
            ||| name == "contains"@ && op is Eq && pairs(call.args@, 1, sender, 0, counterpart)
            ||| searches(name) && op is Eq && (pairs(call.args@, 0, sender, 1, counterpart)
                || exists|i: int| i > 0 && #[trigger] pairs(call.args@, i, sender, 0, counterpart))
            ||| !program.defs@[callee as int].is_local && checks_authority(name) && op is Eq
                && counterpart == sender && exists|i: int| #[trigger]
                first_sender(call.args@, senders, i, sender)
        }
}

/// What stands at a point compares the sender with a counterpart.
pub open spec fn compares_at(
    program: Program,
    body: Body,
    senders: Set<usize>,
    at: Location,
    counterpart: Local,
    op: BinOp,
) -> bool {
    ||| exists|assign: Assign| #[trigger]
        laws::assigns(body, at.block as int, at.statement_index as int, assign)
            && assignment_compares(senders, assign, counterpart, op)
    ||| exists|call: Call, callee: DefId| #[trigger]
        laws::ends_in(body, at.block as int, call) && #[trigger] laws::calls(program, call, callee)
            && at.statement_index == body.basic_blocks@[at.block as int].statements@.len()
            && callee_compares(program, senders, call, callee, counterpart, op)
}

/// What one of two lists has, both together have, and nothing else.
pub proof fn lemma_found_add(
    first: Seq<ComparisonView>,
    second: Seq<ComparisonView>,
    at: Location,
    counterpart: Local,
    op: BinOp,
)
    ensures
        found(first + second, at, counterpart, op) <==> found(first, at, counterpart, op) || found(
            second,
            at,
            counterpart,
            op,
        ),
{
    let all = first + second;
    if found(all, at, counterpart, op) {
        let i = choose|i: int|
            0 <= i < all.len() && (#[trigger] all[i]).location == at && all[i].compared_local
                == counterpart && all[i].op == op;
        if i < first.len() {
            assert(first[i] == all[i]);
        } else {
            assert(second[i - first.len()] == all[i]);
        }
    }
    if found(first, at, counterpart, op) {
        let i = choose|i: int|
            0 <= i < first.len() && (#[trigger] first[i]).location == at && first[i].compared_local
                == counterpart && first[i].op == op;
        assert(all[i] == first[i]);
    }
    if found(second, at, counterpart, op) {
        let i = choose|i: int|
            0 <= i < second.len() && (#[trigger] second[i]).location == at
                && second[i].compared_local == counterpart && second[i].op == op;
        assert(all[i + first.len()] == second[i]);
    }
}

/// A list of one comparison has that one.
pub proof fn lemma_found_one(one: ComparisonView, at: Location, counterpart: Local, op: BinOp)
    ensures
        found(seq![one], at, counterpart, op) <==> one.location == at && one.compared_local
            == counterpart && one.op == op,
        !found(Seq::empty(), at, counterpart, op),
{
    assert(seq![one][0] == one);
}

proof fn lemma_statement_found(
    senders: Set<usize>,
    assign: Assign,
    location: Location,
    at: Location,
    counterpart: Local,
    op: BinOp,
)
    ensures
        found(
            sender_comparisons::statement_comparisons(senders, Statement::Assign(assign), location),
            at,
            counterpart,
            op,
        ) <==> at == location && assignment_compares(senders, assign, counterpart, op),
{
    let all = sender_comparisons::statement_comparisons(
        senders,
        Statement::Assign(assign),
        location,
    );
    match assign.rvalue {
        Rvalue::BinaryOp(used, left, right) => {
            match (mir_util::local_of(left), mir_util::local_of(right)) {
                (Some(l), Some(r)) => {
                    assert(laws::reads(left, l) && laws::reads(right, r));
                    if !(used is Arithmetic) {
                        let both = senders.contains(l) && senders.contains(r);
                        if found(all, at, counterpart, op) {
                            let i = choose|i: int|
                                0 <= i < all.len() && (#[trigger] all[i]).location == at
                                    && all[i].compared_local == counterpart && all[i].op == op;
                            if counterpart == r && senders.contains(l) {
                            } else {
                                assert(senders.contains(r));
                            }
                        }
                        if at == location && assignment_compares(senders, assign, counterpart, op) {
                            if senders.contains(l) && counterpart == r {
                                assert(all[0].compared_local == r);
                            } else {
                                assert(senders.contains(r) && counterpart == l);
                                assert(all[all.len() - 1].compared_local == l);
                            }
                        }
                    }
                },
                _ => {},
            }
        },
        _ => {},
    }
}

proof fn lemma_eq_found(
    func_text: Seq<char>,
    args: Seq<Operand>,
    senders: Set<usize>,
    location: Location,
    used: BinOp,
    i: int,
    at: Location,
    counterpart: Local,
    op: BinOp,
)
    requires
        args.len() >= 2,
        i == 0 || i == 1,
    ensures
        found(
            sender_comparisons::eq_comparison(
                func_text,
                mir_util::operand_locals_of(args),
                senders,
                location,
                used,
                i,
            ),
            at,
            counterpart,
            op,
        ) <==> at == location && op == used && exists|sender: Local| #[trigger]
            senders.contains(sender) && pairs(args, i, sender, 1 - i, counterpart),
{
    let locals = mir_util::operand_locals_of(args);
    let all = sender_comparisons::eq_comparison(func_text, locals, senders, location, used, i);
    assert(locals[0] == mir_util::local_of(args[0]));
    assert(locals[1] == mir_util::local_of(args[1]));
    if all.len() > 0 {
        assert(all =~= seq![all[0]]);
        lemma_found_one(all[0], at, counterpart, op);
        assert(senders.contains(locals[i]->0));
    }
}

proof fn lemma_contains_found(
    func_text: Seq<char>,
    args: Seq<Operand>,
    senders: Set<usize>,
    location: Location,
    at: Location,
    counterpart: Local,
    op: BinOp,
)
    ensures
        found(
            sender_comparisons::contains_comparison(
                func_text,
                mir_util::operand_locals_of(args),
                senders,
                location,
            ),
            at,
            counterpart,
            op,
        ) <==> at == location && op is Eq && exists|sender: Local| #[trigger]
            senders.contains(sender) && pairs(args, 1, sender, 0, counterpart),
{
    let locals = mir_util::operand_locals_of(args);
    let all = sender_comparisons::contains_comparison(func_text, locals, senders, location);
    if args.len() >= 2 {
        assert(locals[0] == mir_util::local_of(args[0]));
        assert(locals[1] == mir_util::local_of(args[1]));
    }
    if all.len() > 0 {
        assert(all =~= seq![all[0]]);
        lemma_found_one(all[0], at, counterpart, op);
        assert(senders.contains(locals[1]->0));
    }
}

/// One of the first `count` arguments carries the sender, and the first other one
/// is the counterpart.
spec fn search_pairs(
    args: Seq<Operand>,
    senders: Set<usize>,
    counterpart: Local,
    count: nat,
) -> bool {
    exists|sender: Local, i: int|
        #![trigger senders.contains(sender), args[i]]
        senders.contains(sender) && 0 <= i < count && pairs(
            args,
            i,
            sender,
            if i == 0 {
                1
            } else {
                0
            },
            counterpart,
        )
}

proof fn lemma_search_found(
    func_text: Seq<char>,
    args: Seq<Operand>,
    senders: Set<usize>,
    location: Location,
    count: nat,
    at: Location,
    counterpart: Local,
    op: BinOp,
)
    requires
        count <= args.len(),
    ensures
        found(
            sender_comparisons::search_comparisons(
                func_text,
                mir_util::operand_locals_of(args),
                senders,
                location,
                count,
            ),
            at,
            counterpart,
            op,
        ) <==> at == location && op is Eq && search_pairs(args, senders, counterpart, count),
    decreases count,
{
    let locals = mir_util::operand_locals_of(args);
    if count > 0 {
        let i = count - 1;
        let j: int = if i == 0 {
            1
        } else {
            0
        };
        let one = sender_comparisons::search_comparison(func_text, locals, senders, location, i);
        lemma_search_found(
            func_text,
            args,
            senders,
            location,
            (count - 1) as nat,
            at,
            counterpart,
            op,
        );
        lemma_found_add(
            sender_comparisons::search_comparisons(
                func_text,
                locals,
                senders,
                location,
                (count - 1) as nat,
            ),
            one,
            at,
            counterpart,
            op,
        );
        assert(locals[i] == mir_util::local_of(args[i]));
        if j < args.len() {
            assert(locals[j] == mir_util::local_of(args[j]));
        }
        if one.len() > 0 {
            assert(one =~= seq![one[0]]);
            lemma_found_one(one[0], at, counterpart, op);
            assert(senders.contains(locals[i]->0));
        }
        if search_pairs(args, senders, counterpart, (count - 1) as nat) {
            let (sender, x) = choose|sender: Local, x: int|
                #![trigger senders.contains(sender), args[x]]
                senders.contains(sender) && 0 <= x < count - 1 && pairs(
                    args,
                    x,
                    sender,
                    if x == 0 {
                        1
                    } else {
                        0
                    },
                    counterpart,
                );
            assert(senders.contains(sender) && 0 <= x < count);
        }
        if search_pairs(args, senders, counterpart, count) {
            let (sender, x) = choose|sender: Local, x: int|
                #![trigger senders.contains(sender), args[x]]
                senders.contains(sender) && 0 <= x < count && pairs(
                    args,
                    x,
                    sender,
                    if x == 0 {
                        1
                    } else {
                        0
                    },
                    counterpart,
                );
            if x < count - 1 {
                assert(search_pairs(args, senders, counterpart, (count - 1) as nat));
            } else {
                assert(locals[i] == Some(sender));
                assert(locals[j] == Some(counterpart));
            }
        }
    }
}

proof fn lemma_first_sender(args: Seq<Operand>, senders: Set<usize>, sender: Local)
    ensures
        sender_comparisons::sender_argument(mir_util::operand_locals_of(args), senders) == Some(
            sender,
        ) <==> senders.contains(sender) && exists|i: int| #[trigger]
            first_sender(args, senders, i, sender),
    decreases args.len(),
{
    let locals = mir_util::operand_locals_of(args);
    if args.len() > 0 {
        let rest = args.skip(1);
        lemma_first_sender(rest, senders, sender);
        assert(locals.skip(1) =~= mir_util::operand_locals_of(rest));
        assert(locals[0] == mir_util::local_of(args[0]));
        let here = locals[0] matches Some(l) && senders.contains(l);
        if here {
            assert(laws::reads(args[0], locals[0]->0));
            if locals[0] == Some(sender) {
                assert(first_sender(args, senders, 0, sender));
            }
            if exists|i: int| #[trigger] first_sender(args, senders, i, sender) {
                let i = choose|i: int| #[trigger] first_sender(args, senders, i, sender);
                if i > 0 {
                    assert(laws::reads(args[0], locals[0]->0));
                }
            }
        } else {
            if exists|i: int| #[trigger] first_sender(rest, senders, i, sender) {
                let i = choose|i: int| #[trigger] first_sender(rest, senders, i, sender);
                assert forall|j: int, l: Local|
                    0 <= j < i + 1 && #[trigger] laws::reads(args[j], l) implies !senders.contains(
                    l,
                ) by {
                    if j > 0 {
                        assert(laws::reads(rest[j - 1], l));
                    }
                }
                assert(first_sender(args, senders, i + 1, sender));
            }
            if senders.contains(sender) && exists|i: int| #[trigger]
                first_sender(args, senders, i, sender) {
                let i = choose|i: int| #[trigger] first_sender(args, senders, i, sender);
                assert(i > 0);
                assert forall|j: int, l: Local|
                    0 <= j < i - 1 && #[trigger] laws::reads(rest[j], l) implies !senders.contains(
                    l,
                ) by {
                    assert(laws::reads(args[j + 1], l));
                }
                assert(first_sender(rest, senders, i - 1, sender));
            }
        }
    }
}

proof fn lemma_sink_found(
    program: Program,
    callee: DefId,
    args: Seq<Operand>,
    senders: Set<usize>,
    location: Location,
    at: Location,
    counterpart: Local,
    op: BinOp,
)
    ensures
        found(
            sender_comparisons::sink_comparison(
                program,
                callee,
                mir_util::operand_locals_of(args),
                senders,
                location,
            ),
            at,
            counterpart,
            op,
        ) <==> at == location && op is Eq && senders.contains(counterpart) && exists|i: int|
            #[trigger] first_sender(args, senders, i, counterpart),
{
    let all = sender_comparisons::sink_comparison(
        program,
        callee,
        mir_util::operand_locals_of(args),
        senders,
        location,
    );
    lemma_first_sender(args, senders, counterpart);
    if all.len() > 0 {
        assert(all =~= seq![all[0]]);
        lemma_found_one(all[0], at, counterpart, op);
    }
}

/// The two ways of saying that a text begins with another, or has it as a part.
pub proof fn lemma_parts(text: Seq<char>, part: Seq<char>)
    ensures
        text::begins_with(text, part) <==> starts_with(text, part),
        text::holds_text(text, part) <==> has_part(text, part),
{
    if starts_with(text, part) {
        assert(text.subrange(0, part.len() as int) =~= text.take(part.len() as int));
    }
    if text::begins_with(text, part) {
        assert(text.take(part.len() as int) =~= text.subrange(0, part.len() as int));
    }
    if text::holds_text(text, part) {
        let i = choose|i: int| text::occurs_at(text, part, i);
        let before = text.take(i);
        let after = text.skip(i + part.len());
        assert(text =~= before + part + after);
    }
    if has_part(text, part) {
        let (before, after) = choose|before: Seq<char>, after: Seq<char>|
            text == #[trigger] (before + part + after);
        let i = before.len() as int;
        assert(text.subrange(i, i + part.len()) =~= part);
        assert(text::occurs_at(text, part, i));
    }
}

proof fn lemma_authority(name: Seq<char>)
    ensures
        sender_comparisons::auth_sink_name(name) <==> checks_authority(name),
{
    lemma_parts(name, "assert_"@);
    lemma_parts(name, "check_"@);
    lemma_parts(name, "ensure_"@);
    lemma_parts(name, "require_"@);
    lemma_parts(name, "verify_"@);
    lemma_parts(name, "only_"@);
    lemma_parts(name, "is_"@);
    lemma_parts(name, "admin"@);
    lemma_parts(name, "owner"@);
    lemma_parts(name, "auth"@);
    lemma_parts(name, "privilege"@);
    lemma_parts(name, "permission"@);
    lemma_parts(name, "operator"@);
    lemma_parts(name, "minter"@);
}

/// The names of comparing calls differ, and none of them is that of a helper that
/// checks authority.
proof fn lemma_comparing_names()
    ensures
        "eq"@ != "ne"@,
        "eq"@ != "contains"@,
        "ne"@ != "contains"@,
        !searches("eq"@),
        !searches("ne"@),
        !searches("contains"@),
        !checks_authority("eq"@),
        !checks_authority("ne"@),
        !checks_authority("contains"@),
{
    reveal_strlit("eq");
    reveal_strlit("ne");
    reveal_strlit("contains");
    reveal_strlit("any");
    reveal_strlit("find");
    reveal_strlit("position");
    reveal_strlit("filter");
    reveal_strlit("assert_admin");
    reveal_strlit("assert_owner");
    reveal_strlit("assert_only_owner");
    reveal_strlit("update_ownership");
    reveal_strlit("is_admin");
    reveal_strlit("assert_");
    reveal_strlit("check_");
    reveal_strlit("ensure_");
    reveal_strlit("require_");
    reveal_strlit("verify_");
    reveal_strlit("only_");
    reveal_strlit("is_");
    assert("eq"@[0] == 'e' && "ne"@[0] == 'n');
    assert("contains"@[0] == 'c' && "position"@[0] == 'p');
    assert("contains"@[1] == 'o' && "check_"@[1] == 'h');
    assert("is_admin"@.len() == 8 && "is_admin"@[0] == 'i');
    let name = "contains"@;
    if starts_with(name, "assert_"@) {
        assert(name.take(7)[0] == name[0] && "assert_"@[0] == 'a');
    }
    if starts_with(name, "check_"@) {
        assert(name.take(6)[1] == name[1]);
    }
    if starts_with(name, "ensure_"@) {
        assert(name.take(7)[0] == name[0] && "ensure_"@[0] == 'e');
    }
    if starts_with(name, "require_"@) {
        assert(name.take(8)[0] == name[0] && "require_"@[0] == 'r');
    }
    if starts_with(name, "verify_"@) {
        assert(name.take(7)[0] == name[0] && "verify_"@[0] == 'v');
    }
    if starts_with(name, "only_"@) {
        assert(name.take(5)[0] == name[0] && "only_"@[0] == 'o');
    }
    if starts_with(name, "is_"@) {
        assert(name.take(3)[0] == name[0] && "is_"@[0] == 'i');
    }
}

proof fn lemma_call_found(
    program: Program,
    senders: Set<usize>,
    call: Call,
    callee: DefId,
    location: Location,
    at: Location,
    counterpart: Local,
    op: BinOp,
)
    requires
        laws::calls(program, call, callee),
    ensures
        found(
            sender_comparisons::terminator_comparisons(
                program,
                senders,
                Terminator::Call(call),
                location,
            ),
            at,
            counterpart,
            op,
        ) <==> at == location && callee_compares(program, senders, call, callee, counterpart, op),
{
    let name = program.defs@[callee as int].name@;
    let args = call.args@;
    let locals = mir_util::operand_locals_of(args);
    let func_text = call.func_text@;
    let named = sender_comparisons::named_comparisons(program, callee, call, senders, location);
    let sink = if !program.defs@[callee as int].is_local && sender_comparisons::auth_sink_name(
        name,
    ) {
        sender_comparisons::sink_comparison(program, callee, locals, senders, location)
    } else {
        Seq::empty()
    };
    assert(mir_util::callee_of(program, call.func) == Some(callee));
    lemma_found_add(named, sink, at, counterpart, op);
    lemma_sink_found(program, callee, args, senders, location, at, counterpart, op);
    lemma_authority(name);
    lemma_comparing_names();
    if args.len() >= 2 {
        let used = if name == "eq"@ {
            BinOp::Eq
        } else {
            BinOp::Ne
        };
        lemma_eq_found(func_text, args, senders, location, used, 0, at, counterpart, op);
        lemma_eq_found(func_text, args, senders, location, used, 1, at, counterpart, op);
        lemma_found_add(
            sender_comparisons::eq_comparison(func_text, locals, senders, location, used, 0),
            sender_comparisons::eq_comparison(func_text, locals, senders, location, used, 1),
            at,
            counterpart,
            op,
        );
    }
    lemma_contains_found(func_text, args, senders, location, at, counterpart, op);
    lemma_search_found(func_text, args, senders, location, args.len(), at, counterpart, op);
    if searches(name) {
        if search_pairs(args, senders, counterpart, args.len()) {
            let (sender, i) = choose|sender: Local, i: int|
                #![trigger senders.contains(sender), args[i]]
                senders.contains(sender) && 0 <= i < args.len() && pairs(
                    args,
                    i,
                    sender,
                    if i == 0 {
                        1
                    } else {
                        0
                    },
                    counterpart,
                );
            assert(senders.contains(sender));
            assert(pairs(args, 0, sender, 1, counterpart) || (i > 0 && pairs(
                args,
                i,
                sender,
                0,
                counterpart,
            )));
        }
        assert forall|sender: Local| #[trigger]
            senders.contains(sender) && (pairs(args, 0, sender, 1, counterpart) || exists|i: int|
                i > 0 && #[trigger] pairs(args, i, sender, 0, counterpart)) implies search_pairs(
            args,
            senders,
            counterpart,
            args.len(),
        ) by {
            if pairs(args, 0, sender, 1, counterpart) {
                assert(laws::reads(args[0], sender));
            } else {
                let i = choose|i: int| i > 0 && #[trigger] pairs(args, i, sender, 0, counterpart);
                assert(laws::reads(args[i], sender));
            }
        }
    }
    assert(!found(Seq::empty(), at, counterpart, op));
}

proof fn lemma_point_found(
    program: Program,
    body: Body,
    senders: Set<usize>,
    block: int,
    k: int,
    at: Location,
    counterpart: Local,
    op: BinOp,
)
    requires
        0 <= block < body.basic_blocks@.len(),
        0 <= k <= body.basic_blocks@[block].statements@.len(),
    ensures
        found(
            sender_comparisons::comparisons_at(program, body, senders, block, k),
            at,
            counterpart,
            op,
        ) <==> at.block == block && at.statement_index == k && compares_at(
            program,
            body,
            senders,
            at,
            counterpart,
            op,
        ),
{
    assert(body.basic_blocks.len() == body.basic_blocks@.len());
    let data = body.basic_blocks@[block];
    assert(data.statements.len() == data.statements@.len());
    let location = Location { block: block as usize, statement_index: k as usize };
    assert(!found(Seq::empty(), at, counterpart, op));
    if at.block == block && at.statement_index == k {
        assert(at == location);
        if compares_at(program, body, senders, at, counterpart, op) {
            if exists|assign: Assign| #[trigger]
                laws::assigns(body, at.block as int, at.statement_index as int, assign)
                    && assignment_compares(senders, assign, counterpart, op) {
                let assign = choose|assign: Assign| #[trigger]
                    laws::assigns(body, at.block as int, at.statement_index as int, assign)
                        && assignment_compares(senders, assign, counterpart, op);
                assert(data.statements@[k] == Statement::Assign(assign));
            } else {
                let (call, callee) = choose|call: Call, callee: DefId| #[trigger]
                    laws::ends_in(body, at.block as int, call) && #[trigger] laws::calls(
                        program,
                        call,
                        callee,
                    ) && at.statement_index == body.basic_blocks@[at.block as int].statements@.len()
                        && callee_compares(program, senders, call, callee, counterpart, op);
                assert(data.terminator == Terminator::Call(call));
                assert(mir_util::callee_of(program, call.func) == Some(callee));
            }
        }
    }
    if k < data.statements@.len() {
        match data.statements@[k] {
            Statement::Assign(assign) => {
                lemma_statement_found(senders, assign, location, at, counterpart, op);
                if at == location {
                    assert(laws::assigns(body, block, k, assign));
                }
            },
            Statement::Other => {},
        }
    } else {
        match data.terminator {
            Terminator::Call(call) => {
                match mir_util::callee_of(program, call.func) {
                    Some(callee) => {
                        lemma_call_found(
                            program,
                            senders,
                            call,
                            callee,
                            location,
                            at,
                            counterpart,
                            op,
                        );
                        if at == location {
                            assert(laws::ends_in(body, block, call));
                            assert(laws::calls(program, call, callee));
                        }
                    },
                    None => {},
                }
            },
            _ => {},
        }
    }
}

proof fn lemma_points_found(
    program: Program,
    body: Body,
    senders: Set<usize>,
    block: nat,
    k: nat,
    at: Location,
    counterpart: Local,
    op: BinOp,
)
    requires
        block <= body.basic_blocks@.len(),
        k > 0 ==> block < body.basic_blocks@.len() && k
            <= body.basic_blocks@[block as int].statements@.len() + 1,
    ensures
        found(
            sender_comparisons::comparisons_before(program, body, senders, block, k),
            at,
            counterpart,
            op,
        ) <==> writes::stands_before(
            body,
            at.block as int,
            at.statement_index as int,
            block,
            k,
        ) && compares_at(program, body, senders, at, counterpart, op),
    decreases block, k,
{
    if k > 0 {
        lemma_points_found(program, body, senders, block, (k - 1) as nat, at, counterpart, op);
        lemma_point_found(program, body, senders, block as int, k - 1, at, counterpart, op);
        lemma_found_add(
            sender_comparisons::comparisons_before(program, body, senders, block, (k - 1) as nat),
            sender_comparisons::comparisons_at(program, body, senders, block as int, k - 1),
            at,
            counterpart,
            op,
        );
    } else if block > 0 {
        lemma_points_found(
            program,
            body,
            senders,
            (block - 1) as nat,
            body.basic_blocks@[block - 1].statements@.len() + 1,
            at,
            counterpart,
            op,
        );
    } else {
        assert(!found(Seq::empty(), at, counterpart, op));
    }
}

/// The comparisons of a body are exactly those that its assignments and calls
/// make with a local that carries the sender: each is found where it stands, with
/// the value the sender is held against and the operator, and no other is found.
pub proof fn law_comparisons_are_those_with_the_sender(
    program: Program,
    body: Body,
    params: Set<usize>,
    captures: Set<usize>,
    at: Location,
    counterpart: Local,
    op: BinOp,
)
    ensures
        found(
            sender_comparisons::comparisons_of(program, body, params, captures),
            at,
            counterpart,
            op,
        ) <==> compares_at(
            program,
            body,
            sender_taint::sender_locals(program, body, params, captures),
            at,
            counterpart,
            op,
        ),
{
    lemma_points_found(
        program,
        body,
        sender_taint::sender_locals(program, body, params, captures),
        body.basic_blocks@.len(),
        0,
        at,
        counterpart,
        op,
    );
}

/// The value that `contains` holds the sender against is the collection: the call
/// is found as a comparison with it, and as none with anything else.
pub proof fn law_contains_compares_with_the_collection(
    program: Program,
    body: Body,
    params: Set<usize>,
    captures: Set<usize>,
    block: usize,
    call: Call,
    callee: DefId,
    collection: Local,
    sender: Local,
)
    requires
        laws::ends_in(body, block as int, call),
        laws::calls(program, call, callee),
        laws::is_named(program, callee, "contains"@),
        pairs(call.args@, 1, sender, 0, collection),
        sender_taint::sender_locals(program, body, params, captures).contains(sender),
    ensures
        ({
            let comparisons = sender_comparisons::comparisons_of(program, body, params, captures);
            let at = Location {
                block,
                statement_index: body.basic_blocks@[block as int].statements@.len() as usize,
            };
            &&& found(comparisons, at, collection, BinOp::Eq)
            &&& forall|i: int|
                0 <= i < comparisons.len() && (#[trigger] comparisons[i]).location == at
                    ==> comparisons[i].compared_local == collection && comparisons[i].op is Eq
        }),
{
    let comparisons = sender_comparisons::comparisons_of(program, body, params, captures);
    let data = body.basic_blocks@[block as int];
    assert(data.statements.len() == data.statements@.len());
    let at = Location { block, statement_index: data.statements@.len() as usize };
    lemma_comparing_names();
    law_comparisons_are_those_with_the_sender(
        program,
        body,
        params,
        captures,
        at,
        collection,
        BinOp::Eq,
    );
    assert(laws::ends_in(body, at.block as int, call));
    assert forall|i: int|
        0 <= i < comparisons.len() && (#[trigger] comparisons[i]).location
            == at implies comparisons[i].compared_local == collection && comparisons[i].op is Eq by {
        let other = comparisons[i];
        assert(found(comparisons, at, other.compared_local, other.op));
        law_comparisons_are_those_with_the_sender(
            program,
            body,
            params,
            captures,
            at,
            other.compared_local,
            other.op,
        );
    }
}

/// An operator as a description names it.
pub open spec fn operator_name(op: BinOp) -> Seq<char> {
    match op {
        BinOp::Eq => "Eq"@,
        BinOp::Ne => "Ne"@,
        BinOp::Lt => "Lt"@,
        BinOp::Le => "Le"@,
        BinOp::Gt => "Gt"@,
        BinOp::Ge => "Ge"@,
        BinOp::Arithmetic => "Arithmetic"@,
    }
}

proof fn lemma_comes_from_a_point(
    program: Program,
    body: Body,
    senders: Set<usize>,
    block: nat,
    k: nat,
    comparison: ComparisonView,
) -> (at: (int, int))
    requires
        block <= body.basic_blocks@.len(),
        k > 0 ==> block < body.basic_blocks@.len() && k
            <= body.basic_blocks@[block as int].statements@.len() + 1,
        sender_comparisons::comparisons_before(program, body, senders, block, k).contains(
            comparison,
        ),
    ensures
        0 <= at.0 < body.basic_blocks@.len(),
        0 <= at.1 <= body.basic_blocks@[at.0].statements@.len(),
        sender_comparisons::comparisons_at(program, body, senders, at.0, at.1).contains(comparison),
    decreases block, k,
{
    let all = sender_comparisons::comparisons_before(program, body, senders, block, k);
    if k > 0 {
        let before = sender_comparisons::comparisons_before(
            program,
            body,
            senders,
            block,
            (k - 1) as nat,
        );
        let here = sender_comparisons::comparisons_at(program, body, senders, block as int, k - 1);
        let i = choose|i: int| 0 <= i < all.len() && all[i] == comparison;
        if i < before.len() {
            assert(before[i] == comparison);
            lemma_comes_from_a_point(program, body, senders, block, (k - 1) as nat, comparison)
        } else {
            assert(here[i - before.len()] == comparison);
            (block as int, k - 1)
        }
    } else {
        lemma_comes_from_a_point(
            program,
            body,
            senders,
            (block - 1) as nat,
            body.basic_blocks@[block - 1].statements@.len() + 1,
            comparison,
        )
    }
}

/// A comparison that an assignment makes is described by its destination, its two
/// operands in order, the sender among them in brackets, and its operator.
pub proof fn law_description_of_an_assignment(
    program: Program,
    body: Body,
    params: Set<usize>,
    captures: Set<usize>,
    i: int,
)
    requires
        0 <= i < sender_comparisons::comparisons_of(program, body, params, captures).len(),
        ({
            let at = sender_comparisons::comparisons_of(
                program,
                body,
                params,
                captures,
            )[i].location;
            at.statement_index < body.basic_blocks@[at.block as int].statements@.len()
        }),
    ensures
        ({
            let comparison = sender_comparisons::comparisons_of(program, body, params, captures)[i];
            let at = comparison.location;
            let senders = sender_taint::sender_locals(program, body, params, captures);
            exists|assign: Assign, left: Local, right: Local|
                #![trigger assignment_reads(assign, left, right), laws::assigns(body, at.block as int, at.statement_index as int, assign)]
                laws::assigns(body, at.block as int, at.statement_index as int, assign)
                    && assignment_reads(assign, left, right) && ((senders.contains(left)
                    && comparison.compared_local == right && comparison.description == "BinOp "@
                    + mir_util::local_text(assign.place.local) + " info.sender ("@
                    + mir_util::local_text(left) + ") "@ + operator_name(comparison.op) + " "@
                    + mir_util::local_text(right)) || (senders.contains(right)
                    && comparison.compared_local == left && comparison.description == "BinOp "@
                    + mir_util::local_text(assign.place.local) + ": "@ + mir_util::local_text(left)
                    + " "@ + operator_name(comparison.op) + " info.sender ("@
                    + mir_util::local_text(right) + ")"@))
        }),
{
    let all = sender_comparisons::comparisons_of(program, body, params, captures);
    let comparison = all[i];
    let senders = sender_taint::sender_locals(program, body, params, captures);
    assert(all.contains(comparison));
    assert(body.basic_blocks.len() == body.basic_blocks@.len());
    let at = lemma_comes_from_a_point(
        program,
        body,
        senders,
        body.basic_blocks@.len(),
        0,
        comparison,
    );
    let data = body.basic_blocks@[at.0];
    assert(data.statements.len() == data.statements@.len());
    let here = sender_comparisons::comparisons_at(program, body, senders, at.0, at.1);
    let j = choose|j: int| 0 <= j < here.len() && here[j] == comparison;
    assert(here[j].location == comparison.location);
    assert(found(here, comparison.location, comparison.compared_local, comparison.op));
    lemma_point_found(
        program,
        body,
        senders,
        at.0,
        at.1,
        comparison.location,
        comparison.compared_local,
        comparison.op,
    );
    if let Statement::Assign(assign) = data.statements@[at.1] {
        assert(laws::assigns(body, at.0, at.1, assign));
        if let Rvalue::BinaryOp(_, left, right) = assign.rvalue {
            let l = mir_util::local_of(left)->0;
            let r = mir_util::local_of(right)->0;
            assert(assignment_reads(assign, l, r));
        }
    }
}

/// An assignment applies a binary operator to two locals, in this order.
pub open spec fn assignment_reads(assign: Assign, left: Local, right: Local) -> bool {
    assign.rvalue matches Rvalue::BinaryOp(_, first, second) && laws::reads(first, left)
        && laws::reads(second, right)
}

} // verus!
