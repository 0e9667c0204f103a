//! Generic helpers shared by several pipeline stages.
//!
//! Nothing in this module knows about CosmWasm; it only bridges recurring gaps
//! between the shape of a body and the questions the analysis asks of it.

use crate::dense::DenseSet;
use crate::graph;
use crate::mir::{BasicBlock, Body, DefId, Local, Location, Operand, Program, Rvalue, Ty, TyKind};
use crate::text;
use vstd::prelude::*;

verus! {

// ---- operands and rvalues ------------------------------------------------

/// The local an operand reads; constants read none.
pub open spec fn local_of(operand: Operand) -> Option<Local> {
    match operand {
        Operand::Copy(place) => Some(place.local),
        Operand::Move(place) => Some(place.local),
        _ => None,
    }
}

/// Returns the local an operand reads, or `None` for constants.
pub fn operand_local(operand: &Operand) -> (local: Option<Local>)
    ensures
        local == local_of(*operand),
{
    match operand {
        Operand::Copy(place) => Some(place.local),
        Operand::Move(place) => Some(place.local),
        _ => None,
    }
}

/// The type of an operand.
pub open spec fn ty_of(operand: Operand) -> Ty {
    match operand {
        Operand::Copy(place) => place.ty,
        Operand::Move(place) => place.ty,
        Operand::Constant(constant) => constant.ty,
        Operand::Runtime(ty) => ty,
    }
}

/// Returns the type of an operand.
pub fn operand_ty(operand: &Operand) -> (ty: Ty)
    ensures
        ty == ty_of(*operand),
{
    match operand {
        Operand::Copy(place) => place.ty,
        Operand::Move(place) => place.ty,
        Operand::Constant(constant) => constant.ty,
        Operand::Runtime(ty) => *ty,
    }
}

/// The function a call target names directly.
pub open spec fn callee_of(program: Program, func: Operand) -> Option<DefId> {
    match program.types@[ty_of(func) as int].kind {
        TyKind::FnDef(def_id) => Some(def_id),
        _ => None,
    }
}

/// Returns the definition of the callee if the call target is a direct function
/// definition. Indirect calls (function pointers, dynamic dispatch) cannot be
/// resolved statically and yield `None`.
pub fn callee_def_id(program: &Program, func: &Operand) -> (callee: Option<DefId>)
    requires
        ty_of(*func) < program.types@.len(),
    ensures
        callee == callee_of(*program, *func),
{
    match &program.types[operand_ty(func)].kind {
        TyKind::FnDef(def_id) => Some(*def_id),
        _ => None,
    }
}

/// A well-formed operand has a type, and names a callee that exists.
pub proof fn lemma_operand_wf(program: Program, operand: Operand, locals: nat)
    requires
        program.wf(),
        operand.wf(program, locals),
    ensures
        ty_of(operand) < program.types@.len(),
        local_of(operand) matches Some(l) ==> l < locals,
        callee_of(program, operand) matches Some(d) ==> d < program.defs@.len(),
{
}

/// Per operand, the local it reads.
pub open spec fn operand_locals_of(operands: Seq<Operand>) -> Seq<Option<Local>> {
    operands.map_values(|op: Operand| local_of(op))
}

/// Returns, per operand, the local it reads.
pub fn operand_locals(operands: &Vec<Operand>) -> (locals: Vec<Option<Local>>)
    ensures
        locals@ == operand_locals_of(operands@),
{
    let mut locals: Vec<Option<Local>> = Vec::new();
    for i in 0..operands.len()
        invariant
            locals@ == operand_locals_of(operands@).take(i as int),
    {
        locals.push(operand_local(&operands[i]));
        assert(locals@ =~= operand_locals_of(operands@).take(i + 1));
    }
    assert(locals@ =~= operand_locals_of(operands@));
    locals
}

/// The locals the operands read, in order, constants left out.
pub open spec fn read_locals(operands: Seq<Operand>) -> Seq<Local>
    decreases operands.len(),
{
    if operands.len() == 0 {
        Seq::empty()
    } else {
        match local_of(operands.last()) {
            Some(l) => read_locals(operands.drop_last()).push(l),
            None => read_locals(operands.drop_last()),
        }
    }
}

/// A local is read exactly when some operand reads it.
pub proof fn lemma_read_locals(operands: Seq<Operand>, local: Local)
    ensures
        read_locals(operands).contains(local) <==> exists|i: int|
            0 <= i < operands.len() && local_of(#[trigger] operands[i]) == Some(local),
    decreases operands.len(),
{
    if operands.len() > 0 {
        let rest = operands.drop_last();
        lemma_read_locals(rest, local);
        let all = read_locals(operands);
        let some = read_locals(rest);
        if all.contains(local) {
            let k = choose|k: int| 0 <= k < all.len() && all[k] == local;
            if k < some.len() {
                assert(some[k] == local);
                assert(some.contains(local));
                let i = choose|i: int|
                    0 <= i < rest.len() && local_of(#[trigger] rest[i]) == Some(local);
                assert(operands[i] == rest[i]);
            } else {
                assert(local_of(operands[operands.len() - 1]) == Some(local));
            }
        }
        if exists|i: int|
            0 <= i < operands.len() && local_of(#[trigger] operands[i]) == Some(local) {
            let i = choose|i: int|
                0 <= i < operands.len() && local_of(#[trigger] operands[i]) == Some(local);
            if i < rest.len() {
                assert(rest[i] == operands[i]);
                assert(some.contains(local));
                let k = choose|k: int| 0 <= k < some.len() && some[k] == local;
                assert(all[k] == local);
            } else {
                assert(all[some.len() as int] == local);
            }
        }
    }
}

/// Returns the locals the operands read, in order, constants left out.
pub fn read_operand_locals(operands: &Vec<Operand>) -> (locals: Vec<Local>)
    ensures
        locals@ == read_locals(operands@),
{
    let mut locals: Vec<Local> = Vec::new();
    for i in 0..operands.len()
        invariant
            locals@ == read_locals(operands@.take(i as int)),
    {
        assert(operands@.take(i + 1).drop_last() =~= operands@.take(i as int));
        if let Some(l) = operand_local(&operands[i]) {
            locals.push(l);
        }
    }
    assert(operands@.take(operands@.len() as int) =~= operands@);
    locals
}

/// The locals an rvalue reads, in the order its operands stand in.
pub open spec fn rvalue_reads(rvalue: Rvalue) -> Seq<Local> {
    match rvalue {
        Rvalue::Use(op) => read_locals(seq![op]),
        Rvalue::Repeat(op) => read_locals(seq![op]),
        Rvalue::Cast(op) => read_locals(seq![op]),
        Rvalue::UnaryOp(_, op) => read_locals(seq![op]),
        Rvalue::Ref(_, place) => seq![place.local],
        Rvalue::RawPtr(place) => seq![place.local],
        Rvalue::Discriminant(place) => seq![place.local],
        Rvalue::CopyForDeref(place) => seq![place.local],
        Rvalue::BinaryOp(_, left, right) => read_locals(seq![left, right]),
        Rvalue::Aggregate(_, operands) => read_locals(operands@),
        Rvalue::Other => Seq::empty(),
    }
}

fn single_read(op: &Operand) -> (locals: Vec<Local>)
    ensures
        locals@ == read_locals(seq![*op]),
{
    let mut locals: Vec<Local> = Vec::new();
    assert(seq![*op].drop_last() =~= Seq::<Operand>::empty());
    assert(read_locals(Seq::<Operand>::empty()) =~= Seq::<Local>::empty());
    if let Some(l) = operand_local(op) {
        locals.push(l);
    }
    locals
}

/// Collects the locals an rvalue reads, from both operands and source places.
pub fn rvalue_locals(rvalue: &Rvalue) -> (locals: Vec<Local>)
    ensures
        locals@ == rvalue_reads(*rvalue),
{
    match rvalue {
        Rvalue::Use(op) => single_read(op),
        Rvalue::Repeat(op) => single_read(op),
        Rvalue::Cast(op) => single_read(op),
        Rvalue::UnaryOp(_, op) => single_read(op),
        Rvalue::Ref(_, place) => vec![place.local],
        Rvalue::RawPtr(place) => vec![place.local],
        Rvalue::Discriminant(place) => vec![place.local],
        Rvalue::CopyForDeref(place) => vec![place.local],
        Rvalue::BinaryOp(_, left, right) => {
            let mut locals = single_read(left);
            assert(seq![*left, *right].drop_last() =~= seq![*left]);
            if let Some(l) = operand_local(right) {
                locals.push(l);
            }
            locals
        },
        Rvalue::Aggregate(_, operands) => read_operand_locals(operands),
        Rvalue::Other => Vec::new(),
    }
}

/// A well-formed rvalue reads locals that exist.
pub proof fn lemma_rvalue_reads_wf(program: Program, rvalue: Rvalue, locals: nat)
    requires
        rvalue.wf(program, locals),
    ensures
        forall|l: Local| #[trigger] rvalue_reads(rvalue).contains(l) ==> l < locals,
{
    assert forall|l: Local| #[trigger] rvalue_reads(rvalue).contains(l) implies l < locals by {
        match rvalue {
            Rvalue::Use(op) => lemma_read_locals(seq![op], l),
            Rvalue::Repeat(op) => lemma_read_locals(seq![op], l),
            Rvalue::Cast(op) => lemma_read_locals(seq![op], l),
            Rvalue::UnaryOp(_, op) => lemma_read_locals(seq![op], l),
            Rvalue::BinaryOp(_, left, right) => lemma_read_locals(seq![left, right], l),
            Rvalue::Aggregate(_, operands) => lemma_read_locals(operands@, l),
            _ => {},
        }
    }
}

// ---- types ---------------------------------------------------------------

/// A type without its reference layers.
pub open spec fn without_refs(program: Program, ty: Ty) -> Ty
    decreases ty,
{
    match program.types@[ty as int].kind {
        TyKind::Ref(inner, _) => if inner < ty {
            without_refs(program, inner)
        } else {
            ty
        },
        _ => ty,
    }
}

/// Peels every reference layer off `ty`, e.g. `&&Addr` to `Addr`.
#[verifier::loop_isolation(false)]
pub fn strip_refs(program: &Program, ty: Ty) -> (base: Ty)
    requires
        program.wf(),
        ty < program.types@.len(),
    ensures
        base == without_refs(*program, ty),
        base < program.types@.len(),
        !(program.types@[base as int].kind is Ref),
{
    let mut current: Ty = ty;
    loop
        invariant
            current < program.types@.len(),
            without_refs(*program, current) == without_refs(*program, ty),
        decreases current,
    {
        match &program.types[current].kind {
            TyKind::Ref(inner, _) => {
                assert(program.types@[current as int].kind.wf(
                    program.defs@.len(),
                    current as nat,
                ));
                current = *inner;
            },
            _ => {
                return current;
            },
        }
    }
}

// ---- control flow --------------------------------------------------------

/// The successor lists of a body.
pub open spec fn successors_of(body: Body, block: int) -> Seq<BasicBlock> {
    body.basic_blocks@[block].successors@
}

/// Control may pass from one block straight to the other.
pub open spec fn flow_edge(body: Body) -> spec_fn(usize, usize) -> bool {
    |a: usize, b: usize|
        a < body.basic_blocks@.len() && successors_of(body, a as int).contains(b)
}

/// The predecessors of `block` among the blocks below `p` and the first `k`
/// successors of `p`, one entry per edge.
pub open spec fn preds_partial(body: Body, block: BasicBlock, p: nat, k: nat) -> Seq<BasicBlock>
    decreases p, k,
{
    if k > 0 {
        let before = preds_partial(body, block, p, (k - 1) as nat);
        if successors_of(body, p as int)[k - 1] == block {
            before.push(p as usize)
        } else {
            before
        }
    } else if p > 0 {
        preds_partial(body, block, (p - 1) as nat, successors_of(body, p - 1).len())
    } else {
        Seq::empty()
    }
}

/// The predecessors of a block in block order, one entry per edge.
pub open spec fn preds_of(body: Body, block: BasicBlock) -> Seq<BasicBlock> {
    preds_partial(body, block, body.basic_blocks@.len(), 0)
}

proof fn lemma_preds_partial(body: Body, block: BasicBlock, p: nat, k: nat, q: usize)
    requires
        p <= body.basic_blocks@.len() <= usize::MAX,
        k > 0 ==> p < body.basic_blocks@.len() && k <= successors_of(body, p as int).len(),
    ensures
        preds_partial(body, block, p, k).contains(q) <==> (q < p && successors_of(
            body,
            q as int,
        ).contains(block)) || (q == p && exists|i: int|
            0 <= i < k && #[trigger] successors_of(body, p as int)[i] == block),
    decreases p, k,
{
    if k > 0 {
        lemma_preds_partial(body, block, p, (k - 1) as nat, q);
        let before = preds_partial(body, block, p, (k - 1) as nat);
        let after = preds_partial(body, block, p, k);
        if before.contains(q) {
            let i = choose|i: int| 0 <= i < before.len() && before[i] == q;
            assert(after[i] == q);
        }
        if after.contains(q) && !before.contains(q) {
            let i = choose|i: int| 0 <= i < after.len() && after[i] == q;
            if i < before.len() {
                assert(before[i] == q);
            }
            assert(successors_of(body, p as int)[k - 1] == block);
        }
        if successors_of(body, p as int)[k - 1] == block {
            assert(after[before.len() as int] == p as usize);
        }
    } else if p > 0 {
        let r = (p - 1) as nat;
        lemma_preds_partial(body, block, r, successors_of(body, p - 1).len(), q);
        if q == r {
            let succ = successors_of(body, r as int);
            if succ.contains(block) {
                let i = choose|i: int| 0 <= i < succ.len() && succ[i] == block;
                assert(successors_of(body, r as int)[i] == block);
            }
        }
    }
}

/// The predecessors of a block are the blocks with an edge to it.
pub proof fn lemma_preds(body: Body, block: BasicBlock, p: usize)
    ensures
        preds_of(body, block).contains(p) <==> flow_edge(body)(p, block),
{
    assert(body.basic_blocks.len() == body.basic_blocks@.len());
    lemma_preds_partial(body, block, body.basic_blocks@.len(), 0, p);
}

/// The blocks control may continue in exist.
pub proof fn lemma_successors_exist(program: Program, body: Body)
    requires
        body.wf(program),
    ensures
        forall|b: int, i: int|
            0 <= b < body.basic_blocks@.len() && 0 <= i < successors_of(body, b).len()
                ==> #[trigger] successors_of(body, b)[i] < body.basic_blocks@.len(),
{
    assert forall|b: int, i: int|
        0 <= b < body.basic_blocks@.len() && 0 <= i < successors_of(body, b).len() implies
        #[trigger] successors_of(body, b)[i] < body.basic_blocks@.len() by {
        assert(body.basic_blocks@[b].wf(
            program,
            body.local_decls@.len(),
            body.basic_blocks@.len(),
        ));
    }
}

/// Returns the predecessor list of every block.
#[verifier::loop_isolation(false)]
pub fn predecessors(body: &Body) -> (preds: Vec<Vec<BasicBlock>>)
    requires
        forall|b: int, i: int|
            0 <= b < body.basic_blocks@.len() && 0 <= i < successors_of(*body, b).len()
                ==> #[trigger] successors_of(*body, b)[i] < body.basic_blocks@.len(),
    ensures
        preds@.len() == body.basic_blocks@.len(),
        forall|b: usize|
            b < preds@.len() ==> (#[trigger] preds@[b as int])@ == preds_of(*body, b),
{
    let n: usize = body.basic_blocks.len();
    let mut preds: Vec<Vec<BasicBlock>> = Vec::new();
    for b in 0..n
        invariant
            preds@.len() == b,
            forall|c: int| 0 <= c < b ==> (#[trigger] preds@[c])@ == Seq::<BasicBlock>::empty(),
    {
        preds.push(Vec::new());
    }
    for p in 0..n
        invariant
            preds@.len() == n,
            forall|b: usize|
                b < n ==> (#[trigger] preds@[b as int])@ == preds_partial(*body, b, p as nat, 0),
    {
        for k in 0..body.basic_blocks[p].successors.len()
            invariant
                preds@.len() == n,
                forall|b: usize|
                    b < n ==> (#[trigger] preds@[b as int])@ == preds_partial(
                        *body,
                        b,
                        p as nat,
                        k as nat,
                    ),
        {
            let succ: usize = body.basic_blocks[p].successors[k];
            assert(successors_of(*body, p as int)[k as int] == succ);
            let ghost before = preds@;
            preds[succ].push(p);
            assert forall|b: usize| b < n implies (#[trigger] preds@[b as int])@
                == preds_partial(*body, b, p as nat, (k + 1) as nat) by {
                assert(before[b as int]@ == preds_partial(*body, b, p as nat, k as nat));
            }
        }
        assert forall|b: usize| b < n implies (#[trigger] preds@[b as int])@ == preds_partial(
            *body,
            b,
            (p + 1) as nat,
            0,
        ) by {}
    }
    preds
}

/// A block reaches a target: control may pass from it to one of `targets`, or it
/// is one of them.
pub open spec fn block_reaches(body: Body, block: BasicBlock, targets: Set<usize>) -> bool {
    exists|path: Seq<usize>|
        #![trigger graph::walk(flow_edge(body), path)]
        graph::walk(flow_edge(body), path) && path[0] == block && targets.contains(path.last())
}

/// The edges of a body, taken backwards.
spec fn back_edge(body: Body) -> spec_fn(usize, usize) -> bool {
    |a: usize, b: usize| flow_edge(body)(b, a)
}

proof fn lemma_reverse_walk(body: Body, path: Seq<usize>)
    ensures
        graph::walk(flow_edge(body), path) ==> graph::walk(back_edge(body), path.reverse()),
        graph::walk(back_edge(body), path) ==> graph::walk(flow_edge(body), path.reverse()),
{
    let back = path.reverse();
    let n = path.len();
    if graph::walk(flow_edge(body), path) {
        assert forall|i: int| 0 <= i < back.len() - 1 implies back_edge(body)(
            #[trigger] back[i],
            back[i + 1],
        ) by {
            let j = n - 2 - i;
            assert(back[i] == path[j + 1] && back[i + 1] == path[j]);
            assert(flow_edge(body)(path[j], path[j + 1]));
        }
    }
    if graph::walk(back_edge(body), path) {
        assert forall|i: int| 0 <= i < back.len() - 1 implies flow_edge(body)(
            #[trigger] back[i],
            back[i + 1],
        ) by {
            let j = n - 2 - i;
            assert(back[i] == path[j + 1] && back[i + 1] == path[j]);
            assert(back_edge(body)(path[j], path[j + 1]));
        }
    }
}

/// Returns every basic block from which at least one block in `targets` is
/// forward-reachable, `targets` themselves among them.
///
/// Computed once per body by a single backward traversal, so that "can this
/// branch still reach a successful return?" becomes a set lookup instead of a
/// forward search per branch target.
pub fn blocks_reaching(program: &Program, body: &Body, targets: &DenseSet) -> (blocks: DenseSet)
    requires
        body.wf(*program),
        forall|t: usize| #[trigger] targets@.contains(t) ==> t < body.basic_blocks@.len(),
    ensures
        forall|b: usize| #[trigger]
            blocks@.contains(b) == block_reaches(*body, b, targets@),
{
    proof {
        lemma_successors_exist(*program, *body);
    }
    let preds = predecessors(body);
    assert forall|a: int, i: int|
        0 <= a < preds@.len() && 0 <= i < preds@[a]@.len() implies #[trigger] preds@[a]@[i]
        < preds@.len() by {
        lemma_preds(*body, a as usize, preds@[a]@[i]);
        assert(preds@[a as usize as int]@.contains(preds@[a]@[i]));
    }
    let blocks = graph::reach(&preds, targets);
    proof {
        let edge = graph::list_edge(preds@);
        assert forall|a: usize, b: usize| #[trigger] edge(a, b) == back_edge(*body)(a, b) by {
            lemma_preds(*body, a, b);
            if a < preds@.len() {
                assert(preds@[a as int]@ == preds_of(*body, a));
            } else if flow_edge(*body)(b, a) {
                let succ = successors_of(*body, b as int);
                let i = choose|i: int| 0 <= i < succ.len() && succ[i] == a;
                assert(successors_of(*body, b as int)[i] < body.basic_blocks@.len());
            }
        }
        assert(edge =~= back_edge(*body));
        assert forall|b: usize| #[trigger] blocks@.contains(b) == block_reaches(
            *body,
            b,
            targets@,
        ) by {
            if blocks@.contains(b) {
                let path = choose|path: Seq<usize>| graph::leads(edge, targets@, path, b);
                lemma_reverse_walk(*body, path);
                let forward = path.reverse();
                assert(graph::walk(flow_edge(*body), forward));
                assert(forward[0] == b && forward.last() == path[0]);
            }
            if block_reaches(*body, b, targets@) {
                let path = choose|path: Seq<usize>|
                    #![trigger graph::walk(flow_edge(*body), path)]
                    graph::walk(flow_edge(*body), path) && path[0] == b && targets@.contains(path.last());
                lemma_reverse_walk(*body, path);
                assert(graph::leads(edge, targets@, path.reverse(), b));
            }
        }
    }
    blocks
}

/// Control may pass from the end of one block to the other, over at least one
/// edge.
pub open spec fn comes_later(body: Body, from: BasicBlock, to: BasicBlock) -> bool {
    graph::reaches(flow_edge(body), Set::new(|b: usize| flow_edge(body)(from, b)), to)
}

/// Returns the blocks control may pass to after the end of `block`.
#[verifier::loop_isolation(false)]
pub fn blocks_after(program: &Program, body: &Body, block: BasicBlock) -> (later: DenseSet)
    requires
        body.wf(*program),
        block < body.basic_blocks@.len(),
    ensures
        forall|b: usize| #[trigger] later@.contains(b) == comes_later(*body, block, b),
{
    proof {
        lemma_successors_exist(*program, *body);
    }
    let n: usize = body.basic_blocks.len();
    let mut lists: Vec<Vec<usize>> = Vec::new();
    for b in 0..n
        invariant
            lists@.len() == b,
            forall|c: int| 0 <= c < b ==> (#[trigger] lists@[c])@ == successors_of(*body, c),
    {
        let successors = body.basic_blocks[b].successors.clone();
        assert(successors@ =~= successors_of(*body, b as int));
        lists.push(successors);
    }
    let mut starts = DenseSet::new();
    let successors = &body.basic_blocks[block].successors;
    for i in 0..successors.len()
        invariant
            forall|b: usize| #[trigger]
                starts@.contains(b) <==> exists|j: int| 0 <= j < i && successors@[j] == b,
    {
        let ghost before = starts@;
        starts.insert(successors[i]);
        assert forall|b: usize| #[trigger] starts@.contains(b) <==> exists|j: int|
            0 <= j < i + 1 && successors@[j] == b by {
            if before.contains(b) {
                let j = choose|j: int| 0 <= j < i && successors@[j] == b;
                assert(0 <= j < i + 1 && successors@[j] == b);
            }
            if b == successors@[i as int] {
                assert(starts@.contains(b));
            }
        }
    }
    proof {
        assert forall|a: int, i: int|
            0 <= a < lists@.len() && 0 <= i < lists@[a]@.len() implies #[trigger] lists@[a]@[i]
            < lists@.len() by {
            assert(successors_of(*body, a)[i] < n);
        }
        assert forall|s: usize| #[trigger] starts@.contains(s) implies s < lists@.len() by {
            let j = choose|j: int| 0 <= j < successors@.len() && successors@[j] == s;
            assert(successors_of(*body, block as int)[j] < n);
        }
    }
    let later = graph::reach(&lists, &starts);
    proof {
        let from = Set::new(|b: usize| flow_edge(*body)(block, b));
        assert forall|a: usize, b: usize| #[trigger]
            graph::list_edge(lists@)(a, b) == flow_edge(*body)(a, b) by {
            if a < n {
                assert(lists@[a as int]@ == successors_of(*body, a as int));
            }
        }
        assert(graph::list_edge(lists@) =~= flow_edge(*body));
        assert(starts@ =~= from);
    }
    later
}

// ---- rendering -----------------------------------------------------------

/// A local as a report shows it.
pub open spec fn local_text(local: Local) -> Seq<char> {
    "_"@ + text::decimal(local as nat)
}

/// Appends a local as a report shows it.
pub fn push_local(out: &mut String, local: Local)
    ensures
        final(out)@ == old(out)@ + local_text(local),
{
    text::push_text(out, "_");
    text::push_decimal(out, local);
    assert(out@ =~= old(out)@ + local_text(local));
}

/// A block as a report shows it.
pub open spec fn block_text(block: BasicBlock) -> Seq<char> {
    "bb"@ + text::decimal(block as nat)
}

/// Appends a block as a report shows it.
pub fn push_block(out: &mut String, block: BasicBlock)
    ensures
        final(out)@ == old(out)@ + block_text(block),
{
    text::push_text(out, "bb");
    text::push_decimal(out, block);
    assert(out@ =~= old(out)@ + block_text(block));
}

/// A program point as a report shows it.
pub open spec fn location_text(location: Location) -> Seq<char> {
    block_text(location.block) + "["@ + text::decimal(location.statement_index as nat) + "]"@
}

/// Appends a program point as a report shows it.
pub fn push_location(out: &mut String, location: Location)
    ensures
        final(out)@ == old(out)@ + location_text(location),
{
    push_block(out, location.block);
    text::push_text(out, "[");
    text::push_decimal(out, location.statement_index);
    text::push_text(out, "]");
    assert(out@ =~= old(out)@ + location_text(location));
}

/// Per character, whether it belongs to the name of a lifetime.
pub open spec fn word_flags(text: Seq<char>) -> Seq<bool> {
    text.map_values(|c: char| text::char_is_alphanumeric(c) || c == '_')
}

/// Per character, whether it is white space.
pub open spec fn space_flags(text: Seq<char>) -> Seq<bool> {
    text.map_values(|c: char| text::char_is_whitespace(c))
}

/// `c` stands in a marked text at position `i`.
pub open spec fn stands_at(marked: Seq<Option<char>>, i: int, c: char) -> bool {
    0 <= i < marked.len() && marked[i] == Some(c)
}

/// Position `i` of a marked text holds a region or white space.
pub open spec fn is_blank(marked: Seq<Option<char>>, i: int) -> bool {
    0 <= i < marked.len() && match marked[i] {
        Some(c) => text::char_is_whitespace(c),
        None => true,
    }
}

/// The last position before `i` that is not blank, or `-1`.
pub open spec fn visible_before(marked: Seq<Option<char>>, i: int) -> int
    decreases i,
{
    if i <= 0 {
        -1
    } else if is_blank(marked, i - 1) {
        visible_before(marked, i - 1)
    } else {
        i - 1
    }
}

/// The first position from `i` on that is not blank, or the end.
pub open spec fn visible_from(marked: Seq<Option<char>>, i: int) -> int
    decreases marked.len() - i,
{
    if is_blank(marked, i) {
        visible_from(marked, i + 1)
    } else {
        i
    }
}

/// A region stands between two positions.
pub open spec fn region_between(marked: Seq<Option<char>>, from: int, to: int) -> bool {
    exists|k: int| from < k < to && 0 <= k < marked.len() && #[trigger] marked[k] is None
}

/// An argument of which nothing but a region stands before position `i` begins
/// behind the bracket or comma before `i`.
pub open spec fn begins_with_region(marked: Seq<Option<char>>, i: int) -> bool {
    let before = visible_before(marked, i);
    (stands_at(marked, before, '<') || stands_at(marked, before, ',')) && region_between(
        marked,
        before,
        i,
    )
}

/// Nothing but arguments that are only a region stands between the comma at `i`
/// and the closing bracket.
pub open spec fn only_regions_behind(marked: Seq<Option<char>>, i: int) -> bool
    decreases marked.len() - i,
{
    let next = visible_from(marked, i + 1);
    i < next && region_between(marked, i, next) && (stands_at(marked, next, '>') || (stands_at(
        marked,
        next,
        ',',
    ) && only_regions_behind(marked, next)))
}

/// A comma left behind by a region: it stands behind an argument that was only a
/// region, or every argument up to the closing bracket was.
pub open spec fn stray_comma(marked: Seq<Option<char>>, i: int) -> bool {
    stands_at(marked, i, ',') && (begins_with_region(marked, i) || only_regions_behind(marked, i))
}

/// Position `i` lies in an argument that is only a region.
pub open spec fn in_region_argument(marked: Seq<Option<char>>, i: int) -> bool {
    let before = visible_before(marked, i);
    let next = visible_from(marked, i);
    (stands_at(marked, before, '<') || stands_at(marked, before, ',')) && (stands_at(
        marked,
        next,
        ',',
    ) || stands_at(marked, next, '>')) && region_between(marked, before, next)
}

/// White space left behind by a region: it stands right behind a comma that goes,
/// or in an argument that was only a region, except where it separates that
/// argument from a comma that stays.
pub open spec fn stray_space(marked: Seq<Option<char>>, i: int) -> bool {
    let before = visible_before(marked, i);
    &&& 0 <= i < marked.len() && (marked[i] matches Some(c) && text::char_is_whitespace(c))
    &&& if region_between(marked, before, i) || stands_at(marked, before, '<') {
        in_region_argument(marked, i)
    } else {
        stray_comma(marked, before)
    }
}

/// The first `count` characters of a marked text without the regions and without
/// the commas and the white space they leave behind.
pub open spec fn regions_dropped(marked: Seq<Option<char>>, count: nat) -> Seq<char>
    decreases count,
{
    if count == 0 {
        Seq::empty()
    } else {
        let before = regions_dropped(marked, (count - 1) as nat);
        match marked[count - 1] {
            Some(c) => if stray_comma(marked, count - 1) || stray_space(marked, count - 1) {
                before
            } else {
                before.push(c)
            },
            None => before,
        }
    }
}

/// A formatted type without its regions: an argument that was only a region
/// leaves neither comma nor white space behind.
pub open spec fn without_regions(text: Seq<char>) -> Seq<char> {
    let marked = text::regions_marked(text, word_flags(text), 0);
    regions_dropped(marked, marked.len())
}

/// A formatted type without the commas that separate nothing: one of two with
/// only a space between, one behind an opening bracket, one before a closing one.
pub open spec fn commas_cleaned(text: Seq<char>) -> Seq<char> {
    let merged = text::replaced(text, ", ,"@, ","@, 0);
    let opened = text::replaced(merged, "<,"@, "<"@, 0);
    text::replaced(text::replaced(opened, ", >"@, ">"@, 0), ",>"@, ">"@, 0)
}

/// A formatted type as a report shows it: without its regions and what they leave
/// behind, and with its white space collapsed.
pub open spec fn normalized(text: Seq<char>) -> Seq<char> {
    let cleaned = commas_cleaned(without_regions(text));
    text::squeezed(cleaned, space_flags(cleaned))
}

/// The white space of a normalized type is collapsed: there is none at either end
/// and no more than a single space in between.
pub proof fn lemma_normalized_is_squeezed(text: Seq<char>)
    ensures
        text::squeezed(normalized(text), space_flags(normalized(text))) == normalized(text),
{
    text::lemma_squeezed_once(
        commas_cleaned(without_regions(text)),
        |c: char| text::char_is_whitespace(c),
    );
}

proof fn lemma_nothing_left_behind(marked: Seq<Option<char>>, text: Seq<char>, count: nat)
    requires
        marked == text.map_values(|c: char| Some(c)),
        count <= text.len(),
    ensures
        regions_dropped(marked, count) =~= text.take(count as int),
    decreases count,
{
    if count > 0 {
        lemma_nothing_left_behind(marked, text, (count - 1) as nat);
        assert forall|from: int, to: int| !#[trigger] region_between(marked, from, to) by {}
        let last = count - 1;
        assert(!stray_comma(marked, last));
        assert(!stray_comma(marked, visible_before(marked, last)));
        assert(!stray_space(marked, last));
    }
}

/// A type without regions, with single spaces and without a comma that separates
/// nothing comes back unchanged.
pub proof fn lemma_plain_type_is_unchanged(text: Seq<char>)
    requires
        !text.contains('\''),
        !text.contains('{'),
        !text::holds_text(text, ", ,"@),
        !text::holds_text(text, "<,"@),
        !text::holds_text(text, ", >"@),
        !text::holds_text(text, ",>"@),
        text::squeezed(text, space_flags(text)) == text,
    ensures
        normalized(text) == text,
{
    text::lemma_no_regions(text, word_flags(text), 0);
    assert(text.skip(0) =~= text);
    let marked = text::regions_marked(text, word_flags(text), 0);
    assert(marked =~= text.map_values(|c: char| Some(c)));
    lemma_nothing_left_behind(marked, text, text.len());
    assert(text.take(text.len() as int) =~= text);
    text::lemma_nothing_replaced(text, ", ,"@, ","@, 0);
    text::lemma_nothing_replaced(text, "<,"@, "<"@, 0);
    text::lemma_nothing_replaced(text, ", >"@, ">"@, 0);
    text::lemma_nothing_replaced(text, ",>"@, ">"@, 0);
}

/// The name of a lifetime never shows in a normalized type.
pub proof fn lemma_lifetime_name_never_shows(
    before: Seq<char>,
    a: Seq<char>,
    b: Seq<char>,
    after: Seq<char>,
)
    requires
        forall|i: int|
            0 <= i < a.len() ==> text::char_is_alphanumeric(#[trigger] a[i]) || a[i] == '_',
        forall|i: int|
            0 <= i < b.len() ==> text::char_is_alphanumeric(#[trigger] b[i]) || b[i] == '_',
    ensures
        normalized(before + seq!['\''] + a + after) == normalized(
            before + seq!['\''] + b + after,
        ),
{
    text::lemma_region_name_goes(
        before,
        a,
        b,
        after,
        |c: char| text::char_is_alphanumeric(c) || c == '_',
    );
}

/// A marked text with an argument that is only a region behind an opening bracket.
spec fn with_argument(front: Seq<Option<char>>, rest: Seq<Option<char>>) -> Seq<Option<char>> {
    front + seq![Some('<'), None, Some(','), Some(' ')] + rest
}

/// The same text without that argument.
spec fn without_argument(front: Seq<Option<char>>, rest: Seq<Option<char>>) -> Seq<Option<char>> {
    front + seq![Some('<')] + rest
}

/// Up to the bracket both texts look the same in both directions.
proof fn lemma_same_front(front: Seq<Option<char>>, rest: Seq<Option<char>>, i: int)
    requires
        0 <= i <= front.len(),
    ensures
        ({
            let (long, short) = (with_argument(front, rest), without_argument(front, rest));
            &&& long[i] == short[i]
            &&& visible_before(long, i) == visible_before(short, i) < i
            &&& i <= visible_from(long, i) == visible_from(short, i) <= front.len()
            &&& forall|b: int| #[trigger]
                region_between(long, b, i) == region_between(short, b, i)
        }),
    decreases i,
{
    let (long, short) = (with_argument(front, rest), without_argument(front, rest));
    assert forall|k: int| 0 <= k <= front.len() implies #[trigger] long[k] == short[k] by {}
    assert forall|b: int| #[trigger] region_between(long, b, i) == region_between(short, b, i) by {
        if region_between(long, b, i) {
            let k = choose|k: int| b < k < i && 0 <= k < long.len() && #[trigger] long[k] is None;
            assert(short[k] is None);
        }
        if region_between(short, b, i) {
            let k = choose|k: int| b < k < i && 0 <= k < short.len() && #[trigger] short[k] is None;
            assert(long[k] is None);
        }
    }
    lemma_same_front_ahead(front, rest, i);
    if i > 0 {
        lemma_same_front(front, rest, i - 1);
    }
}

proof fn lemma_same_front_ahead(front: Seq<Option<char>>, rest: Seq<Option<char>>, i: int)
    requires
        0 <= i <= front.len(),
    ensures
        i <= visible_from(with_argument(front, rest), i) == visible_from(
            without_argument(front, rest),
            i,
        ) <= front.len(),
    decreases front.len() - i,
{
    let (long, short) = (with_argument(front, rest), without_argument(front, rest));
    assert(long[i] == short[i]);
    if i < front.len() {
        lemma_same_front_ahead(front, rest, i + 1);
    } else {
        assert(long[i] == Some('<'));
    }
}

proof fn lemma_same_commas_in_front(front: Seq<Option<char>>, rest: Seq<Option<char>>, i: int)
    requires
        0 <= i < front.len(),
    ensures
        only_regions_behind(with_argument(front, rest), i) == only_regions_behind(
            without_argument(front, rest),
            i,
        ),
        stray_comma(with_argument(front, rest), i) == stray_comma(
            without_argument(front, rest),
            i,
        ),
    decreases front.len() - i,
{
    let (long, short) = (with_argument(front, rest), without_argument(front, rest));
    lemma_same_front(front, rest, i);
    lemma_same_front(front, rest, i + 1);
    let next = visible_from(long, i + 1);
    lemma_same_front(front, rest, next);
    assert(long[front.len() as int] == Some('<'));
    if next < front.len() {
        lemma_same_commas_in_front(front, rest, next);
    }
    let before = visible_before(long, i);
    if 0 <= before {
        lemma_same_front(front, rest, before);
    }
}

/// Behind the argument both texts look the same ahead.
proof fn lemma_same_rest(front: Seq<Option<char>>, rest: Seq<Option<char>>, i: int)
    requires
        front.len() < i <= without_argument(front, rest).len(),
    ensures
        ({
            let (long, short) = (with_argument(front, rest), without_argument(front, rest));
            let next = visible_from(short, i);
            &&& visible_from(long, i + 3) == next + 3
            &&& i <= next <= short.len()
        }),
    decreases without_argument(front, rest).len() - i,
{
    let (long, short) = (with_argument(front, rest), without_argument(front, rest));
    if i < short.len() {
        assert(long[i + 3] == short[i]);
        lemma_same_rest(front, rest, i + 1);
    }
}

/// Behind the argument the same regions stand between two positions. The bracket
/// of the one text is the comma of the other.
proof fn lemma_same_regions(front: Seq<Option<char>>, rest: Seq<Option<char>>, b: int, i: int)
    requires
        front.len() <= b,
        i <= without_argument(front, rest).len(),
    ensures
        region_between(with_argument(front, rest), b + 3, i + 3) == region_between(
            without_argument(front, rest),
            b,
            i,
        ),
        b == front.len() ==> region_between(with_argument(front, rest), b + 2, i + 3)
            == region_between(without_argument(front, rest), b, i),
{
    let (long, short) = (with_argument(front, rest), without_argument(front, rest));
    assert forall|k: int| front.len() < k < short.len() implies #[trigger] short[k] == long[k
        + 3] by {}
    assert forall|k: int| front.len() + 3 < k < long.len() implies #[trigger] long[k] == short[k
        - 3] by {}
    assert(long[front.len() as int + 3] == Some(' '));
    if region_between(short, b, i) {
        let k = choose|k: int| b < k < i && 0 <= k < short.len() && #[trigger] short[k] is None;
        assert(long[k + 3] is None);
    }
    if region_between(long, b + 3, i + 3) {
        let k = choose|k: int|
            b + 3 < k < i + 3 && 0 <= k < long.len() && #[trigger] long[k] is None;
        assert(short[k - 3] is None);
    }
    if b == front.len() && region_between(long, b + 2, i + 3) {
        let k = choose|k: int|
            b + 2 < k < i + 3 && 0 <= k < long.len() && #[trigger] long[k] is None;
        assert(short[k - 3] is None);
    }
}

/// Looking back from behind the argument, both texts show the same, or the
/// bracket in the one and the comma in the other.
proof fn lemma_same_before(front: Seq<Option<char>>, rest: Seq<Option<char>>, i: int)
    requires
        front.len() < i <= without_argument(front, rest).len(),
    ensures
        ({
            let b = visible_before(without_argument(front, rest), i);
            &&& front.len() <= b < i
            &&& visible_before(with_argument(front, rest), i + 3) == if b == front.len() {
                b + 2
            } else {
                b + 3
            }
        }),
    decreases i,
{
    let (long, short) = (with_argument(front, rest), without_argument(front, rest));
    if i == front.len() + 1 {
        assert(short[i - 1] == Some('<'));
        assert(long[i + 2] == Some(' '));
        assert(long[i + 1] == Some(','));
        assert(is_blank(long, i + 2));
        assert(!is_blank(long, i + 1));
        assert(visible_before(long, i + 2) == i + 1);
    } else {
        assert(long[i + 2] == short[i - 1]);
        lemma_same_before(front, rest, i - 1);
    }
}

proof fn lemma_same_commas_in_rest(front: Seq<Option<char>>, rest: Seq<Option<char>>, i: int)
    requires
        front.len() < i < without_argument(front, rest).len(),
    ensures
        only_regions_behind(with_argument(front, rest), i + 3) == only_regions_behind(
            without_argument(front, rest),
            i,
        ),
        stray_comma(with_argument(front, rest), i + 3) == stray_comma(
            without_argument(front, rest),
            i,
        ),
    decreases without_argument(front, rest).len() - i,
{
    let (long, short) = (with_argument(front, rest), without_argument(front, rest));
    assert(long[i + 3] == short[i]);
    let next = visible_from(short, i + 1);
    lemma_same_rest(front, rest, i + 1);
    lemma_same_regions(front, rest, i, next);
    if next < short.len() {
        assert(long[next + 3] == short[next]);
        lemma_same_commas_in_rest(front, rest, next);
    }
    let b = visible_before(short, i);
    lemma_same_before(front, rest, i);
    lemma_same_regions(front, rest, b, i);
    assert(long[front.len() as int + 2] == Some(','));
    assert(short[front.len() as int] == Some('<'));
    assert(b > front.len() ==> long[b + 3] == short[b]);
}

proof fn lemma_same_spaces_in_rest(front: Seq<Option<char>>, rest: Seq<Option<char>>, i: int)
    requires
        front.len() < i < without_argument(front, rest).len(),
        rest[0] matches Some(c) ==> !text::char_is_whitespace(c),
    ensures
        stray_space(with_argument(front, rest), i + 3) == stray_space(
            without_argument(front, rest),
            i,
        ),
{
    let (long, short) = (with_argument(front, rest), without_argument(front, rest));
    assert(long[i + 3] == short[i]);
    let b = visible_before(short, i);
    let next = visible_from(short, i);
    lemma_same_before(front, rest, i);
    lemma_same_rest(front, rest, i);
    lemma_same_regions(front, rest, b, i);
    lemma_same_regions(front, rest, b, next);
    if next < short.len() {
        assert(long[next + 3] == short[next]);
    }
    assert(long[front.len() as int + 2] == Some(','));
    assert(short[front.len() as int] == Some('<'));
    if b > front.len() {
        assert(long[b + 3] == short[b]);
        lemma_same_commas_in_rest(front, rest, b);
    } else if !region_between(short, b, i) {
        let first = front.len() as int + 1;
        assert(short[first] == rest[0]);
        if first < i {
            lemma_blank_behind(short, i, first);
            assert(short[first] is Some);
        }
    }
}

/// Everything between a position and what is visible before it is blank.
proof fn lemma_blank_behind(marked: Seq<Option<char>>, i: int, k: int)
    requires
        visible_before(marked, i) < k < i,
    ensures
        is_blank(marked, k),
    decreases i,
{
    if i > 0 && is_blank(marked, i - 1) && k < i - 1 {
        lemma_blank_behind(marked, i - 1, k);
    }
}

/// Dropping the regions of both texts gives the same text.
proof fn lemma_argument_dropped(front: Seq<Option<char>>, rest: Seq<Option<char>>, i: int)
    requires
        0 <= i <= without_argument(front, rest).len(),
        rest.len() > 0 ==> (rest[0] matches Some(c) ==> !text::char_is_whitespace(c)),
    ensures
        regions_dropped(
            with_argument(front, rest),
            if i <= front.len() {
                i
            } else {
                i + 3
            } as nat,
        ) == regions_dropped(without_argument(front, rest), i as nat),
    decreases i,
{
    let (long, short) = (with_argument(front, rest), without_argument(front, rest));
    let p = front.len() as int;
    if i > 0 {
        lemma_argument_dropped(front, rest, i - 1);
        if i <= p {
            lemma_same_front(front, rest, i - 1);
            lemma_same_commas_in_front(front, rest, i - 1);
            let before = visible_before(long, i - 1);
            if 0 <= before {
                lemma_same_front(front, rest, before);
                lemma_same_commas_in_front(front, rest, before);
            }
            let next = visible_from(long, i - 1);
            lemma_same_front(front, rest, next);
            assert(long[i - 1] == short[i - 1]);
        } else if i == p + 1 {
            assert(long[p] == Some('<') && short[p] == Some('<'));
            assert(long[p + 1] is None && long[p + 2] == Some(',') && long[p + 3] == Some(' '));
            assert(!text::char_is_whitespace('<') && !text::char_is_whitespace(','));
            assert(visible_before(long, p + 1) == p);
            assert(visible_before(long, p + 2) == p);
            assert(visible_before(long, p + 3) == p + 2);
            assert(region_between(long, p, p + 2));
            assert(stray_comma(long, p + 2));
            assert(!region_between(long, p + 2, p + 3));
            assert(!stands_at(long, p + 2, '<'));
            assert(stray_space(long, p + 3));
            assert(regions_dropped(long, (p + 4) as nat) == regions_dropped(long, (p + 3) as nat));
            assert(regions_dropped(long, (p + 3) as nat) == regions_dropped(long, (p + 2) as nat));
            assert(regions_dropped(long, (p + 2) as nat) == regions_dropped(long, (p + 1) as nat));
        } else {
            assert(long[i + 2] == short[i - 1]);
            lemma_same_commas_in_rest(front, rest, i - 1);
            lemma_same_spaces_in_rest(front, rest, i - 1);
        }
    }
}

/// A lifetime that is the first argument leaves neither comma nor white space
/// behind: the type reads as if it had never been there.
pub proof fn lemma_lifetime_argument_leaves_no_trace(
    before: Seq<char>,
    name: Seq<char>,
    after: Seq<char>,
)
    requires
        !before.contains('{'),
        forall|i: int|
            0 <= i < name.len() ==> text::char_is_alphanumeric(#[trigger] name[i]) || name[i] == '_',
        after.len() > 0 ==> !text::char_is_whitespace(after[0]),
    ensures
        normalized(before + seq!['<', '\''] + name + seq![',', ' '] + after) == normalized(
            before + seq!['<'] + after,
        ),
{
    let word = |c: char| text::char_is_alphanumeric(c) || c == '_';
    let front = text::regions_marked(before, before.map_values(word), 0);
    let rest = text::regions_marked(after, after.map_values(word), 0);
    let comma = seq![',', ' '];
    let lifetime = seq!['\''] + name + (comma + after);
    let long = before + (seq!['<'] + lifetime);
    let short = before + (seq!['<'] + after);
    assert(long =~= before + seq!['<', '\''] + name + seq![',', ' '] + after);
    assert(short =~= before + seq!['<'] + after);
    assert(!word('<') && !word(',') && !word(' '));
    text::lemma_marked_parts(before, seq!['<'] + lifetime, word, 0);
    text::lemma_marked_parts(before, seq!['<'] + after, word, 0);
    text::lemma_marked_rest(seq!['<'], lifetime, word, 0);
    text::lemma_marked_rest(seq!['<'], after, word, 0);
    text::lemma_marked_lifetime(name, comma + after, word);
    text::lemma_marked_rest(comma, after, word, 0);
    let tail = comma + after;
    let flags = tail.map_values(word);
    assert(tail[0] == ',' && tail[1] == ' ');
    assert(text::regions_marked(tail, flags, 1) =~= seq![Some(' ')] + rest);
    assert(text::regions_marked(tail, flags, 0) =~= seq![Some(','), Some(' ')] + rest);
    assert((seq!['<'] + lifetime)[0] == '<' && (seq!['<'] + after)[0] == '<');
    assert(text::regions_marked(long, long.map_values(word), 0) =~= with_argument(front, rest));
    assert(text::regions_marked(short, short.map_values(word), 0) =~= without_argument(
        front,
        rest,
    ));
    if after.len() > 0 {
        assert(rest[0] matches Some(c) ==> c == after[0]);
    }
    lemma_argument_dropped(front, rest, without_argument(front, rest).len() as int);
    assert(with_argument(front, rest).len() == without_argument(front, rest).len() + 3);
    assert(word_flags(long) =~= long.map_values(word));
    assert(word_flags(short) =~= short.map_values(word));
}

fn is_at(marked: &Vec<Option<char>>, i: usize, c: char) -> (found: bool)
    ensures
        found == stands_at(marked@, i as int, c),
{
    i < marked.len() && match marked[i] {
        Some(d) => d == c,
        None => false,
    }
}

/// `blank` tells of each position of a marked text whether it is blank.
spec fn flags_blanks(blank: Seq<bool>, marked: Seq<Option<char>>) -> bool {
    blank.len() == marked.len() && forall|i: int|
        0 <= i < blank.len() ==> #[trigger] blank[i] == is_blank(marked, i)
}

fn blank_flags(marked: &Vec<Option<char>>) -> (blank: Vec<bool>)
    ensures
        flags_blanks(blank@, marked@),
{
    let mut blank: Vec<bool> = Vec::new();
    for i in 0..marked.len()
        invariant
            blank@.len() == i,
            forall|j: int| 0 <= j < i ==> #[trigger] blank@[j] == is_blank(marked@, j),
    {
        blank.push(
            match marked[i] {
                Some(c) => c.is_whitespace(),
                None => true,
            },
        );
    }
    blank
}

fn find_before(marked: &Vec<Option<char>>, blank: &Vec<bool>, i: usize) -> (found: Option<usize>)
    requires
        i <= marked@.len(),
        flags_blanks(blank@, marked@),
    ensures
        visible_before(marked@, i as int) == (match found {
            Some(j) => j as int,
            None => -1,
        }),
        found matches Some(j) ==> j < i,
{
    let mut j: usize = i;
    while j > 0
        invariant
            j <= i <= marked@.len(),
            flags_blanks(blank@, marked@),
            visible_before(marked@, i as int) == visible_before(marked@, j as int),
        decreases j,
    {
        if !blank[j - 1] {
            return Some(j - 1);
        }
        j = j - 1;
    }
    None
}

fn find_visible(marked: &Vec<Option<char>>, blank: &Vec<bool>, i: usize) -> (found: usize)
    requires
        i <= marked@.len(),
        flags_blanks(blank@, marked@),
    ensures
        found == visible_from(marked@, i as int),
        i <= found <= marked@.len(),
{
    let mut j: usize = i;
    while j < marked.len() && blank[j]
        invariant
            i <= j <= marked@.len(),
            flags_blanks(blank@, marked@),
            visible_from(marked@, i as int) == visible_from(marked@, j as int),
        decreases marked@.len() - j,
    {
        j = j + 1;
    }
    j
}

/// Returns whether a region stands at one of the positions from `from` up to
/// before `to`.
fn has_region(marked: &Vec<Option<char>>, from: usize, to: usize) -> (found: bool)
    requires
        to <= marked@.len(),
    ensures
        found == region_between(marked@, from - 1, to as int),
{
    let mut k: usize = from;
    while k < to
        invariant
            from <= k,
            to <= marked@.len(),
            forall|j: int| from <= j < k ==> #[trigger] marked@[j] is Some,
        decreases to - k,
    {
        if marked[k].is_none() {
            assert(marked@[k as int] is None);
            return true;
        }
        k = k + 1;
    }
    false
}

fn argument_begins_with_region(marked: &Vec<Option<char>>, blank: &Vec<bool>, i: usize) -> (
    begins: bool)
    requires
        i <= marked@.len(),
        flags_blanks(blank@, marked@),
    ensures
        begins == begins_with_region(marked@, i as int),
{
    match find_before(marked, blank, i) {
        Some(before) => (is_at(marked, before, '<') || is_at(marked, before, ',')) && has_region(
            marked,
            before + 1,
            i,
        ),
        None => false,
    }
}

fn has_only_regions_behind(marked: &Vec<Option<char>>, blank: &Vec<bool>, i: usize) -> (only: bool)
    requires
        i < marked@.len(),
        flags_blanks(blank@, marked@),
    ensures
        only == only_regions_behind(marked@, i as int),
{
    let mut comma: usize = i;
    loop
        invariant
            i <= comma < marked@.len(),
            flags_blanks(blank@, marked@),
            only_regions_behind(marked@, i as int) == only_regions_behind(marked@, comma as int),
        decreases marked@.len() - comma,
    {
        assert(marked.len() == marked@.len());
        let next: usize = find_visible(marked, blank, comma + 1);
        if !has_region(marked, comma + 1, next) {
            return false;
        }
        if is_at(marked, next, '>') {
            return true;
        }
        if !is_at(marked, next, ',') {
            return false;
        }
        comma = next;
    }
}

fn is_stray_comma(marked: &Vec<Option<char>>, blank: &Vec<bool>, i: usize) -> (stray: bool)
    requires
        i < marked@.len(),
        flags_blanks(blank@, marked@),
    ensures
        stray == stray_comma(marked@, i as int),
{
    is_at(marked, i, ',') && (argument_begins_with_region(marked, blank, i)
        || has_only_regions_behind(marked, blank, i))
}

/// Returns whether the white space at `i` is left behind by a region.
fn is_stray_space(marked: &Vec<Option<char>>, blank: &Vec<bool>, i: usize) -> (stray: bool)
    requires
        i < marked@.len(),
        flags_blanks(blank@, marked@),
        marked@[i as int] matches Some(c) && text::char_is_whitespace(c),
    ensures
        stray == stray_space(marked@, i as int),
{
    match find_before(marked, blank, i) {
        Some(before) => {
            if has_region(marked, before + 1, i) || is_at(marked, before, '<') {
                let next: usize = find_visible(marked, blank, i);
                (is_at(marked, before, '<') || is_at(marked, before, ',')) && (is_at(
                    marked,
                    next,
                    ',',
                ) || is_at(marked, next, '>')) && has_region(marked, before + 1, next)
            } else {
                is_stray_comma(marked, blank, before)
            }
        },
        None => false,
    }
}

/// Drops the regions of a marked text, and the commas and the white space they
/// leave behind.
pub fn drop_regions(marked: &Vec<Option<char>>) -> (out: Vec<char>)
    ensures
        out@ == regions_dropped(marked@, marked@.len()),
{
    let blank = blank_flags(marked);
    let mut out: Vec<char> = Vec::new();
    for i in 0..marked.len()
        invariant
            flags_blanks(blank@, marked@),
            out@ == regions_dropped(marked@, i as nat),
    {
        if let Some(c) = marked[i] {
            let stray = if blank[i] {
                is_stray_space(marked, &blank, i)
            } else {
                is_stray_comma(marked, &blank, i)
            };
            if !stray {
                out.push(c);
            }
        }
    }
    out
}

/// Drops the commas that separate nothing.
pub fn clean_commas(text: &Vec<char>) -> (out: Vec<char>)
    ensures
        out@ == commas_cleaned(text@),
{
    proof {
        reveal_strlit(", ,");
        reveal_strlit("<,");
        reveal_strlit(", >");
        reveal_strlit(",>");
    }
    let merged = text::replace(text, &text::chars_of(", ,"), &text::chars_of(","));
    let opened = text::replace(&merged, &text::chars_of("<,"), &text::chars_of("<"));
    let closed = text::replace(&opened, &text::chars_of(", >"), &text::chars_of(">"));
    text::replace(&closed, &text::chars_of(",>"), &text::chars_of(">"))
}

/// Normalizes a formatted type so that it is stable enough to be shown in a
/// report: lifetimes and erased-region markers are dropped, whitespace is
/// collapsed and the commas they leave behind are cleaned up
/// (`Item<'erased, Addr>` becomes `Item<Addr>`).
pub fn normalize_ty_str(s: &str) -> (shown: String)
    ensures
        shown@ == normalized(s@),
{
    let chars = text::chars_of(s);
    let mut word: Vec<bool> = Vec::new();
    for i in 0..chars.len()
        invariant
            word@ == word_flags(chars@).take(i as int),
    {
        let c: char = chars[i];
        word.push(c.is_alphanumeric() || c == '_');
        assert(word@ =~= word_flags(chars@).take(i + 1));
    }
    assert(word@ =~= word_flags(chars@));
    let cleaned = clean_commas(&drop_regions(&text::mark_regions(&chars, &word)));
    let mut space: Vec<bool> = Vec::new();
    for i in 0..cleaned.len()
        invariant
            space@ == space_flags(cleaned@).take(i as int),
    {
        space.push(cleaned[i].is_whitespace());
        assert(space@ =~= space_flags(cleaned@).take(i + 1));
    }
    assert(space@ =~= space_flags(cleaned@));
    text::string_of(&text::squeeze(&cleaned, &space))
}

} // verus!
