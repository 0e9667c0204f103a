//! The intermediate representation the analysis works on.
//!
//! A [`Program`] is the part of a compiled crate that the six stages read: its
//! definitions, its interned types and the control-flow graphs of its
//! functions. Definitions, types, locals and basic blocks are referred to by
//! their index. A type refers to the types it is built from by smaller indices,
//! so every walk over a type ends.

use vstd::prelude::*;

verus! {

/// Index of a definition in [`Program::defs`].
pub type DefId = usize;

/// Index of a type in [`Program::types`].
pub type Ty = usize;

/// Index of a local in [`Body::local_decls`]; `_0` is the return place and the
/// parameters follow it.
pub type Local = usize;

/// Index of a block in [`Body::basic_blocks`]; block 0 is the entry.
pub type BasicBlock = usize;

/// A program point: a statement of a block, or its terminator when
/// `statement_index` is the number of statements.
#[derive(Debug, Clone, Copy, PartialEq, Eq, Structural)]
pub struct Location {
    pub block: BasicBlock,
    pub statement_index: usize,
}

impl Location {
    /// The point as a pair, which is how sets of points hold it.
    pub open spec fn pair(self) -> (usize, usize) {
        (self.block, self.statement_index)
    }
}

/// A binary operator, as far as the analysis tells operators apart.
#[derive(Debug, Clone, Copy, PartialEq, Eq, Structural)]
pub enum BinOp {
    Eq,
    Ne,
    Lt,
    Le,
    Gt,
    Ge,
    /// Any operator that does not compare.
    Arithmetic,
}

/// A unary operator, as far as the analysis tells operators apart.
#[derive(Debug, Clone, Copy, PartialEq, Eq, Structural)]
pub enum UnOp {
    Not,
    /// Any operator that does not negate a `bool`.
    Other,
}

/// One step from a place to a part of it.
#[derive(Debug, Clone, Copy)]
pub enum PlaceElem {
    Field(usize),
    /// A dereference, an index, a downcast and the like.
    Other,
}

/// A memory location: a local and the path into it.
#[derive(Debug)]
pub struct Place {
    pub local: Local,
    pub projection: Vec<PlaceElem>,
    /// Type of the value at the end of the path.
    pub ty: Ty,
}

/// A constant operand.
#[derive(Debug)]
pub struct ConstOperand {
    pub ty: Ty,
    /// The constant item the operand names, while it is not yet evaluated.
    pub unevaluated: Option<DefId>,
    /// The value, where the constant is a known `bool`.
    pub bool_value: Option<bool>,
}

#[derive(Debug)]
pub enum Operand {
    Copy(Place),
    Move(Place),
    Constant(ConstOperand),
    /// A value the compiler supplies when the program runs, with its type.
    Runtime(Ty),
}

#[derive(Debug)]
pub enum AggregateKind {
    /// A struct or enum value: the type's definition and the variant index.
    Adt(DefId, usize),
    Closure(DefId),
    /// A tuple, an array and the like.
    Other,
}

#[derive(Debug)]
pub enum Rvalue {
    Use(Operand),
    Repeat(Operand),
    /// A borrow; the flag tells a mutable borrow.
    Ref(bool, Place),
    RawPtr(Place),
    Cast(Operand),
    BinaryOp(BinOp, Operand, Operand),
    UnaryOp(UnOp, Operand),
    Discriminant(Place),
    CopyForDeref(Place),
    Aggregate(AggregateKind, Vec<Operand>),
    Other,
}

/// An assignment, with the text the right-hand side is shown as.
#[derive(Debug)]
pub struct Assign {
    pub place: Place,
    pub rvalue: Rvalue,
    pub text: String,
}

#[derive(Debug)]
pub enum Statement {
    Assign(Assign),
    Other,
}

/// A call terminator.
#[derive(Debug)]
pub struct Call {
    pub func: Operand,
    /// The text the call target is shown as.
    pub func_text: String,
    /// The implementation a call to a trait method resolves to, if it does.
    pub resolved: Option<DefId>,
    pub args: Vec<Operand>,
    pub destination: Place,
}

/// A branch on an integer. `targets[i]` is taken for `values[i]`, and the last
/// target for every other value.
#[derive(Debug)]
pub struct SwitchInt {
    pub discr: Operand,
    pub values: Vec<u128>,
    pub targets: Vec<BasicBlock>,
}

#[derive(Debug)]
pub enum Terminator {
    Call(Call),
    SwitchInt(SwitchInt),
    Other,
}

#[derive(Debug)]
pub struct BasicBlockData {
    pub statements: Vec<Statement>,
    pub terminator: Terminator,
    /// The blocks control may continue in, unwinding taken into account.
    pub successors: Vec<BasicBlock>,
}

/// The control-flow graph of one function or closure.
#[derive(Debug)]
pub struct Body {
    /// The definition the body belongs to.
    pub def_id: DefId,
    pub arg_count: usize,
    /// Types of the locals.
    pub local_decls: Vec<Ty>,
    pub basic_blocks: Vec<BasicBlockData>,
}

/// The shape of a type, as far as the analysis looks into it.
#[derive(Debug)]
pub enum TyKind {
    Bool,
    Str,
    /// A reference; the flag tells a mutable one.
    Ref(Ty, bool),
    Slice(Ty),
    Array(Ty),
    Tuple(Vec<Ty>),
    /// A struct, enum or union with its type arguments.
    Adt(DefId, Vec<Ty>),
    /// A trait object with its principal trait.
    Dynamic(Option<DefId>),
    Closure(DefId),
    FnDef(DefId),
    FnPtr,
    Other,
}

/// An interned type.
#[derive(Debug)]
pub struct TyData {
    pub kind: TyKind,
    /// The text the type is shown as in diagnostics.
    pub debug: String,
    /// The text the type is written as in source code.
    pub display: String,
    /// The type with its regions erased.
    pub erased: Ty,
}

#[derive(Debug)]
pub enum DefKind {
    /// A constant item with its type.
    Const(Ty),
    Fn,
    Closure,
    Other,
}

/// A definition of the crate under analysis or of a crate it uses.
#[derive(Debug)]
pub struct Def {
    /// Name of the item.
    pub name: String,
    /// Name of the defining crate.
    pub krate: String,
    /// The path the item is shown as.
    pub path: String,
    /// The text the identifier is shown as.
    pub debug: String,
    pub is_local: bool,
    pub kind: DefKind,
    /// Whether this is the `Result` diagnostic item.
    pub is_result: bool,
    /// Whether this is the `String` diagnostic item.
    pub is_string: bool,
    /// Field names of the first variant, for a type that has one.
    pub fields: Option<Vec<String>>,
    /// The body, where the compiler has one.
    pub body: Option<Body>,
}

/// What the analysis knows of a crate.
#[derive(Debug)]
pub struct Program {
    pub defs: Vec<Def>,
    pub types: Vec<TyData>,
    /// The free items of the crate, in source order.
    pub free_items: Vec<DefId>,
    /// The definitions of the crate itself that are looked up by their type, in
    /// definition order.
    pub local_defs: Vec<DefId>,
}

// ---- validity ------------------------------------------------------------

impl Place {
    pub open spec fn wf(self, program: Program, locals: nat) -> bool {
        self.local < locals && self.ty < program.types@.len()
    }
}

impl Operand {
    pub open spec fn wf(self, program: Program, locals: nat) -> bool {
        match self {
            Operand::Copy(place) => place.wf(program, locals),
            Operand::Move(place) => place.wf(program, locals),
            Operand::Constant(constant) => constant.ty < program.types@.len() && (
            constant.unevaluated matches Some(d) ==> d < program.defs@.len()),
            Operand::Runtime(ty) => ty < program.types@.len(),
        }
    }
}

pub open spec fn operands_wf(operands: Seq<Operand>, program: Program, locals: nat) -> bool {
    forall|i: int| 0 <= i < operands.len() ==> (#[trigger] operands[i]).wf(program, locals)
}

impl Rvalue {
    pub open spec fn wf(self, program: Program, locals: nat) -> bool {
        match self {
            Rvalue::Use(op) => op.wf(program, locals),
            Rvalue::Repeat(op) => op.wf(program, locals),
            Rvalue::Ref(_, place) => place.wf(program, locals),
            Rvalue::RawPtr(place) => place.wf(program, locals),
            Rvalue::Cast(op) => op.wf(program, locals),
            Rvalue::BinaryOp(_, left, right) => left.wf(program, locals) && right.wf(
                program,
                locals,
            ),
            Rvalue::UnaryOp(_, op) => op.wf(program, locals),
            Rvalue::Discriminant(place) => place.wf(program, locals),
            Rvalue::CopyForDeref(place) => place.wf(program, locals),
            Rvalue::Aggregate(kind, operands) => kind.wf(program) && operands_wf(
                operands@,
                program,
                locals,
            ),
            Rvalue::Other => true,
        }
    }
}

impl AggregateKind {
    pub open spec fn wf(self, program: Program) -> bool {
        match self {
            AggregateKind::Adt(def, _) => def < program.defs@.len(),
            AggregateKind::Closure(def) => def < program.defs@.len(),
            AggregateKind::Other => true,
        }
    }
}

impl Statement {
    pub open spec fn wf(self, program: Program, locals: nat) -> bool {
        self matches Statement::Assign(assign) ==> assign.place.wf(program, locals)
            && assign.rvalue.wf(program, locals)
    }
}

impl Terminator {
    pub open spec fn wf(self, program: Program, locals: nat, successors: Seq<BasicBlock>) -> bool {
        match self {
            Terminator::Call(call) => {
                &&& call.func.wf(program, locals)
                &&& call.resolved matches Some(d) ==> d < program.defs@.len()
                &&& operands_wf(call.args@, program, locals)
                &&& call.destination.wf(program, locals)
            },
            Terminator::SwitchInt(switch) => {
                &&& switch.discr.wf(program, locals)
                &&& switch.targets@.len() == switch.values@.len() + 1
                &&& switch.targets@ == successors
            },
            Terminator::Other => true,
        }
    }
}

impl BasicBlockData {
    pub open spec fn wf(self, program: Program, locals: nat, blocks: nat) -> bool {
        &&& forall|s: int|
            0 <= s < self.statements@.len() ==> (#[trigger] self.statements@[s]).wf(program, locals)
        &&& self.terminator.wf(program, locals, self.successors@)
        &&& forall|i: int|
            0 <= i < self.successors@.len() ==> #[trigger] self.successors@[i] < blocks
        &&& self.statements@.len() < usize::MAX
    }
}

impl Body {
    /// Every index the body mentions names something that exists.
    pub open spec fn wf(self, program: Program) -> bool {
        &&& self.def_id < program.defs@.len()
        &&& self.arg_count < self.local_decls@.len()
        &&& self.basic_blocks@.len() > 0
        &&& forall|l: int|
            0 <= l < self.local_decls@.len() ==> #[trigger] self.local_decls@[l]
                < program.types@.len()
        &&& forall|b: int|
            0 <= b < self.basic_blocks@.len() ==> (#[trigger] self.basic_blocks@[b]).wf(
                program,
                self.local_decls@.len(),
                self.basic_blocks@.len(),
            )
    }
}

impl TyKind {
    /// The type is built from types below `below` and from definitions that exist.
    pub open spec fn wf(self, defs: nat, below: nat) -> bool {
        match self {
            TyKind::Ref(inner, _) => inner < below,
            TyKind::Slice(inner) => inner < below,
            TyKind::Array(inner) => inner < below,
            TyKind::Tuple(tys) => forall|i: int|
                0 <= i < tys@.len() ==> #[trigger] tys@[i] < below,
            TyKind::Adt(def, args) => def < defs && (forall|i: int|
                0 <= i < args@.len() ==> #[trigger] args@[i] < below),
            TyKind::Dynamic(principal) => principal matches Some(d) ==> d < defs,
            TyKind::Closure(def) => def < defs,
            TyKind::FnDef(def) => def < defs,
            _ => true,
        }
    }
}

impl Def {
    pub open spec fn wf(self, program: Program, def_id: DefId) -> bool {
        &&& self.kind matches DefKind::Const(ty) ==> ty < program.types@.len()
        &&& self.body matches Some(body) ==> body.wf(program) && body.def_id == def_id
    }
}

impl Program {
    /// Every index the program mentions names something that exists, and every
    /// type is built from earlier types.
    pub open spec fn wf(self) -> bool {
        &&& forall|d: usize|
            d < self.defs@.len() ==> (#[trigger] self.defs@[d as int]).wf(self, d)
        &&& forall|t: int|
            0 <= t < self.types@.len() ==> (#[trigger] self.types@[t]).kind.wf(
                self.defs@.len(),
                t as nat,
            ) && self.types@[t].erased < self.types@.len()
        &&& forall|i: int|
            0 <= i < self.free_items@.len() ==> #[trigger] self.free_items@[i] < self.defs@.len()
        &&& forall|i: int|
            0 <= i < self.local_defs@.len() ==> #[trigger] self.local_defs@[i] < self.defs@.len()
    }
}

// ---- checking validity ---------------------------------------------------

/// Returns whether every index is below `bound`.
fn all_below(indices: &Vec<usize>, bound: usize) -> (below: bool)
    ensures
        below == (forall|i: int| 0 <= i < indices@.len() ==> #[trigger] indices@[i] < bound),
{
    for i in 0..indices.len()
        invariant
            forall|j: int| 0 <= j < i ==> #[trigger] indices@[j] < bound,
    {
        if indices[i] >= bound {
            return false;
        }
    }
    true
}

/// Returns whether an index that is there is below `bound`.
fn none_or_below(index: &Option<usize>, bound: usize) -> (below: bool)
    ensures
        below == (index matches Some(i) ==> i < bound),
{
    match index {
        Some(i) => *i < bound,
        None => true,
    }
}

fn place_valid(program: &Program, place: &Place, locals: usize) -> (valid: bool)
    ensures
        valid == place.wf(*program, locals as nat),
{
    place.local < locals && place.ty < program.types.len()
}

fn operand_valid(program: &Program, operand: &Operand, locals: usize) -> (valid: bool)
    ensures
        valid == operand.wf(*program, locals as nat),
{
    match operand {
        Operand::Copy(place) => place_valid(program, place, locals),
        Operand::Move(place) => place_valid(program, place, locals),
        Operand::Constant(constant) => constant.ty < program.types.len() && none_or_below(
            &constant.unevaluated,
            program.defs.len(),
        ),
        Operand::Runtime(ty) => *ty < program.types.len(),
    }
}

fn operands_valid(program: &Program, operands: &Vec<Operand>, locals: usize) -> (valid: bool)
    ensures
        valid == operands_wf(operands@, *program, locals as nat),
{
    for i in 0..operands.len()
        invariant
            forall|j: int|
                0 <= j < i ==> (#[trigger] operands@[j]).wf(*program, locals as nat),
    {
        if !operand_valid(program, &operands[i], locals) {
            return false;
        }
    }
    true
}

fn rvalue_valid(program: &Program, rvalue: &Rvalue, locals: usize) -> (valid: bool)
    ensures
        valid == rvalue.wf(*program, locals as nat),
{
    match rvalue {
        Rvalue::Use(op) => operand_valid(program, op, locals),
        Rvalue::Repeat(op) => operand_valid(program, op, locals),
        Rvalue::Ref(_, place) => place_valid(program, place, locals),
        Rvalue::RawPtr(place) => place_valid(program, place, locals),
        Rvalue::Cast(op) => operand_valid(program, op, locals),
        Rvalue::BinaryOp(_, left, right) => operand_valid(program, left, locals) && operand_valid(
            program,
            right,
            locals,
        ),
        Rvalue::UnaryOp(_, op) => operand_valid(program, op, locals),
        Rvalue::Discriminant(place) => place_valid(program, place, locals),
        Rvalue::CopyForDeref(place) => place_valid(program, place, locals),
        Rvalue::Aggregate(kind, operands) => {
            let kind_valid = match kind {
                AggregateKind::Adt(def, _) => *def < program.defs.len(),
                AggregateKind::Closure(def) => *def < program.defs.len(),
                AggregateKind::Other => true,
            };
            kind_valid && operands_valid(program, operands, locals)
        },
        Rvalue::Other => true,
    }
}

fn statement_valid(program: &Program, statement: &Statement, locals: usize) -> (valid: bool)
    ensures
        valid == statement.wf(*program, locals as nat),
{
    match statement {
        Statement::Assign(assign) => place_valid(program, &assign.place, locals) && rvalue_valid(
            program,
            &assign.rvalue,
            locals,
        ),
        Statement::Other => true,
    }
}

/// Returns whether two lists of blocks are the same.
fn same_blocks(left: &Vec<BasicBlock>, right: &Vec<BasicBlock>) -> (same: bool)
    ensures
        same == (left@ == right@),
{
    if left.len() != right.len() {
        return false;
    }
    for i in 0..left.len()
        invariant
            left@.len() == right@.len(),
            forall|j: int| 0 <= j < i ==> #[trigger] left@[j] == right@[j],
    {
        if left[i] != right[i] {
            return false;
        }
    }
    assert(left@ =~= right@);
    true
}

fn terminator_valid(
    program: &Program,
    terminator: &Terminator,
    locals: usize,
    successors: &Vec<BasicBlock>,
) -> (valid: bool)
    ensures
        valid == terminator.wf(*program, locals as nat, successors@),
{
    match terminator {
        Terminator::Call(call) => operand_valid(program, &call.func, locals) && none_or_below(
            &call.resolved,
            program.defs.len(),
        ) && operands_valid(program, &call.args, locals) && place_valid(
            program,
            &call.destination,
            locals,
        ),
        Terminator::SwitchInt(switch) => operand_valid(program, &switch.discr, locals)
            && switch.targets.len() > 0 && switch.targets.len() - 1 == switch.values.len()
            && same_blocks(&switch.targets, successors),
        Terminator::Other => true,
    }
}

fn block_valid(program: &Program, block: &BasicBlockData, locals: usize, blocks: usize) -> (valid:
    bool)
    ensures
        valid == block.wf(*program, locals as nat, blocks as nat),
{
    for s in 0..block.statements.len()
        invariant
            forall|j: int|
                0 <= j < s ==> (#[trigger] block.statements@[j]).wf(*program, locals as nat),
    {
        if !statement_valid(program, &block.statements[s], locals) {
            return false;
        }
    }
    terminator_valid(program, &block.terminator, locals, &block.successors) && all_below(
        &block.successors,
        blocks,
    ) && block.statements.len() < usize::MAX
}

#[verifier::loop_isolation(false)]
fn body_valid(program: &Program, body: &Body) -> (valid: bool)
    ensures
        valid == body.wf(*program),
{
    let locals: usize = body.local_decls.len();
    let blocks: usize = body.basic_blocks.len();
    if body.def_id >= program.defs.len() || body.arg_count >= locals || blocks == 0 || !all_below(
        &body.local_decls,
        program.types.len(),
    ) {
        return false;
    }
    for b in 0..blocks
        invariant
            blocks == body.basic_blocks@.len(),
            forall|j: int|
                0 <= j < b ==> (#[trigger] body.basic_blocks@[j]).wf(
                    *program,
                    locals as nat,
                    blocks as nat,
                ),
    {
        if !block_valid(program, &body.basic_blocks[b], locals, blocks) {
            return false;
        }
    }
    true
}

fn kind_valid(kind: &TyKind, defs: usize, below: usize) -> (valid: bool)
    ensures
        valid == kind.wf(defs as nat, below as nat),
{
    match kind {
        TyKind::Ref(inner, _) => *inner < below,
        TyKind::Slice(inner) => *inner < below,
        TyKind::Array(inner) => *inner < below,
        TyKind::Tuple(tys) => all_below(tys, below),
        TyKind::Adt(def, args) => *def < defs && all_below(args, below),
        TyKind::Dynamic(principal) => none_or_below(principal, defs),
        TyKind::Closure(def) => *def < defs,
        TyKind::FnDef(def) => *def < defs,
        TyKind::Bool => true,
        TyKind::Str => true,
        TyKind::FnPtr => true,
        TyKind::Other => true,
    }
}

fn def_valid(program: &Program, def: &Def, def_id: DefId) -> (valid: bool)
    ensures
        valid == def.wf(*program, def_id),
{
    let kind_valid = match def.kind {
        DefKind::Const(ty) => ty < program.types.len(),
        _ => true,
    };
    kind_valid && match &def.body {
        Some(body) => body_valid(program, body) && body.def_id == def_id,
        None => true,
    }
}

impl Program {
    /// Returns whether every index the program mentions names something that
    /// exists, and every type is built from earlier types.
    pub fn is_valid(&self) -> (valid: bool)
        ensures
            valid == self.wf(),
    {
        for d in 0..self.defs.len()
            invariant
                forall|e: usize| e < d ==> (#[trigger] self.defs@[e as int]).wf(*self, e),
        {
            if !def_valid(self, &self.defs[d], d) {
                assert(!self.defs@[d as int].wf(*self, d));
                return false;
            }
        }
        for t in 0..self.types.len()
            invariant
                forall|u: int|
                    0 <= u < t ==> (#[trigger] self.types@[u]).kind.wf(
                        self.defs@.len(),
                        u as nat,
                    ) && self.types@[u].erased < self.types@.len(),
        {
            if !kind_valid(&self.types[t].kind, self.defs.len(), t) || self.types[t].erased
                >= self.types.len() {
                assert(!(self.types@[t as int].kind.wf(self.defs@.len(), t as nat)
                    && self.types@[t as int].erased < self.types@.len()));
                return false;
            }
        }
        all_below(&self.free_items, self.defs.len()) && all_below(
            &self.local_defs,
            self.defs.len(),
        )
    }
}

} // verus!
