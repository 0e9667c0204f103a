//! The auth-gate dataflow.
//!
//! The engine underneath stage 5: a forward must-analysis over one body that
//! propagates whether an authorization check has already been passed. Unwind
//! and cleanup edges lead to cleanup blocks only, so they never dilute the
//! state of an ordinary block.
//!
//! Which program points count as a check is not decided here; [`crate::gating`]
//! derives them from the comparisons of stage 3 and from the call graph, and
//! passes them in.

use crate::cosmwasm;
use crate::dense::{DenseSet, PairSet};
use crate::graph;
use crate::mir::{
    AggregateKind, Assign, BasicBlock, Body, Location, Program, Rvalue, Statement,
};
use crate::mir_util;
use vstd::prelude::*;

verus! {

/// Whether an authorization check has been observed on every path to a
/// program point.
#[derive(Debug, Clone, Copy, PartialEq, Eq, Structural)]
pub enum AuthState {
    Unchecked,
    Checked,
}

impl AuthState {
    pub fn of(checked: bool) -> (state: Self)
        ensures
            state == state_of(checked),
    {
        if checked {
            AuthState::Checked
        } else {
            AuthState::Unchecked
        }
    }

    pub fn is_checked(self) -> (checked: bool)
        ensures
            checked == (self is Checked),
    {
        self == AuthState::Checked
    }

    /// Joins the states of two incoming paths and returns whether `self`
    /// changed. A meet in the intuitive reading: only a point that is checked
    /// on both incoming paths stays checked.
    pub fn join(&mut self, other: &Self) -> (changed: bool)
        ensures
            *final(self) == joined(*old(self), *other),
            changed == (*final(self) != *old(self)),
    {
        let merged = match (*self, *other) {
            (AuthState::Checked, AuthState::Checked) => AuthState::Checked,
            _ => AuthState::Unchecked,
        };
        if merged != *self {
            *self = merged;
            true
        } else {
            false
        }
    }
}

pub open spec fn state_of(checked: bool) -> AuthState {
    if checked {
        AuthState::Checked
    } else {
        AuthState::Unchecked
    }
}

/// The state of a point two paths lead to.
pub open spec fn joined(left: AuthState, right: AuthState) -> AuthState {
    state_of(left is Checked && right is Checked)
}

/// Joining is commutative, associative and idempotent, with `Checked` as its
/// neutral element.
pub proof fn lemma_join_semilattice(a: AuthState, b: AuthState, c: AuthState)
    ensures
        joined(a, b) == joined(b, a),
        joined(joined(a, b), c) == joined(a, joined(b, c)),
        joined(a, a) == a,
        joined(a, AuthState::Checked) == a,
        joined(AuthState::Checked, a) == a,
{
}

/// The state every block but the first starts out with.
pub open spec fn bottom() -> AuthState {
    AuthState::Checked
}

/// The state a block starts out with is neutral in a join on either side.
pub proof fn lemma_bottom_is_neutral(state: AuthState)
    ensures
        joined(state, bottom()) == state,
        joined(bottom(), state) == state,
{
}

/// Where a body checks the sender.
#[verifier::ext_equal]
pub ghost struct Checks {
    /// The program points that are a check.
    pub points: Set<(usize, usize)>,
    /// The blocks whose entry is a check: whoever gets there has passed one.
    pub entries: Set<usize>,
}

impl Checks {
    /// Checks at program points alone.
    pub open spec fn at_points(points: Set<(usize, usize)>) -> Checks {
        Checks { points, entries: Set::empty() }
    }

    /// Every check of `self` is one of `other`.
    pub open spec fn within(self, other: Checks) -> bool {
        self.points.subset_of(other.points) && self.entries.subset_of(other.entries)
    }
}

/// Neither the entry nor a point of `block` is a check.
pub open spec fn clear_block(body: Body, checks: Checks, block: usize) -> bool {
    !checks.entries.contains(block) && forall|k: usize|
        k <= body.basic_blocks@[block as int].statements@.len()
            ==> !#[trigger] checks.points.contains((block, k))
}

/// Control may pass from one block to the next without crossing a check.
pub open spec fn unchecked_edge(
    body: Body,
    checks: Checks,
) -> spec_fn(usize, usize) -> bool {
    |a: usize, b: usize| mir_util::flow_edge(body)(a, b) && clear_block(body, checks, a)
}

/// The state on entry to a block: `Unchecked` exactly when the entry is no check
/// itself, the body is entered unchecked and some path from its start leads to
/// the block without crossing a check.
pub open spec fn entry_state(
    body: Body,
    checks: Checks,
    entry: AuthState,
    block: usize,
) -> AuthState {
    state_of(
        checks.entries.contains(block) || !(entry is Unchecked && graph::reaches(
            unchecked_edge(body, checks),
            set![0usize],
            block,
        )),
    )
}

/// The state in front of a program point.
pub open spec fn state_before(
    body: Body,
    checks: Checks,
    entry: AuthState,
    location: Location,
) -> AuthState {
    state_of(
        entry_state(body, checks, entry, location.block) is Checked || exists|k: usize|
            k < location.statement_index && #[trigger] checks.points.contains(
                (location.block, k),
            ),
    )
}

/// The state joined over all successful returns; a function without any cannot
/// vouch for its caller.
pub open spec fn always_state(
    body: Body,
    checks: Checks,
    entry: AuthState,
    ok_points: Seq<Location>,
) -> AuthState {
    state_of(
        ok_points.len() > 0 && forall|i: int|
            0 <= i < ok_points.len() ==> state_before(
                body,
                checks,
                entry,
                #[trigger] ok_points[i],
            ) is Checked,
    )
}

/// More checks, or a checked entry, never turn a checked block unchecked.
pub proof fn lemma_entry_state_monotone(
    body: Body,
    fewer: Checks,
    more: Checks,
    weaker: AuthState,
    stronger: AuthState,
    block: usize,
)
    requires
        fewer.within(more),
        weaker is Checked ==> stronger is Checked,
        entry_state(body, fewer, weaker, block) is Checked,
    ensures
        entry_state(body, more, stronger, block) is Checked,
{
    let narrow = unchecked_edge(body, more);
    let wide = unchecked_edge(body, fewer);
    if stronger is Unchecked && graph::reaches(narrow, set![0usize], block) {
        let path = choose|path: Seq<usize>| graph::leads(narrow, set![0usize], path, block);
        assert forall|i: int| 0 <= i < path.len() - 1 implies wide(
            #[trigger] path[i],
            path[i + 1],
        ) by {
            assert(narrow(path[i], path[i + 1]));
            assert forall|k: usize|
                k <= body.basic_blocks@[path[i] as int].statements@.len()
                    implies !#[trigger] fewer.points.contains((path[i], k)) by {
                assert(!more.points.contains((path[i], k)));
            }
        }
        assert(graph::leads(wide, set![0usize], path, block));
    }
}

/// More checks, or a checked entry, never turn a checked point unchecked.
pub proof fn lemma_state_before_monotone(
    body: Body,
    fewer: Checks,
    more: Checks,
    weaker: AuthState,
    stronger: AuthState,
    location: Location,
)
    requires
        fewer.within(more),
        weaker is Checked ==> stronger is Checked,
        state_before(body, fewer, weaker, location) is Checked,
    ensures
        state_before(body, more, stronger, location) is Checked,
{
    if entry_state(body, fewer, weaker, location.block) is Checked {
        lemma_entry_state_monotone(body, fewer, more, weaker, stronger, location.block);
    } else {
        let k = choose|k: usize|
            k < location.statement_index && #[trigger] fewer.points.contains((location.block, k));
        assert(more.points.contains((location.block, k)));
    }
}

/// More checks, or a checked entry, never turn an always-checking function into
/// one that is not.
pub proof fn lemma_always_state_monotone(
    body: Body,
    fewer: Checks,
    more: Checks,
    weaker: AuthState,
    stronger: AuthState,
    ok_points: Seq<Location>,
)
    requires
        fewer.within(more),
        weaker is Checked ==> stronger is Checked,
        always_state(body, fewer, weaker, ok_points) is Checked,
    ensures
        always_state(body, more, stronger, ok_points) is Checked,
{
    assert forall|i: int| 0 <= i < ok_points.len() implies state_before(
        body,
        more,
        stronger,
        #[trigger] ok_points[i],
    ) is Checked by {
        lemma_state_before_monotone(body, fewer, more, weaker, stronger, ok_points[i]);
    }
}

/// A check stands in front of a point within its own block, the entry included.
pub open spec fn checked_in_block(checks: Checks, location: Location) -> bool {
    checks.entries.contains(location.block) || exists|k: usize|
        k < location.statement_index && #[trigger] checks.points.contains((location.block, k))
}

/// Every path from the start of an unchecked body to a checked point crosses a
/// check: in one of the blocks it passes through, or in the block of the point,
/// in front of it.
pub proof fn lemma_checked_point_is_guarded(
    body: Body,
    checks: Checks,
    path: Seq<usize>,
    location: Location,
)
    requires
        graph::walk(mir_util::flow_edge(body), path),
        path[0] == 0,
        path.last() == location.block,
        state_before(body, checks, AuthState::Unchecked, location) is Checked,
    ensures
        checked_in_block(checks, location) || exists|i: int|
            0 <= i < path.len() - 1 && !clear_block(body, checks, #[trigger] path[i]),
{
    if forall|i: int|
        0 <= i < path.len() - 1 ==> clear_block(body, checks, #[trigger] path[i]) {
        let edge = unchecked_edge(body, checks);
        assert forall|i: int| 0 <= i < path.len() - 1 implies edge(
            #[trigger] path[i],
            path[i + 1],
        ) by {
            assert(mir_util::flow_edge(body)(path[i], path[i + 1]));
        }
        assert(graph::leads(edge, set![0usize], path, path.last()));
    }
}

/// A function without any successful return never vouches for its caller, not
/// even where every block of it is checked.
pub proof fn lemma_no_successful_return_never_vouches(
    body: Body,
    checks: Checks,
    entry: AuthState,
)
    ensures
        always_state(body, checks, entry, Seq::empty()) is Unchecked,
{
}

/// Forward must-analysis propagating [`AuthState`] through a body.
struct AuthGate {
    /// Program points that count as an authorization check.
    check_locations: PairSet,
    /// Blocks whose entry counts as one.
    checked_entries: DenseSet,
    /// State at the function entry: `Unchecked` for a standalone analysis,
    /// `Checked` once an interprocedural context says every caller checks
    /// first.
    entry_checked: AuthState,
}

impl AuthGate {
    /// Neutral element of the join. The optimistic initialization is lowered
    /// to `Unchecked` at every join point that has an unchecked predecessor.
    fn bottom_value(&self) -> (state: AuthState)
        ensures
            state == bottom(),
    {
        AuthState::Checked
    }

    fn initialize_start_block(&self, state: &mut AuthState)
        ensures
            *final(state) == self.entry_checked,
    {
        *state = self.entry_checked;
    }

    /// The effect of a statement or terminator.
    fn apply_primary_effect(&self, state: &mut AuthState, location: Location)
        ensures
            *final(state) == (if self.check_locations@.contains(location.pair()) {
                AuthState::Checked
            } else {
                *old(state)
            }),
    {
        if self.check_locations.contains(location.block, location.statement_index) {
            *state = AuthState::Checked;
        }
    }

    /// The effect of the entry of a block.
    fn apply_entry(&self, state: &mut AuthState, block: BasicBlock)
        ensures
            *final(state) == (if self.checked_entries@.contains(block) {
                AuthState::Checked
            } else {
                *old(state)
            }),
    {
        if self.checked_entries.contains(block) {
            *state = AuthState::Checked;
        }
    }

    /// The effect of the first `count` points of a block.
    fn apply_points(&self, state: &mut AuthState, block: BasicBlock, count: usize)
        ensures
            *final(state) == state_of(
                *old(state) is Checked || exists|k: usize|
                    k < count && #[trigger] self.check_locations@.contains((block, k)),
            ),
    {
        for k in 0..count
            invariant
                *state == state_of(
                    *old(state) is Checked || exists|j: usize|
                        j < k && #[trigger] self.check_locations@.contains((block, j)),
                ),
        {
            self.apply_primary_effect(state, Location { block, statement_index: k });
        }
    }
}

/// Result of the gating analysis for one body.
#[derive(Debug)]
pub struct Gating {
    /// State on entry to each basic block, indexed by block number.
    block_states: Vec<AuthState>,
    /// The program points that are a check.
    check_locations: PairSet,
    /// State joined over all `Ok`-return points: `Checked` exactly when the
    /// function checks on every path that returns successfully.
    always: AuthState,
}

impl Gating {
    /// The state on entry to each block.
    pub closed spec fn states(self) -> Seq<AuthState> {
        self.block_states@
    }

    /// The state joined over all successful returns.
    pub closed spec fn joined_returns(self) -> AuthState {
        self.always
    }

    /// The state in front of a program point.
    pub closed spec fn point_state(self, location: Location) -> AuthState {
        state_of(
            (location.block < self.block_states@.len()
                && self.block_states@[location.block as int] is Checked) || exists|k: usize|
                k < location.statement_index && #[trigger] self.check_locations@.contains(
                    (location.block, k),
                ),
        )
    }

    /// State on entry to `block`.
    pub fn at(&self, block: BasicBlock) -> (state: AuthState)
        ensures
            state == (if block < self.states().len() {
                self.states()[block as int]
            } else {
                AuthState::Unchecked
            }),
    {
        if block < self.block_states.len() {
            self.block_states[block]
        } else {
            AuthState::Unchecked
        }
    }

    /// State in front of the program point `location`.
    pub fn before(&self, location: Location) -> (state: AuthState)
        ensures
            state == self.point_state(location),
    {
        let mut state = self.at(location.block);
        for k in 0..location.statement_index
            invariant
                state == state_of(
                    (location.block < self.block_states@.len()
                        && self.block_states@[location.block as int] is Checked) || exists|
                        j: usize,
                    |
                        j < k && #[trigger] self.check_locations@.contains((location.block, j)),
                ),
        {
            if self.check_locations.contains(location.block, k) {
                state = AuthState::Checked;
            }
        }
        state
    }

    pub fn always(&self) -> (state: AuthState)
        ensures
            state == self.joined_returns(),
    {
        self.always
    }
}

/// How many blocks are still checked.
spec fn checked_count(states: Seq<AuthState>) -> nat
    decreases states.len(),
{
    if states.len() == 0 {
        0
    } else {
        checked_count(states.drop_last()) + if states.last() is Checked {
            1nat
        } else {
            0nat
        }
    }
}

proof fn lemma_checked_count(before: Seq<AuthState>, after: Seq<AuthState>)
    requires
        before.len() == after.len(),
        forall|i: int|
            0 <= i < before.len() ==> (#[trigger] before[i] is Unchecked ==> after[i] is Unchecked),
    ensures
        checked_count(after) <= checked_count(before),
        before != after ==> checked_count(after) < checked_count(before),
    decreases before.len(),
{
    if before.len() > 0 {
        lemma_checked_count(before.drop_last(), after.drop_last());
        assert(before =~= before.drop_last().push(before.last()));
        assert(after =~= after.drop_last().push(after.last()));
        assert(before[before.len() - 1] is Unchecked ==> after[after.len() - 1] is Unchecked);
    } else {
        assert(before =~= after);
    }
}

/// A result of the gating analysis says what holds of a body with the given
/// checks.
pub open spec fn solves(
    gating: Gating,
    body: Body,
    checks: Checks,
    entry: AuthState,
    ok_points: Seq<Location>,
) -> bool {
    &&& gating.states().len() == body.basic_blocks@.len()
    &&& forall|b: usize|
        b < body.basic_blocks@.len() ==> #[trigger] gating.states()[b as int] == entry_state(
            body,
            checks,
            entry,
            b,
        )
    &&& forall|location: Location|
        location.block < body.basic_blocks@.len() ==> #[trigger] gating.point_state(location)
            == state_before(body, checks, entry, location)
    &&& gating.joined_returns() == always_state(body, checks, entry, ok_points)
}

/// Runs the gating analysis on one body.
pub fn solve(
    program: &Program,
    body: &Body,
    check_locations: PairSet,
    entry_checked: AuthState,
    ok_points: &Vec<Location>,
) -> (gating: Gating)
    requires
        body.wf(*program),
    ensures
        solves(
            gating,
            *body,
            Checks::at_points(check_locations@),
            entry_checked,
            ok_points@,
        ),
{
    solve_with_entries(
        program,
        body,
        check_locations,
        DenseSet::new(),
        entry_checked,
        ok_points,
    )
}

/// Lowers the state of every block that an unchecked path leads to, and returns
/// the states on which that settles. The entry of a block counts for what comes
/// behind it.
#[verifier::loop_isolation(false)]
fn iterate_to_fixpoint(
    analysis: &AuthGate,
    program: &Program,
    body: &Body,
    checks: Ghost<Checks>,
) -> (states: Vec<AuthState>)
    requires
        body.wf(*program),
        analysis.check_locations@ == checks@.points,
        analysis.checked_entries@ == checks@.entries,
    ensures
        states@.len() == body.basic_blocks@.len(),
        forall|b: usize|
            b < body.basic_blocks@.len() ==> #[trigger] states@[b as int] == state_of(
                !(analysis.entry_checked is Unchecked && graph::reaches(
                    unchecked_edge(*body, checks@),
                    set![0usize],
                    b,
                )),
            ),
{
    let ghost checks = checks@;
    let ghost entry_checked = analysis.entry_checked;
    let n: usize = body.basic_blocks.len();
    let ghost edge = unchecked_edge(*body, checks);
    let ghost start = set![0usize];

    let mut states: Vec<AuthState> = Vec::new();
    for b in 0..n
        invariant
            states@.len() == b,
            forall|c: int| 0 <= c < b ==> #[trigger] states@[c] is Checked,
    {
        states.push(analysis.bottom_value());
    }
    analysis.initialize_start_block(&mut states[0]);
    proof {
        graph::lemma_reaches_start(edge, start, 0);
    }

    let mut changed = true;
    while changed
        invariant
            states@.len() == n,
            states@[0] == (if entry_checked is Checked {
                states@[0]
            } else {
                AuthState::Unchecked
            }),
            forall|b: usize|
                b < n && #[trigger] states@[b as int] is Unchecked ==> entry_checked is Unchecked
                    && graph::reaches(edge, start, b),
            !changed ==> forall|a: usize, b: usize|
                a < n && states@[a as int] is Unchecked && #[trigger] edge(a, b)
                    ==> states@[b as int] is Unchecked,
        decreases
                checked_count(states@),
                if changed {
                    1int
                } else {
                    0int
                },
    {
        let ghost round = states@;
        changed = false;
        for a in 0..n
            invariant
                states@.len() == n,
                entry_checked is Unchecked ==> states@[0] is Unchecked,
                forall|b: usize|
                    b < n && #[trigger] states@[b as int] is Unchecked ==> entry_checked is Unchecked
                        && graph::reaches(edge, start, b),
                forall|b: int|
                    0 <= b < n && #[trigger] round[b] is Unchecked ==> states@[b] is Unchecked,
                !changed ==> states@ == round,
                changed ==> states@ != round,
                !changed ==> forall|p: usize, b: usize|
                    p < a && states@[p as int] is Unchecked && #[trigger] edge(p, b)
                        ==> states@[b as int] is Unchecked,
        {
            let mut exit = states[a];
            let data = &body.basic_blocks[a];
            assert(data.wf(*program, body.local_decls@.len(), body.basic_blocks@.len()));
            analysis.apply_entry(&mut exit, a);
            analysis.apply_points(&mut exit, a, data.statements.len() + 1);
            assert(exit is Unchecked <==> states@[a as int] is Unchecked && clear_block(
                *body,
                checks,
                a,
            ));
            let ghost source = states@[a as int];
            for i in 0..data.successors.len()
                invariant
                    states@.len() == n,
                    entry_checked is Unchecked ==> states@[0] is Unchecked,
                    source is Unchecked ==> states@[a as int] is Unchecked,
                    forall|b: usize|
                        b < n && #[trigger] states@[b as int] is Unchecked
                            ==> entry_checked is Unchecked && graph::reaches(edge, start, b),
                    forall|b: int|
                        0 <= b < n && #[trigger] round[b] is Unchecked ==> states@[b] is Unchecked,
                    !changed ==> states@ == round,
                    changed ==> states@ != round,
                    !changed ==> forall|p: usize, b: usize|
                        p < a && states@[p as int] is Unchecked && #[trigger] edge(p, b)
                            ==> states@[b as int] is Unchecked,
                    forall|k: int|
                        0 <= k < i && exit is Unchecked
                            ==> states@[#[trigger] data.successors@[k] as int] is Unchecked,
            {
                let target: usize = data.successors[i];
                let ghost before = states@;
                let lowered = states[target].join(&exit);
                if lowered {
                    changed = true;
                }
                proof {
                    if exit is Unchecked {
                        assert(data.successors@.contains(target));
                        assert(edge(a, target));
                        graph::lemma_reaches_step(edge, start, a, target);
                    }
                    if lowered {
                        assert(before[target as int] is Checked && states@[target as int] is Unchecked);
                        assert(round[target as int] is Checked);
                    } else {
                        assert(states@ =~= before);
                    }
                }
            }
            proof {
                if !changed {
                    assert forall|p: usize, b: usize|
                        p < a + 1 && states@[p as int] is Unchecked && #[trigger] edge(
                            p,
                            b,
                        ) implies states@[b as int] is Unchecked by {
                        if p == a {
                            let k = choose|k: int|
                                0 <= k < data.successors@.len() && data.successors@[k] == b;
                            assert(states@[data.successors@[k] as int] is Unchecked);
                        }
                    }
                }
            }
        }
        proof {
            lemma_checked_count(round, states@);
        }
    }
    assert forall|b: usize| b < n implies #[trigger] states@[b as int] == state_of(
        !(entry_checked is Unchecked && graph::reaches(edge, start, b)),
    ) by {
        if entry_checked is Unchecked && graph::reaches(edge, start, b) {
            let low = Set::new(|c: usize| c < n && states@[c as int] is Unchecked);
            assert forall|p: usize, q: usize| low.contains(p) && #[trigger] edge(p, q) implies low.contains(
                q,
            ) by {
                let data = body.basic_blocks@[p as int];
                assert(data.wf(*program, body.local_decls@.len(), body.basic_blocks@.len()));
                let k = choose|k: int|
                    0 <= k < data.successors@.len() && data.successors@[k] == q;
                assert(data.successors@[k] < n);
            }
            graph::lemma_reaches_closed(edge, start, low, b);
        }
    }
    states
}

/// Runs the gating analysis on one body in which the entry of some blocks is a
/// check.
#[verifier::loop_isolation(false)]
pub(crate) fn solve_with_entries(
    program: &Program,
    body: &Body,
    check_locations: PairSet,
    checked_entries: DenseSet,
    entry_checked: AuthState,
    ok_points: &Vec<Location>,
) -> (gating: Gating)
    requires
        body.wf(*program),
    ensures
        solves(
            gating,
            *body,
            (Checks { points: check_locations@, entries: checked_entries@ }),
            entry_checked,
            ok_points@,
        ),
{
    let ghost checks = Checks { points: check_locations@, entries: checked_entries@ };
    let analysis = AuthGate { check_locations, checked_entries, entry_checked };
    assert(analysis.check_locations@ == checks.points);
    assert(analysis.checked_entries@ == checks.entries);
    let n: usize = body.basic_blocks.len();
    let ghost edge = unchecked_edge(*body, checks);
    let ghost start = set![0usize];
    let mut states = iterate_to_fixpoint(&analysis, program, body, Ghost(checks));
    let ghost solved = states@;
    for b in 0..n
        invariant
            states@.len() == n,
            forall|c: usize|
                c < b ==> #[trigger] states@[c as int] == entry_state(
                    *body,
                    checks,
                    entry_checked,
                    c,
                ),
            forall|c: int| b <= c < n ==> #[trigger] states@[c] == solved[c],
    {
        assert(states@[b as int] == solved[b as int]);
        assert(solved[b as int] == state_of(
            !(entry_checked is Unchecked && graph::reaches(edge, start, b)),
        ));
        analysis.apply_entry(&mut states[b], b);
    }

    // A function without any successful return cannot vouch for a caller, so
    // the absence of `Ok`-return points is `Unchecked` rather than the neutral
    // element of the join.
    let mut always = AuthState::Checked;
    for i in 0..ok_points.len()
        invariant
            always == state_of(
                forall|j: int|
                    0 <= j < i ==> state_before(
                        *body,
                        checks,
                        entry_checked,
                        #[trigger] ok_points@[j],
                    ) is Checked,
            ),
    {
        let location = ok_points[i];
        let mut state = if location.block < n {
            states[location.block]
        } else {
            analysis.bottom_value()
        };
        proof {
            if location.block >= n {
                lemma_outside_unreached(*program, *body, checks, location.block);
            }
        }
        analysis.apply_points(&mut state, location.block, location.statement_index);
        assert(state == state_before(*body, checks, entry_checked, location));
        always.join(&state);
    }
    if ok_points.len() == 0 {
        always = AuthState::Unchecked;
    }
    let gating = Gating { block_states: states, check_locations: analysis.check_locations, always };
    assert(gating.check_locations@ == checks.points);
    assert forall|location: Location| location.block < n implies #[trigger] gating.point_state(
        location,
    ) == state_before(*body, checks, entry_checked, location) by {
        assert(gating.block_states@[location.block as int] == entry_state(
            *body,
            checks,
            entry_checked,
            location.block,
        ));
    }
    gating
}

/// No path leads out of a body.
proof fn lemma_outside_unreached(
    program: Program,
    body: Body,
    checks: Checks,
    block: usize,
)
    requires
        body.wf(program),
        block >= body.basic_blocks@.len(),
    ensures
        !graph::reaches(unchecked_edge(body, checks), set![0usize], block),
{
    let edge = unchecked_edge(body, checks);
    if graph::reaches(edge, set![0usize], block) {
        let inside = Set::new(|b: usize| b < body.basic_blocks@.len());
        assert forall|p: usize, q: usize| inside.contains(p) && #[trigger] edge(p, q) implies inside.contains(
            q,
        ) by {
            let data = body.basic_blocks@[p as int];
            assert(data.wf(program, body.local_decls@.len(), body.basic_blocks@.len()));
            let k = choose|k: int| 0 <= k < data.successors@.len() && data.successors@[k] == q;
            assert(data.successors@[k] < body.basic_blocks@.len());
        }
        graph::lemma_reaches_closed(edge, set![0usize], inside, block);
    }
}

/// An assignment `_0 = Ok(..)`.
pub open spec fn is_ok_assign(program: Program, statement: Statement) -> bool {
    match statement {
        Statement::Assign(assign) => assign.place.local == 0 && assign.place.projection@.len() == 0
            && (assign.rvalue matches Rvalue::Aggregate(AggregateKind::Adt(def, variant), _)
            && variant == 0 && program.defs@[def as int].is_result),
        Statement::Other => false,
    }
}

/// The successful returns of the blocks below `block` and of the first
/// `statement` statements of `block`.
pub open spec fn ok_points_before(
    program: Program,
    body: Body,
    block: nat,
    statement: nat,
) -> Seq<Location>
    decreases block, statement,
{
    if statement > 0 {
        let before = ok_points_before(program, body, block, (statement - 1) as nat);
        if is_ok_assign(program, body.basic_blocks@[block as int].statements@[statement - 1]) {
            before.push(
                Location { block: block as usize, statement_index: (statement - 1) as usize },
            )
        } else {
            before
        }
    } else if block > 0 {
        ok_points_before(
            program,
            body,
            (block - 1) as nat,
            body.basic_blocks@[block - 1].statements@.len(),
        )
    } else {
        Seq::empty()
    }
}

/// The successful returns of a body, in block and statement order.
pub open spec fn ok_points_of(program: Program, body: Body) -> Seq<Location> {
    ok_points_before(program, body, body.basic_blocks@.len(), 0)
}

/// Returns whether a statement is `_0 = Ok(..)`.
fn assigns_ok(program: &Program, assign: &Assign, locals: Ghost<nat>) -> (ok: bool)
    requires
        assign.rvalue.wf(*program, locals@),
    ensures
        ok == is_ok_assign(*program, Statement::Assign(*assign)),
{
    if assign.place.local != 0 || assign.place.projection.len() != 0 {
        return false;
    }
    match &assign.rvalue {
        Rvalue::Aggregate(kind, _) => match kind {
            // `Result::Ok` is variant 0.
            AggregateKind::Adt(def, variant) => *variant == 0 && cosmwasm::is_result_def(
                program,
                *def,
            ),
            _ => false,
        },
        _ => false,
    }
}

/// The program points at which a function assigns its successful return value,
/// `_0 = Ok(..)`. They are the reference points of the must-analysis: a check
/// has to be passed before every one of them.
#[verifier::loop_isolation(false)]
pub fn ok_return_points(program: &Program, body: &Body) -> (points: Vec<Location>)
    requires
        body.wf(*program),
    ensures
        points@ == ok_points_of(*program, *body),
        forall|i: int|
            0 <= i < points@.len() ==> (#[trigger] points@[i]).block < body.basic_blocks@.len(),
{
    let mut points: Vec<Location> = Vec::new();
    for b in 0..body.basic_blocks.len()
        invariant
            points@ == ok_points_before(*program, *body, b as nat, 0),
            forall|i: int|
                0 <= i < points@.len() ==> (#[trigger] points@[i]).block < body.basic_blocks@.len(),
    {
        let data = &body.basic_blocks[b];
        assert(data.wf(*program, body.local_decls@.len(), body.basic_blocks@.len()));
        for s in 0..data.statements.len()
            invariant
                points@ == ok_points_before(*program, *body, b as nat, s as nat),
                forall|i: int|
                    0 <= i < points@.len() ==> (#[trigger] points@[i]).block
                        < body.basic_blocks@.len(),
        {
            assert(data.statements@[s as int].wf(*program, body.local_decls@.len()));
            if let Statement::Assign(assign) = &data.statements[s] {
                if assigns_ok(program, assign, Ghost(body.local_decls@.len())) {
                    points.push(Location { block: b, statement_index: s });
                }
            }
        }
    }
    points
}

} // verus!
