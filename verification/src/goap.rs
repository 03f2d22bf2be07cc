//! Goal-oriented action planning.
//!
//! The world is a bit field of conditions. An action needs some bits, sets
//! some and clears some, at a cost. The planner finds the cheapest sequence of
//! actions that leads from the present state to one in which a goal's bits are
//! set.
use vstd::prelude::*;

verus! {

/// State of the world, one bit per condition.
#[derive(Clone, Copy, Debug, PartialEq, Eq, Hash, Structural)]
pub struct WorldState(pub u32);

/// How many bits of `x` are set.
pub open spec fn ones(x: u32) -> int
    decreases x,
{
    if x == 0 {
        0
    } else {
        proof {
            assert(x != 0 ==> x >> 1 < x) by (bit_vector);
        }
        (x & 1) as int + ones(x >> 1)
    }
}

proof fn lemma_ones_bound(x: u32, n: u32)
    requires
        n <= 32,
        n < 32 ==> x >> n == 0,
    ensures
        0 <= ones(x) <= n,
    decreases n,
{
    if x != 0 {
        if n == 0 {
            assert(x >> 0u32 == x) by (bit_vector);
        } else {
            let m = (n - 1) as u32;
            let y = x >> 1;
            assert(x & 1 <= 1) by (bit_vector);
            assert(m < 32 && (n == 32 || x >> n == 0) && n == m + 1 && y == x >> 1 ==> y >> m == 0)
                by (bit_vector);
            lemma_ones_bound(y, m);
        }
    }
}

impl WorldState {
    /// Some bit of `flag` is set.
    pub fn has(self, flag: u32) -> (r: bool)
        ensures
            r == (self.0 & flag != 0),
    {
        self.0 & flag != 0
    }

    /// The state with the bits of `flag` set.
    pub fn set(self, flag: u32) -> (r: Self)
        ensures
            r == WorldState(self.0 | flag),
    {
        WorldState(self.0 | flag)
    }

    /// The state with the bits of `flag` cleared.
    pub fn clear(self, flag: u32) -> (r: Self)
        ensures
            r == WorldState(self.0 & !flag),
    {
        WorldState(self.0 & !flag)
    }

    /// All bits of `required` are set.
    pub open spec fn meets(self, required: WorldState) -> bool {
        self.0 & required.0 == required.0
    }

    /// All bits of `required` are set.
    pub fn satisfies(self, required: WorldState) -> (r: bool)
        ensures
            r == self.meets(required),
    {
        self.0 & required.0 == required.0
    }

    /// In how many bits the two states differ.
    pub fn distance(self, goal: WorldState) -> (r: u32)
        ensures
            r == ones(self.0 ^ goal.0),
    {
        let mut x: u32 = self.0 ^ goal.0;
        let mut n: u32 = 0;
        proof {
            lemma_ones_bound(x, 32);
        }
        while x != 0
            invariant
                n + ones(x) == ones(self.0 ^ goal.0),
                ones(self.0 ^ goal.0) <= 32,
            decreases x,
        {
            proof {
                assert(x != 0 ==> x >> 1 < x) by (bit_vector);
                assert(x & 1 <= 1) by (bit_vector);
                lemma_ones_bound(x >> 1, 32);
            }
            n += x & 1;
            x >>= 1;
        }
        n
    }
}

/// Two states are as far from each other both ways, and not at all only where
/// they are the same.
pub proof fn law_distance(a: WorldState, b: WorldState)
    ensures
        ones(a.0 ^ b.0) == ones(b.0 ^ a.0),
        0 <= ones(a.0 ^ b.0) <= 32,
        ones(a.0 ^ b.0) == 0 <==> a == b,
{
    let x = a.0;
    let y = b.0;
    assert(x ^ y == y ^ x) by (bit_vector);
    assert(x ^ y == 0 <==> x == y) by (bit_vector);
    lemma_ones_bound(x ^ y, 32);
    if x != y {
        lemma_ones_positive(x ^ y);
    }
}

/// A number other than zero has a bit set.
proof fn lemma_ones_positive(x: u32)
    requires
        x != 0,
    ensures
        ones(x) > 0,
    decreases x,
{
    let y = x >> 1;
    assert(x != 0 && y == x >> 1 ==> y < x && x & 1 <= 1 && (y == 0 ==> x & 1 == 1)) by (bit_vector);
    if y != 0 {
        lemma_ones_positive(y);
    }
}

/// Setting bits makes the state meet them, and clearing them undoes that.
pub proof fn law_set_then_clear(s: WorldState, flag: u32)
    ensures
        WorldState(s.0 | flag).meets(WorldState(flag)),
        (s.0 | flag) & !flag == s.0 & !flag,
        (s.0 & !flag) & flag == 0,
{
    let x = s.0;
    assert((x | flag) & flag == flag) by (bit_vector);
    assert((x | flag) & !flag == x & !flag) by (bit_vector);
    assert((x & !flag) & flag == 0) by (bit_vector);
}

pub const HAS_TARGET: u32 = 0x0001;

pub const IN_RANGE: u32 = 0x0002;

pub const IN_COVER: u32 = 0x0004;

pub const HAS_LOS: u32 = 0x0008;

pub const TARGET_DEAD: u32 = 0x0010;

pub const IS_SUPPRESSED: u32 = 0x0020;

pub const HEALTH_LOW: u32 = 0x0040;

pub const AT_SAFE_POS: u32 = 0x0080;

pub const IS_RELOADING: u32 = 0x0100;

pub const HAS_AMMO: u32 = 0x0200;

pub const ALLY_DOWN: u32 = 0x0400;

pub const NEAR_ALLY: u32 = 0x0800;

pub const SQUAD_RETREATING: u32 = 0x1000;

pub const IS_FLANKING: u32 = 0x2000;

pub const COVER_AVAILABLE: u32 = 0x4000;

pub const TAKING_FIRE: u32 = 0x8000;

/// Something that can be done: the bits it needs, sets and clears, and what it
/// costs, in hundredths.
#[derive(Clone, Copy, Debug)]
pub struct Action {
    pub name: &'static str,
    pub preconditions: WorldState,
    pub positive_effects: WorldState,
    pub negative_effects: WorldState,
    pub cost: u32,
}

impl Action {
    /// The bits that the action needs are set.
    pub open spec fn runnable(self, state: WorldState) -> bool {
        state.meets(self.preconditions)
    }

    /// The state after the action. A bit that it both sets and clears ends up
    /// clear.
    pub open spec fn effect(self, state: WorldState) -> WorldState {
        WorldState((state.0 | self.positive_effects.0) & !self.negative_effects.0)
    }

    /// The bits that the action needs are set.
    pub fn can_run(&self, state: WorldState) -> (r: bool)
        ensures
            r == self.runnable(state),
    {
        state.satisfies(self.preconditions)
    }

    /// The state after the action. A bit that it both sets and clears ends up
    /// clear.
    pub fn apply(&self, state: WorldState) -> (r: WorldState)
        ensures
            r == self.effect(state),
    {
        let with_pos = WorldState(state.0 | self.positive_effects.0);
        WorldState(with_pos.0 & !self.negative_effects.0)
    }
}

/// The bit with the given number is set.
pub open spec fn bit_set(x: u32, i: u32) -> bool {
    (x >> i) & 1 == 1
}

/// After an action every bit that it clears is clear, every other bit that it
/// sets is set, and all else is as before.
pub proof fn law_effect_bit_by_bit(a: Action, state: WorldState, i: u32)
    requires
        i < 32,
    ensures
        bit_set(a.negative_effects.0, i) ==> !bit_set(a.effect(state).0, i),
        bit_set(a.positive_effects.0, i) && !bit_set(a.negative_effects.0, i) ==> bit_set(
            a.effect(state).0,
            i,
        ),
        !bit_set(a.positive_effects.0, i) && !bit_set(a.negative_effects.0, i) ==> bit_set(
            a.effect(state).0,
            i,
        ) == bit_set(state.0, i),
        bit_set(state.0, i) && !bit_set(a.negative_effects.0, i) ==> bit_set(a.effect(state).0, i),
{
    let s = state.0;
    let p = a.positive_effects.0;
    let n = a.negative_effects.0;
    let e = (s | p) & !n;
    assert(i < 32 && e == (s | p) & !n ==> ((e >> i) & 1 == 1 <==> (n >> i) & 1 != 1 && ((p >> i)
        & 1 == 1 || (s >> i) & 1 == 1))) by (bit_vector);
    assert(((n >> i) & 1 == 1) || ((n >> i) & 1 == 0)) by (bit_vector);
}

/// A state meets what is required where every bit that is required is set, and
/// only there; an action can run in just the states that meet what it needs.
pub proof fn law_meets_bit_by_bit(state: WorldState, required: WorldState, a: Action)
    ensures
        state.meets(required) <==> forall|i: u32|
            i < 32 && #[trigger] bit_set(required.0, i) ==> bit_set(state.0, i),
        a.runnable(state) <==> forall|i: u32|
            i < 32 && #[trigger] bit_set(a.preconditions.0, i) ==> bit_set(state.0, i),
{
    lemma_meets_bits(state.0, required.0);
    lemma_meets_bits(state.0, a.preconditions.0);
}

proof fn lemma_meets_bits(s: u32, q: u32)
    ensures
        s & q == q <==> forall|i: u32| i < 32 && #[trigger] bit_set(q, i) ==> bit_set(s, i),
{
    if s & q == q {
        assert forall|i: u32| i < 32 && #[trigger] bit_set(q, i) implies bit_set(s, i) by {
            assert(s & q == q && i < 32 && (q >> i) & 1 == 1 ==> (s >> i) & 1 == 1) by (bit_vector);
        }
    } else {
        let d = q & !s;
        assert(s & q != q && d == q & !s ==> d != 0) by (bit_vector);
        let i = lemma_some_bit(d);
        assert(d == q & !s && i < 32 && (d >> i) & 1 == 1 ==> (q >> i) & 1 == 1 && (s >> i) & 1 != 1)
            by (bit_vector);
        assert(bit_set(q, i));
    }
}

/// A number other than zero has a bit set.
proof fn lemma_some_bit(x: u32) -> (i: u32)
    requires
        x != 0,
    ensures
        i < 32,
        bit_set(x, i),
    decreases x,
{
    if x & 1 == 1 {
        assert((x >> 0u32) == x) by (bit_vector);
        0
    } else {
        let y = x >> 1;
        assert(x != 0 && x & 1 != 1 && y == x >> 1 ==> y != 0 && y < x && y >> 31u32 == 0)
            by (bit_vector);
        let j = lemma_some_bit(y);
        assert(y >> 31u32 == 0 && j < 32 && (y >> j) & 1 == 1 ==> j < 31) by (bit_vector);
        assert(y == x >> 1 && j < 31 && (y >> j) & 1 == 1 ==> (x >> ((j + 1) as u32)) & 1 == 1)
            by (bit_vector);
        (j + 1) as u32
    }
}

/// What the planner tries to achieve.
#[derive(Clone, Copy, Debug)]
pub struct Goal {
    pub name: &'static str,
    pub desired_state: WorldState,
    pub priority: u8,
}

/// Actions to be taken one after the other.
#[derive(Clone, Debug)]
pub struct Plan {
    pub actions: Vec<&'static str>,
    /// What all of them cost together, in hundredths.
    pub total_cost: u128,
}

impl Default for Plan {
    fn default() -> (r: Self)
        ensures
            r.actions@.len() == 0,
            r.total_cost == 0,
    {
        Plan { actions: Vec::new(), total_cost: 0 }
    }
}

impl Plan {
    /// Nothing is left to be done.
    pub fn is_empty(&self) -> (r: bool)
        ensures
            r == (self.actions@.len() == 0),
    {
        self.actions.len() == 0
    }

    /// The next action.
    pub fn current_action(&self) -> (r: Option<&'static str>)
        ensures
            r == (if self.actions@.len() > 0 {
                Some(self.actions@[0])
            } else {
                None
            }),
    {
        if self.actions.len() > 0 {
            Some(self.actions[0])
        } else {
            None
        }
    }

    /// Drops the next action.
    pub fn advance(&mut self)
        ensures
            final(self).total_cost == old(self).total_cost,
            final(self).actions@ == (if old(self).actions@.len() > 0 {
                old(self).actions@.drop_first()
            } else {
                old(self).actions@
            }),
    {
        if self.actions.len() > 0 {
            let _ = self.actions.remove(0);
            assert(self.actions@ =~= old(self).actions@.drop_first());
        }
    }
}

/// The state that the given actions lead to, by their positions in `actions`,
/// or `None` where one of them cannot run.
pub open spec fn run(actions: Seq<Action>, start: WorldState, steps: Seq<usize>) -> Option<WorldState>
    decreases steps.len(),
{
    if steps.len() == 0 {
        Some(start)
    } else {
        match run(actions, start, steps.drop_last()) {
            None => None,
            Some(state) => if steps.last() < actions.len() && actions[steps.last() as int].runnable(
                state,
            ) {
                Some(actions[steps.last() as int].effect(state))
            } else {
                None
            },
        }
    }
}

/// What the given actions cost together.
pub open spec fn cost_of(actions: Seq<Action>, steps: Seq<usize>) -> int
    decreases steps.len(),
{
    if steps.len() == 0 {
        0
    } else {
        cost_of(actions, steps.drop_last()) + actions[steps.last() as int].cost
    }
}

/// The actions lead from `start` to a state that meets `goal`, in at most
/// `max_depth` steps.
pub open spec fn achieves(
    actions: Seq<Action>,
    start: WorldState,
    goal: WorldState,
    max_depth: int,
    steps: Seq<usize>,
) -> bool {
    steps.len() <= max_depth && run(actions, start, steps) is Some && run(
        actions,
        start,
        steps,
    )->0.meets(goal)
}

/// The names of the given actions.
pub open spec fn names_of(actions: Seq<Action>, steps: Seq<usize>) -> Seq<&'static str> {
    Seq::new(steps.len(), |i: int| actions[steps[i] as int].name)
}

/// The plan achieves the goal, and no sequence of actions does so for less.
pub open spec fn cheapest(
    actions: Seq<Action>,
    start: WorldState,
    goal: WorldState,
    max_depth: int,
    plan: Plan,
) -> bool {
    &&& exists|steps: Seq<usize>| #[trigger]
        achieves(actions, start, goal, max_depth, steps) && plan.actions@ == names_of(
            actions,
            steps,
        ) && plan.total_cost == cost_of(actions, steps)
    &&& forall|steps: Seq<usize>| #[trigger]
        achieves(actions, start, goal, max_depth, steps) ==> plan.total_cost <= cost_of(
            actions,
            steps,
        )
}

/// No sequence of actions achieves the goal.
pub open spec fn unreachable_goal(
    actions: Seq<Action>,
    start: WorldState,
    goal: WorldState,
    max_depth: int,
) -> bool {
    forall|steps: Seq<usize>| !#[trigger] achieves(actions, start, goal, max_depth, steps)
}

/// One step runs the action and costs what the action does.
pub proof fn law_one_step(actions: Seq<Action>, start: WorldState, a: usize)
    requires
        a < actions.len(),
    ensures
        cost_of(actions, seq![a]) == actions[a as int].cost,
        run(actions, start, seq![a]) is Some <==> forall|i: u32|
            i < 32 && #[trigger] bit_set(actions[a as int].preconditions.0, i) ==> bit_set(
                start.0,
                i,
            ),
        run(actions, start, seq![a]) matches Some(end) ==> forall|i: u32|
            i < 32 ==> (#[trigger] bit_set(end.0, i) <==> !bit_set(
                actions[a as int].negative_effects.0,
                i,
            ) && (bit_set(actions[a as int].positive_effects.0, i) || bit_set(start.0, i))),
{
    let steps = seq![a];
    assert(steps.drop_last() =~= Seq::<usize>::empty());
    assert(cost_of(actions, steps.drop_last()) == 0);
    assert(run(actions, start, steps.drop_last()) == Some(start));
    law_meets_bit_by_bit(start, start, actions[a as int]);
    assert forall|i: u32| i < 32 && actions[a as int].runnable(start) implies (
    #[trigger] bit_set((run(actions, start, steps)->0).0, i) <==> !bit_set(
        actions[a as int].negative_effects.0,
        i,
    ) && (bit_set(actions[a as int].positive_effects.0, i) || bit_set(start.0, i))) by {
        law_effect_bit_by_bit(actions[a as int], start, i);
    }
}

/// Steps run one after the other from where the last left off, and their costs
/// add up.
pub proof fn law_steps_add_up(
    actions: Seq<Action>,
    start: WorldState,
    first: Seq<usize>,
    then: Seq<usize>,
)
    ensures
        cost_of(actions, first + then) == cost_of(actions, first) + cost_of(actions, then),
        run(actions, start, first + then) == (match run(actions, start, first) {
            Some(mid) => run(actions, mid, then),
            None => None,
        }),
    decreases then.len(),
{
    if then.len() == 0 {
        assert(first + then =~= first);
    } else {
        law_steps_add_up(actions, start, first, then.drop_last());
        assert((first + then).drop_last() =~= first + then.drop_last());
        assert((first + then).last() == then.last());
    }
}

/// More steps or more actions to choose from never make the cheapest plan
/// dearer.
pub proof fn law_more_choice_costs_no_more(
    actions: Seq<Action>,
    more: Seq<Action>,
    start: WorldState,
    goal: WorldState,
    depth: int,
    deeper: int,
    p: Plan,
    q: Plan,
)
    requires
        depth <= deeper,
        cheapest(actions, start, goal, depth, p),
        cheapest(actions + more, start, goal, deeper, q),
    ensures
        q.total_cost <= p.total_cost,
{
    let steps = choose|steps: Seq<usize>| #[trigger]
        achieves(actions, start, goal, depth, steps) && p.actions@ == names_of(actions, steps)
            && p.total_cost == cost_of(actions, steps);
    lemma_more_actions(actions, more, start, steps);
    assert(achieves(actions + more, start, goal, deeper, steps));
}

proof fn lemma_more_actions(
    actions: Seq<Action>,
    more: Seq<Action>,
    start: WorldState,
    steps: Seq<usize>,
)
    requires
        run(actions, start, steps) is Some,
    ensures
        run(actions + more, start, steps) == run(actions, start, steps),
        cost_of(actions + more, steps) == cost_of(actions, steps),
    decreases steps.len(),
{
    if steps.len() > 0 {
        lemma_more_actions(actions, more, start, steps.drop_last());
        assert((actions + more)[steps.last() as int] == actions[steps.last() as int]);
    }
}

/// A plan names steps that can be taken one after the other, at most as many
/// as allowed; they cost what the plan says and end where every bit that the
/// goal wants is set. Whoever can get there with one action pays no more than
/// that action costs.
pub proof fn law_plans_reach_their_goal(
    actions: Seq<Action>,
    start: WorldState,
    goal: WorldState,
    max_depth: int,
    p: Plan,
    a: usize,
) -> (steps: Seq<usize>)
    requires
        cheapest(actions, start, goal, max_depth, p),
        a < actions.len(),
    ensures
        p.actions@.len() == steps.len() <= max_depth,
        forall|k: int|
            0 <= k < steps.len() ==> (#[trigger] steps[k]) < actions.len() && p.actions@[k]
                == actions[steps[k] as int].name,
        p.total_cost == cost_of(actions, steps),
        run(actions, start, steps) is Some,
        forall|i: u32|
            i < 32 && #[trigger] bit_set(goal.0, i) ==> bit_set(
                (run(actions, start, steps)->0).0,
                i,
            ),
        max_depth >= 1 && run(actions, start, seq![a]) is Some && (forall|i: u32|
            i < 32 && #[trigger] bit_set(goal.0, i) ==> bit_set(
                (run(actions, start, seq![a])->0).0,
                i,
            )) ==> p.total_cost <= actions[a as int].cost,
{
    let steps = choose|steps: Seq<usize>| #[trigger]
        achieves(actions, start, goal, max_depth, steps) && p.actions@ == names_of(actions, steps)
            && p.total_cost == cost_of(actions, steps);
    law_meets_bit_by_bit(run(actions, start, steps)->0, goal, actions[a as int]);
    assert forall|k: int| 0 <= k < steps.len() implies (#[trigger] steps[k]) < actions.len() by {
        lemma_steps_in_range(actions, start, steps, k);
    }
    law_one_step(actions, start, a);
    if run(actions, start, seq![a]) is Some {
        law_meets_bit_by_bit(run(actions, start, seq![a])->0, goal, actions[a as int]);
        if max_depth >= 1 && run(actions, start, seq![a])->0.meets(goal) {
            assert(achieves(actions, start, goal, max_depth, seq![a]));
        }
    }
    steps
}

/// A way to a state that the search has found.
struct Route {
    state: WorldState,
    cost: u128,
    steps: Vec<usize>,
}

/// The route is one: its steps lead to its state, at its cost, in at most
/// `depth` steps.
spec fn sound(actions: Seq<Action>, start: WorldState, depth: int, r: Route) -> bool {
    &&& r.steps@.len() <= depth
    &&& run(actions, start, r.steps@) == Some(r.state)
    &&& r.cost == cost_of(actions, r.steps@)
}

/// Some route leads to `state` for at most `cost`.
spec fn covered(table: Seq<Route>, state: WorldState, cost: int) -> bool {
    exists|i: int| 0 <= i < table.len() && (#[trigger] table[i]).state == state && table[i].cost <= cost
}

/// Whatever up to `depth` steps lead to, some route leads there for no more.
spec fn complete(actions: Seq<Action>, start: WorldState, depth: int, table: Seq<Route>) -> bool {
    forall|steps: Seq<usize>|
        steps.len() <= depth && (#[trigger] run(actions, start, steps)) is Some ==> covered(
            table,
            run(actions, start, steps)->0,
            cost_of(actions, steps),
        )
}

/// Every route of `from`, led on by any of the first `upto` actions, is
/// covered by `to`.
spec fn relaxed(actions: Seq<Action>, r: Route, upto: int, to: Seq<Route>) -> bool {
    forall|a: int|
        0 <= a < upto && (#[trigger] actions[a]).runnable(r.state) ==> covered(
            to,
            actions[a].effect(r.state),
            r.cost + actions[a].cost,
        )
}

proof fn lemma_cost_bound(actions: Seq<Action>, steps: Seq<usize>)
    ensures
        0 <= cost_of(actions, steps) <= steps.len() * 0xffff_ffff,
    decreases steps.len(),
{
    if steps.len() > 0 {
        lemma_cost_bound(actions, steps.drop_last());
    }
}

/// Where a table covers another, what the other covers it covers too.
spec fn improves(from: Seq<Route>, to: Seq<Route>) -> bool {
    forall|s: WorldState, c: int| #[trigger] covered(from, s, c) ==> covered(to, s, c)
}

fn copy_steps(v: &Vec<usize>) -> (r: Vec<usize>)
    ensures
        r@ == v@,
{
    let mut r: Vec<usize> = Vec::new();
    let mut i: usize = 0;
    while i < v.len()
        invariant
            i <= v@.len(),
            r@ == v@.take(i as int),
        decreases v@.len() - i,
    {
        r.push(v[i]);
        i += 1;
        assert(v@.take(i as int) =~= v@.take(i - 1).push(v@[i - 1]));
    }
    assert(v@.take(i as int) =~= v@);
    r
}

/// Adds a route unless one that costs no more leads to the same state; a
/// dearer one to the same state makes way.
fn offer(
    table: &mut Vec<Route>,
    route: Route,
    Ghost(actions): Ghost<Seq<Action>>,
    Ghost(start): Ghost<WorldState>,
    Ghost(depth): Ghost<int>,
) -> (changed: bool)
    requires
        sound(actions, start, depth, route),
        forall|i: int|
            0 <= i < old(table)@.len() ==> sound(actions, start, depth, #[trigger] old(table)@[i]),
    ensures
        forall|i: int|
            0 <= i < final(table)@.len() ==> sound(
                actions,
                start,
                depth,
                #[trigger] final(table)@[i],
            ),
        improves(old(table)@, final(table)@),
        covered(final(table)@, route.state, route.cost as int),
        !changed ==> final(table)@ == old(table)@,
{
    let mut i: usize = 0;
    while i < table.len()
        invariant
            i <= table@.len(),
            table@ == old(table)@,
            sound(actions, start, depth, route),
            forall|i: int|
                0 <= i < old(table)@.len() ==> sound(
                    actions,
                    start,
                    depth,
                    #[trigger] old(table)@[i],
                ),
        decreases table@.len() - i,
    {
        if table[i].state == route.state {
            if table[i].cost <= route.cost {
                assert(table@[i as int].state == route.state);
                return false;
            }
            let ghost before = table@;
            table.set(i, route);
            proof {
                assert forall|s: WorldState, c: int| #[trigger] covered(before, s, c) implies covered(
                    table@,
                    s,
                    c,
                ) by {
                    let j = choose|j: int|
                        0 <= j < before.len() && (#[trigger] before[j]).state == s
                            && before[j].cost <= c;
                    assert(table@[j].state == s && table@[j].cost <= c);
                }
                assert(table@[i as int] == route);
            }
            return true;
        }
        i += 1;
    }
    let ghost before = table@;
    table.push(route);
    proof {
        assert forall|s: WorldState, c: int| #[trigger] covered(before, s, c) implies covered(
            table@,
            s,
            c,
        ) by {
            let j = choose|j: int|
                0 <= j < before.len() && (#[trigger] before[j]).state == s && before[j].cost <= c;
            assert(table@[j] == before[j]);
        }
        assert(table@[before.len() as int] == route);
        assert forall|i: int| 0 <= i < table@.len() implies sound(
            actions,
            start,
            depth,
            #[trigger] table@[i],
        ) by {
            if i < before.len() {
                assert(table@[i] == before[i]);
            }
        }
    }
    true
}

/// Leads every route on by every action that can run. Returns the routes of up
/// to one step more and whether anything changed.
fn relax(
    table: &Vec<Route>,
    actions: &[Action],
    Ghost(start): Ghost<WorldState>,
    Ghost(depth): Ghost<int>,
) -> (r: (Vec<Route>, bool))
    requires
        0 <= depth < usize::MAX,
        forall|i: int|
            0 <= i < table@.len() ==> sound(actions@, start, depth, #[trigger] table@[i]),
        complete(actions@, start, depth, table@),
    ensures
        forall|i: int|
            0 <= i < r.0@.len() ==> sound(actions@, start, depth + 1, #[trigger] r.0@[i]),
        improves(table@, r.0@),
        forall|i: int|
            0 <= i < table@.len() ==> relaxed(
                actions@,
                #[trigger] table@[i],
                actions@.len() as int,
                r.0@,
            ),
        !r.1 ==> (forall|s: WorldState, c: int| #[trigger] covered(r.0@, s, c) ==> covered(table@, s, c)),
{
    let mut next: Vec<Route> = Vec::new();
    let mut i: usize = 0;
    while i < table.len()
        invariant
            i <= table@.len(),
            next@.len() == i,
            forall|j: int|
                0 <= j < i ==> (#[trigger] next@[j]).state == table@[j].state && next@[j].cost
                    == table@[j].cost && next@[j].steps@ == table@[j].steps@,
        decreases table@.len() - i,
    {
        next.push(
            Route { state: table[i].state, cost: table[i].cost, steps: copy_steps(&table[i].steps) },
        );
        i += 1;
    }
    proof {
        assert forall|j: int| 0 <= j < next@.len() implies sound(
            actions@,
            start,
            depth + 1,
            #[trigger] next@[j],
        ) by {
            assert(sound(actions@, start, depth, table@[j]));
        }
        assert forall|s: WorldState, c: int| #[trigger] covered(table@, s, c) implies covered(
            next@,
            s,
            c,
        ) by {
            let j = choose|j: int|
                0 <= j < table@.len() && (#[trigger] table@[j]).state == s && table@[j].cost <= c;
            assert(next@[j].state == s);
        }
        assert forall|s: WorldState, c: int| #[trigger] covered(next@, s, c) implies covered(
            table@,
            s,
            c,
        ) by {
            let j = choose|j: int|
                0 <= j < next@.len() && (#[trigger] next@[j]).state == s && next@[j].cost <= c;
            assert(table@[j].state == s);
        }
    }
    let mut changed = false;
    let mut i: usize = 0;
    while i < table.len()
        invariant
            0 <= depth < usize::MAX,
            i <= table@.len(),
            forall|i: int|
                0 <= i < table@.len() ==> sound(actions@, start, depth, #[trigger] table@[i]),
            forall|j: int|
                0 <= j < next@.len() ==> sound(actions@, start, depth + 1, #[trigger] next@[j]),
            improves(table@, next@),
            forall|j: int|
                0 <= j < i ==> relaxed(
                    actions@,
                    #[trigger] table@[j],
                    actions@.len() as int,
                    next@,
                ),
            !changed ==> improves(next@, table@),
        decreases table@.len() - i,
    {
        let mut a: usize = 0;
        while a < actions.len()
            invariant
                0 <= depth < usize::MAX,
                i < table@.len(),
                a <= actions@.len(),
                forall|i: int|
                    0 <= i < table@.len() ==> sound(actions@, start, depth, #[trigger] table@[i]),
                forall|j: int|
                    0 <= j < next@.len() ==> sound(actions@, start, depth + 1, #[trigger] next@[j]),
                improves(table@, next@),
                forall|j: int|
                    0 <= j < i ==> relaxed(
                        actions@,
                        #[trigger] table@[j],
                        actions@.len() as int,
                        next@,
                    ),
                relaxed(actions@, table@[i as int], a as int, next@),
                !changed ==> improves(next@, table@),
            decreases actions@.len() - a,
        {
            let ghost before = next@;
            if actions[a].can_run(table[i].state) {
                let mut steps = copy_steps(&table[i].steps);
                steps.push(a);
                proof {
                    assert(sound(actions@, start, depth, table@[i as int]));
                    lemma_cost_bound(actions@, table@[i as int].steps@);
                    assert(steps@.drop_last() =~= table@[i as int].steps@);
                    assert(table@[i as int].cost <= 0xffff_ffff_ffff_ffff * 0xffff_ffff);
                }
                let route = Route {
                    state: actions[a].apply(table[i].state),
                    cost: table[i].cost + actions[a].cost as u128,
                    steps,
                };
                let new = offer(
                    &mut next,
                    route,
                    Ghost(actions@),
                    Ghost(start),
                    Ghost(depth + 1),
                );
                if new {
                    changed = true;
                }
            }
            proof {
                assert forall|j: int| 0 <= j < i implies relaxed(
                    actions@,
                    #[trigger] table@[j],
                    actions@.len() as int,
                    next@,
                ) by {
                    lemma_relaxed_improves(actions@, table@[j], actions@.len() as int, before, next@);
                }
                lemma_relaxed_improves(actions@, table@[i as int], a as int, before, next@);
            }
            a += 1;
        }
        i += 1;
    }
    (next, changed)
}

proof fn lemma_relaxed_improves(
    actions: Seq<Action>,
    r: Route,
    upto: int,
    from: Seq<Route>,
    to: Seq<Route>,
)
    requires
        relaxed(actions, r, upto, from),
        improves(from, to),
    ensures
        relaxed(actions, r, upto, to),
{
}

/// One more round covers one more step.
proof fn lemma_round_completes(
    actions: Seq<Action>,
    start: WorldState,
    depth: int,
    table: Seq<Route>,
    next: Seq<Route>,
)
    requires
        0 <= depth,
        complete(actions, start, depth, table),
        improves(table, next),
        forall|i: int|
            0 <= i < table.len() ==> relaxed(
                actions,
                #[trigger] table[i],
                actions.len() as int,
                next,
            ),
    ensures
        complete(actions, start, depth + 1, next),
{
    assert forall|steps: Seq<usize>|
        steps.len() <= depth + 1 && (#[trigger] run(actions, start, steps)) is Some implies covered(
        next,
        run(actions, start, steps)->0,
        cost_of(actions, steps),
    ) by {
        if steps.len() <= depth {
            assert(covered(table, run(actions, start, steps)->0, cost_of(actions, steps)));
        } else {
            let init = steps.drop_last();
            let s = run(actions, start, init)->0;
            assert(covered(table, s, cost_of(actions, init)));
            let i = choose|i: int|
                0 <= i < table.len() && (#[trigger] table[i]).state == s && table[i].cost <= cost_of(
                    actions,
                    init,
                );
            let a = steps.last() as int;
            assert(relaxed(actions, table[i], actions.len() as int, next));
            assert(actions[a].runnable(table[i].state));
            assert(covered(next, actions[a].effect(s), table[i].cost + actions[a].cost));
            let j = choose|j: int|
                0 <= j < next.len() && (#[trigger] next[j]).state == actions[a].effect(s)
                    && next[j].cost <= table[i].cost + actions[a].cost;
            assert(next[j].cost <= cost_of(actions, steps));
        }
    }
}

/// A round that changed nothing has covered any number of steps.
proof fn lemma_fixpoint_completes(
    actions: Seq<Action>,
    start: WorldState,
    depth: int,
    table: Seq<Route>,
    next: Seq<Route>,
    more: int,
)
    requires
        0 <= depth,
        complete(actions, start, depth, table),
        improves(table, next),
        improves(next, table),
        forall|i: int|
            0 <= i < table.len() ==> relaxed(
                actions,
                #[trigger] table[i],
                actions.len() as int,
                next,
            ),
    ensures
        complete(actions, start, depth + more, table),
    decreases more,
{
    if more > 0 {
        lemma_fixpoint_completes(actions, start, depth, table, next, more - 1);
        lemma_round_completes(actions, start, depth + more - 1, table, next);
        assert forall|steps: Seq<usize>|
            steps.len() <= depth + more && (#[trigger] run(actions, start, steps)) is Some implies covered(
            table,
            run(actions, start, steps)->0,
            cost_of(actions, steps),
        ) by {
            assert(covered(next, run(actions, start, steps)->0, cost_of(actions, steps)));
        }
    }
}

/// The route that meets the goal for the least.
fn best_route(table: &Vec<Route>, goal: WorldState) -> (r: Option<usize>)
    ensures
        match r {
            Some(k) => k < table@.len() && table@[k as int].state.meets(goal) && forall|i: int|
                0 <= i < table@.len() && (#[trigger] table@[i]).state.meets(goal)
                    ==> table@[k as int].cost <= table@[i].cost,
            None => forall|i: int|
                0 <= i < table@.len() ==> !(#[trigger] table@[i]).state.meets(goal),
        },
{
    let mut best: Option<usize> = None;
    let mut i: usize = 0;
    while i < table.len()
        invariant
            i <= table@.len(),
            match best {
                Some(k) => k < i && table@[k as int].state.meets(goal) && forall|j: int|
                    0 <= j < i && (#[trigger] table@[j]).state.meets(goal) ==> table@[k as int].cost
                        <= table@[j].cost,
                None => forall|j: int| 0 <= j < i ==> !(#[trigger] table@[j]).state.meets(goal),
            },
        decreases table@.len() - i,
    {
        if table[i].state.satisfies(goal) {
            best = match best {
                Some(k) => if table[i].cost < table[k].cost {
                    Some(i)
                } else {
                    Some(k)
                },
                None => Some(i),
            };
        }
        i += 1;
    }
    best
}

/// The cheapest plan from `start` to `goal` in at most `max_depth` steps.
fn search(
    start: WorldState,
    goal: WorldState,
    actions: &[Action],
    max_depth: usize,
) -> (r: Option<Plan>)
    ensures
        match r {
            Some(p) => cheapest(actions@, start, goal, max_depth as int, p),
            None => unreachable_goal(actions@, start, goal, max_depth as int),
        },
{
    let mut table: Vec<Route> = Vec::new();
    table.push(Route { state: start, cost: 0, steps: Vec::new() });
    let mut depth: usize = 0;
    let mut settled = false;
    proof {
        assert(complete(actions@, start, 0, table@)) by {
            assert forall|steps: Seq<usize>|
                steps.len() <= 0 && (#[trigger] run(actions@, start, steps)) is Some implies covered(
                table@,
                run(actions@, start, steps)->0,
                cost_of(actions@, steps),
            ) by {
                assert(table@[0].state == start);
            }
        }
    }
    while depth < max_depth && !settled
        invariant
            depth <= max_depth,
            forall|i: int|
                0 <= i < table@.len() ==> sound(actions@, start, max_depth as int, #[trigger] table@[i]),
            !settled ==> forall|i: int|
                0 <= i < table@.len() ==> sound(actions@, start, depth as int, #[trigger] table@[i]),
            !settled ==> complete(actions@, start, depth as int, table@),
            settled ==> complete(actions@, start, max_depth as int, table@),
        decreases max_depth - depth,
    {
        let (next, changed) = relax(&table, actions, Ghost(start), Ghost(depth as int));
        proof {
            lemma_round_completes(actions@, start, depth as int, table@, next@);
            if !changed {
                lemma_fixpoint_completes(
                    actions@,
                    start,
                    depth as int,
                    table@,
                    next@,
                    max_depth - depth,
                );
            }
        }
        depth += 1;
        if changed {
            table = next;
            proof {
                assert forall|i: int| 0 <= i < table@.len() implies sound(
                    actions@,
                    start,
                    max_depth as int,
                    #[trigger] table@[i],
                ) by {
                    assert(sound(actions@, start, depth as int, table@[i]));
                }
            }
        } else {
            settled = true;
        }
    }
    assert(complete(actions@, start, max_depth as int, table@));
    match best_route(&table, goal) {
        None => {
            proof {
                assert forall|steps: Seq<usize>| !#[trigger] achieves(
                    actions@,
                    start,
                    goal,
                    max_depth as int,
                    steps,
                ) by {
                    if achieves(actions@, start, goal, max_depth as int, steps) {
                        let s = run(actions@, start, steps)->0;
                        assert(covered(table@, s, cost_of(actions@, steps)));
                        let i = choose|i: int|
                            0 <= i < table@.len() && (#[trigger] table@[i]).state == s;
                        assert(!table@[i].state.meets(goal));
                    }
                }
            }
            None
        },
        Some(k) => {
            let ghost steps = table@[k as int].steps@;
            assert(sound(actions@, start, max_depth as int, table@[k as int]));
            let mut names: Vec<&'static str> = Vec::new();
            let mut i: usize = 0;
            proof {
                assert forall|j: int| 0 <= j < steps.len() implies (#[trigger] steps[j])
                    < actions@.len() by {
                    lemma_steps_in_range(actions@, start, steps, j);
                }
            }
            while i < table[k].steps.len()
                invariant
                    k < table@.len(),
                    steps == table@[k as int].steps@,
                    i <= steps.len(),
                    forall|j: int| 0 <= j < steps.len() ==> (#[trigger] steps[j]) < actions@.len(),
                    names@ == names_of(actions@, steps).take(i as int),
                decreases steps.len() - i,
            {
                names.push(actions[table[k].steps[i]].name);
                i += 1;
                assert(names_of(actions@, steps).take(i as int) =~= names_of(
                    actions@,
                    steps,
                ).take(i - 1).push(actions@[steps[i - 1] as int].name));
            }
            assert(names_of(actions@, steps).take(i as int) =~= names_of(actions@, steps));
            let p = Plan { actions: names, total_cost: table[k].cost };
            proof {
                assert(achieves(actions@, start, goal, max_depth as int, steps));
                assert forall|other: Seq<usize>| #[trigger]
                    achieves(actions@, start, goal, max_depth as int, other) implies p.total_cost
                    <= cost_of(actions@, other) by {
                    let s = run(actions@, start, other)->0;
                    assert(covered(table@, s, cost_of(actions@, other)));
                    let i = choose|i: int|
                        0 <= i < table@.len() && (#[trigger] table@[i]).state == s && table@[i].cost
                            <= cost_of(actions@, other);
                    assert(table@[i].state.meets(goal));
                }
            }
            Some(p)
        },
    }
}

proof fn lemma_steps_in_range(actions: Seq<Action>, start: WorldState, steps: Seq<usize>, j: int)
    requires
        run(actions, start, steps) is Some,
        0 <= j < steps.len(),
    ensures
        steps[j] < actions.len(),
    decreases steps.len(),
{
    if j < steps.len() - 1 {
        lemma_steps_in_range(actions, start, steps.drop_last(), j);
        assert(steps.drop_last()[j] == steps[j]);
    }
}

/// The `i`-th goal is tried before the `j`-th: it has a higher priority, or
/// the same and comes first in the list.
pub open spec fn tried_before(goals: Seq<Goal>, i: int, j: int) -> bool {
    goals[i].priority > goals[j].priority || (goals[i].priority == goals[j].priority && i < j)
}

/// Of two goals one is tried before the other, and the more urgent one first.
pub proof fn law_urgent_goals_come_first(goals: Seq<Goal>, i: int, j: int, k: int)
    ensures
        goals[i].priority > goals[j].priority ==> tried_before(goals, i, j),
        i != j ==> tried_before(goals, i, j) != tried_before(goals, j, i),
        i < j && goals[i].priority == goals[j].priority ==> tried_before(goals, i, j),
        tried_before(goals, i, j) && tried_before(goals, j, k) ==> tried_before(goals, i, k),
{
}

/// A goal whose every bit is set already is passed over, and of those with a
/// bit to be set none that any steps reach.
pub proof fn law_goals_passed_over(
    actions: Seq<Action>,
    state: WorldState,
    goal: WorldState,
    max_depth: int,
    steps: Seq<usize>,
)
    requires
        0 <= steps.len() <= max_depth,
    ensures
        (forall|i: u32| i < 32 && #[trigger] bit_set(goal.0, i) ==> bit_set(state.0, i))
            ==> passed_over(actions, state, goal, max_depth),
        passed_over(actions, state, goal, max_depth) && run(actions, state, steps) is Some && (forall|
            i: u32,
        |
            i < 32 && #[trigger] bit_set(goal.0, i) ==> bit_set((run(actions, state, steps)->0).0, i))
            ==> state.meets(goal),
{
    lemma_meets_bits(state.0, goal.0);
    if run(actions, state, steps) is Some {
        lemma_meets_bits((run(actions, state, steps)->0).0, goal.0);
        if run(actions, state, steps)->0.meets(goal) {
            assert(achieves(actions, state, goal, max_depth, steps));
        }
    }
}

/// Nothing is to be done for the goal, or nothing can be.
pub open spec fn passed_over(
    actions: Seq<Action>,
    state: WorldState,
    goal: WorldState,
    max_depth: int,
) -> bool {
    state.meets(goal) || unreachable_goal(actions, state, goal, max_depth)
}

/// The cheapest plan for the goal of the highest priority that the present
/// state does not meet and that can be reached in `max_depth` steps. Of goals
/// with one priority the first in the list comes first.
pub fn plan(
    current_state: WorldState,
    goals: &[Goal],
    actions: &[Action],
    max_depth: usize,
) -> (r: Option<Plan>)
    ensures
        match r {
            Some(p) => exists|i: int|
                #![trigger goals@[i]]
                0 <= i < goals@.len() && !current_state.meets(goals@[i].desired_state) && cheapest(
                    actions@,
                    current_state,
                    goals@[i].desired_state,
                    max_depth as int,
                    p,
                ) && forall|j: int|
                    0 <= j < goals@.len() && #[trigger] tried_before(goals@, j, i) ==> passed_over(
                        actions@,
                        current_state,
                        goals@[j].desired_state,
                        max_depth as int,
                    ),
            None => forall|j: int|
                0 <= j < goals@.len() ==> passed_over(
                    actions@,
                    current_state,
                    (#[trigger] goals@[j]).desired_state,
                    max_depth as int,
                ),
        },
{
    let mut level: u8 = 255;
    loop
        invariant
            forall|j: int|
                0 <= j < goals@.len() && (#[trigger] goals@[j]).priority > level ==> passed_over(
                    actions@,
                    current_state,
                    goals@[j].desired_state,
                    max_depth as int,
                ),
        decreases level,
    {
        let mut i: usize = 0;
        while i < goals.len()
            invariant
                i <= goals@.len(),
                forall|j: int|
                    0 <= j < goals@.len() && ((#[trigger] goals@[j]).priority > level || (
                    goals@[j].priority == level && j < i)) ==> passed_over(
                        actions@,
                        current_state,
                        goals@[j].desired_state,
                        max_depth as int,
                    ),
            decreases goals@.len() - i,
        {
            if goals[i].priority == level && !current_state.satisfies(goals[i].desired_state) {
                if let Some(p) = search(current_state, goals[i].desired_state, actions, max_depth) {
                    assert(goals@[i as int].priority == level);
                    return Some(p);
                }
            }
            i += 1;
        }
        if level == 0 {
            return None;
        }
        level -= 1;
    }
}

/// Setting and clearing bits does so bit by bit, and having some is having one
/// of them.
pub proof fn law_bits_are_set_and_cleared(
    s: WorldState,
    flag: u32,
    i: u32,
    r: WorldState,
    q: WorldState,
    h: bool,
)
    requires
        i < 32,
        call_ensures(WorldState::set, (s, flag), r),
        call_ensures(WorldState::clear, (s, flag), q),
        call_ensures(WorldState::has, (s, flag), h),
    ensures
        bit_set(r.0, i) <==> bit_set(s.0, i) || bit_set(flag, i),
        bit_set(q.0, i) <==> bit_set(s.0, i) && !bit_set(flag, i),
        bit_set(s.0, i) && bit_set(flag, i) ==> h,
        h ==> exists|k: u32| k < 32 && #[trigger] bit_set(s.0, k) && bit_set(flag, k),
{
    let x = s.0;
    assert(i < 32 ==> (((x | flag) >> i) & 1 == 1 <==> (x >> i) & 1 == 1 || (flag >> i) & 1 == 1)
        && (((x & !flag) >> i) & 1 == 1 <==> (x >> i) & 1 == 1 && (flag >> i) & 1 != 1))
        by (bit_vector);
    assert(i < 32 && (x >> i) & 1 == 1 && (flag >> i) & 1 == 1 ==> x & flag != 0) by (bit_vector);
    if h {
        let d = x & flag;
        let k = lemma_some_bit(d);
        assert(d == x & flag && k < 32 && (d >> k) & 1 == 1 ==> (x >> k) & 1 == 1 && (flag >> k) & 1
            == 1) by (bit_vector);
        assert(bit_set(s.0, k));
    }
}

} // verus!
