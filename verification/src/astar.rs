//! Cheapest routes through a space of numbered nodes.
use vstd::prelude::*;

verus! {

/// Nodes, the steps between them with their costs, and a guess at what the way
/// from a node to the goal costs.
pub trait Space {
    /// The space is one that can be searched.
    spec fn ok(&self) -> bool;

    /// The node belongs to the space.
    spec fn has_node(&self, n: u64) -> bool;

    /// Where one step leads from a node, and what it costs.
    spec fn steps(&self, n: u64) -> Seq<(u64, u32)>;

    /// What the way from a node to the goal is guessed to cost.
    spec fn estimate(&self, n: u64) -> int;

    /// Where one step leads from a node, and what it costs.
    fn successors(&self, n: u64) -> (r: Vec<(u64, u32)>)
        requires
            self.ok(),
            self.has_node(n),
        ensures
            r@ == self.steps(n),
            forall|k: int| 0 <= k < r@.len() ==> self.has_node((#[trigger] r@[k]).0),
    ;

    /// What the way from a node to the goal is guessed to cost.
    fn guess(&self, n: u64) -> (r: u64)
        requires
            self.ok(),
            self.has_node(n),
        ensures
            r == self.estimate(n),
    ;
}

/// Sum of the costs of steps.
pub open spec fn total(costs: Seq<u32>) -> int
    decreases costs.len(),
{
    if costs.len() == 0 {
        0
    } else {
        total(costs.drop_last()) + costs.last()
    }
}

/// The nodes lead from `from` to `to` by steps of the given costs.
pub open spec fn is_route<S: Space>(
    space: &S,
    from: u64,
    to: u64,
    nodes: Seq<u64>,
    costs: Seq<u32>,
) -> bool {
    &&& nodes.len() == costs.len() + 1
    &&& nodes[0] == from
    &&& nodes.last() == to
    &&& forall|k: int|
        0 <= k < costs.len() ==> space.steps(#[trigger] nodes[k]).contains(
            (nodes[k + 1], costs[k]),
        )
}

/// No guess is over the cost of a route to the goal by more than `slack`.
pub open spec fn guesses_within<S: Space>(space: &S, goal: u64, slack: int) -> bool {
    forall|n: u64, nodes: Seq<u64>, costs: Seq<u32>| #[trigger]
        is_route(space, n, goal, nodes, costs) && space.has_node(n) ==> space.estimate(n) <= total(
            costs,
        ) + slack
}

/// No step takes more off the guess than it costs.
pub open spec fn guesses_consistent<S: Space>(space: &S) -> bool {
    forall|n: u64, k: int|
        space.has_node(n) && 0 <= k < space.steps(n).len() ==> space.estimate(n) <= (
        #[trigger] space.steps(n)[k]).1 + space.estimate(space.steps(n)[k].0)
}

/// The route costs no more than any other, give or take `slack`.
pub open spec fn nearly_cheapest<S: Space>(
    space: &S,
    from: u64,
    to: u64,
    costs: Seq<u32>,
    slack: int,
) -> bool {
    forall|nodes: Seq<u64>, others: Seq<u32>| #[trigger]
        is_route(space, from, to, nodes, others) ==> total(costs) <= total(others) + slack
}

/// The space has no more than `limit` nodes.
pub open spec fn nodes_within<S: Space>(space: &S, limit: int) -> bool {
    forall|nodes: Seq<u64>| #[trigger] all_nodes(space, nodes) ==> nodes.len() <= limit
}

/// Nodes of the space, none of them twice.
pub open spec fn all_nodes<S: Space>(space: &S, nodes: Seq<u64>) -> bool {
    nodes.no_duplicates() && forall|k: int| 0 <= k < nodes.len() ==> space.has_node(#[trigger] nodes[k])
}

/// The steps from every node.
pub open spec fn step_map<S: Space>(space: &S) -> Map<u64, Seq<(u64, u32)>> {
    Map::new(|n: u64| space.has_node(n), |n: u64| space.steps(n))
}

/// The guess at every node.
pub open spec fn guess_map<S: Space>(space: &S) -> Map<u64, int> {
    Map::new(|n: u64| space.has_node(n), |n: u64| space.estimate(n))
}

/// Steps with their costs in 128 bits.
pub open spec fn wide_steps(steps: Seq<(u64, u32)>) -> Seq<(u64, u128)> {
    Seq::new(steps.len(), |k: int| (steps[k].0, steps[k].1 as u128))
}

/// Counts the nodes whose successors were asked for; past `cap` there are
/// none.
pub struct Walk<'a, S: Space> {
    pub space: &'a S,
    pub cap: usize,
    pub expanded: usize,
}

impl<'a, S: Space> Walk<'a, S> {
    /// The successors of a node, or none once `cap` nodes were asked for.
    pub fn expand(&mut self, n: u64) -> (r: Vec<(u64, u128)>)
        requires
            old(self).space.ok(),
            old(self).space.has_node(n),
        ensures
            final(self).space == old(self).space,
            final(self).cap == old(self).cap,
            old(self).expanded < usize::MAX ==> final(self).expanded == old(self).expanded + 1,
            old(self).expanded == usize::MAX ==> final(self).expanded == usize::MAX,
            final(self).expanded > old(self).cap ==> r@ == Seq::<(u64, u128)>::empty(),
            final(self).expanded <= old(self).cap ==> r@ == wide_steps(old(self).space.steps(n)),
    {
        if self.expanded < usize::MAX {
            self.expanded += 1;
        }
        let mut r: Vec<(u64, u128)> = Vec::new();
        if self.expanded > self.cap {
            return r;
        }
        let steps = self.space.successors(n);
        let mut k: usize = 0;
        while k < steps.len()
            invariant
                k <= steps@.len(),
                r@ == wide_steps(steps@).take(k as int),
            decreases steps@.len() - k,
        {
            r.push((steps[k].0, steps[k].1 as u128));
            k += 1;
            assert(wide_steps(steps@).take(k as int) =~= wide_steps(steps@).take(k - 1).push(
                wide_steps(steps@)[k - 1],
            ));
        }
        assert(wide_steps(steps@).take(k as int) =~= wide_steps(steps@));
        r
    }
}

/// The guess at a node, in 128 bits.
fn wide_guess<S: Space>(space: &S, n: u64) -> (r: u128)
    requires
        space.ok(),
        space.has_node(n),
    ensures
        r == space.estimate(n),
{
    space.guess(n) as u128
}

/// The two nodes are one.
fn same_node(a: u64, b: u64) -> (r: bool)
    ensures
        r == (a == b),
{
    a == b
}

/// What `pathfinding::prelude::astar` finds from `start` to `goal` where the
/// steps and the guesses are as given and the successors of at most `cap`
/// nodes are handed out: the nodes of a route, and how many nodes were asked
/// for.
pub uninterp spec fn astar_of(
    steps: Map<u64, Seq<(u64, u32)>>,
    guesses: Map<u64, int>,
    start: u64,
    goal: u64,
    cap: nat,
) -> (Option<Seq<u64>>, nat);

/// Runs `pathfinding::prelude::astar` from `start` to `goal`, handing out the
/// successors of at most `cap` nodes. Returns the nodes of the route and how
/// many nodes were asked for.
///
/// Claimed of `astar`: what it returns depends on the steps, the guesses, both
/// ends and the cap alone. It is a route made of steps that it was handed,
/// without a node twice. Where it was handed all successors that it asked for,
/// it finds a route iff there is one, and the route costs no more than any
/// other does, plus what the guesses are over the mark at most. Where the
/// guesses are consistent it asks for no node twice. Costs are added in 128
/// bits, which no route of different nodes can fill.
#[verifier::external_body]
pub(crate) fn astar_route<S: Space>(space: &S, start: u64, goal: u64, cap: usize) -> (r: (
    Option<Vec<u64>>,
    usize,
))
    requires
        space.ok(),
        space.has_node(start),
    ensures
        ({
            let named = astar_of(step_map(space), guess_map(space), start, goal, cap as nat);
            r.1 == named.1 && match r.0 {
                Some(nodes) => named.0 == Some(nodes@),
                None => named.0 is None,
            }
        }),
        match r.0 {
            Some(nodes) => exists|costs: Seq<u32>| #[trigger]
                is_route(space, start, goal, nodes@, costs) && nodes@.no_duplicates() && (r.1 <= cap
                    ==> forall|slack: int| #[trigger]
                    guesses_within(space, goal, slack) ==> nearly_cheapest(
                        space,
                        start,
                        goal,
                        costs,
                        slack,
                    )),
            None => r.1 <= cap ==> forall|nodes: Seq<u64>, costs: Seq<u32>|
                !#[trigger] is_route(space, start, goal, nodes, costs),
        },
        forall|limit: int| #[trigger]
            nodes_within(space, limit) && guesses_consistent(space) ==> r.1 <= limit,
{
    let mut walk = Walk { space, cap, expanded: 0 };
    let found = pathfinding::prelude::astar(
        &start,
        |n| walk.expand(*n),
        |n| wide_guess(space, *n),
        |n| same_node(*n, goal),
    );
    (found.map(|route| route.0), walk.expanded)
}

/// Routes that share an end add up.
pub proof fn lemma_total_first(costs: Seq<u32>)
    requires
        costs.len() > 0,
    ensures
        total(costs) == costs[0] + total(costs.drop_first()),
    decreases costs.len(),
{
    if costs.len() == 1 {
        assert(costs.drop_last() =~= Seq::<u32>::empty());
        assert(costs.drop_first() =~= Seq::<u32>::empty());
    } else {
        lemma_total_first(costs.drop_last());
        assert(costs.drop_last().drop_first() =~= costs.drop_first().drop_last());
        assert(costs.drop_first().last() == costs.last());
    }
}

/// A route after its first step is a route.
pub proof fn lemma_route_tail<S: Space>(
    space: &S,
    from: u64,
    to: u64,
    nodes: Seq<u64>,
    costs: Seq<u32>,
)
    requires
        is_route(space, from, to, nodes, costs),
        costs.len() > 0,
    ensures
        is_route(space, nodes[1], to, nodes.drop_first(), costs.drop_first()),
        space.steps(from).contains((nodes[1], costs[0])),
{
    let n = nodes.drop_first();
    let c = costs.drop_first();
    assert(space.steps(nodes[0]).contains((nodes[1], costs[0])));
    assert forall|k: int| 0 <= k < c.len() implies space.steps(#[trigger] n[k]).contains(
        (n[k + 1], c[k]),
    ) by {
        assert(n[k] == nodes[k + 1]);
    }
}

} // verus!
