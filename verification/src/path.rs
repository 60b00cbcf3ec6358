//! Pathfinding: A* over an abstract graph, and over four-connected grids.
//!
//! `astar_path` searches an abstract graph whose nodes are dense indices; the
//! proof shows it returns a walk from origin to destination exactly when one
//! exists. `astar_path_fourwaygrid` wraps a rectangular walkability map as
//! such a graph, with unit costs carrying a small parity nudge so equally
//! short paths prefer staircase shapes, and a Manhattan-distance heuristic.

use vstd::arithmetic::div_mod::{
    lemma_div_pos_is_pos, lemma_fundamental_div_mod, lemma_fundamental_div_mod_converse,
    lemma_mod_division_less_than_divisor,
};
use vstd::prelude::*;

use crate::bresenham::int_abs;
use crate::{spec_pt, Point};

verus! {

/// Dense node identifier of a graph.
pub type NodeId = usize;

/// Implement the `PathMap` trait to use the pathfinding functions.
pub trait PathMap {
    /// The map's dimensions, as the mathematical value the contracts speak of.
    /// An implementation outside this crate leaves the default, which names
    /// no particular value; the executable methods' contracts then state
    /// what this crate assumes of the implementation.
    open spec fn spec_dimensions(&self) -> (int, int) {
        arbitrary()
    }

    /// Whether the tile at `p` can be walked on, as a predicate over the
    /// map's value.
    open spec fn spec_walkable(&self, p: (int, int)) -> bool {
        arbitrary()
    }

    /// Dimension of your map, in grid size. The area must fit in an `i32`.
    fn dimensions(&self) -> (d: (i32, i32))
        ensures
            (d.0 as int, d.1 as int) == self.spec_dimensions(),
            0 <= d.0,
            0 <= d.1,
            d.0 as int * d.1 as int <= 0x7fff_ffff,
    ;

    /// Whether it is possible or not to walk through the tile at position
    /// `(x, y)`. Only called for in-bounds positions.
    fn is_walkable(&self, position: Point) -> (b: bool)
        requires
            ({
                let wh = self.spec_dimensions();
                0 <= (position.0 as int) && (position.0 as int) < wh.0
                    && 0 <= (position.1 as int) && (position.1 as int) < wh.1
            }),
        ensures
            b == self.spec_walkable(spec_pt(position)),
    ;
}

/// The mathematical values of a vector of node identifiers.
pub open spec fn ids(s: Seq<usize>) -> Seq<int> {
    s.map_values(|x: usize| x as int)
}

/// A graph for the A* algorithm: dense integer nodes, positive integer edge
/// costs, and a heuristic. This is intended for a grid based representation,
/// where each node would be a square on the map.
pub trait Graph {
    /// The number of nodes, as the mathematical value the contracts speak of.
    /// As in the map traits, implementations outside this crate leave the
    /// spec functions at their defaults, which name no particular value.
    open spec fn spec_node_count(&self) -> int {
        arbitrary()
    }

    /// The cost of stepping from `a` to an adjacent `b`.
    open spec fn spec_cost(&self, a: int, b: int) -> int {
        arbitrary()
    }

    /// The estimate of the distance from `a` to `b`.
    open spec fn spec_heuristic(&self, a: int, b: int) -> int {
        arbitrary()
    }

    /// The neighbours offered for `a`, in the order they are pushed.
    open spec fn spec_neighbors(&self, a: int) -> Seq<int> {
        arbitrary()
    }

    /// The amount of nodes in the graph, used to create correctly sized
    /// vectors. Must fit in 31 bits so accumulated path costs fit in 64.
    fn node_count(&self) -> (n: usize)
        ensures
            n as int == self.spec_node_count(),
            n <= 0x7fff_ffff,
    ;

    /// The cost between two adjacent nodes: a positive 32-bit integer. A
    /// higher cost could represent hard-to-cross terrain: if normal terrain
    /// costs 1000 to go from a to b, climbing a mountain side could cost 2000.
    fn cost_between(&self, a: NodeId, b: NodeId) -> (c: u64)
        requires
            (a as int) < self.spec_node_count(),
            (b as int) < self.spec_node_count(),
        ensures
            c as int == self.spec_cost(a as int, b as int),
            1 <= c <= 0xffff_ffff,
    ;

    /// How close we are from our target; lower is closer.
    fn heuristic(&self, a: NodeId, b: NodeId) -> (h: u64)
        requires
            (a as int) < self.spec_node_count(),
            (b as int) < self.spec_node_count(),
        ensures
            h as int == self.spec_heuristic(a as int, b as int),
            h <= 0x3ff_ffff_ffff,
    ;

    /// From node `a`, where can you go: push every neighbour into `into`,
    /// each a valid node. The buffer is handed over empty; no need to clear
    /// it.
    fn neighboors(&self, a: NodeId, into: &mut Vec<NodeId>)
        requires
            (a as int) < self.spec_node_count(),
            old(into)@.len() == 0,
        ensures
            ids(final(into)@) == self.spec_neighbors(a as int),
            forall |i: int| 0 <= i < final(into)@.len()
                ==> 0 <= (#[trigger] final(into)@[i] as int) < self.spec_node_count(),
    ;
}

/// A walk through the graph: starts at `from`, ends at `to`, and each step
/// goes to an offered neighbour of the previous node.
pub open spec fn is_path<G: Graph + ?Sized>(g: &G, p: Seq<int>, from: int, to: int) -> bool {
    &&& p.len() >= 1
    &&& p[0] == from
    &&& p[p.len() - 1] == to
    &&& forall |i: int| 0 <= i < p.len() ==> 0 <= #[trigger] p[i] < g.spec_node_count()
    &&& forall |i: int| 0 <= i < p.len() - 1 ==> g.spec_neighbors(#[trigger] p[i]).contains(p[i + 1])
}

/// Whether some walk leads from `from` to `to`.
pub open spec fn reachable<G: Graph + ?Sized>(g: &G, from: int, to: int) -> bool {
    exists |p: Seq<int>| #[trigger] is_path(g, p, from, to)
}

/// The stored cost of a node, zero when none is stored yet.
spec fn opt_cost(o: Option<u64>) -> int {
    match o {
        Some(v) => v as int,
        None => 0,
    }
}

/// The sum of all stored costs; part of the search's termination measure.
spec fn costs_sum(s: Seq<Option<u64>>) -> int
    decreases s.len(),
{
    if s.len() == 0 {
        0
    } else {
        costs_sum(s.drop_last()) + opt_cost(s.last())
    }
}

/// How many nodes have no stored cost yet; the search's primary measure.
spec fn count_none(s: Seq<Option<u64>>) -> int
    decreases s.len(),
{
    if s.len() == 0 {
        0
    } else {
        count_none(s.drop_last()) + if s.last() is None { 1int } else { 0int }
    }
}

proof fn lemma_costs_sum_nonneg(s: Seq<Option<u64>>)
    ensures
        costs_sum(s) >= 0,
        0 <= count_none(s) <= s.len(),
    decreases s.len(),
{
    if s.len() > 0 {
        lemma_costs_sum_nonneg(s.drop_last());
    }
}

/// Updating one entry moves the two measures by exactly the local change.
proof fn lemma_costs_update(s: Seq<Option<u64>>, i: int, v: u64)
    requires
        0 <= i < s.len(),
    ensures
        costs_sum(s.update(i, Some(v))) == costs_sum(s) - opt_cost(s[i]) + v,
        count_none(s.update(i, Some(v)))
            == count_none(s) - (if s[i] is None { 1int } else { 0int }),
    decreases s.len(),
{
    let t = s.update(i, Some(v));
    if i == s.len() - 1 {
        assert(t.drop_last() =~= s.drop_last());
    } else {
        assert(t.drop_last() =~= s.drop_last().update(i, Some(v)));
        lemma_costs_update(s.drop_last(), i, v);
    }
}

/// Remove and return an element with the least priority from the frontier:
/// the first such element, so ties are broken deterministically.
fn pop_min(frontier: &mut Vec<(u64, usize)>) -> (r: (u64, usize))
    requires
        old(frontier)@.len() > 0,
    ensures
        final(frontier)@.len() == old(frontier)@.len() - 1,
        exists |k: int| 0 <= k < old(frontier)@.len() && old(frontier)@[k] == r
            && final(frontier)@ == old(frontier)@.remove(k),
        forall |k: int| 0 <= k < old(frontier)@.len() ==> r.0 <= (#[trigger] old(frontier)@[k]).0,
{
    let mut best: usize = 0;
    let mut i: usize = 1;
    while i < frontier.len()
        invariant
            0 <= best < frontier@.len(),
            best < i <= frontier@.len(),
            forall |k: int| 0 <= k < i ==> frontier@[best as int].0 <= (#[trigger] frontier@[k]).0,
        decreases frontier@.len() - i,
    {
        if frontier[i].0 < frontier[best].0 {
            best = i;
        }
        i = i + 1;
    }
    let r = frontier[best];
    let ghost pre = frontier@;
    let _removed = frontier.remove(best);
    proof {
        assert(0 <= best < pre.len() && pre[best as int] == r
            && frontier@ == pre.remove(best as int));
    }
    r
}

/// The set of nodes with a stored cost is closed under offered neighbours
/// once every such node has been expanded, so nothing outside it is
/// reachable from the origin.
proof fn lemma_closed_no_path<G: Graph + ?Sized>(
    g: &G,
    costs: Seq<Option<u64>>,
    expanded: Set<int>,
    p: Seq<int>,
    from: int,
    to: int,
)
    requires
        costs.len() == g.spec_node_count(),
        is_path(g, p, from, to),
        0 <= from < g.spec_node_count(),
        costs[from].is_some(),
        forall |u: int| 0 <= u < g.spec_node_count() && (#[trigger] costs[u]).is_some()
            ==> expanded.contains(u),
        forall |u: int, i: int| expanded.contains(u) && 0 <= i < g.spec_neighbors(u).len()
            ==> 0 <= #[trigger] g.spec_neighbors(u)[i] < g.spec_node_count()
                && costs[g.spec_neighbors(u)[i]].is_some(),
    ensures
        costs[to].is_some(),
    decreases p.len(),
{
    if p.len() == 1 {
        assert(p[0] == from && p[0] == to);
    } else {
        let q = p.drop_last();
        let u = p[p.len() - 2];
        assert(is_path(g, q, from, u)) by {
            assert(forall |i: int| 0 <= i < q.len() ==> q[i] == #[trigger] p[i]);
        }
        lemma_closed_no_path(g, costs, expanded, q, from, u);
        assert(g.spec_neighbors(u).contains(to)) by {
            assert(g.spec_neighbors(p[p.len() - 2]).contains(p[p.len() - 1]));
        }
        let i = choose |i: int| 0 <= i < g.spec_neighbors(u).len() && g.spec_neighbors(u)[i] == to;
        assert(expanded.contains(u));
        assert(costs[g.spec_neighbors(u)[i]].is_some());
    }
}

/// Walk the predecessor links backward from the destination and reverse the
/// result. Returns a walk from `from` to `to`; `None` when the destination
/// was never reached.
#[verifier::loop_isolation(false)]
fn reconstruct_path<G: Graph + ?Sized>(
    g: &G,
    from: NodeId,
    to: NodeId,
    came_from: Vec<Option<NodeId>>,
    Ghost(costs): Ghost<Seq<Option<u64>>>,
) -> (r: Option<Vec<NodeId>>)
    requires
        (from as int) < g.spec_node_count(),
        (to as int) < g.spec_node_count(),
        came_from@.len() == g.spec_node_count(),
        costs.len() == g.spec_node_count(),
        costs[from as int].is_some(),
        came_from@[from as int].is_none(),
        forall |u: int| 0 <= u < g.spec_node_count() && u != from as int
                && (#[trigger] costs[u]).is_some()
            ==> (#[trigger] came_from@[u]).is_some(),
        forall |u: int| 0 <= u < g.spec_node_count() && (#[trigger] came_from@[u]).is_some()
            ==> ({
                let v = came_from@[u].unwrap() as int;
                &&& costs[u].is_some()
                &&& 0 <= v < g.spec_node_count()
                &&& costs[v].is_some()
                &&& opt_cost(costs[v]) < opt_cost(costs[u])
                &&& g.spec_neighbors(v).contains(u)
            }),
    ensures
        r.is_some() <==> (from == to || costs[to as int].is_some()),
        match r {
            Some(p) => is_path(g, ids(p@), from as int, to as int),
            None => true,
        },
{
    let mut current: NodeId = to;
    let mut chain: Vec<NodeId> = Vec::new();

    if !(from == to || came_from[to].is_some()) {
        return None;
    }

    // chain grows as to, v1, v2, ... down the predecessor links
    while current != from
        invariant
            (current as int) < g.spec_node_count(),
            costs[current as int].is_some(),
            chain@.len() >= 0,
            chain@.len() > 0 ==> chain@[0] == to,
            chain@.len() == 0 ==> current == to,
            chain@.len() > 0 ==> chain@[chain@.len() - 1] != from
                && g.spec_neighbors(current as int).contains(chain@[chain@.len() - 1] as int),
            forall |i: int| 0 <= i < chain@.len() ==> (#[trigger] chain@[i] as int) < g.spec_node_count(),
            forall |i: int| 0 < i < chain@.len()
                ==> g.spec_neighbors(#[trigger] chain@[i] as int).contains(chain@[i - 1] as int),
        decreases opt_cost(costs[current as int]),
    {
        chain.push(current);
        match came_from[current] {
            Some(prev) => {
                current = prev;
            }
            None => {
                proof {
                    assert(current as int != from as int && costs[current as int].is_some());
                    assert(false);
                }
                return None;
            }
        }
    }
    chain.push(from);

    // reverse into origin-to-destination order
    let mut path: Vec<NodeId> = Vec::new();
    let mut i: usize = chain.len();
    while i > 0
        invariant
            0 <= i <= chain@.len(),
            path@.len() == chain@.len() - i,
            forall |k: int| 0 <= k < path@.len()
                ==> #[trigger] path@[k] == chain@[chain@.len() - 1 - k],
        decreases i,
    {
        i = i - 1;
        path.push(chain[i]);
    }

    proof {
        let p = ids(path@);
        assert(p.len() == chain@.len());
        assert(p[0] == from as int);
        assert(p[p.len() - 1] == to as int) by {
            assert(chain@.len() > 0);
            if chain@.len() == 1 {
                assert(current == from);
            }
        }
        assert forall |k: int| 0 <= k < p.len() - 1 implies
            g.spec_neighbors(#[trigger] p[k]).contains(p[k + 1])
        by {
            let n = chain@.len();
            assert(path@[k] == chain@[n - 1 - k]);
            assert(path@[k + 1] == chain@[n - 1 - (k + 1)]);
            if k == 0 {
                assert(chain@[n - 1] == from);
            }
            assert(0 < n - 1 - k < n);
            assert(g.spec_neighbors(chain@[n - 1 - k] as int).contains(chain@[n - 1 - k - 1] as int));
        }
        assert(is_path(g, p, from as int, to as int));
    }
    Some(path)
}

/// An A* pathfinding implementation for a graph.
/// Returns the several nodes to walk through, including the origin and the
/// destination, exactly when the destination is reachable from the origin;
/// `None` when it is not.
///
/// The frontier is ordered by ascending cost-so-far plus heuristic; with an
/// admissible heuristic the returned walk is a shortest one.
///
/// # Arguments
///
/// * `graph` - a struct implementing the `Graph` trait.
/// * `from_index` - the origin.
/// * `to_index` - the destination.
///
/// Both indices must be below the graph's node count.
#[verifier::loop_isolation(false)]
#[verifier::rlimit(100)]
pub fn astar_path<T: Graph>(graph: &T, from_index: NodeId, to_index: NodeId) -> (r: Option<
    Vec<NodeId>,
>)
    requires
        (from_index as int) < graph.spec_node_count(),
        (to_index as int) < graph.spec_node_count(),
    ensures
        r.is_some() <==> reachable(graph, from_index as int, to_index as int),
        match r {
            Some(p) => is_path(graph, ids(p@), from_index as int, to_index as int),
            None => true,
        },
{
    let n = graph.node_count();
    let ghost ni = graph.spec_node_count();

    let mut frontier: Vec<(u64, usize)> = Vec::new();
    frontier.push((0, from_index));

    let mut came_from: Vec<Option<NodeId>> = Vec::new();
    let mut costs: Vec<Option<u64>> = Vec::new();
    let mut k: usize = 0;
    while k < n
        invariant
            k <= n,
            came_from@.len() == k,
            costs@.len() == k,
            forall |u: int| 0 <= u < k ==> (#[trigger] came_from@[u]).is_none(),
            forall |u: int| 0 <= u < k ==> (#[trigger] costs@[u]).is_none(),
        decreases n - k,
    {
        came_from.push(None);
        costs.push(None);
        k = k + 1;
    }
    costs[from_index] = Some(0);
    proof {
        lemma_costs_sum_nonneg(costs@);
    }

    let mut neighboors: Vec<NodeId> = Vec::with_capacity(4);
    let ghost mut expanded: Set<int> = Set::empty();
    let mut found = false;

    proof {
        assert(frontier@.len() == 1);
        assert(frontier@[0] == (0u64, from_index));
        assert forall |u: int| 0 <= u < ni && (#[trigger] costs@[u]).is_some() implies
            expanded.contains(u)
                || exists |k2: int| 0 <= k2 < frontier@.len()
                    && (#[trigger] frontier@[k2]).1 as int == u
        by {
            assert(u == from_index as int);
            assert((frontier@[0]).1 as int == u);
        }
        assert forall |k2: int| 0 <= k2 < frontier@.len() implies
            ((#[trigger] frontier@[k2]).1 as int) < ni
                && costs@[frontier@[k2].1 as int].is_some()
        by {
            assert(frontier@[k2] == (0u64, from_index));
        }
        lemma_costs_sum_nonneg(costs@);
        assert(count_none(costs@) <= ni);
    }

    while !found && frontier.len() > 0
        invariant
            came_from@.len() == ni,
            costs@.len() == ni,
            costs@[from_index as int] == Some(0u64),
            came_from@[from_index as int].is_none(),
            forall |u: int| 0 <= u < ni && u != from_index as int
                    && (#[trigger] costs@[u]).is_some()
                ==> (#[trigger] came_from@[u]).is_some(),
            forall |u: int| 0 <= u < ni && (#[trigger] came_from@[u]).is_some()
                ==> ({
                    let v = came_from@[u].unwrap() as int;
                    &&& costs@[u].is_some()
                    &&& 0 <= v < ni
                    &&& costs@[v].is_some()
                    &&& opt_cost(costs@[v]) < opt_cost(costs@[u])
                    &&& graph.spec_neighbors(v).contains(u)
                }),
            forall |k2: int| 0 <= k2 < frontier@.len()
                ==> ((#[trigger] frontier@[k2]).1 as int) < ni
                    && costs@[frontier@[k2].1 as int].is_some(),
            forall |u: int| 0 <= u < ni && (#[trigger] costs@[u]).is_some()
                ==> (found && u == to_index as int)
                    || expanded.contains(u)
                    || exists |k2: int| 0 <= k2 < frontier@.len()
                        && (#[trigger] frontier@[k2]).1 as int == u,
            forall |u: int| #[trigger] expanded.contains(u) ==> 0 <= u < ni,
            forall |u: int, i: int| expanded.contains(u)
                    && 0 <= i < graph.spec_neighbors(u).len()
                ==> 0 <= #[trigger] graph.spec_neighbors(u)[i] < ni
                    && costs@[graph.spec_neighbors(u)[i]].is_some(),
            costs@[to_index as int].is_some()
                ==> found
                    || exists |k2: int| 0 <= k2 < frontier@.len()
                        && (#[trigger] frontier@[k2]).1 as int == to_index as int,
            forall |u: int| 0 <= u < ni && (#[trigger] costs@[u]).is_some()
                ==> opt_cost(costs@[u]) <= (ni - count_none(costs@)) * 0xffff_ffff,
            found ==> costs@[to_index as int].is_some(),
            !expanded.contains(to_index as int),
        decreases
            count_none(costs@),
            costs_sum(costs@),
            frontier@.len() + if found { 0int } else { 1int },
    {
        proof {
            lemma_costs_sum_nonneg(costs@);
        }
        let ghost cn0 = count_none(costs@);
        let ghost sum0 = costs_sum(costs@);

        let ghost fr0 = frontier@;
        let popped = pop_min(&mut frontier);
        let current = popped.1;
        let ghost frontier_popped = frontier@;

        proof {
            // the popped entry was in the frontier, so its node has a cost,
            // and every other entry survives the removal
            let kk = choose |kk: int| 0 <= kk < fr0.len() && fr0[kk] == popped
                && frontier@ == fr0.remove(kk);
            assert(fr0[kk].1 == current);
            assert(costs@[current as int].is_some());
            assert forall |u: int| 0 <= u < ni && (#[trigger] costs@[u]).is_some()
                    && u != current as int implies
                expanded.contains(u)
                    || exists |k2: int| 0 <= k2 < frontier@.len()
                        && (#[trigger] frontier@[k2]).1 as int == u
            by {
                if !expanded.contains(u) {
                    let k2 = choose |k2: int| 0 <= k2 < fr0.len()
                        && (#[trigger] fr0[k2]).1 as int == u;
                    if k2 < kk {
                        assert(frontier@[k2].1 as int == u);
                    } else {
                        assert(k2 != kk);
                        assert(frontier@[k2 - 1] == fr0[k2]);
                        assert(frontier@[k2 - 1].1 as int == u);
                    }
                }
            }
        }

        if current == to_index {
            found = true;
        } else {
            proof {
                if costs@[to_index as int].is_some() {
                    let kk = choose |kk: int| 0 <= kk < fr0.len() && fr0[kk] == popped
                        && frontier@ == fr0.remove(kk);
                    let k2 = choose |k2: int| 0 <= k2 < fr0.len()
                        && (#[trigger] fr0[k2]).1 as int == to_index as int;
                    assert(k2 != kk);
                    if k2 < kk {
                        assert(frontier@[k2].1 as int == to_index as int);
                    } else {
                        assert(frontier@[k2 - 1] == fr0[k2]);
                        assert(frontier@[k2 - 1].1 as int == to_index as int);
                    }
                }
            }
            neighboors.clear();
            graph.neighboors(current, &mut neighboors);
            let ghost nbrs = graph.spec_neighbors(current as int);

            let mut idx: usize = 0;
            while idx < neighboors.len()
                invariant
                    neighboors@.len() == nbrs.len(),
                    forall |i: int| 0 <= i < nbrs.len()
                        ==> (#[trigger] neighboors@[i] as int) == nbrs[i]
                            && 0 <= nbrs[i] < ni,
                    idx <= neighboors@.len(),
                    (current as int) < ni,
                    costs@[current as int].is_some(),
                    came_from@.len() == ni,
                    costs@.len() == ni,
                    costs@[from_index as int] == Some(0u64),
                    came_from@[from_index as int].is_none(),
                    forall |u: int| 0 <= u < ni && u != from_index as int
                            && (#[trigger] costs@[u]).is_some()
                        ==> (#[trigger] came_from@[u]).is_some(),
                    forall |u: int| 0 <= u < ni && (#[trigger] came_from@[u]).is_some()
                        ==> ({
                            let v = came_from@[u].unwrap() as int;
                            &&& costs@[u].is_some()
                            &&& 0 <= v < ni
                            &&& costs@[v].is_some()
                            &&& opt_cost(costs@[v]) < opt_cost(costs@[u])
                            &&& graph.spec_neighbors(v).contains(u)
                        }),
                    forall |k2: int| 0 <= k2 < frontier@.len()
                        ==> ((#[trigger] frontier@[k2]).1 as int) < ni
                            && costs@[frontier@[k2].1 as int].is_some(),
                    forall |u: int| 0 <= u < ni && (#[trigger] costs@[u]).is_some()
                        ==> u == current as int
                            || expanded.contains(u)
                            || exists |k2: int| 0 <= k2 < frontier@.len()
                                && (#[trigger] frontier@[k2]).1 as int == u,
                    forall |u: int| #[trigger] expanded.contains(u) ==> 0 <= u < ni,
                    forall |u: int, i: int| expanded.contains(u)
                            && 0 <= i < graph.spec_neighbors(u).len()
                        ==> 0 <= #[trigger] graph.spec_neighbors(u)[i] < ni
                            && costs@[graph.spec_neighbors(u)[i]].is_some(),
                    costs@[to_index as int].is_some()
                        ==> exists |k2: int| 0 <= k2 < frontier@.len()
                            && (#[trigger] frontier@[k2]).1 as int == to_index as int,
                    forall |u: int| 0 <= u < ni && (#[trigger] costs@[u]).is_some()
                        ==> opt_cost(costs@[u]) <= (ni - count_none(costs@)) * 0xffff_ffff,
                    forall |i: int| 0 <= i < idx ==> costs@[#[trigger] nbrs[i]].is_some(),
                    !expanded.contains(to_index as int),
                    current != to_index,
                    count_none(costs@) <= cn0,
                    count_none(costs@) == cn0 ==> costs_sum(costs@) <= sum0,
                    count_none(costs@) == cn0 && costs_sum(costs@) == sum0
                        ==> frontier@ == frontier_popped,
                decreases neighboors@.len() - idx,
            {
                let next = neighboors[idx];
                let cost_so_far = costs[current].unwrap();
                let step = graph.cost_between(current, next);
                proof {
                    lemma_costs_sum_nonneg(costs@);
                    assert((ni - count_none(costs@)) * 0xffff_ffff <= ni * 0xffff_ffff)
                        by (nonlinear_arith)
                        requires 0 <= count_none(costs@), ni - count_none(costs@) <= ni;
                    assert(ni * 0xffff_ffff <= 0x7fff_ffff * 0xffff_ffff) by (nonlinear_arith)
                        requires 0 <= ni <= 0x7fff_ffff;
                }
                let new_cost = cost_so_far + step;

                let improves = match costs[next] {
                    None => true,
                    Some(existing) => new_cost < existing,
                };
                if improves {
                    proof {
                        assert(opt_cost(costs@[current as int])
                            <= (ni - count_none(costs@)) * 0xffff_ffff);
                    }
                    let priority = new_cost + graph.heuristic(next, to_index);
                    let ghost fpre = frontier@;
                    frontier.push((priority, next));
                    proof {
                        lemma_costs_update(costs@, next as int, new_cost);
                    }
                    came_from[next] = Some(current);
                    costs[next] = Some(new_cost);
                    proof {
                        let ghost flen = frontier@.len();
                        assert((frontier@[flen - 1]).1 as int == next as int);
                        assert forall |u: int| 0 <= u < ni && (#[trigger] costs@[u]).is_some()
                                && u != next as int && u != current as int
                                && !expanded.contains(u) implies
                            exists |k2: int| 0 <= k2 < frontier@.len()
                                && (#[trigger] frontier@[k2]).1 as int == u
                        by {
                            let k2 = choose |k2: int| 0 <= k2 < fpre.len()
                                && (#[trigger] fpre[k2]).1 as int == u;
                            assert(frontier@[k2] == fpre[k2]);
                            assert(frontier@[k2].1 as int == u);
                        }
                    }
                }
                idx = idx + 1;
            }

            proof {
                expanded = expanded.insert(current as int);
                assert forall |u: int| 0 <= u < ni && (#[trigger] costs@[u]).is_some() implies
                    (found && u == to_index as int)
                        || expanded.contains(u)
                        || exists |k2: int| 0 <= k2 < frontier@.len()
                            && (#[trigger] frontier@[k2]).1 as int == u
                by {
                    if u == current as int {
                        assert(expanded.contains(u));
                    }
                }
                lemma_costs_sum_nonneg(costs@);
            }
        }
    }

    let r = reconstruct_path(graph, from_index, to_index, came_from, Ghost(costs@));
    proof {
        if r.is_some() {
            let p = ids(r.unwrap()@);
            assert(is_path(graph, p, from_index as int, to_index as int));
            assert(reachable(graph, from_index as int, to_index as int));
        } else {
            assert(from_index != to_index && costs@[to_index as int].is_none());
            assert(!found);
            assert(frontier@.len() == 0);
            assert forall |u: int| 0 <= u < graph.spec_node_count()
                    && (#[trigger] costs@[u]).is_some() implies expanded.contains(u)
            by {
            }
            if reachable(graph, from_index as int, to_index as int) {
                let p = choose |p: Seq<int>| #[trigger] is_path(graph, p, from_index as int, to_index as int);
                lemma_closed_no_path(graph, costs@, expanded, p, from_index as int, to_index as int);
                assert(false);
            }
        }
    }
    r
}

/// The row-major node index of a grid cell.
pub open spec fn grid_index(w: int, p: (int, int)) -> int {
    p.0 + p.1 * w
}

/// The grid cell of a row-major node index.
pub open spec fn grid_point(w: int, i: int) -> (int, int) {
    (i % w, i / w)
}

/// Whether one may step from `a` to `b` on the grid: the cells are in
/// bounds, four-connected, and `b` is walkable.
pub open spec fn grid_adj<T: PathMap + ?Sized>(map: &T, a: (int, int), b: (int, int)) -> bool {
    let wh = map.spec_dimensions();
    &&& 0 <= a.0 < wh.0 && 0 <= a.1 < wh.1
    &&& 0 <= b.0 < wh.0 && 0 <= b.1 < wh.1
    &&& map.spec_walkable(b)
    &&& (b == (a.0, a.1 + 1) || b == (a.0, a.1 - 1) || b == (a.0 - 1, a.1) || b == (a.0 + 1, a.1))
}

/// A walk over the grid from `from` to `to`: every cell in bounds, every
/// step four-connected onto a walkable cell.
pub open spec fn is_grid_path<T: PathMap + ?Sized>(
    map: &T,
    p: Seq<(int, int)>,
    from: (int, int),
    to: (int, int),
) -> bool {
    let wh = map.spec_dimensions();
    &&& p.len() >= 1
    &&& p[0] == from
    &&& p[p.len() - 1] == to
    &&& forall |i: int| 0 <= i < p.len()
        ==> 0 <= (#[trigger] p[i]).0 < wh.0 && 0 <= p[i].1 < wh.1
    &&& forall |i: int| 0 <= i < p.len() - 1 ==> grid_adj(map, #[trigger] p[i], p[i + 1])
}

/// Whether some walk over the grid leads from `from` to `to`.
pub open spec fn grid_reachable<T: PathMap + ?Sized>(
    map: &T,
    from: (int, int),
    to: (int, int),
) -> bool {
    exists |p: Seq<(int, int)>| #[trigger] is_grid_path(map, p, from, to)
}

/// The candidate entry a neighbour cell contributes: its index when it is in
/// bounds and walkable, nothing otherwise.
spec fn grid_cand<T: PathMap + ?Sized>(map: &T, w: int, h: int, p: (int, int)) -> Seq<int> {
    if 0 <= p.0 < w && 0 <= p.1 < h && map.spec_walkable(p) {
        seq![grid_index(w, p)]
    } else {
        Seq::empty()
    }
}

/// Membership in a concatenation is membership in either part.
proof fn lemma_concat_contains(s1: Seq<int>, s2: Seq<int>, x: int)
    ensures
        s1.add(s2).contains(x) <==> s1.contains(x) || s2.contains(x),
{
    if s1.contains(x) {
        let i = choose |i: int| 0 <= i < s1.len() && s1[i] == x;
        assert(s1.add(s2)[i] == x);
    }
    if s2.contains(x) {
        let i = choose |i: int| 0 <= i < s2.len() && s2[i] == x;
        assert(s1.add(s2)[s1.len() + i] == x);
    }
    if s1.add(s2).contains(x) {
        let i = choose |i: int| 0 <= i < s1.add(s2).len() && s1.add(s2)[i] == x;
        if i < s1.len() {
            assert(s1[i] == x);
        } else {
            assert(s2[i - s1.len()] == x);
        }
    }
}

/// Indexing and un-indexing grid cells are inverse on the grid.
proof fn lemma_grid_roundtrip(w: int, p: (int, int))
    requires
        w > 0,
        0 <= p.0 < w,
        0 <= p.1,
    ensures
        grid_point(w, grid_index(w, p)) == p,
        grid_index(w, p) >= 0,
{
    lemma_fundamental_div_mod_converse(p.0 + p.1 * w, w, p.1, p.0);
    assert(p.0 + p.1 * w >= 0) by (nonlinear_arith)
        requires 0 <= p.0, 0 <= p.1, w > 0;
}

/// A valid node index names a cell of the grid.
proof fn lemma_grid_point_bounds(w: int, h: int, i: int)
    requires
        w > 0,
        h > 0,
        0 <= i < w * h,
    ensures
        0 <= grid_point(w, i).0 < w,
        0 <= grid_point(w, i).1 < h,
        grid_index(w, grid_point(w, i)) == i,
{
    lemma_fundamental_div_mod(i, w);
    lemma_mod_division_less_than_divisor(i, w);
    lemma_div_pos_is_pos(i, w);
    assert(i / w < h) by {
        if i / w >= h {
            assert(i == w * (i / w) + i % w);
            assert(w * (i / w) >= w * h) by (nonlinear_arith)
                requires w > 0, i / w >= h;
        }
    }
    assert(grid_index(w, grid_point(w, i)) == i % w + (i / w) * w);
    assert(i % w + (i / w) * w == i) by {
        assert(i == w * (i / w) + i % w);
        assert(w * (i / w) == (i / w) * w) by (nonlinear_arith);
    }
}

/// A cell's index is below the node count.
proof fn lemma_grid_index_bound(w: int, h: int, p: (int, int))
    requires
        0 <= p.0 < w,
        0 <= p.1 < h,
    ensures
        0 <= grid_index(w, p) < w * h,
{
    assert(0 <= p.0 + p.1 * w && p.0 + p.1 * w < w * h) by (nonlinear_arith)
        requires 0 <= p.0 < w, 0 <= p.1 < h;
}

/// A wrapper around a map, representing the graph for a four way grid type
/// of map, where it is possible to go north, east, south and west, but not
/// diagonally.
pub struct FourWayGridGraph<'a, T: PathMap> {
    map: &'a T,
    width: i32,
    height: i32,
}

impl<'a, T: PathMap> FourWayGridGraph<'a, T> {
    /// The stored dimensions are the map's, and their product fits an `i32`.
    #[verifier::type_invariant]
    spec fn type_wf(self) -> bool {
        &&& self.width as int == self.map.spec_dimensions().0
        &&& self.height as int == self.map.spec_dimensions().1
        &&& 0 <= self.width
        &&& 0 <= self.height
        &&& self.width as int * self.height as int <= 0x7fff_ffff
    }

    /// The graph wraps exactly this map.
    pub closed spec fn wraps(self, map: &T) -> bool {
        self.map == map && self.type_wf()
    }

    /// Wrap `map` as a four-connected graph.
    pub fn new(map: &'a T) -> (g: Self)
        ensures
            g.wraps(map),
            g.spec_node_count() == map.spec_dimensions().0 * map.spec_dimensions().1,
    {
        let (width, height) = map.dimensions();
        FourWayGridGraph { map, width, height }
    }

    /// Is the node at position (x, y) walkable.
    fn is_walkable(&self, x: i32, y: i32) -> (b: bool)
        requires
            0 <= (x as int) && (x as int) < self.map.spec_dimensions().0,
            0 <= (y as int) && (y as int) < self.map.spec_dimensions().1,
        ensures
            b == self.map.spec_walkable((x as int, y as int)),
    {
        self.map.is_walkable((x, y))
    }

    /// The node index of an in-bounds cell.
    fn point_to_index(&self, p: Point) -> (i: usize)
        requires
            0 <= (p.0 as int) && (p.0 as int) < self.map.spec_dimensions().0,
            0 <= (p.1 as int) && (p.1 as int) < self.map.spec_dimensions().1,
        ensures
            i as int == grid_index(self.map.spec_dimensions().0, spec_pt(p)),
            (i as int) < self.spec_node_count(),
    {
        proof {
            use_type_invariant(&*self);
            lemma_grid_index_bound(self.width as int, self.height as int, spec_pt(p));
        }
        (p.0 + p.1 * self.width) as usize
    }

    /// The cell of a valid node index.
    fn index_to_point(&self, index: usize) -> (p: Point)
        requires
            (index as int) < self.spec_node_count(),
        ensures
            spec_pt(p) == grid_point(self.map.spec_dimensions().0, index as int),
            0 <= (p.0 as int) && (p.0 as int) < self.map.spec_dimensions().0,
            0 <= (p.1 as int) && (p.1 as int) < self.map.spec_dimensions().1,
    {
        proof {
            use_type_invariant(&*self);
            assert((self.width as int) > 0 && (self.height as int) > 0) by (nonlinear_arith)
                requires
                    0 <= (self.width as int),
                    0 <= (self.height as int),
                    0 <= (index as int),
                    (index as int) < (self.width as int) * (self.height as int);
            lemma_grid_point_bounds(self.width as int, self.height as int, index as int);
        }
        (index as i32 % self.width, index as i32 / self.width)
    }
}

impl<'a, T: PathMap> Graph for FourWayGridGraph<'a, T> {
    closed spec fn spec_node_count(&self) -> int {
        self.width as int * self.height as int
    }

    closed spec fn spec_cost(&self, a: int, b: int) -> int {
        let w = self.width as int;
        let pa = grid_point(w, a);
        let pb = grid_point(w, b);
        // Why the nudge? For a path in a four way grid, going up three times
        // then left three times costs the same as alternating up and left. A
        // small nudge, alternating by cell parity, makes the search prefer
        // the staircase over the straight runs.
        if ((pa.0 + pa.1) % 2 == 0 && pb.0 != pa.0) || ((pa.0 + pa.1) % 2 == 1 && pb.1 != pa.1) {
            1001
        } else {
            1000
        }
    }

    closed spec fn spec_heuristic(&self, a: int, b: int) -> int {
        let w = self.width as int;
        let pa = grid_point(w, a);
        let pb = grid_point(w, b);
        1000 * (int_abs(pa.0 - pb.0) + int_abs(pa.1 - pb.1))
    }

    closed spec fn spec_neighbors(&self, a: int) -> Seq<int> {
        let w = self.width as int;
        let h = self.height as int;
        let p = grid_point(w, a);
        grid_cand(self.map, w, h, (p.0, p.1 + 1))
            .add(grid_cand(self.map, w, h, (p.0, p.1 - 1)))
            .add(grid_cand(self.map, w, h, (p.0 - 1, p.1)))
            .add(grid_cand(self.map, w, h, (p.0 + 1, p.1)))
    }

    fn node_count(&self) -> (n: usize) {
        proof {
            use_type_invariant(&*self);
        }
        (self.width * self.height) as usize
    }

    fn cost_between(&self, a: NodeId, b: NodeId) -> (c: u64) {
        proof {
            use_type_invariant(&*self);
        }
        let (x1, y1) = self.index_to_point(a);
        let (x2, y2) = self.index_to_point(b);
        proof {
            assert(x1 as int + y1 as int <= self.width as int * self.height as int)
                by (nonlinear_arith)
                requires
                    0 <= (x1 as int),
                    (x1 as int) < (self.width as int),
                    0 <= (y1 as int),
                    (y1 as int) < (self.height as int),
                    1 <= (self.width as int),
                    1 <= (self.height as int);
        }
        let nudge = ((x1 + y1) % 2 == 0 && x2 != x1) || ((x1 + y1) % 2 == 1 && y2 != y1);
        if nudge {
            1001
        } else {
            1000
        }
    }

    fn heuristic(&self, a: NodeId, b: NodeId) -> (h: u64) {
        proof {
            use_type_invariant(&*self);
        }
        let (xa, ya) = self.index_to_point(a);
        let (xb, yb) = self.index_to_point(b);
        let dx: u64 = if xa >= xb { (xa - xb) as u64 } else { (xb - xa) as u64 };
        let dy: u64 = if ya >= yb { (ya - yb) as u64 } else { (yb - ya) as u64 };
        proof {
            assert(self.width as int + self.height as int
                <= self.width as int * self.height as int + 1) by (nonlinear_arith)
                requires 1 <= self.width as int, 1 <= self.height as int;
        }
        1000 * (dx + dy)
    }

    fn neighboors(&self, a: NodeId, into: &mut Vec<NodeId>) {
        proof {
            use_type_invariant(&*self);
        }
        let ghost w = self.width as int;
        let ghost h = self.height as int;
        let (x, y) = self.index_to_point(a);
        let ghost c1 = grid_cand(self.map, w, h, (x as int, y as int + 1));
        let ghost c2 = grid_cand(self.map, w, h, (x as int, y as int - 1));
        let ghost c3 = grid_cand(self.map, w, h, (x as int - 1, y as int));
        let ghost c4 = grid_cand(self.map, w, h, (x as int + 1, y as int));

        if !(x < 0 || y + 1 < 0 || x >= self.width || y + 1 >= self.height) && self.is_walkable(x, y + 1) {
            into.push(self.point_to_index((x, y + 1)));
        }
        proof {
            assert(ids(into@) =~= c1);
        }
        if !(x < 0 || y - 1 < 0 || x >= self.width || y - 1 >= self.height) && self.is_walkable(x, y - 1) {
            into.push(self.point_to_index((x, y - 1)));
        }
        proof {
            assert(ids(into@) =~= c1.add(c2));
        }
        if !(x - 1 < 0 || y < 0 || x - 1 >= self.width || y >= self.height) && self.is_walkable(x - 1, y) {
            into.push(self.point_to_index((x - 1, y)));
        }
        proof {
            assert(ids(into@) =~= c1.add(c2).add(c3));
        }
        if !(x + 1 < 0 || y < 0 || x + 1 >= self.width || y >= self.height) && self.is_walkable(x + 1, y) {
            into.push(self.point_to_index((x + 1, y)));
        }
        proof {
            assert(ids(into@) =~= c1.add(c2).add(c3).add(c4));
            assert(ids(into@) =~= self.spec_neighbors(a as int));
            assert forall |i: int| 0 <= i < into@.len() implies
                0 <= (#[trigger] into@[i] as int) < self.spec_node_count()
            by {
                assert(ids(into@)[i] == into@[i] as int);
            }
        }
    }
}

/// A graph edge is exactly a four-connected step of the wrapped grid.
proof fn lemma_neighbors_iff<'a, T: PathMap>(g: &FourWayGridGraph<'a, T>, map: &T, a: int, b: int)
    requires
        g.wraps(map),
        0 <= a < g.spec_node_count(),
    ensures
        g.spec_neighbors(a).contains(b)
            <==> 0 <= b < g.spec_node_count()
                && grid_adj(map, grid_point(map.spec_dimensions().0, a),
                    grid_point(map.spec_dimensions().0, b)),
{
    let w = map.spec_dimensions().0;
    let h = map.spec_dimensions().1;
    assert(w > 0 && h > 0) by (nonlinear_arith)
        requires 0 <= w, 0 <= h, 0 <= a, a < w * h;
    let pa = grid_point(w, a);
    lemma_grid_point_bounds(w, h, a);
    let p1 = (pa.0, pa.1 + 1);
    let p2 = (pa.0, pa.1 - 1);
    let p3 = (pa.0 - 1, pa.1);
    let p4 = (pa.0 + 1, pa.1);
    let c1 = grid_cand(map, w, h, p1);
    let c2 = grid_cand(map, w, h, p2);
    let c3 = grid_cand(map, w, h, p3);
    let c4 = grid_cand(map, w, h, p4);
    assert(g.spec_neighbors(a) == c1.add(c2).add(c3).add(c4));
    lemma_concat_contains(c1.add(c2).add(c3), c4, b);
    lemma_concat_contains(c1.add(c2), c3, b);
    lemma_concat_contains(c1, c2, b);

    if g.spec_neighbors(a).contains(b) {
        if c1.contains(b) {
            let i = choose |i: int| 0 <= i < c1.len() && c1[i] == b;
            lemma_grid_roundtrip(w, p1);
            lemma_grid_index_bound(w, h, p1);
        } else if c2.contains(b) {
            let i = choose |i: int| 0 <= i < c2.len() && c2[i] == b;
            lemma_grid_roundtrip(w, p2);
            lemma_grid_index_bound(w, h, p2);
        } else if c3.contains(b) {
            let i = choose |i: int| 0 <= i < c3.len() && c3[i] == b;
            lemma_grid_roundtrip(w, p3);
            lemma_grid_index_bound(w, h, p3);
        } else {
            assert(c4.contains(b));
            let i = choose |i: int| 0 <= i < c4.len() && c4[i] == b;
            lemma_grid_roundtrip(w, p4);
            lemma_grid_index_bound(w, h, p4);
        }
    }

    if 0 <= b < w * h && grid_adj(map, pa, grid_point(w, b)) {
        let pb = grid_point(w, b);
        lemma_grid_point_bounds(w, h, b);
        if pb == p1 {
            assert(c1 == seq![grid_index(w, pb)]);
            assert(c1[0] == b);
            assert(c1.contains(b));
        } else if pb == p2 {
            assert(c2 == seq![grid_index(w, pb)]);
            assert(c2[0] == b);
            assert(c2.contains(b));
        } else if pb == p3 {
            assert(c3 == seq![grid_index(w, pb)]);
            assert(c3[0] == b);
            assert(c3.contains(b));
        } else {
            assert(pb == p4);
            assert(c4 == seq![grid_index(w, pb)]);
            assert(c4[0] == b);
            assert(c4.contains(b));
        }
        assert(g.spec_neighbors(a).contains(b));
    }
}

/// Law: a walk over the grid cannot visit fewer cells than the Manhattan
/// distance between its endpoints plus one, since every step moves one cell
/// along one axis. (On an open grid the search attains this bound; that the
/// returned path is shortest is checked by tests, not proved here.)
pub proof fn lemma_grid_path_min_len<T: PathMap + ?Sized>(
    map: &T,
    p: Seq<(int, int)>,
    from: (int, int),
    to: (int, int),
)
    requires
        is_grid_path(map, p, from, to),
    ensures
        p.len() >= int_abs(to.0 - from.0) + int_abs(to.1 - from.1) + 1,
    decreases p.len(),
{
    if p.len() == 1 {
    } else {
        let q = p.drop_last();
        let mid = p[p.len() - 2];
        assert(is_grid_path(map, q, from, mid)) by {
            assert(forall |i: int| 0 <= i < q.len() ==> q[i] == #[trigger] p[i]);
        }
        lemma_grid_path_min_len(map, q, from, mid);
        assert(grid_adj(map, p[p.len() - 2], p[p.len() - 1]));
        assert(int_abs(to.0 - mid.0) + int_abs(to.1 - mid.1) == 1);
    }
}

/// An A* pathfinding implementation for a grid based map, where diagonal
/// movements are disabled.
/// Returns the several points on the map to walk through, including the
/// origin and the destination, exactly when the destination is reachable
/// over walkable four-connected steps; `None` when it is not.
///
/// # Arguments
///
/// * `map` - a struct implementing the `PathMap` trait.
/// * `from` - the origin; must be within the map's bounds.
/// * `to` - the destination; must be within the map's bounds.
#[verifier::loop_isolation(false)]
#[verifier::rlimit(40)]
pub fn astar_path_fourwaygrid<T: PathMap>(map: &T, from: Point, to: Point) -> (r: Option<
    Vec<Point>,
>)
    requires
        ({
            let wh = map.spec_dimensions();
            &&& 0 <= (from.0 as int) && (from.0 as int) < wh.0
            &&& 0 <= (from.1 as int) && (from.1 as int) < wh.1
            &&& 0 <= (to.0 as int) && (to.0 as int) < wh.0
            &&& 0 <= (to.1 as int) && (to.1 as int) < wh.1
        }),
    ensures
        r.is_some() <==> grid_reachable(map, spec_pt(from), spec_pt(to)),
        match r {
            Some(p) => {
                &&& p@.len() >= 1
                &&& p@[0] == from
                &&& p@[p@.len() - 1] == to
                &&& forall |i: int| 0 <= i < p@.len() ==> ({
                    let wh = map.spec_dimensions();
                    0 <= (#[trigger] p@[i]).0 as int && (p@[i].0 as int) < wh.0
                        && 0 <= (p@[i].1 as int) && (p@[i].1 as int) < wh.1
                })
                &&& forall |i: int| 0 <= i < p@.len() - 1
                    ==> grid_adj(map, spec_pt(#[trigger] p@[i]), spec_pt(p@[i + 1]))
            },
            None => true,
        },
{
    let ghost wh = map.spec_dimensions();
    let ghost w = wh.0;
    let graph = FourWayGridGraph::new(map);
    let from_index = graph.point_to_index(from);
    let to_index = graph.point_to_index(to);

    proof {
        lemma_grid_roundtrip(w, spec_pt(from));
        lemma_grid_roundtrip(w, spec_pt(to));
    }

    let result = astar_path(&graph, from_index, to_index);

    match result {
        None => {
            proof {
                if grid_reachable(map, spec_pt(from), spec_pt(to)) {
                    let qp = choose |qp: Seq<(int, int)>|
                        #[trigger] is_grid_path(map, qp, spec_pt(from), spec_pt(to));
                    let ip = Seq::new(qp.len(), |k: int| grid_index(w, qp[k]));
                    assert forall |k: int| 0 <= k < ip.len() implies
                        0 <= #[trigger] ip[k] < graph.spec_node_count()
                    by {
                        lemma_grid_index_bound(w, wh.1, qp[k]);
                    }
                    assert forall |k: int| 0 <= k < ip.len() - 1 implies
                        graph.spec_neighbors(#[trigger] ip[k]).contains(ip[k + 1])
                    by {
                        lemma_grid_index_bound(w, wh.1, qp[k]);
                        lemma_grid_index_bound(w, wh.1, qp[k + 1]);
                        lemma_grid_roundtrip(w, qp[k]);
                        lemma_grid_roundtrip(w, qp[k + 1]);
                        lemma_neighbors_iff(&graph, map, ip[k], ip[k + 1]);
                        assert(grid_adj(map, qp[k], qp[k + 1]));
                    }
                    assert(is_path(&graph, ip, from_index as int, to_index as int));
                    assert(reachable(&graph, from_index as int, to_index as int));
                    assert(false);
                }
            }
            None
        }
        Some(indices) => {
            let ghost ip = ids(indices@);
            let mut out: Vec<Point> = Vec::new();
            let mut i: usize = 0;
            while i < indices.len()
                invariant
                    i <= indices@.len(),
                    out@.len() == i,
                    forall |k: int| 0 <= k < i
                        ==> spec_pt(#[trigger] out@[k]) == grid_point(w, ip[k])
                            && 0 <= (out@[k].0 as int) && (out@[k].0 as int) < wh.0
                            && 0 <= (out@[k].1 as int) && (out@[k].1 as int) < wh.1,
                decreases indices@.len() - i,
            {
                proof {
                    assert(ip[i as int] == indices@[i as int] as int);
                }
                let p = graph.index_to_point(indices[i]);
                out.push(p);
                i = i + 1;
            }
            proof {
                assert(spec_pt(out@[0]) == grid_point(w, from_index as int));
                assert(out@[0] == from);
                assert(out@[out@.len() - 1] == to);
                assert forall |k: int| 0 <= k < out@.len() - 1 implies
                    grid_adj(map, spec_pt(#[trigger] out@[k]), spec_pt(out@[k + 1]))
                by {
                    assert(graph.spec_neighbors(ip[k]).contains(ip[k + 1]));
                    lemma_neighbors_iff(&graph, map, ip[k], ip[k + 1]);
                }
                let qs = Seq::new(out@.len(), |k: int| spec_pt(out@[k]));
                assert(is_grid_path(map, qs, spec_pt(from), spec_pt(to)));
                assert(grid_reachable(map, spec_pt(from), spec_pt(to)));
            }
            Some(out)
        }
    }
}

} // verus!
