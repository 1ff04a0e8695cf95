//! Putting the units of a graph in an order in which each comes after
//! everything it depends on, or finding that there is no such order.

use vstd::prelude::*;
use crate::counting::lemma_distinct_bounded;
use crate::graph::UnitDep;

verus! {

/// Every dependency names a unit of the graph.
pub open spec fn in_range(edges: Seq<Seq<UnitDep>>) -> bool {
    forall|h: int, t: int|
        0 <= h < edges.len() && 0 <= t < edges[h].len() ==> (#[trigger] edges[h][t]).unit.index
            < edges.len()
}

/// `rank` gives every unit a number above those of the units it depends
/// on.
pub open spec fn is_ranking(edges: Seq<Seq<UnitDep>>, rank: Seq<nat>) -> bool {
    &&& rank.len() == edges.len()
    &&& forall|h: int, t: int|
        0 <= h < edges.len() && 0 <= t < edges[h].len() ==> (#[trigger] edges[h][t]).unit.index
            < edges.len() && rank[edges[h][t].unit.index as int] < rank[h]
}

/// The units can be put in an order in which each comes after what it
/// depends on.
pub open spec fn acyclic(edges: Seq<Seq<UnitDep>>) -> bool {
    exists|rank: Seq<nat>| is_ranking(edges, rank)
}

/// `path` follows dependencies: each unit on it depends on the next.
pub open spec fn is_dependency_path(edges: Seq<Seq<UnitDep>>, path: Seq<int>) -> bool {
    &&& path.len() > 0
    &&& forall|i: int| 0 <= i < path.len() ==> 0 <= #[trigger] path[i] < edges.len()
    &&& forall|i: int|
        #![trigger path[i]]
        0 <= i < path.len() - 1 ==> depends_on(edges, path[i], path[i + 1])
}

/// Unit `a` depends on unit `b`.
pub open spec fn depends_on(edges: Seq<Seq<UnitDep>>, a: int, b: int) -> bool {
    exists|t: int| 0 <= t < edges[a].len() && (#[trigger] edges[a][t]).unit.index == b
}

/// Along a path of dependencies the ranks fall by at least one a step.
pub proof fn lemma_rank_falls(edges: Seq<Seq<UnitDep>>, rank: Seq<nat>, path: Seq<int>, i: int)
    requires
        is_ranking(edges, rank),
        is_dependency_path(edges, path),
        0 <= i < path.len(),
    ensures
        rank[path[i]] + i <= rank[path[0]],
    decreases i,
{
    if i > 0 {
        lemma_rank_falls(edges, rank, path, i - 1);
        assert(depends_on(edges, path[i - 1], path[i - 1 + 1]));
        let t = choose|t: int|
            0 <= t < edges[path[i - 1]].len() && (#[trigger] edges[path[i - 1]][t]).unit.index
                == path[i];
        assert(rank[edges[path[i - 1]][t].unit.index as int] < rank[path[i - 1]]);
    }
}

/// In a graph that can be ordered, no path of dependencies of one step or
/// more leads from a unit back to itself.
pub proof fn lemma_no_cycle(edges: Seq<Seq<UnitDep>>, path: Seq<int>)
    requires
        acyclic(edges),
        is_dependency_path(edges, path),
        path.len() >= 2,
    ensures
        path.last() != path[0],
{
    let rank = choose|rank: Seq<nat>| is_ranking(edges, rank);
    lemma_rank_falls(edges, rank, path, path.len() - 1);
}

/// The units marked in `stuck` are some, and each of them depends on one
/// of them.
pub open spec fn is_knot(edges: Seq<Seq<UnitDep>>, stuck: Seq<bool>) -> bool {
    &&& stuck.len() == edges.len()
    &&& exists|h: int| 0 <= h < stuck.len() && #[trigger] stuck[h]
    &&& forall|h: int|
        0 <= h < stuck.len() && #[trigger] stuck[h] ==> exists|t: int|
            0 <= t < edges[h].len() && (#[trigger] edges[h][t]).unit.index < edges.len()
                && stuck[edges[h][t].unit.index as int]
}

/// Unit `h` cannot be placed in any order: it lies on a cycle, or depends,
/// by however many steps, on a unit that does.
pub open spec fn unplaceable(edges: Seq<Seq<UnitDep>>, h: int) -> bool {
    exists|stuck: Seq<bool>| is_knot(edges, stuck) && 0 <= h < stuck.len() && #[trigger] stuck[h]
}

/// Unit `h` is the first, by its handle, that cannot be placed.
pub open spec fn first_unplaceable(edges: Seq<Seq<UnitDep>>, h: int) -> bool {
    &&& unplaceable(edges, h)
    &&& forall|lower: int| 0 <= lower < h ==> !unplaceable(edges, lower)
}

/// The rank of a unit of a knot lies above every number.
proof fn lemma_knot_rank(
    edges: Seq<Seq<UnitDep>>,
    stuck: Seq<bool>,
    rank: Seq<nat>,
    h: int,
    floor: nat,
)
    requires
        is_knot(edges, stuck),
        is_ranking(edges, rank),
        0 <= h < stuck.len(),
        stuck[h],
    ensures
        rank[h] >= floor,
    decreases floor,
{
    if floor > 0 {
        let t = choose|t: int|
            0 <= t < edges[h].len() && (#[trigger] edges[h][t]).unit.index < edges.len()
                && stuck[edges[h][t].unit.index as int];
        lemma_knot_rank(edges, stuck, rank, edges[h][t].unit.index as int, (floor - 1) as nat);
    }
}

/// A graph with a knot cannot be ordered.
pub proof fn lemma_knot_not_acyclic(edges: Seq<Seq<UnitDep>>, stuck: Seq<bool>)
    requires
        is_knot(edges, stuck),
    ensures
        !acyclic(edges),
{
    if acyclic(edges) {
        let rank = choose|rank: Seq<nat>| is_ranking(edges, rank);
        let h = choose|h: int| 0 <= h < stuck.len() && #[trigger] stuck[h];
        lemma_knot_rank(edges, stuck, rank, h, rank[h] + 1);
    }
}

/// The dependency lists of `edges`.
pub open spec fn lists(edges: Seq<Vec<UnitDep>>) -> Seq<Seq<UnitDep>> {
    edges.map_values(|v: Vec<UnitDep>| v@)
}

/// `order` lists every unit once, each after the units it depends on.
pub open spec fn is_topological(edges: Seq<Seq<UnitDep>>, order: Seq<usize>) -> bool {
    &&& order.len() == edges.len()
    &&& order.no_duplicates()
    &&& forall|k: int| 0 <= k < order.len() ==> (#[trigger] order[k]) < edges.len()
    &&& forall|k: int, t: int|
        0 <= k < order.len() && 0 <= t < edges[order[k] as int].len() ==> exists|l: int|
            0 <= l < k && order[l] == (#[trigger] edges[order[k] as int][t]).unit.index
}

/// Everything that unit `h` depends on is among the first `k` units of
/// `order`.
pub open spec fn ready_after(edges: Seq<Seq<UnitDep>>, order: Seq<usize>, h: int, k: int) -> bool {
    forall|t: int|
        0 <= t < edges[h].len() ==> exists|l: int|
            0 <= l < k && order[l] == (#[trigger] edges[h][t]).unit.index
}

/// Unit `h` is among the first `k` units of `order`.
pub open spec fn placed_after(order: Seq<usize>, h: int, k: int) -> bool {
    exists|l: int| 0 <= l < k && #[trigger] order[l] == h
}

/// `order` takes at every place the unit of least handle that can stand
/// there: no unit of a lower handle that is not yet placed has everything
/// it depends on placed.
pub open spec fn is_least_order(edges: Seq<Seq<UnitDep>>, order: Seq<usize>) -> bool {
    forall|k: int, h: int|
        0 <= k < order.len() && 0 <= h < order[k] && !placed_after(order, h, k) ==> !#[trigger] ready_after(
            edges,
            order,
            h,
            k,
        )
}

/// Whether every unit that `deps` names is marked in `placed`.
fn all_placed(deps: &Vec<UnitDep>, placed: &Vec<bool>) -> (r: bool)
    requires
        forall|t: int| 0 <= t < deps@.len() ==> (#[trigger] deps@[t]).unit.index < placed@.len(),
    ensures
        r == forall|t: int| 0 <= t < deps@.len() ==> placed@[(#[trigger] deps@[t]).unit.index as int],
{
    let n = deps.len();
    let mut t: usize = 0;
    while t < n
        invariant
            n == deps@.len(),
            t <= n,
            forall|a: int| 0 <= a < deps@.len() ==> (#[trigger] deps@[a]).unit.index < placed@.len(),
            forall|a: int| 0 <= a < t ==> placed@[(#[trigger] deps@[a]).unit.index as int],
        decreases n - t,
    {
        if !placed[deps[t].unit.index] {
            return false;
        }
        t = t + 1;
    }
    true
}

/// What the search for the next unit to place comes to.
enum Search {
    /// This unit is not placed, and everything it depends on is.
    Ready(usize),
    /// Every unit is placed.
    Finished,
    /// Some units are not placed, and each of them depends on one that is
    /// not. This is the first of them.
    Stuck(usize),
}

/// Looks for a unit that can be placed next.
fn search(edges: &Vec<Vec<UnitDep>>, placed: &Vec<bool>) -> (r: Search)
    requires
        placed@.len() == edges@.len(),
        in_range(lists(edges@)),
    ensures
        match r {
            Search::Ready(h) => h < edges@.len() && !placed@[h as int] && (forall|t: int|
                0 <= t < edges@[h as int]@.len() ==> placed@[(
                #[trigger] edges@[h as int]@[t]).unit.index as int]) && forall|a: int|
                0 <= a < h && !#[trigger] placed@[a] ==> exists|t: int|
                    0 <= t < edges@[a]@.len() && !placed@[(
                    #[trigger] edges@[a]@[t]).unit.index as int],
            Search::Finished => forall|h: int| 0 <= h < placed@.len() ==> #[trigger] placed@[h],
            Search::Stuck(h) => h < edges@.len() && !placed@[h as int] && is_knot(
                lists(edges@),
                placed@.map_values(|b: bool| !b),
            ) && forall|a: int| 0 <= a < h ==> #[trigger] placed@[a],
        },
{
    let n = edges.len();
    let mut first: Option<usize> = None;
    let mut h: usize = 0;
    while h < n
        invariant
            n == edges@.len(),
            placed@.len() == n,
            in_range(lists(edges@)),
            h <= n,
            match first {
                Some(f) => f < h && !placed@[f as int] && forall|a: int|
                    0 <= a < f ==> #[trigger] placed@[a],
                None => forall|a: int| 0 <= a < h ==> #[trigger] placed@[a],
            },
            forall|a: int|
                0 <= a < h && !#[trigger] placed@[a] ==> exists|t: int|
                    0 <= t < edges@[a]@.len() && !placed@[(#[trigger] edges@[a]@[t]).unit.index as int],
        decreases n - h,
    {
        if !placed[h] {
            assert forall|t: int| 0 <= t < edges@[h as int]@.len() implies (
            #[trigger] edges@[h as int]@[t]).unit.index < placed@.len() by {
                assert(lists(edges@)[h as int][t] == edges@[h as int]@[t]);
            }
            if all_placed(&edges[h], placed) {
                return Search::Ready(h);
            }
            if first.is_none() {
                first = Some(h);
            }
        }
        h = h + 1;
    }
    match first {
        None => Search::Finished,
        Some(f) => {
            proof {
                let es = lists(edges@);
                let stuck = placed@.map_values(|b: bool| !b);
                assert(stuck[f as int]);
                assert forall|a: int| 0 <= a < stuck.len() && #[trigger] stuck[a] implies exists|
                    t: int,
                |
                    0 <= t < es[a].len() && (#[trigger] es[a][t]).unit.index < es.len()
                        && stuck[es[a][t].unit.index as int] by {
                    assert(!placed@[a]);
                    let t = choose|t: int|
                        0 <= t < edges@[a]@.len() && !placed@[(
                        #[trigger] edges@[a]@[t]).unit.index as int];
                    assert(es[a][t] == edges@[a]@[t]);
                    assert(es[a][t].unit.index < es.len());
                }
            }
            Search::Stuck(f)
        },
    }
}

/// Puts the units in an order in which each comes after everything it
/// depends on: the order that takes, place by place, the unit of least
/// handle that can stand there. Where there is no such order, gives the
/// first unit that
/// cannot be placed: the one of least handle that lies on a cycle or
/// depends on a unit that does.
pub fn topological_order(edges: &Vec<Vec<UnitDep>>) -> (r: Result<Vec<usize>, usize>)
    requires
        in_range(lists(edges@)),
    ensures
        match r {
            Ok(order) => is_topological(lists(edges@), order@) && is_least_order(
                lists(edges@),
                order@,
            ) && acyclic(lists(edges@)),
            Err(h) => h < edges@.len() && !acyclic(lists(edges@)) && first_unplaceable(
                lists(edges@),
                h as int,
            ),
        },
{
    let n = edges.len();
    let ghost es = lists(edges@);
    let mut placed: Vec<bool> = Vec::new();
    let mut a: usize = 0;
    while a < n
        invariant
            a <= n,
            placed@.len() == a,
            forall|h: int| 0 <= h < a ==> !#[trigger] placed@[h],
        decreases n - a,
    {
        placed.push(false);
        a = a + 1;
    }
    let mut order: Vec<usize> = Vec::new();
    loop
        invariant
            n == edges@.len(),
            es == lists(edges@),
            in_range(es),
            placed@.len() == n,
            order@.no_duplicates(),
            order@.len() <= n,
            forall|k: int| 0 <= k < order@.len() ==> (#[trigger] order@[k]) < n && placed@[order@[k] as int],
            forall|h: int| 0 <= h < n && #[trigger] placed@[h] ==> order@.contains(h as usize),
            forall|k: int, t: int|
                0 <= k < order@.len() && 0 <= t < es[order@[k] as int].len() ==> exists|l: int|
                    0 <= l < k && order@[l] == (#[trigger] es[order@[k] as int][t]).unit.index,
            forall|h: int| 0 <= h < n && #[trigger] placed@[h] ==> !unplaceable(es, h),
            is_least_order(es, order@),
        decreases n - order@.len(),
    {
        match search(edges, &placed) {
            Search::Ready(h) => {
                let ghost order0 = order@;
                let ghost placed0 = placed@;
                proof {
                    if unplaceable(es, h as int) {
                        let stuck = choose|stuck: Seq<bool>|
                            is_knot(es, stuck) && 0 <= h < stuck.len() && #[trigger] stuck[h as int];
                        let t = choose|t: int|
                            0 <= t < es[h as int].len() && (#[trigger] es[h as int][t]).unit.index
                                < es.len() && stuck[es[h as int][t].unit.index as int];
                        let d = es[h as int][t].unit.index as int;
                        assert(es[h as int][t] == edges@[h as int]@[t]);
                        assert(placed0[d]);
                        assert(unplaceable(es, d));
                    }
                }
                placed.set(h, true);
                order.push(h);
                proof {
                    assert forall|x: int, y: int|
                        0 <= x < order@.len() && 0 <= y < order@.len() && x != y implies order@[x]
                        != order@[y] by {
                        if x < order0.len() && y < order0.len() {
                            assert(order0[x] != order0[y]);
                        } else if x < order0.len() {
                            assert(placed0[order0[x] as int]);
                        } else {
                            assert(placed0[order0[y] as int]);
                        }
                    }
                    let idx = order@.map_values(|v: usize| v as int);
                    assert forall|x: int, y: int|
                        0 <= x < idx.len() && 0 <= y < idx.len() && x != y implies idx[x]
                        != idx[y] by {
                        assert(order@[x] != order@[y]);
                    }
                    assert forall|x: int| 0 <= x < idx.len() implies 0 <= #[trigger] idx[x] < n by {
                        if x < order0.len() {
                            assert(order@[x] == order0[x]);
                        }
                    }
                    lemma_distinct_bounded(idx, n as int);
                    assert forall|k: int| 0 <= k < order@.len() implies (#[trigger] order@[k]) < n
                        && placed@[order@[k] as int] by {
                        if k < order0.len() {
                            assert(order@[k] == order0[k]);
                        }
                    }
                    assert forall|x: int| 0 <= x < n && #[trigger] placed@[x] implies order@.contains(
                        x as usize,
                    ) by {
                        if x == h {
                            assert(order@[order0.len() as int] == h);
                        } else {
                            assert(placed0[x]);
                            let k = choose|k: int| 0 <= k < order0.len() && order0[k] == x as usize;
                            assert(order@[k] == x as usize);
                        }
                    }
                    assert forall|k: int, a: int|
                        0 <= k < order@.len() && 0 <= a < order@[k] && !placed_after(
                            order@,
                            a,
                            k,
                        ) implies !#[trigger] ready_after(es, order@, a, k) by {
                        if k < order0.len() {
                            assert(order@[k] == order0[k]);
                            if placed_after(order0, a, k) {
                                let l = choose|l: int| 0 <= l < k && #[trigger] order0[l] == a;
                                assert(order@[l] == a);
                            }
                            assert(!ready_after(es, order0, a, k));
                            if ready_after(es, order@, a, k) {
                                assert forall|t: int| 0 <= t < es[a].len() implies exists|l: int|
                                    0 <= l < k && order0[l] == (#[trigger] es[a][t]).unit.index by {
                                    let l = choose|l: int|
                                        0 <= l < k && order@[l] == es[a][t].unit.index;
                                    assert(order0[l] == order@[l]);
                                }
                            }
                        } else {
                            if placed0[a] {
                                assert(order0.contains(a as usize));
                                let l = choose|l: int| 0 <= l < order0.len() && order0[l] == a as usize;
                                assert(order@[l] == a);
                                assert(placed_after(order@, a, k));
                            }
                            let t = choose|t: int|
                                0 <= t < edges@[a]@.len() && !placed0[(
                                #[trigger] edges@[a]@[t]).unit.index as int];
                            assert(es[a][t] == edges@[a]@[t]);
                            let d = es[a][t].unit.index;
                            if ready_after(es, order@, a, k) {
                                let l = choose|l: int| 0 <= l < k && order@[l] == es[a][t].unit.index;
                                assert(order@[l] == order0[l]);
                                assert(placed0[order0[l] as int]);
                            }
                        }
                    }
                    assert forall|k: int, t: int|
                        0 <= k < order@.len() && 0 <= t < es[order@[k] as int].len() implies exists|
                        l: int,
                    |
                        0 <= l < k && order@[l] == (#[trigger] es[order@[k] as int][t]).unit.index by {
                        if k < order0.len() {
                            assert(order@[k] == order0[k]);
                            let l = choose|l: int|
                                0 <= l < k && order0[l] == (
                                #[trigger] es[order0[k] as int][t]).unit.index;
                            assert(order@[l] == order0[l]);
                        } else {
                            assert(es[h as int][t] == edges@[h as int]@[t]);
                            let d = edges@[h as int]@[t].unit.index;
                            assert(placed0[d as int]);
                            assert(order0.contains(d));
                            let l = choose|l: int| 0 <= l < order0.len() && order0[l] == d;
                            assert(order@[l] == d);
                        }
                    }
                }
            },
            Search::Finished => {
                proof {
                    assert forall|h: usize| h < es.len() implies #[trigger] order@.contains(h) by {
                        assert(placed@[h as int]);
                    }
                    lemma_order_is_ranking(es, order@);
                }
                return Ok(order);
            },
            Search::Stuck(h) => {
                proof {
                    let stuck = placed@.map_values(|b: bool| !b);
                    lemma_knot_not_acyclic(es, stuck);
                    assert(stuck[h as int]);
                    assert(unplaceable(es, h as int));
                    assert forall|lower: int| 0 <= lower < h implies !unplaceable(es, lower) by {
                        assert(placed@[lower]);
                    }
                }
                return Err(h);
            },
        }
    }
}

/// An order that lists every unit after what it depends on gives a
/// ranking: the place of each unit in the order.
proof fn lemma_order_is_ranking(edges: Seq<Seq<UnitDep>>, order: Seq<usize>)
    requires
        in_range(edges),
        edges.len() <= usize::MAX,
        order.no_duplicates(),
        order.len() <= edges.len(),
        forall|k: int| 0 <= k < order.len() ==> (#[trigger] order[k]) < edges.len(),
        forall|h: usize| h < edges.len() ==> #[trigger] order.contains(h),
        forall|k: int, t: int|
            0 <= k < order.len() && 0 <= t < edges[order[k] as int].len() ==> exists|l: int|
                0 <= l < k && order[l] == (#[trigger] edges[order[k] as int][t]).unit.index,
    ensures
        is_topological(edges, order),
        acyclic(edges),
{
    let hs = Seq::new(edges.len(), |h: int| order.index_of(h as usize));
    assert forall|x: int, y: int| 0 <= x < hs.len() && 0 <= y < hs.len() && x != y implies hs[x]
        != hs[y] by {
        assert(order.contains(x as usize));
        assert(order.contains(y as usize));
        assert(order[order.index_of(x as usize)] == x as usize);
        assert(order[order.index_of(y as usize)] == y as usize);
    }
    assert forall|x: int| 0 <= x < hs.len() implies 0 <= #[trigger] hs[x] < order.len() by {
        assert(order.contains(x as usize));
    }
    lemma_distinct_bounded(hs, order.len() as int);
    let rank = Seq::new(edges.len(), |h: int| order.index_of(h as usize) as nat);
    assert forall|h: int, t: int| 0 <= h < edges.len() && 0 <= t < edges[h].len() implies (
    #[trigger] edges[h][t]).unit.index < edges.len() && rank[edges[h][t].unit.index as int]
        < rank[h] by {
        assert(order.contains(h as usize));
        let k = order.index_of(h as usize);
        assert(order[k] == h);
        let l = choose|l: int| 0 <= l < k && order[l] == (#[trigger] edges[order[k] as int][t]).unit.index;
        let d = edges[h][t].unit.index;
        assert(order.contains(d));
        assert(order[order.index_of(d)] == d);
        assert(order.index_of(d) == l);
    }
    assert(is_ranking(edges, rank));
}

} // verus!
