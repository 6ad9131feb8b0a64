//! The travel graph: for every attraction the edges to all the others, with
//! the minutes and the money that the trip takes.

use std::collections::{HashMap, HashSet};
use vstd::prelude::*;
use crate::models::attraction::Attraction;
use crate::utils::distance::{lemma_minutes_for_is_least, travel_minutes, DistanceTable};

verus! {

/// What a kilometre of travel costs, in hundredths of the currency unit.
pub const TRAVEL_COST_PER_KM: u64 = 50;

#[derive(Debug, Clone, Copy, PartialEq, Eq, Structural)]
pub struct Edge {
    pub to: u32,
    /// Minutes of travel.
    pub travel_time: u32,
    /// Cost of travel, in hundredths of the currency unit.
    pub cost: u64,
}

pub struct Graph {
    pub attractions: HashMap<u32, Attraction>,
    pub adjacency: HashMap<u32, Vec<Edge>>,
}

/// The cost of travelling `metres`, rounded down.
pub open spec fn cost_for(metres: int) -> int {
    metres * 50 / 1000
}

/// No two attractions of `catalog` have the same id.
pub open spec fn distinct_ids(catalog: Seq<Attraction>) -> bool {
    forall|i: int, j: int| 0 <= i < j < catalog.len() ==> catalog[i].id != catalog[j].id
}

/// The edge from the attraction at `i` to the one at `j`.
pub open spec fn edge_between(
    catalog: Seq<Attraction>,
    distances: DistanceTable,
    i: int,
    j: int,
) -> Edge {
    Edge {
        to: catalog[j].id,
        travel_time: distances.minutes(i + 1, j + 1) as u32,
        cost: cost_for(distances.metres(i + 1, j + 1) as int) as u64,
    }
}

/// The edges from the attraction at `i` to those of the first `n` that have
/// another id, in the order of the catalog.
pub open spec fn edges_from(
    catalog: Seq<Attraction>,
    distances: DistanceTable,
    i: int,
    n: int,
) -> Seq<Edge>
    decreases n,
{
    if n <= 0 {
        Seq::empty()
    } else if catalog[n - 1].id == catalog[i].id {
        edges_from(catalog, distances, i, n - 1)
    } else {
        edges_from(catalog, distances, i, n - 1).push(edge_between(catalog, distances, i, n - 1))
    }
}

/// The first edge of `edges` that leads to `to`.
pub open spec fn edge_to(edges: Seq<Edge>, to: u32) -> Option<Edge>
    decreases edges.len(),
{
    if edges.len() == 0 {
        None
    } else {
        match edge_to(edges.drop_last(), to) {
            Some(e) => Some(e),
            None => if edges.last().to == to {
                Some(edges.last())
            } else {
                None
            },
        }
    }
}

/// Among the edges from `i` to the first `n` attractions, the first that
/// leads to the id of the attraction at `j` is the edge between the two, if
/// `j` is another attraction among them; to the id of `i` itself none leads.
pub proof fn lemma_edges_from(
    catalog: Seq<Attraction>,
    distances: DistanceTable,
    i: int,
    j: int,
    n: int,
)
    requires
        distinct_ids(catalog),
        0 <= i < catalog.len(),
        0 <= j < catalog.len(),
        0 <= n <= catalog.len(),
    ensures
        edge_to(edges_from(catalog, distances, i, n), catalog[j].id) == if j < n && j != i {
            Some(edge_between(catalog, distances, i, j))
        } else {
            None
        },
    decreases n,
{
    if n > 0 {
        lemma_edges_from(catalog, distances, i, j, n - 1);
        let rest = edges_from(catalog, distances, i, n - 1);
        if catalog[n - 1].id != catalog[i].id {
            let all = rest.push(edge_between(catalog, distances, i, n - 1));
            assert(all.drop_last() =~= rest);
        }
    }
}

/// Whether no two of `attractions` have the same id.
pub fn has_distinct_ids(attractions: &Vec<Attraction>) -> (distinct: bool)
    ensures
        distinct == distinct_ids(attractions@),
{
    let mut seen: HashSet<u32> = HashSet::new();
    let mut i: usize = 0;
    while i < attractions.len()
        invariant
            i <= attractions@.len(),
            forall|id: u32|
                seen@.contains(id) <==> exists|k: int|
                    0 <= k < i && (#[trigger] attractions@[k]).id == id,
            forall|a: int, b: int| 0 <= a < b < i ==> attractions@[a].id != attractions@[b].id,
        decreases attractions@.len() - i,
    {
        let id = attractions[i].id;
        let ghost before = seen@;
        if !seen.insert(id) {
            proof {
                let k = choose|k: int| 0 <= k < i && (#[trigger] attractions@[k]).id == id;
                assert(attractions@[k].id == attractions@[i as int].id);
            }
            return false;
        }
        proof {
            assert forall|id0: u32| seen@.contains(id0) <==> exists|k: int|
                0 <= k < i + 1 && (#[trigger] attractions@[k]).id == id0 by {
                if before.contains(id0) {
                    let k = choose|k: int| 0 <= k < i && (#[trigger] attractions@[k]).id == id0;
                    assert(0 <= k < i + 1 && attractions@[k].id == id0);
                }
                if id0 == id {
                    assert(attractions@[i as int].id == id0);
                }
            }
            assert forall|a: int, b: int| 0 <= a < b < i + 1 implies attractions@[a].id
                != attractions@[b].id by {
                if b == i && attractions@[a].id == id {
                    assert(before.contains(id));
                }
            }
        }
        i = i + 1;
    }
    true
}

impl Graph {
    pub fn new() -> (graph: Self)
        ensures
            graph.attractions@ == Map::<u32, Attraction>::empty(),
            graph.adjacency@ == Map::<u32, Vec<Edge>>::empty(),
    {
        Graph { attractions: HashMap::new(), adjacency: HashMap::new() }
    }

    /// The graph that joins every attraction to every other, with the travel
    /// time and the travel cost of the distance between the two.
    pub fn build_complete(attractions: Vec<Attraction>, distances: &DistanceTable) -> (graph: Self)
        requires
            distinct_ids(attractions@),
            distances.places() == attractions@.len() + 1,
        ensures
            forall|id: u32|
                graph.adjacency@.contains_key(id) <==> exists|i: int|
                    0 <= i < attractions@.len() && (#[trigger] attractions@[i]).id == id,
            forall|id: u32|
                graph.attractions@.contains_key(id) <==> exists|i: int|
                    0 <= i < attractions@.len() && (#[trigger] attractions@[i]).id == id,
            forall|i: int|
                0 <= i < attractions@.len() ==> {
                    &&& graph.attractions@[(#[trigger] attractions@[i]).id] == attractions@[i]
                    &&& graph.adjacency@[attractions@[i].id]@ == edges_from(
                        attractions@,
                        *distances,
                        i,
                        attractions@.len() as int,
                    )
                },
    {
        let mut graph = Graph::new();
        let ghost catalog = attractions@;
        let n = attractions.len();

        // Build edges between every pair (complete graph)
        let mut from: usize = 0;
        while from < n
            invariant
                catalog == attractions@,
                n == catalog.len(),
                from <= n,
                distinct_ids(catalog),
                distances.places() == n + 1,
                graph.attractions@ == Map::<u32, Attraction>::empty(),
                forall|id: u32|
                    graph.adjacency@.contains_key(id) <==> exists|i: int|
                        0 <= i < from && (#[trigger] catalog[i]).id == id,
                forall|i: int|
                    0 <= i < from ==> graph.adjacency@[(#[trigger] catalog[i]).id]@ == edges_from(
                        catalog,
                        *distances,
                        i,
                        n as int,
                    ),
            decreases n - from,
        {
            let from_id = attractions[from].id;
            let mut edges: Vec<Edge> = Vec::new();
            let mut to: usize = 0;
            while to < n
                invariant
                    catalog == attractions@,
                    n == catalog.len(),
                    from < n,
                    to <= n,
                    from_id == catalog[from as int].id,
                    distances.places() == n + 1,
                    edges@ == edges_from(catalog, *distances, from as int, to as int),
                decreases n - to,
            {
                let to_id = attractions[to].id;
                if from_id != to_id {
                    let metres = distances.distance(from + 1, to + 1);
                    proof {
                        lemma_minutes_for_is_least(metres as int);
                    }
                    let travel_time = travel_minutes(metres);
                    let cost = metres as u64 * TRAVEL_COST_PER_KM / 1000;
                    edges.push(Edge { to: to_id, travel_time, cost });
                }
                to = to + 1;
            }
            let ghost before = graph.adjacency@;
            graph.adjacency.insert(from_id, edges);
            proof {
                assert forall|id: u32| graph.adjacency@.contains_key(id) <==> exists|i: int|
                    0 <= i < from + 1 && (#[trigger] catalog[i]).id == id by {
                    if before.contains_key(id) {
                        let i = choose|i: int| 0 <= i < from && (#[trigger] catalog[i]).id == id;
                        assert(0 <= i < from + 1 && catalog[i].id == id);
                    }
                    if id == from_id {
                        assert(catalog[from as int].id == id);
                    }
                }
            }
            from = from + 1;
        }

        // Insert all attractions
        let mut attractions = attractions;
        let mut left: usize = n;
        while left > 0
            invariant
                n == catalog.len(),
                left <= n,
                attractions@ == catalog.take(left as int),
                distinct_ids(catalog),
                forall|id: u32|
                    graph.adjacency@.contains_key(id) <==> exists|i: int|
                        0 <= i < n && (#[trigger] catalog[i]).id == id,
                forall|i: int|
                    0 <= i < n ==> graph.adjacency@[(#[trigger] catalog[i]).id]@ == edges_from(
                        catalog,
                        *distances,
                        i,
                        n as int,
                    ),
                forall|id: u32|
                    graph.attractions@.contains_key(id) <==> exists|i: int|
                        left <= i < n && (#[trigger] catalog[i]).id == id,
                forall|i: int|
                    left <= i < n ==> graph.attractions@[(#[trigger] catalog[i]).id] == catalog[i],
            decreases left,
        {
            let a = attractions.pop().unwrap();
            let ghost before = graph.attractions@;
            let id = a.id;
            proof {
                assert(a == catalog[left - 1]);
                assert(attractions@ =~= catalog.take(left - 1));
            }
            graph.attractions.insert(id, a);
            proof {
                assert forall|id0: u32| graph.attractions@.contains_key(id0) <==> exists|i: int|
                    left - 1 <= i < n && (#[trigger] catalog[i]).id == id0 by {
                    if before.contains_key(id0) {
                        let i = choose|i: int| left <= i < n && (#[trigger] catalog[i]).id == id0;
                        assert(left - 1 <= i < n && catalog[i].id == id0);
                    }
                    if id0 == id {
                        assert(catalog[left - 1].id == id0);
                    }
                }
            }
            left = left - 1;
        }
        graph
    }

    /// The minutes from `from` to `to`, or `u32::MAX` where no edge joins
    /// them.
    pub fn travel_time(&self, from: u32, to: u32) -> (minutes: u32)
        requires
            self.adjacency@.contains_key(from),
        ensures
            minutes == match edge_to(self.adjacency@[from]@, to) {
                Some(e) => e.travel_time,
                None => u32::MAX,
            },
    {
        match self.find_edge(from, to) {
            Some(e) => e.travel_time,
            None => u32::MAX,
        }
    }

    /// The cost of the trip from `from` to `to`, or `u64::MAX` where no edge
    /// joins them.
    pub fn travel_cost(&self, from: u32, to: u32) -> (cost: u64)
        requires
            self.adjacency@.contains_key(from),
        ensures
            cost == match edge_to(self.adjacency@[from]@, to) {
                Some(e) => e.cost,
                None => u64::MAX,
            },
    {
        match self.find_edge(from, to) {
            Some(e) => e.cost,
            None => u64::MAX,
        }
    }

    fn find_edge(&self, from: u32, to: u32) -> (edge: Option<Edge>)
        requires
            self.adjacency@.contains_key(from),
        ensures
            edge == edge_to(self.adjacency@[from]@, to),
    {
        let edges = match self.adjacency.get(&from) {
            Some(edges) => edges,
            None => vstd::pervasive::unreached(),
        };
        let mut i: usize = 0;
        while i < edges.len()
            invariant
                i <= edges@.len(),
                edges@ == self.adjacency@[from]@,
                edge_to(edges@.take(i as int), to).is_none(),
            decreases edges@.len() - i,
        {
            proof {
                assert(edges@.take(i + 1).drop_last() =~= edges@.take(i as int));
            }
            if edges[i].to == to {
                proof {
                    assert(edges@.take(i + 1).last() == edges@[i as int]);
                    assert(edge_to(edges@.take(i + 1), to) == Some(edges@[i as int]));
                    lemma_edge_to_prefix(edges@, to, i + 1);
                }
                return Some(edges[i]);
            }
            i = i + 1;
        }
        proof {
            assert(edges@.take(i as int) =~= edges@);
        }
        None
    }
}

/// An edge found among the first `n` edges is the edge found among all.
proof fn lemma_edge_to_prefix(edges: Seq<Edge>, to: u32, n: int)
    requires
        0 <= n <= edges.len(),
        edge_to(edges.take(n), to).is_some(),
    ensures
        edge_to(edges, to) == edge_to(edges.take(n), to),
    decreases edges.len() - n,
{
    if n < edges.len() {
        assert(edges.take(n + 1).drop_last() =~= edges.take(n));
        lemma_edge_to_prefix(edges, to, n + 1);
    } else {
        assert(edges.take(n) =~= edges);
    }
}

} // verus!
