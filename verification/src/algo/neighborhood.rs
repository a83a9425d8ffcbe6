//! Bounded-radius neighborhood enumeration: `k` rounds of breadth-first
//! frontier expansion, returning the frontier reached at exactly `k` hops.
use vstd::prelude::*;

use crate::Error;
use crate::Graph;
use crate::Payload;

verus! {

broadcast use vstd::seq_lib::group_seq_properties;

/// The targets of the edges leaving any node of `s`.
pub open spec fn succs<E>(adj: Seq<Seq<(E, usize)>>, s: Set<usize>) -> Set<usize> {
    Set::new(
        |t: usize|
            exists|c: usize, j: int|
                s.contains(c) && c < adj.len() && 0 <= j < adj[c as int].len() && (#[trigger] adj[
                    c as int
                ][j]).1 == t,
    )
}

/// The nodes within `k` hops of `s`: `s` itself, closed under `k` rounds of
/// successor expansion.
pub open spec fn reach_upto<E>(adj: Seq<Seq<(E, usize)>>, s: usize, k: nat) -> Set<usize>
    decreases k,
{
    if k == 0 {
        Set::empty().insert(s)
    } else {
        let p = reach_upto(adj, s, (k - 1) as nat);
        p.union(succs(adj, p))
    }
}

/// The nodes at exactly `k` hops of `s`: within `k` hops but not within
/// `k - 1`.
pub open spec fn hop_frontier<E>(adj: Seq<Seq<(E, usize)>>, s: usize, k: nat) -> Set<usize> {
    if k == 0 {
        Set::empty().insert(s)
    } else {
        reach_upto(adj, s, k).difference(reach_upto(adj, s, (k - 1) as nat))
    }
}

/// The targets of the first `j` edges leaving `u`.
spec fn targets_upto<E>(adj: Seq<Seq<(E, usize)>>, u: usize, j: int) -> Set<usize> {
    Set::new(
        |t: usize| exists|jj: int| 0 <= jj < j && (#[trigger] adj[u as int][jj]).1 == t,
    )
}

/// The indices whose flag is set.
spec fn flag_set(v: Seq<bool>) -> Set<usize> {
    Set::new(|t: usize| t < v.len() && v[t as int])
}

/// Successor sets grow with their argument.
proof fn lemma_succs_mono<E>(adj: Seq<Seq<(E, usize)>>, a: Set<usize>, b: Set<usize>)
    requires
        a.subset_of(b),
    ensures
        succs(adj, a).subset_of(succs(adj, b)),
{
    assert forall|t: usize| succs(adj, a).contains(t) implies succs(adj, b).contains(t) by {
        let (c, j) = choose|c: usize, j: int|
            a.contains(c) && c < adj.len() && 0 <= j < adj[c as int].len() && (#[trigger] adj[
                c as int
            ][j]).1 == t;
        assert(b.contains(c) && adj[c as int][j].1 == t);
    }
}

/// A successor set splits over a union of sources.
proof fn lemma_succs_union<E>(adj: Seq<Seq<(E, usize)>>, a: Set<usize>, b: Set<usize>)
    ensures
        succs(adj, a.union(b)) =~= succs(adj, a).union(succs(adj, b)),
{
    lemma_succs_mono(adj, a, a.union(b));
    lemma_succs_mono(adj, b, a.union(b));
    assert forall|t: usize| succs(adj, a.union(b)).contains(t) implies succs(adj, a).union(
        succs(adj, b),
    ).contains(t) by {
        let (c, j) = choose|c: usize, j: int|
            a.union(b).contains(c) && c < adj.len() && 0 <= j < adj[c as int].len() && (
            #[trigger] adj[c as int][j]).1 == t;
        if a.contains(c) {
            assert(succs(adj, a).contains(t));
        } else {
            assert(succs(adj, b).contains(t));
        }
    }
}

/// Expanding only the newest layer loses nothing: the successors of the
/// whole `k`-hop set that are new all come from the exact-`k` frontier.
proof fn lemma_frontier_succs<E>(adj: Seq<Seq<(E, usize)>>, s: usize, k: nat)
    ensures
        succs(adj, reach_upto(adj, s, k)).difference(reach_upto(adj, s, k)) =~= succs(
            adj,
            hop_frontier(adj, s, k),
        ).difference(reach_upto(adj, s, k)),
{
    let r = reach_upto(adj, s, k);
    let f = hop_frontier(adj, s, k);
    if k == 0 {
        assert(f =~= r);
    } else {
        let p = reach_upto(adj, s, (k - 1) as nat);
        assert(f.subset_of(r));
        lemma_succs_mono(adj, f, r);
        assert forall|t: usize|
            succs(adj, r).difference(r).contains(t) implies succs(adj, f).difference(r).contains(
            t,
        ) by {
            let (c, j) = choose|c: usize, j: int|
                r.contains(c) && c < adj.len() && 0 <= j < adj[c as int].len() && (#[trigger] adj[
                    c as int
                ][j]).1 == t;
            if p.contains(c) {
                assert(succs(adj, p).contains(t));
                assert(r.contains(t));
            } else {
                assert(f.contains(c));
                assert(succs(adj, f).contains(t));
            }
        }
    }
}

/// The frontier reached at exactly `k` hops from `id`, in discovery order.
///
/// `k == 0` yields `[id]` whether or not `id` is a valid index, as a pure
/// query on the identifier. `k == 1` yields the direct target list of `id`
/// in adjacency order, duplicates and self-loops included. For `k >= 2`,
/// `k` rounds of frontier expansion are performed over a visited set seeded
/// with `id`; the result lists, without duplicates, the nodes first visited
/// in the final round — nodes closer than `k` hops are not included. Fails
/// with [`Error::NoSuchNode`] when `k >= 1` and `id` is out of range.
#[verifier::loop_isolation(false)]
pub fn neighborhood<N: Payload, E: Payload>(graph: Graph<N, E>, id: usize, k: usize) -> (r: Result<
    Vec<usize>,
    Error,
>)
    requires
        graph.wf(),
    ensures
        k == 0 ==> (r matches Ok(v) && v@ =~= seq![id]),
        k >= 1 && id >= graph.spec_nodes().len() ==> (r matches Err(e) && e == Error::NoSuchNode),
        k == 1 && id < graph.spec_nodes().len() ==> (r matches Ok(v) && v@ == graph.spec_adj()[
            id as int
        ].map_values(|p: (E, usize)| p.1)),
        k >= 2 && id < graph.spec_nodes().len() ==> (r matches Ok(v) && {
            &&& forall|a: int, b: int| 0 <= a < b < v@.len() ==> v@[a] != v@[b]
            &&& forall|a: int| 0 <= a < v@.len() ==> (#[trigger] v@[a]) < graph.spec_nodes().len()
            &&& forall|a: int| 0 <= a < v@.len() ==> (#[trigger] v@[a]) != id
            &&& forall|a: int|
                0 <= a < v@.len() ==> Graph::<N, E>::reaches(
                    graph.spec_adj(),
                    id,
                    #[trigger] v@[a],
                )
            &&& v@.to_set() == hop_frontier(graph.spec_adj(), id, k as nat)
        }),
{
    let ghost adjs = graph.spec_adj();
    let n = graph.node_len();
    if k == 0 {
        let mut out: Vec<usize> = Vec::new();
        out.push(id);
        return Ok(out);
    }
    if k == 1 {
        return graph.neighbors(id);
    }
    if id >= n {
        return Err(Error::NoSuchNode);
    }
    let mut visited: Vec<bool> = Vec::new();
    let mut i: usize = 0;
    while i < n
        invariant
            i <= n,
            visited@.len() == i,
            forall|t: int| 0 <= t < i ==> !(#[trigger] visited@[t]),
        decreases n - i,
    {
        visited.push(false);
        i = i + 1;
    }
    let mut frontier: Vec<usize> = Vec::new();
    frontier.push(id);
    visited[id] = true;
    proof {
        Graph::<N, E>::lemma_reaches_self(adjs, id);
        assert(flag_set(visited@) =~= reach_upto(adjs, id, 0nat));
        assert(frontier@.to_set() =~= hop_frontier(adjs, id, 0nat));
    }
    let mut round: usize = 0;
    while round < k
        invariant
            round <= k,
            visited@.len() == n,
            visited@[id as int],
            round > 0 ==> forall|a: int| 0 <= a < frontier@.len() ==> (#[trigger] frontier@[a])
                != id,
            flag_set(visited@) == reach_upto(adjs, id, round as nat),
            frontier@.to_set() == hop_frontier(adjs, id, round as nat),
            forall|a: int, b: int| 0 <= a < b < frontier@.len() ==> frontier@[a] != frontier@[b],
            forall|a: int| 0 <= a < frontier@.len() ==> (#[trigger] frontier@[a]) < n,
            forall|a: int|
                0 <= a < frontier@.len() ==> Graph::<N, E>::reaches(
                    adjs,
                    id,
                    #[trigger] frontier@[a],
                ),
            forall|a: int| 0 <= a < frontier@.len() ==> visited@[(#[trigger] frontier@[a]) as int],
        decreases k - round,
    {
        let ghost rcur = reach_upto(adjs, id, round as nat);
        let ghost fcur = frontier@;
        let mut temp: Vec<usize> = Vec::new();
        proof {
            assert(flag_set(visited@) =~= rcur.union(temp@.to_set()));
            assert(temp@.to_set() =~= succs(adjs, fcur.take(0).to_set()).difference(rcur));
        }
        let mut fi: usize = 0;
        while fi < frontier.len()
            invariant
                fi <= frontier@.len(),
                visited@.len() == n,
                visited@[id as int],
                frontier@ == fcur,
                flag_set(visited@) == rcur.union(temp@.to_set()),
                temp@.to_set() == succs(adjs, fcur.take(fi as int).to_set()).difference(rcur),
                forall|a: int| 0 <= a < temp@.len() ==> (#[trigger] temp@[a]) != id,
                forall|a: int, b: int| 0 <= a < b < temp@.len() ==> temp@[a] != temp@[b],
                forall|a: int| 0 <= a < temp@.len() ==> (#[trigger] temp@[a]) < n,
                forall|a: int|
                    0 <= a < temp@.len() ==> Graph::<N, E>::reaches(adjs, id, #[trigger] temp@[a]),
                forall|a: int| 0 <= a < temp@.len() ==> visited@[(#[trigger] temp@[a]) as int],
            decreases frontier@.len() - fi,
        {
            let u = frontier[fi];
            let nbrs = match graph.neighbors(u) {
                Ok(v) => v,
                Err(_) => {
                    proof {
                        assert(false);
                    }
                    Vec::new()
                },
            };
            proof {
                assert(targets_upto(adjs, u, 0) =~= Set::<usize>::empty());
                assert(temp@.to_set() =~= succs(adjs, fcur.take(fi as int).to_set()).union(
                    targets_upto(adjs, u, 0),
                ).difference(rcur));
            }
            let mut j: usize = 0;
            while j < nbrs.len()
                invariant
                    j <= nbrs@.len(),
                    u < n,
                    u == fcur[fi as int],
                    fi < fcur.len(),
                    nbrs@ == adjs[u as int].map_values(|p: (E, usize)| p.1),
                    visited@.len() == n,
                    visited@[id as int],
                    frontier@ == fcur,
                    flag_set(visited@) == rcur.union(temp@.to_set()),
                    temp@.to_set() == succs(adjs, fcur.take(fi as int).to_set()).union(
                        targets_upto(adjs, u, j as int),
                    ).difference(rcur),
                    forall|a: int| 0 <= a < temp@.len() ==> (#[trigger] temp@[a]) != id,
                    Graph::<N, E>::reaches(adjs, id, u),
                    forall|a: int, b: int| 0 <= a < b < temp@.len() ==> temp@[a] != temp@[b],
                    forall|a: int| 0 <= a < temp@.len() ==> (#[trigger] temp@[a]) < n,
                    forall|a: int|
                        0 <= a < temp@.len() ==> Graph::<N, E>::reaches(
                            adjs,
                            id,
                            #[trigger] temp@[a],
                        ),
                    forall|a: int| 0 <= a < temp@.len() ==> visited@[(#[trigger] temp@[a]) as int],
                decreases nbrs@.len() - j,
            {
                let w = nbrs[j];
                let ghost tpre = temp@;
                proof {
                    assert(adjs[u as int][j as int].1 == w);
                    assert(w < n);
                    assert(targets_upto(adjs, u, j + 1) =~= targets_upto(adjs, u, j as int).insert(
                        w,
                    ));
                }
                if !visited[w] {
                    let ghost vpre = visited@;
                    visited[w] = true;
                    proof {
                        assert(Graph::<N, E>::edge_between(adjs, u, w)) by {
                            assert(adjs[u as int][j as int].1 == w);
                        }
                        Graph::<N, E>::lemma_reaches_step(adjs, id, u, w);
                        assert forall|a: int| 0 <= a < temp@.len() implies temp@[a] != w by {
                            assert(vpre[temp@[a] as int]);
                            assert(!vpre[w as int]);
                        }
                    }
                    temp.push(w);
                    proof {
                        assert(!rcur.contains(w)) by {
                            assert(!flag_set(vpre).contains(w));
                        }
                        assert(temp@.to_set() =~= tpre.to_set().insert(w));
                        assert(flag_set(visited@) =~= flag_set(vpre).insert(w));
                        assert(temp@.to_set() =~= succs(adjs, fcur.take(fi as int).to_set()).union(
                            targets_upto(adjs, u, j + 1),
                        ).difference(rcur));
                    }
                } else {
                    proof {
                        assert(flag_set(visited@).contains(w));
                        assert(temp@.to_set() =~= succs(adjs, fcur.take(fi as int).to_set()).union(
                            targets_upto(adjs, u, j + 1),
                        ).difference(rcur));
                    }
                }
                j = j + 1;
            }
            proof {
                assert(targets_upto(adjs, u, adjs[u as int].len() as int) =~= succs(
                    adjs,
                    Set::<usize>::empty().insert(u),
                ));
                assert(fcur.take(fi + 1).to_set() =~= fcur.take(fi as int).to_set().insert(u)) by {
                    assert(fcur.take(fi + 1) =~= fcur.take(fi as int).push(u));
                }
                lemma_succs_union(
                    adjs,
                    fcur.take(fi as int).to_set(),
                    Set::<usize>::empty().insert(u),
                );
                assert(fcur.take(fi as int).to_set().union(Set::<usize>::empty().insert(u))
                    =~= fcur.take(fi + 1).to_set());
                assert(temp@.to_set() =~= succs(adjs, fcur.take(fi + 1).to_set()).difference(
                    rcur,
                ));
            }
            fi = fi + 1;
        }
        proof {
            assert(fcur.take(fcur.len() as int) =~= fcur);
            assert(temp@.to_set() =~= succs(adjs, hop_frontier(adjs, id, round as nat)).difference(
                rcur,
            ));
            lemma_frontier_succs(adjs, id, round as nat);
            assert(reach_upto(adjs, id, (round + 1) as nat) =~= rcur.union(
                succs(adjs, rcur),
            ));
            assert(temp@.to_set() =~= succs(adjs, rcur).difference(rcur));
            assert(hop_frontier(adjs, id, (round + 1) as nat) =~= temp@.to_set());
            assert(flag_set(visited@) =~= reach_upto(adjs, id, (round + 1) as nat));
        }
        frontier = temp;
        round = round + 1;
    }
    Ok(frontier)
}

} // verus!
