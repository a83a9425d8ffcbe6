//! Single-target shortest path over non-negative edge weights: lazy-deletion
//! Dijkstra over a binary min-heap. Stale heap entries are tolerated rather
//! than removed; the freshest relaxation wins.
use vstd::multiset::Multiset;
use vstd::prelude::*;
use vstd::seq_lib::group_seq_properties;
use vstd::seq_lib::group_to_multiset_ensures;

use crate::Error;
use crate::Graph;
use crate::Payload;

verus! {


/// The binary-heap ordering: every entry's distance is at least its
/// parent's.
spec fn heap_wf(d: Seq<(usize, usize)>) -> bool {
    forall|j: int| 1 <= j < d.len() ==> (#[trigger] d[j]).1 >= d[(j - 1) / 2].1
}

/// In a well-ordered heap the root's distance is a lower bound.
proof fn lemma_heap_min(d: Seq<(usize, usize)>, j: int)
    requires
        heap_wf(d),
        0 <= j < d.len(),
    ensures
        d[j].1 >= d[0].1,
    decreases j,
{
    if j > 0 {
        lemma_heap_min(d, (j - 1) / 2);
    }
}

/// A binary min-heap of `(node index, accumulated distance)` entries,
/// ordered by distance ascending. Scoped to a single shortest-path
/// invocation.
struct MinHeap {
    data: Vec<(usize, usize)>,
}

impl MinHeap {
    /// The entries currently held, as a multiset: the heap promises no
    /// order beyond "extract the minimum".
    pub closed spec fn ms(&self) -> Multiset<(usize, usize)> {
        self.data@.to_multiset()
    }

    /// The heap ordering holds.
    pub closed spec fn wf(&self) -> bool {
        heap_wf(self.data@)
    }

    /// An empty heap.
    fn new() -> (h: Self)
        ensures
            h.wf(),
            h.ms() == Multiset::<(usize, usize)>::empty(),
            h.ms().len() == 0,
    {
        broadcast use group_seq_properties, group_to_multiset_ensures;

        let h = Self { data: Vec::new() };
        proof {
            assert(h.data@.to_multiset() =~= Multiset::<(usize, usize)>::empty());
        }
        h
    }

    /// Whether the heap holds no entries.
    fn is_empty(&self) -> (r: bool)
        ensures
            r == (self.ms().len() == 0),
    {
        proof {
            broadcast use group_to_multiset_ensures;

        }
        self.data.len() == 0
    }

    /// The index of the left child of `pos`.
    fn left_child(pos: usize) -> (r: usize)
        requires
            2 * pos + 1 <= usize::MAX,
        ensures
            r == 2 * pos + 1,
    {
        2 * pos + 1
    }

    /// The index of the right child of `pos`.
    fn right_child(pos: usize) -> (r: usize)
        requires
            2 * pos + 2 <= usize::MAX,
        ensures
            r == 2 * pos + 2,
    {
        2 * pos + 2
    }

    /// The index of the parent of `pos`.
    fn parent(pos: usize) -> (r: usize)
        requires
            pos >= 1,
        ensures
            r == (pos - 1) / 2,
    {
        (pos - 1) / 2
    }

    /// Adds an entry, restoring the heap order by sifting it up.
    #[verifier::loop_isolation(false)]
    fn insert(&mut self, node: (usize, usize))
        requires
            old(self).wf(),
        ensures
            final(self).wf(),
            final(self).ms() == old(self).ms().insert(node),
            final(self).ms().len() == old(self).ms().len() + 1,
    {
        broadcast use group_seq_properties, group_to_multiset_ensures;

        self.data.push(node);
        let len = self.data.len();
        let mut i: usize = len - 1;
        while i > 0 && self.data[(i - 1) / 2].1 > self.data[i].1
            invariant
                0 <= i < len,
                len == self.data@.len(),
                self.data@.to_multiset() == old(self).data@.to_multiset().insert(node),
                forall|j: int|
                    1 <= j < len && j != i ==> (#[trigger] self.data@[j]).1 >= self.data@[(j - 1)
                        / 2].1,
                i > 0 ==> forall|c: int|
                    1 <= c < len && (c - 1) / 2 == i ==> (#[trigger] self.data@[c]).1
                        >= self.data@[((i - 1) / 2) as int].1,
            decreases i,
        {
            let par = Self::parent(i);
            let child = self.data[i];
            let above = self.data[par];
            self.data[i] = above;
            self.data[par] = child;
            proof {
                assert(self.data@.to_multiset() =~= old(self).data@.to_multiset().insert(node));
            }
            i = par;
        }
    }

    /// Restores the heap order by sifting the root down; every other entry
    /// must already respect its parent.
    #[verifier::loop_isolation(false)]
    fn heapify(&mut self)
        requires
            old(self).data@.len() >= 1,
            forall|j: int|
                1 <= j < old(self).data@.len() && (j - 1) / 2 != 0 ==> (#[trigger] old(
                    self,
                ).data@[j]).1 >= old(self).data@[(j - 1) / 2].1,
        ensures
            final(self).wf(),
            final(self).ms() == old(self).ms(),
    {
        broadcast use group_seq_properties, group_to_multiset_ensures;

        let len = self.data.len();
        let mut i: usize = 0;
        while i < len / 2
            invariant
                0 <= i < len,
                len == self.data@.len(),
                self.data@.to_multiset() == old(self).data@.to_multiset(),
                forall|j: int|
                    1 <= j < len && (j - 1) / 2 != i ==> (#[trigger] self.data@[j]).1
                        >= self.data@[(j - 1) / 2].1,
                i > 0 ==> forall|c: int|
                    1 <= c < len && (c - 1) / 2 == i ==> (#[trigger] self.data@[c]).1
                        >= self.data@[((i - 1) / 2) as int].1,
            decreases len - i,
        {
            let left = Self::left_child(i);
            proof {
                assert(left < len);
            }
            let mut m = left;
            let right = Self::right_child(i);
            if right < len && self.data[right].1 < self.data[left].1 {
                m = right;
            }
            if self.data[i].1 <= self.data[m].1 {
                proof {
                    assert forall|j: int| 1 <= j < len implies (#[trigger] self.data@[j]).1
                        >= self.data@[(j - 1) / 2].1 by {
                        if (j - 1) / 2 == i {
                            assert(j == left || j == right);
                        }
                    }
                }
                return ;
            }
            let parent_entry = self.data[i];
            let child_entry = self.data[m];
            self.data[i] = child_entry;
            self.data[m] = parent_entry;
            proof {
                assert(self.data@.to_multiset() =~= old(self).data@.to_multiset());
            }
            i = m;
        }
        proof {
            assert forall|j: int| 1 <= j < len implies (#[trigger] self.data@[j]).1 >= self.data@[(j
                - 1) / 2].1 by {
                assert((j - 1) / 2 != i) by {
                    if (j - 1) / 2 == i {
                        assert(j >= 2 * i + 1);
                        assert(2 * i + 1 >= len);
                    }
                }
            }
        }
    }

    /// Removes and returns an entry of minimal distance.
    fn extract_min(&mut self) -> (r: (usize, usize))
        requires
            old(self).wf(),
            old(self).ms().len() > 0,
        ensures
            final(self).wf(),
            old(self).ms().contains(r),
            final(self).ms() == old(self).ms().remove(r),
            final(self).ms().len() == old(self).ms().len() - 1,
            forall|x: (usize, usize)| old(self).ms().contains(x) ==> r.1 <= #[trigger] x.1,
    {
        broadcast use group_seq_properties, group_to_multiset_ensures;

        proof {
            assert forall|x: (usize, usize)| old(self).ms().contains(x) implies old(
                self,
            ).data@[0].1 <= #[trigger] x.1 by {
                assert(old(self).data@.contains(x));
                let j = choose|j: int| 0 <= j < old(self).data@.len() && old(self).data@[j] == x;
                lemma_heap_min(old(self).data@, j);
            }
        }
        let r = self.data[0];
        let last = match self.data.pop() {
            Some(l) => l,
            None => {
                proof {
                    assert(false);
                }
                (0, 0)
            },
        };
        proof {
            assert(old(self).data@.drop_last() =~= old(self).data@.remove(
                old(self).data@.len() - 1,
            ));
        }
        if self.data.len() == 0 {
            proof {
                assert(r == last);
                assert(self.data@.to_multiset() =~= old(self).data@.to_multiset().remove(r));
            }
            return r;
        }
        self.data[0] = last;
        proof {
            assert(self.data@.to_multiset() =~= old(self).data@.to_multiset().remove(r));
        }
        self.heapify();
        r
    }
}

/// Distance accumulation: adding a step's weight saturates at the largest
/// representable distance instead of wrapping.
pub open spec fn sat_add(a: usize, w: usize) -> usize {
    if a + w > usize::MAX {
        usize::MAX
    } else {
        (a + w) as usize
    }
}

/// The saturated total of a sequence of step weights.
pub open spec fn sat_val(ws: Seq<usize>) -> usize
    decreases ws.len(),
{
    if ws.len() == 0 {
        0
    } else {
        sat_add(sat_val(ws.drop_last()), ws.last())
    }
}

/// Some stored edge runs from `a` to `b` and the weight function can
/// return `w` for its payload.
pub open spec fn step_weight<E, F: Fn(E) -> usize>(
    adjs: Seq<Seq<(E, usize)>>,
    f: F,
    a: usize,
    b: usize,
    w: usize,
) -> bool {
    exists|j: int|
        0 <= j < adjs[a as int].len() && (#[trigger] adjs[a as int][j]).1 == b && call_ensures(
            f,
            (adjs[a as int][j].0,),
            w,
        )
}

/// `p` is a stored path from `s` to `t` and `ws` lists, hop by hop, step
/// weights the weight function can return along it.
pub open spec fn weighted_path<N: Payload, E: Payload, F: Fn(E) -> usize>(
    adjs: Seq<Seq<(E, usize)>>,
    f: F,
    s: usize,
    t: usize,
    p: Seq<usize>,
    ws: Seq<usize>,
) -> bool {
    &&& Graph::<N, E>::is_path(adjs, p)
    &&& p[0] == s
    &&& p[p.len() - 1] == t
    &&& ws.len() == p.len() - 1
    &&& forall|i: int| 0 <= i < ws.len() ==> step_weight(adjs, f, p[i], p[i + 1], #[trigger] ws[i])
}

/// A weighted path to `c` extends along an edge to `t`.
proof fn lemma_weighted_path_step<N: Payload, E: Payload, F: Fn(E) -> usize>(
    adjs: Seq<Seq<(E, usize)>>,
    f: F,
    s: usize,
    c: usize,
    t: usize,
    p: Seq<usize>,
    ws: Seq<usize>,
    w: usize,
)
    requires
        weighted_path::<N, E, F>(adjs, f, s, c, p, ws),
        step_weight(adjs, f, c, t, w),
        c < adjs.len(),
        t < adjs.len(),
    ensures
        weighted_path::<N, E, F>(adjs, f, s, t, p.push(t), ws.push(w)),
        sat_val(ws.push(w)) == sat_add(sat_val(ws), w),
{
    let q = p.push(t);
    let wq = ws.push(w);
    assert forall|k: int| 0 <= k < q.len() - 1 implies Graph::<N, E>::edge_between(
        adjs,
        #[trigger] q[k],
        q[k + 1],
    ) by {
        if k < p.len() - 1 {
            assert(q[k] == p[k] && q[k + 1] == p[k + 1]);
            assert(Graph::<N, E>::edge_between(adjs, p[k], p[k + 1]));
        } else {
            assert(q[k] == c && q[k + 1] == t);
            let j = choose|j: int|
                0 <= j < adjs[c as int].len() && (#[trigger] adjs[c as int][j]).1 == t
                    && call_ensures(f, (adjs[c as int][j].0,), w);
            assert((adjs[c as int][j]).1 == t);
        }
    }
    assert forall|i: int| 0 <= i < wq.len() implies step_weight(
        adjs,
        f,
        q[i],
        q[i + 1],
        #[trigger] wq[i],
    ) by {
        if i < ws.len() {
            assert(wq[i] == ws[i] && q[i] == p[i] && q[i + 1] == p[i + 1]);
        } else {
            assert(wq[i] == w && q[i] == c && q[i + 1] == t);
        }
    }
    assert(wq.drop_last() =~= ws);
}

/// The weight function is deterministic: it can return only one weight for
/// a given payload. Every weight function in the mathematical sense
/// satisfies this; it is the hypothesis under which a best distance is
/// meaningful.
pub open spec fn weight_fn_deterministic<E, F: Fn(E) -> usize>(f: F) -> bool {
    forall|e: E, w1: usize, w2: usize|
        call_ensures(f, (e,), w1) && call_ensures(f, (e,), w2) ==> w1 == w2
}

/// `d` is a lower bound on the saturated weight of every stored path from
/// `s` to `t`.
pub open spec fn dist_minimal<N: Payload, E: Payload, F: Fn(E) -> usize>(
    adjs: Seq<Seq<(E, usize)>>,
    f: F,
    s: usize,
    t: usize,
    d: usize,
) -> bool {
    forall|p: Seq<usize>, ws: Seq<usize>|
        weighted_path::<N, E, F>(adjs, f, s, t, p, ws) ==> d <= sat_val(ws)
}

/// Saturated addition is monotone in the accumulated distance and never
/// shrinks it.
proof fn lemma_sat_add_mono(a: usize, b: usize, w: usize)
    requires
        a <= b,
    ensures
        sat_add(a, w) <= sat_add(b, w),
        a <= sat_add(a, w),
{
}

/// A prefix of a weight sequence has a saturated total no larger than the
/// whole.
proof fn lemma_sat_val_take_le(ws: Seq<usize>, m: int)
    requires
        0 <= m <= ws.len(),
    ensures
        sat_val(ws.take(m)) <= sat_val(ws),
    decreases ws.len() - m,
{
    if m < ws.len() {
        assert(ws.take(m + 1).drop_last() =~= ws.take(m));
        assert(sat_val(ws.take(m + 1)) == sat_add(sat_val(ws.take(m)), ws[m]));
        lemma_sat_add_mono(sat_val(ws.take(m)), sat_val(ws.take(m)), ws[m]);
        lemma_sat_val_take_le(ws, m + 1);
        assert(ws.take(ws.len() as int) =~= ws);
    } else {
        assert(ws.take(m) =~= ws);
    }
}

/// A path with some node outside `s` has a least index outside `s`.
proof fn lemma_least_outside(p: Seq<usize>, s: Set<usize>, m: int)
    requires
        0 <= m < p.len(),
        !s.contains(p[m]),
    ensures
        exists|mm: int|
            {
                &&& 0 <= mm <= m
                &&& !s.contains(#[trigger] p[mm])
                &&& forall|q: int| 0 <= q < mm ==> s.contains(#[trigger] p[q])
            },
    decreases m,
{
    if exists|q: int| 0 <= q < m && !s.contains(#[trigger] p[q]) {
        let q = choose|q: int| 0 <= q < m && !s.contains(#[trigger] p[q]);
        lemma_least_outside(p, s, q);
    } else {
        assert(0 <= m <= m && !s.contains(p[m]) && forall|q: int|
            0 <= q < m ==> s.contains(#[trigger] p[q]));
    }
}

/// Some stored path runs from `s` to `k` whose step weights the weight
/// function can return and whose saturated total is `d`.
pub open spec fn has_weighted_path<N: Payload, E: Payload, F: Fn(E) -> usize>(
    adjs: Seq<Seq<(E, usize)>>,
    f: F,
    s: usize,
    k: usize,
    d: usize,
) -> bool {
    exists|p: Seq<usize>, ws: Seq<usize>|
        weighted_path::<N, E, F>(adjs, f, s, k, p, ws) && d == sat_val(ws)
}

/// The termination potential of one node: one more than its best known
/// distance, or a cap above every possible distance while it is unseen.
spec fn phi(m: Map<usize, usize>, v: usize) -> int {
    if m.contains_key(v) {
        m[v] + 1
    } else {
        usize::MAX + 2
    }
}

/// The summed termination potential of the nodes below `n`: it shrinks on
/// every relaxation, because a relaxation either first sees a node or
/// strictly lowers its distance.
spec fn sum_phi(m: Map<usize, usize>, n: nat) -> int
    decreases n,
{
    if n == 0 {
        0
    } else {
        sum_phi(m, (n - 1) as nat) + phi(m, (n - 1) as usize)
    }
}

proof fn lemma_sum_phi_nonneg(m: Map<usize, usize>, n: nat)
    ensures
        sum_phi(m, n) >= 0,
    decreases n,
{
    if n > 0 {
        lemma_sum_phi_nonneg(m, (n - 1) as nat);
    }
}

proof fn lemma_sum_phi_agree(m1: Map<usize, usize>, m2: Map<usize, usize>, n: nat)
    requires
        forall|v: usize| v < n ==> #[trigger] phi(m1, v) == phi(m2, v),
    ensures
        sum_phi(m1, n) == sum_phi(m2, n),
    decreases n,
{
    if n > 0 {
        lemma_sum_phi_agree(m1, m2, (n - 1) as nat);
    }
}

proof fn lemma_sum_phi_insert(m: Map<usize, usize>, n: nat, k: usize, v: usize)
    requires
        (k as nat) < n,
        n <= usize::MAX,
    ensures
        sum_phi(m.insert(k, v), n) == sum_phi(m, n) - phi(m, k) + (v + 1),
    decreases n,
{
    let m2 = m.insert(k, v);
    let w = (n - 1) as usize;
    if k == w {
        assert forall|u: usize| u < (n - 1) as nat implies #[trigger] phi(m2, u) == phi(m, u) by {
            assert(u != k);
        }
        lemma_sum_phi_agree(m2, m, (n - 1) as nat);
        assert(phi(m2, w) == v + 1);
    } else {
        lemma_sum_phi_insert(m, (n - 1) as nat, k, v);
        assert(phi(m2, w) == phi(m, w));
    }
}

/// Single-target shortest path by lazy-deletion Dijkstra: returns the map of
/// best distances discovered up to the moment the target was extracted from
/// the frontier. The weight function must map each edge payload to its
/// non-negative distance; a candidate distance beyond `usize::MAX`
/// saturates, so such paths are reported no better than `usize::MAX`.
///
/// Fails with [`Error::NoSuchNode`] exactly when `start_id` is out of
/// range, and with [`Error::NoSuchPath`] exactly when no directed path runs
/// from `start_id` to `end_id` (in particular whenever `end_id` is out of
/// range). On success the map holds the start at distance zero and the
/// target, and every entry is a node reachable from the start whose
/// reported distance is the saturated weight of an actual stored path from
/// the start to it.
#[verifier::rlimit(100)]
pub fn dijkstra<N: Payload, E: Payload, F: Fn(E) -> usize>(
    graph: Graph<N, E>,
    start_id: usize,
    end_id: usize,
    get_weight: F,
) -> (r: Result<std::collections::HashMap<usize, usize>, Error>)
    requires
        graph.wf(),
        forall|e: E| #[trigger] call_requires(get_weight, (e,)),
    ensures
        match r {
            Ok(dist) => {
                &&& start_id < graph.spec_nodes().len()
                &&& dist@.contains_key(start_id)
                &&& dist@[start_id] == 0
                &&& dist@.contains_key(end_id)
                &&& forall|k: usize|
                    #[trigger] dist@.contains_key(k) ==> k < graph.spec_nodes().len()
                        && Graph::<N, E>::reaches(graph.spec_adj(), start_id, k)
                        && has_weighted_path::<N, E, F>(
                        graph.spec_adj(),
                        get_weight,
                        start_id,
                        k,
                        dist@[k],
                    )
                &&& start_id == end_id ==> dist@ == Map::<usize, usize>::empty().insert(
                    start_id,
                    0,
                )
                &&& weight_fn_deterministic::<E, F>(get_weight) ==> dist_minimal::<N, E, F>(
                    graph.spec_adj(),
                    get_weight,
                    start_id,
                    end_id,
                    dist@[end_id],
                )
            },
            Err(Error::NoSuchNode) => start_id >= graph.spec_nodes().len(),
            Err(Error::NoSuchPath) => start_id < graph.spec_nodes().len() && !Graph::<
                N,
                E,
            >::reaches(graph.spec_adj(), start_id, end_id),
            Err(_) => false,
        },
{
    broadcast use vstd::std_specs::hash::group_hash_axioms,
        vstd::multiset::lemma_multiset_empty_len;

    let n = graph.node_len();
    if start_id >= n {
        return Err(Error::NoSuchNode);
    }
    let ghost adjs = graph.spec_adj();
    let mut dist: std::collections::HashMap<usize, usize> = std::collections::HashMap::new();
    let mut min_heap = MinHeap::new();

    dist.insert(start_id, 0);
    min_heap.insert((start_id, 0));
    let ghost mut processed: Set<usize> = Set::empty();
    let ghost det = weight_fn_deterministic::<E, F>(get_weight);
    proof {
        Graph::<N, E>::lemma_reaches_self(adjs, start_id);
        assert(min_heap.ms().contains((start_id, 0usize)));
        assert(weighted_path::<N, E, F>(
            adjs,
            get_weight,
            start_id,
            start_id,
            seq![start_id],
            Seq::<usize>::empty(),
        ) && 0usize == sat_val(Seq::<usize>::empty()));
        assert(has_weighted_path::<N, E, F>(adjs, get_weight, start_id, start_id, 0usize));
    }

    while !min_heap.is_empty()
        invariant
            graph.wf(),
            start_id == end_id ==> dist@ == Map::<usize, usize>::empty().insert(start_id, 0),
            start_id == end_id ==> forall|x: (usize, usize)|
                #[trigger] min_heap.ms().contains(x) ==> x.0 == start_id,
            n == graph.spec_nodes().len(),
            adjs == graph.spec_adj(),
            start_id < n,
            forall|e: E| #[trigger] call_requires(get_weight, (e,)),
            min_heap.wf(),
            dist@.contains_key(start_id),
            dist@[start_id] == 0,
            forall|k: usize|
                #[trigger] dist@.contains_key(k) ==> k < n && Graph::<N, E>::reaches(
                    adjs,
                    start_id,
                    k,
                ) && has_weighted_path::<N, E, F>(adjs, get_weight, start_id, k, dist@[k]),
            forall|x: (usize, usize)| #[trigger] min_heap.ms().contains(x) ==> dist@.contains_key(
                x.0,
            ),
            forall|k: usize|
                #[trigger] dist@.contains_key(k) ==> processed.contains(k)
                    || min_heap.ms().contains((k, dist@[k])),
            forall|x: (usize, usize)| #[trigger] min_heap.ms().contains(x) ==> x.1 >= dist@[x.0],
            forall|c: usize|
                #[trigger] processed.contains(c) ==> dist@.contains_key(c) && c != end_id && c < n,
            forall|c: usize, j: int|
                processed.contains(c) && c < n && 0 <= j < adjs[c as int].len()
                    ==> dist@.contains_key((#[trigger] adjs[c as int][j]).1),
            det == weight_fn_deterministic::<E, F>(get_weight),
            det ==> forall|c: usize|
                #[trigger] processed.contains(c) ==> dist_minimal::<N, E, F>(
                    adjs,
                    get_weight,
                    start_id,
                    c,
                    dist@[c],
                ),
            det ==> forall|c: usize, jj: int, w: usize|
                processed.contains(c) && c < n && 0 <= jj < adjs[c as int].len()
                    && #[trigger] call_ensures(get_weight, (adjs[c as int][jj].0,), w)
                    ==> dist@[adjs[c as int][jj].1] <= sat_add(dist@[c], w),
        decreases sum_phi(dist@, n as nat) + min_heap.ms().len(),
    {
        let ghost entry_measure = sum_phi(dist@, n as nat) + min_heap.ms().len();
        proof {
            lemma_sum_phi_nonneg(dist@, n as nat);
        }
        let ghost ms0 = min_heap.ms();
        let popped = min_heap.extract_min();
        let id = popped.0;
        proof {
            assert(dist@.contains_key(id));
            assert forall|x: (usize, usize)| #[trigger] min_heap.ms().contains(
                x,
            ) implies dist@.contains_key(x.0) by {
                assert(ms0.contains(x));
            }
            assert forall|k: usize|
                #[trigger] dist@.contains_key(k) && k != id implies processed.contains(k)
                || min_heap.ms().contains((k, dist@[k])) by {
                if !processed.contains(k) {
                    assert(ms0.contains((k, dist@[k])));
                    assert((k, dist@[k]) != popped);
                }
            }
        }
        let ghost id_min = det ==> dist_minimal::<N, E, F>(
            adjs,
            get_weight,
            start_id,
            id,
            dist@[id],
        );
        proof {
            if det {
                if processed.contains(id) {
                    assert(dist_minimal::<N, E, F>(adjs, get_weight, start_id, id, dist@[id]));
                } else {
                    assert forall|p: Seq<usize>, ws: Seq<usize>|
                        weighted_path::<N, E, F>(adjs, get_weight, start_id, id, p, ws) implies
                        dist@[id] <= sat_val(ws) by {
                        assert(!processed.contains(p[p.len() - 1]));
                        lemma_least_outside(p, processed, p.len() - 1);
                        let m = choose|m: int|
                            {
                                &&& 0 <= m <= p.len() - 1
                                &&& !processed.contains(#[trigger] p[m])
                                &&& forall|q: int| 0 <= q < m ==> processed.contains(#[trigger] p[q])
                            };
                        let fnode = p[m];
                        if m == 0 {
                            assert(fnode == start_id);
                            assert(ws.take(0) =~= Seq::<usize>::empty());
                            assert(dist@[fnode] <= sat_val(ws.take(m)));
                        } else {
                            let c = p[m - 1];
                            assert(processed.contains(c));
                            // the path prefix up to c is itself a weighted path
                            let pp = p.take(m);
                            let wp = ws.take(m - 1);
                            assert(Graph::<N, E>::is_path(adjs, pp)) by {
                                assert forall|x: int|
                                    0 <= x < pp.len() - 1 implies Graph::<N, E>::edge_between(
                                    adjs,
                                    #[trigger] pp[x],
                                    pp[x + 1],
                                ) by {
                                    assert(pp[x] == p[x] && pp[x + 1] == p[x + 1]);
                                    assert(Graph::<N, E>::edge_between(adjs, p[x], p[x + 1]));
                                }
                            }
                            assert forall|x: int|
                                0 <= x < wp.len() implies step_weight(
                                adjs,
                                get_weight,
                                pp[x],
                                pp[x + 1],
                                #[trigger] wp[x],
                            ) by {
                                assert(wp[x] == ws[x] && pp[x] == p[x] && pp[x + 1] == p[x + 1]);
                                assert(step_weight(adjs, get_weight, p[x], p[x + 1], ws[x]));
                            }
                            assert(weighted_path::<N, E, F>(adjs, get_weight, start_id, c, pp, wp));
                            assert(dist@[c] <= sat_val(wp));
                            // one relaxed step from c reaches fnode
                            assert(step_weight(adjs, get_weight, p[m - 1], p[m], ws[m - 1]));
                            let jj = choose|jj: int|
                                0 <= jj < adjs[c as int].len() && (#[trigger] adjs[c as int][jj]).1
                                    == fnode && call_ensures(
                                    get_weight,
                                    (adjs[c as int][jj].0,),
                                    ws[m - 1],
                                );
                            assert(dist@.contains_key(fnode));
                            assert(dist@[fnode] <= sat_add(dist@[c], ws[m - 1]));
                            lemma_sat_add_mono(dist@[c], sat_val(wp), ws[m - 1]);
                            assert(ws.take(m).drop_last() =~= wp);
                            assert(sat_val(ws.take(m)) == sat_add(sat_val(wp), ws[m - 1]));
                            assert(dist@[fnode] <= sat_val(ws.take(m)));
                        }
                        lemma_sat_val_take_le(ws, m);
                        assert(dist@[fnode] <= sat_val(ws));
                        if fnode != id {
                            assert(dist@.contains_key(fnode));
                            assert(ms0.contains((fnode, dist@[fnode])));
                            assert(popped.1 <= dist@[fnode]);
                            assert(ms0.contains(popped));
                            assert(popped.1 >= dist@[id]);
                        }
                    }
                    assert(dist_minimal::<N, E, F>(adjs, get_weight, start_id, id, dist@[id]));
                }
            }
        }
        if id == end_id {
            return Ok(dist);
        }
        let ghost base = sum_phi(dist@, n as nat) + min_heap.ms().len();
        proof {
            assert(base == entry_measure - 1);
        }
        let out = match graph.out_edges(id) {
            Ok(l) => l,
            Err(_) => {
                proof {
                    assert(false);
                }
                Vec::new()
            },
        };
        let dc = match dist.get(&id) {
            Some(v) => *v,
            None => {
                proof {
                    assert(false);
                }
                0
            },
        };
        let deg = out.len();
        let mut j: usize = 0;
        while j < deg
            invariant
                graph.wf(),
                n == graph.spec_nodes().len(),
                adjs == graph.spec_adj(),
                start_id < n,
                forall|e: E| #[trigger] call_requires(get_weight, (e,)),
                dc == dist@[id],
                j <= deg,
                id < n,
                id != end_id,
                deg == adjs[id as int].len(),
                out@ == adjs[id as int],
                min_heap.wf(),
                sum_phi(dist@, n as nat) + min_heap.ms().len() <= base,
                dist@.contains_key(start_id),
                dist@[start_id] == 0,
                dist@.contains_key(id),
                forall|k: usize|
                    #[trigger] dist@.contains_key(k) ==> k < n && Graph::<N, E>::reaches(
                        adjs,
                        start_id,
                        k,
                    ) && has_weighted_path::<N, E, F>(adjs, get_weight, start_id, k, dist@[k]),
                forall|x: (usize, usize)| #[trigger] min_heap.ms().contains(x)
                    ==> dist@.contains_key(x.0),
                forall|k: usize|
                    #[trigger] dist@.contains_key(k) && k != id ==> processed.contains(k)
                        || min_heap.ms().contains((k, dist@[k])),
                forall|x: (usize, usize)| #[trigger] min_heap.ms().contains(x) ==> x.1 >= dist@[
                    x.0
                ],
                forall|c: usize|
                    #[trigger] processed.contains(c) ==> dist@.contains_key(c) && c != end_id && c
                        < n,
                forall|c: usize, jj: int|
                    processed.contains(c) && c < n && 0 <= jj < adjs[c as int].len()
                        ==> dist@.contains_key((#[trigger] adjs[c as int][jj]).1),
                forall|jj: int|
                    0 <= jj < j ==> dist@.contains_key((#[trigger] adjs[id as int][jj]).1),
                det == weight_fn_deterministic::<E, F>(get_weight),
                id_min == (det ==> dist_minimal::<N, E, F>(
                    adjs,
                    get_weight,
                    start_id,
                    id,
                    dist@[id],
                )),
                det ==> forall|c: usize|
                    #[trigger] processed.contains(c) ==> dist_minimal::<N, E, F>(
                        adjs,
                        get_weight,
                        start_id,
                        c,
                        dist@[c],
                    ),
                det ==> forall|c: usize, jj: int, w: usize|
                    processed.contains(c) && c < n && 0 <= jj < adjs[c as int].len()
                        && #[trigger] call_ensures(get_weight, (adjs[c as int][jj].0,), w)
                        ==> dist@[adjs[c as int][jj].1] <= sat_add(dist@[c], w),
                det ==> forall|jj: int, w: usize|
                    0 <= jj < j && #[trigger] call_ensures(get_weight, (adjs[id as int][jj].0,), w)
                        ==> dist@[adjs[id as int][jj].1] <= sat_add(dist@[id], w),
            decreases deg - j,
        {
            let t = out[j].1;
            let e = out[j].0.duplicate();
            let w = get_weight(e);
            let nd = if dc <= usize::MAX - w {
                dc + w
            } else {
                usize::MAX
            };
            proof {
                assert(e == adjs[id as int][j as int].0);
                assert(step_weight(adjs, get_weight, id, t, w));
                assert(nd == sat_add(dc, w));
            }
            let better = match dist.get(&t) {
                None => true,
                Some(dt) => nd < *dt,
            };
            if better {
                let ghost dpre = dist@;
                proof {
                    assert(t < n) by {
                        assert(adjs[id as int][j as int].1 == t);
                    }
                    lemma_sum_phi_insert(dist@, n as nat, t, nd);
                    Graph::<N, E>::lemma_reaches_step(adjs, start_id, id, t);
                    let (p, ws) = choose|p: Seq<usize>, ws: Seq<usize>|
                        weighted_path::<N, E, F>(adjs, get_weight, start_id, id, p, ws) && dist@[id]
                            == sat_val(ws);
                    lemma_weighted_path_step::<N, E, F>(
                        adjs,
                        get_weight,
                        start_id,
                        id,
                        t,
                        p,
                        ws,
                        w,
                    );
                    assert(weighted_path::<N, E, F>(
                        adjs,
                        get_weight,
                        start_id,
                        t,
                        p.push(t),
                        ws.push(w),
                    ) && nd == sat_val(ws.push(w)));
                    assert(has_weighted_path::<N, E, F>(adjs, get_weight, start_id, t, nd));
                    lemma_sat_add_mono(dc, dc, w);
                    assert(t != id);
                    if det && processed.contains(t) {
                        // a settled node cannot be improved: its distance
                        // already undercuts the new path
                        assert(dist@[t] <= sat_val(ws.push(w)));
                        assert(false);
                    }
                }
                dist.insert(t, nd);
                let ghost hmid = min_heap.ms();
                min_heap.insert((t, nd));
                proof {
                    assert(min_heap.ms().contains((t, nd)));
                    assert forall|x: (usize, usize)| #[trigger] min_heap.ms().contains(
                        x,
                    ) implies dist@.contains_key(x.0) by {
                        if x != (t, nd) {
                            assert(hmid.contains(x));
                        }
                    }
                    assert forall|k: usize|
                        #[trigger] dist@.contains_key(k) && k != id implies processed.contains(k)
                        || min_heap.ms().contains((k, dist@[k])) by {
                        if k == t {
                            assert(min_heap.ms().contains((t, nd)));
                        } else if !processed.contains(k) {
                            assert(dist@[k] == dpre[k]);
                            assert(hmid.contains((k, dpre[k])));
                        }
                    }
                    assert forall|x: (usize, usize)| #[trigger] min_heap.ms().contains(
                        x,
                    ) implies x.1 >= dist@[x.0] by {
                        if x != (t, nd) {
                            assert(hmid.contains(x));
                            assert(x.1 >= dpre[x.0]);
                            if x.0 == t {
                                assert(dpre[t] > nd);
                            }
                        }
                    }
                    if det {
                        assert forall|c: usize, jj: int, w2: usize|
                            processed.contains(c) && c < n && 0 <= jj < adjs[c as int].len()
                                && #[trigger] call_ensures(
                                get_weight,
                                (adjs[c as int][jj].0,),
                                w2,
                            ) implies dist@[adjs[c as int][jj].1] <= sat_add(dist@[c], w2) by {
                            assert(c != t);
                            assert(dist@[c] == dpre[c]);
                            let u = adjs[c as int][jj].1;
                            assert(dpre[u] <= sat_add(dpre[c], w2));
                            if u == t {
                                assert(dist@[t] == nd && nd < dpre[t]);
                            }
                        }
                        assert forall|jj: int, w2: usize|
                            0 <= jj < j + 1 && #[trigger] call_ensures(
                                get_weight,
                                (adjs[id as int][jj].0,),
                                w2,
                            ) implies dist@[adjs[id as int][jj].1] <= sat_add(dist@[id], w2) by {
                            assert(dist@[id] == dpre[id]);
                            let u = adjs[id as int][jj].1;
                            if jj == j {
                                assert(adjs[id as int][jj].0 == e);
                                assert(w2 == w);
                                assert(dist@[t] == nd);
                            } else {
                                assert(dpre[u] <= sat_add(dpre[id], w2));
                                if u == t {
                                    assert(dist@[t] == nd && nd < dpre[t]);
                                }
                            }
                        }
                    }
                }
            } else {
                proof {
                    if det {
                        assert forall|jj: int, w2: usize|
                            0 <= jj < j + 1 && #[trigger] call_ensures(
                                get_weight,
                                (adjs[id as int][jj].0,),
                                w2,
                            ) implies dist@[adjs[id as int][jj].1] <= sat_add(dist@[id], w2) by {
                            if jj == j {
                                assert(adjs[id as int][jj].0 == e);
                                assert(w2 == w);
                                assert(dist@.contains_key(t));
                                assert(dist@[t] <= nd);
                            }
                        }
                    }
                }
            }
            j = j + 1;
        }
        proof {
            processed = processed.insert(id);
            lemma_sum_phi_nonneg(dist@, n as nat);
            assert(sum_phi(dist@, n as nat) + min_heap.ms().len() < entry_measure);
        }
    }
    proof {
        assert(min_heap.ms() =~= Multiset::<(usize, usize)>::empty());
        let dom = dist@.dom();
        assert forall|c: usize, j: int|
            dom.contains(c) && c < adjs.len() && 0 <= j < adjs[c as int].len() implies dom.contains(
            (#[trigger] adjs[c as int][j]).1,
        ) by {
            assert(dist@.contains_key(c));
            assert(processed.contains(c));
        }
        if Graph::<N, E>::reaches(adjs, start_id, end_id) {
            Graph::<N, E>::lemma_reaches_in_closed(adjs, start_id, dom, end_id);
            assert(processed.contains(end_id));
            assert(false);
        }
    }
    Err(Error::NoSuchPath)
}

} // verus!
