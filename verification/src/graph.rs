//! The graph store: node payloads owned by value and identified by dense
//! zero-based indices, with directed adjacency kept as a per-node ordered
//! list of `(edge payload, target index)` pairs.
use vstd::prelude::*;
use vstd::seq_lib::group_filter_ensures;
use vstd::seq_lib::group_seq_properties;

use crate::Error;
use crate::Payload;

verus! {

broadcast use group_seq_properties, group_filter_ensures, vstd::prelude::Seq::lemma_filter_push;

/// A directed graph over node payloads `N` and edge payloads `E`.
///
/// Policy decisions (the public contract below states them exactly):
/// - node payloads are unique: adding a payload already present fails with
///   [`Error::NodeAlreadyExists`];
/// - at most one edge may run from a node to a given target: adding a second
///   fails with [`Error::EdgeAlreadyExists`], whatever its payload.
pub struct Graph<N, E> {
    nodes: Vec<N>,
    adj: Vec<Vec<(E, usize)>>,
}

impl<N: Payload, E: Payload> Graph<N, E> {
    /// The stored node payloads, in insertion order; a node's index in this
    /// sequence is its id.
    pub closed spec fn spec_nodes(&self) -> Seq<N> {
        self.nodes@
    }

    /// The adjacency structure: for each node index, the ordered sequence of
    /// outgoing `(edge payload, target index)` pairs.
    pub closed spec fn spec_adj(&self) -> Seq<Seq<(E, usize)>> {
        self.adj@.map_values(|l: Vec<(E, usize)>| l@)
    }

    /// Well-formedness: one adjacency slot per node, and every target index
    /// is a valid node index. Every constructor establishes this and every
    /// method preserves it.
    pub open spec fn wf(&self) -> bool {
        &&& self.spec_adj().len() == self.spec_nodes().len()
        &&& forall|i: int, j: int|
            0 <= i < self.spec_adj().len() && 0 <= j < self.spec_adj()[i].len()
                ==> (#[trigger] self.spec_adj()[i][j]).1 < self.spec_nodes().len()
    }

    /// Whether some adjacency entry of `from` targets `to`.
    pub open spec fn spec_has_edge(&self, from: int, to: usize) -> bool {
        exists|j: int|
            0 <= j < self.spec_adj()[from].len() && (#[trigger] self.spec_adj()[from][j]).1 == to
    }

    /// An empty graph.
    pub fn new() -> (g: Self)
        ensures
            g.spec_nodes() =~= Seq::<N>::empty(),
            g.spec_adj() =~= Seq::<Seq<(E, usize)>>::empty(),
            g.wf(),
    {
        Self { nodes: Vec::new(), adj: Vec::new() }
    }

    /// The number of nodes in the graph.
    pub fn node_len(&self) -> (n: usize)
        ensures
            n == self.spec_nodes().len(),
    {
        self.nodes.len()
    }

    /// Whether the graph holds no nodes.
    pub fn is_empty(&self) -> (r: bool)
        ensures
            r == (self.spec_nodes().len() == 0),
    {
        self.nodes.is_empty()
    }

    /// Copies of all node payloads, in insertion order.
    #[verifier::loop_isolation(false)]
    pub fn nodes(&self) -> (r: Vec<N>)
        ensures
            r@ == self.spec_nodes(),
    {
        let mut result: Vec<N> = Vec::new();
        let mut i: usize = 0;
        while i < self.nodes.len()
            invariant
                i <= self.nodes.len(),
                result@ =~= self.spec_nodes().take(i as int),
            decreases self.nodes.len() - i,
        {
            result.push(self.nodes[i].duplicate());
            i = i + 1;
        }
        assert(result@ =~= self.spec_nodes());
        result
    }

    /// Whether some stored node payload equals `node`.
    #[verifier::loop_isolation(false)]
    pub fn has_node(&self, node: &N) -> (r: bool)
        ensures
            r == self.spec_nodes().contains(*node),
    {
        let mut i: usize = 0;
        while i < self.nodes.len()
            invariant
                i <= self.nodes.len(),
                forall|k: int| 0 <= k < i ==> self.spec_nodes()[k] != *node,
            decreases self.nodes.len() - i,
        {
            if self.nodes[i].eq_payload(node) {
                return true;
            }
            i = i + 1;
        }
        false
    }

    /// A copy of the payload of node `node_id`, or [`Error::NoSuchNode`] if
    /// the index is out of range.
    pub fn node(&self, node_id: usize) -> (r: Result<N, Error>)
        ensures
            match r {
                Ok(n) => node_id < self.spec_nodes().len() && n == self.spec_nodes()[node_id as int],
                Err(e) => node_id >= self.spec_nodes().len() && e == Error::NoSuchNode,
            },
    {
        if node_id < self.nodes.len() {
            Ok(self.nodes[node_id].duplicate())
        } else {
            Err(Error::NoSuchNode)
        }
    }

    /// The index of the first node whose payload equals `node`, or
    /// [`Error::NoSuchNode`] if no stored payload equals it.
    #[verifier::loop_isolation(false)]
    pub fn node_id(&self, node: &N) -> (r: Result<usize, Error>)
        ensures
            match r {
                Ok(i) => {
                    &&& i < self.spec_nodes().len()
                    &&& self.spec_nodes()[i as int] == *node
                    &&& forall|k: int| 0 <= k < i ==> self.spec_nodes()[k] != *node
                },
                Err(e) => !self.spec_nodes().contains(*node) && e == Error::NoSuchNode,
            },
    {
        let mut i: usize = 0;
        while i < self.nodes.len()
            invariant
                i <= self.nodes.len(),
                forall|k: int| 0 <= k < i ==> self.spec_nodes()[k] != *node,
            decreases self.nodes.len() - i,
        {
            if self.nodes[i].eq_payload(node) {
                return Ok(i);
            }
            i = i + 1;
        }
        Err(Error::NoSuchNode)
    }

    /// Appends a node payload, allocates its empty adjacency slot, and
    /// returns the new node's index. Fails with [`Error::NodeAlreadyExists`],
    /// leaving the graph unchanged, if an equal payload is already stored.
    pub fn add_node(&mut self, node: N) -> (r: Result<usize, Error>)
        requires
            old(self).wf(),
        ensures
            final(self).wf(),
            match r {
                Ok(i) => {
                    &&& !old(self).spec_nodes().contains(node)
                    &&& i == old(self).spec_nodes().len()
                    &&& final(self).spec_nodes() == old(self).spec_nodes().push(node)
                    &&& final(self).spec_adj() =~= old(self).spec_adj().push(
                        Seq::<(E, usize)>::empty(),
                    )
                },
                Err(e) => {
                    &&& old(self).spec_nodes().contains(node)
                    &&& e == Error::NodeAlreadyExists
                    &&& *final(self) == *old(self)
                },
            },
    {
        if self.has_node(&node) {
            Err(Error::NodeAlreadyExists)
        } else {
            let id = self.nodes.len();
            self.nodes.push(node);
            self.adj.push(Vec::new());
            proof {
                assert(self.spec_adj() =~= old(self).spec_adj().push(Seq::<(E, usize)>::empty()));
            }
            Ok(id)
        }
    }

    /// Appends `(edge, to)` to `from`'s adjacency list. Fails with
    /// [`Error::NoSuchNode`] if either endpoint is out of range, and with
    /// [`Error::EdgeAlreadyExists`] if an edge from `from` to `to` is already
    /// stored; on failure the graph is unchanged.
    #[verifier::loop_isolation(false)]
    pub fn add_edge(&mut self, from: usize, to: usize, edge: E) -> (r: Result<(), Error>)
        requires
            old(self).wf(),
        ensures
            final(self).wf(),
            final(self).spec_nodes() == old(self).spec_nodes(),
            match r {
                Ok(()) => {
                    &&& from < old(self).spec_nodes().len()
                    &&& to < old(self).spec_nodes().len()
                    &&& !old(self).spec_has_edge(from as int, to)
                    &&& final(self).spec_adj() =~= old(self).spec_adj().update(
                        from as int,
                        old(self).spec_adj()[from as int].push((edge, to)),
                    )
                },
                Err(Error::NoSuchNode) => {
                    &&& from >= old(self).spec_nodes().len() || to >= old(self).spec_nodes().len()
                    &&& *final(self) == *old(self)
                },
                Err(Error::EdgeAlreadyExists) => {
                    &&& from < old(self).spec_nodes().len()
                    &&& to < old(self).spec_nodes().len()
                    &&& old(self).spec_has_edge(from as int, to)
                    &&& *final(self) == *old(self)
                },
                Err(_) => false,
            },
    {
        if from >= self.nodes.len() || to >= self.nodes.len() {
            return Err(Error::NoSuchNode);
        }
        let mut j: usize = 0;
        let deg = self.adj[from].len();
        while j < deg
            invariant
                j <= deg,
                deg == self.spec_adj()[from as int].len(),
                from < self.spec_adj().len(),
                forall|k: int| 0 <= k < j ==> (#[trigger] self.spec_adj()[from as int][k]).1 != to,
            decreases deg - j,
        {
            if self.adj[from][j].1 == to {
                return Err(Error::EdgeAlreadyExists);
            }
            j = j + 1;
        }
        self.adj[from].push((edge, to));
        proof {
            assert(self.spec_adj() =~= old(self).spec_adj().update(
                from as int,
                old(self).spec_adj()[from as int].push((edge, to)),
            ));
        }
        Ok(())
    }

    /// The index of the first entry of `l` equal to `(edge, to)`, or `-1`
    /// if there is none.
    pub open spec fn first_match(l: Seq<(E, usize)>, to: usize, edge: E) -> int
        decreases l.len(),
    {
        if l.len() == 0 {
            -1
        } else if l[0] == (edge, to) {
            0
        } else {
            let r = Self::first_match(l.drop_first(), to, edge);
            if r < 0 {
                -1
            } else {
                1 + r
            }
        }
    }

    /// `first_match` finds the first matching index when a match exists,
    /// and `-1` exactly when none does.
    pub proof fn lemma_first_match(l: Seq<(E, usize)>, to: usize, edge: E)
        ensures
            Self::first_match(l, to, edge) == -1 ==> forall|j: int|
                0 <= j < l.len() ==> l[j] != (edge, to),
            Self::first_match(l, to, edge) != -1 ==> {
                let k = Self::first_match(l, to, edge);
                &&& 0 <= k < l.len()
                &&& l[k] == (edge, to)
                &&& forall|j: int| 0 <= j < k ==> l[j] != (edge, to)
            },
        decreases l.len(),
    {
        if l.len() > 0 && l[0] != (edge, to) {
            Self::lemma_first_match(l.drop_first(), to, edge);
            assert(forall|j: int| 0 <= j < l.drop_first().len() ==> l.drop_first()[j] == l[j + 1]);
        }
    }

    /// Removes the first adjacency entry of `from` that equals `(edge, to)`
    /// by value, and reports whether a removal occurred. Out-of-range `from`
    /// or a missing match removes nothing; this is a query-style result, not
    /// a fallible operation.
    #[verifier::loop_isolation(false)]
    pub fn remove_edge(&mut self, from: usize, to: usize, edge: E) -> (r: bool)
        requires
            old(self).wf(),
        ensures
            final(self).wf(),
            final(self).spec_nodes() == old(self).spec_nodes(),
            from >= old(self).spec_adj().len() ==> !r && *final(self) == *old(self),
            from < old(self).spec_adj().len() ==> {
                let k = Self::first_match(old(self).spec_adj()[from as int], to, edge);
                if k >= 0 {
                    &&& r
                    &&& final(self).spec_adj() =~= old(self).spec_adj().update(
                        from as int,
                        old(self).spec_adj()[from as int].remove(k),
                    )
                } else {
                    &&& !r
                    &&& *final(self) == *old(self)
                }
            },
    {
        if from >= self.adj.len() {
            return false;
        }
        proof {
            Self::lemma_first_match(self.spec_adj()[from as int], to, edge);
        }
        let mut j: usize = 0;
        let deg = self.adj[from].len();
        while j < deg
            invariant
                j <= deg,
                *self == *old(self),
                deg == self.spec_adj()[from as int].len(),
                from < self.spec_adj().len(),
                forall|k: int|
                    0 <= k < j ==> #[trigger] self.spec_adj()[from as int][k] != (edge, to),
            decreases deg - j,
        {
            let hit = self.adj[from][j].1 == to && self.adj[from][j].0.eq_payload(&edge);
            if hit {
                let _ = self.adj[from].remove(j);
                proof {
                    assert(self.spec_adj() =~= old(self).spec_adj().update(
                        from as int,
                        old(self).spec_adj()[from as int].remove(j as int),
                    ));
                }
                return true;
            }
            j = j + 1;
        }
        false
    }

    /// A copy of the payload of the first edge from `from` whose target is
    /// `to`. Fails with [`Error::NoSuchNode`] if `from` is out of range and
    /// with [`Error::NoSuchEdge`] if no edge from `from` targets `to`.
    #[verifier::loop_isolation(false)]
    pub fn edge(&self, from: usize, to: usize) -> (r: Result<E, Error>)
        requires
            self.wf(),
        ensures
            match r {
                Ok(e) => from < self.spec_nodes().len() && exists|k: int|
                    {
                        &&& 0 <= k < self.spec_adj()[from as int].len()
                        &&& (#[trigger] self.spec_adj()[from as int][k]) == (e, to)
                        &&& forall|j: int|
                            0 <= j < k ==> (#[trigger] self.spec_adj()[from as int][j]).1 != to
                    },
                Err(Error::NoSuchNode) => from >= self.spec_nodes().len(),
                Err(Error::NoSuchEdge) => from < self.spec_nodes().len() && !self.spec_has_edge(
                    from as int,
                    to,
                ),
                Err(_) => false,
            },
    {
        if from >= self.nodes.len() {
            return Err(Error::NoSuchNode);
        }
        let mut j: usize = 0;
        let deg = self.adj[from].len();
        while j < deg
            invariant
                j <= deg,
                deg == self.spec_adj()[from as int].len(),
                from < self.spec_adj().len(),
                forall|k: int| 0 <= k < j ==> (#[trigger] self.spec_adj()[from as int][k]).1 != to,
            decreases deg - j,
        {
            if self.adj[from][j].1 == to {
                return Ok(self.adj[from][j].0.duplicate());
            }
            j = j + 1;
        }
        Err(Error::NoSuchEdge)
    }

    /// The target indices of `from`'s outgoing edges, in adjacency order, or
    /// [`Error::NoSuchNode`] if `from` is out of range.
    #[verifier::loop_isolation(false)]
    pub fn neighbors(&self, node_id: usize) -> (r: Result<Vec<usize>, Error>)
        requires
            self.wf(),
        ensures
            match r {
                Ok(v) => node_id < self.spec_nodes().len() && v@ == self.spec_adj()[
                    node_id as int
                ].map_values(|p: (E, usize)| p.1),
                Err(e) => node_id >= self.spec_nodes().len() && e == Error::NoSuchNode,
            },
    {
        if node_id >= self.adj.len() {
            return Err(Error::NoSuchNode);
        }
        let mut result: Vec<usize> = Vec::new();
        let mut j: usize = 0;
        let deg = self.adj[node_id].len();
        while j < deg
            invariant
                j <= deg,
                deg == self.spec_adj()[node_id as int].len(),
                node_id < self.spec_adj().len(),
                result@ =~= self.spec_adj()[node_id as int].take(j as int).map_values(
                    |p: (E, usize)| p.1,
                ),
            decreases deg - j,
        {
            result.push(self.adj[node_id][j].1);
            j = j + 1;
        }
        proof {
            assert(result@ =~= self.spec_adj()[node_id as int].map_values(|p: (E, usize)| p.1));
        }
        Ok(result)
    }

    /// Copies of `from`'s outgoing `(edge payload, target index)` pairs, in
    /// adjacency order, or [`Error::NoSuchNode`] if `from` is out of range.
    #[verifier::loop_isolation(false)]
    pub fn out_edges(&self, node_id: usize) -> (r: Result<Vec<(E, usize)>, Error>)
        requires
            self.wf(),
        ensures
            match r {
                Ok(v) => node_id < self.spec_nodes().len() && v@ == self.spec_adj()[node_id as int],
                Err(e) => node_id >= self.spec_nodes().len() && e == Error::NoSuchNode,
            },
    {
        if node_id >= self.adj.len() {
            return Err(Error::NoSuchNode);
        }
        let mut result: Vec<(E, usize)> = Vec::new();
        let mut j: usize = 0;
        let deg = self.adj[node_id].len();
        while j < deg
            invariant
                j <= deg,
                deg == self.spec_adj()[node_id as int].len(),
                node_id < self.spec_adj().len(),
                result@ =~= self.spec_adj()[node_id as int].take(j as int),
            decreases deg - j,
        {
            let e = self.adj[node_id][j].0.duplicate();
            let t = self.adj[node_id][j].1;
            result.push((e, t));
            j = j + 1;
        }
        proof {
            assert(result@ =~= self.spec_adj()[node_id as int]);
        }
        Ok(result)
    }

    /// The number of outgoing edges of `node_id`, or [`Error::NoSuchNode`]
    /// if the index is out of range.
    pub fn degree(&self, node_id: usize) -> (r: Result<usize, Error>)
        requires
            self.wf(),
        ensures
            match r {
                Ok(d) => node_id < self.spec_nodes().len() && d == self.spec_adj()[
                    node_id as int
                ].len(),
                Err(e) => node_id >= self.spec_nodes().len() && e == Error::NoSuchNode,
            },
    {
        if node_id >= self.adj.len() {
            return Err(Error::NoSuchNode);
        }
        Ok(self.adj[node_id].len())
    }

    /// Whether some edge runs from `source_id` to `target_id`, or
    /// [`Error::NoSuchNode`] if either index is out of range.
    #[verifier::loop_isolation(false)]
    pub fn has_edge(&self, source_id: usize, target_id: usize) -> (r: Result<bool, Error>)
        requires
            self.wf(),
        ensures
            match r {
                Ok(b) => {
                    &&& source_id < self.spec_nodes().len()
                    &&& target_id < self.spec_nodes().len()
                    &&& b == self.spec_has_edge(source_id as int, target_id)
                },
                Err(e) => (source_id >= self.spec_nodes().len() || target_id
                    >= self.spec_nodes().len()) && e == Error::NoSuchNode,
            },
    {
        if source_id >= self.adj.len() || target_id >= self.nodes.len() {
            return Err(Error::NoSuchNode);
        }
        let mut j: usize = 0;
        let deg = self.adj[source_id].len();
        while j < deg
            invariant
                j <= deg,
                deg == self.spec_adj()[source_id as int].len(),
                source_id < self.spec_adj().len(),
                forall|k: int|
                    0 <= k < j ==> (#[trigger] self.spec_adj()[source_id as int][k]).1 != target_id,
            decreases deg - j,
        {
            if self.adj[source_id][j].1 == target_id {
                return Ok(true);
            }
            j = j + 1;
        }
        Ok(false)
    }

    /// The total number of edges: the sum of the adjacency list lengths of
    /// the first `adj.len()` nodes.
    pub open spec fn edge_count(adj: Seq<Seq<(E, usize)>>) -> int
        decreases adj.len(),
    {
        if adj.len() == 0 {
            0
        } else {
            Self::edge_count(adj.drop_last()) + adj.last().len()
        }
    }

    /// The edge count of a prefix never exceeds the whole count.
    proof fn lemma_edge_count_take(adj: Seq<Seq<(E, usize)>>, i: int)
        requires
            0 <= i <= adj.len(),
        ensures
            Self::edge_count(adj.take(i)) <= Self::edge_count(adj),
        decreases adj.len() - i,
    {
        if i == adj.len() {
            assert(adj.take(i) =~= adj);
        } else {
            assert(adj.take(i + 1).drop_last() =~= adj.take(i));
            Self::lemma_edge_count_take(adj, i + 1);
        }
    }

    /// The number of edges in the graph.
    #[verifier::loop_isolation(false)]
    pub fn edge_len(&self) -> (n: usize)
        requires
            Self::edge_count(self.spec_adj()) <= usize::MAX,
        ensures
            n == Self::edge_count(self.spec_adj()),
    {
        let mut sum: usize = 0;
        let mut i: usize = 0;
        let n = self.adj.len();
        while i < n
            invariant
                i <= n,
                sum == Self::edge_count(self.spec_adj().take(i as int)),
            decreases n - i,
        {
            proof {
                assert(self.spec_adj().take(i + 1).drop_last() =~= self.spec_adj().take(i as int));
                Self::lemma_edge_count_take(self.spec_adj(), i + 1);
            }
            sum = sum + self.adj[i].len();
            i = i + 1;
        }
        proof {
            assert(self.spec_adj().take(n as int) =~= self.spec_adj());
        }
        sum
    }

    /// All edges of the first `adj.len()` nodes, flattened in adjacency
    /// order as `(from, to, payload)` triples.
    pub open spec fn edge_triples(adj: Seq<Seq<(E, usize)>>) -> Seq<(usize, usize, E)>
        decreases adj.len(),
    {
        if adj.len() == 0 {
            Seq::empty()
        } else {
            Self::edge_triples(adj.drop_last()) + adj.last().map_values(
                |p: (E, usize)| (((adj.len() - 1) as usize), p.1, p.0),
            )
        }
    }

    /// `t` describes an edge stored in `adj`: its source is a valid index
    /// and some position of the source's adjacency list holds its payload
    /// and target.
    pub open spec fn triple_listed(adj: Seq<Seq<(E, usize)>>, t: (usize, usize, E)) -> bool {
        &&& t.0 < adj.len()
        &&& exists|j: int| 0 <= j < adj[t.0 as int].len() && adj[t.0 as int][j] == (t.2, t.1)
    }

    /// Every triple lists a stored edge: a valid source, and the payload and
    /// target found at some position of that source's adjacency list.
    pub proof fn lemma_edge_triples_members(adj: Seq<Seq<(E, usize)>>)
        requires
            adj.len() <= usize::MAX,
        ensures
            Self::edge_triples(adj).len() == Self::edge_count(adj),
            forall|k: int|
                0 <= k < Self::edge_triples(adj).len() ==> Self::triple_listed(
                    adj,
                    #[trigger] Self::edge_triples(adj)[k],
                ),
        decreases adj.len(),
    {
        if adj.len() > 0 {
            Self::lemma_edge_triples_members(adj.drop_last());
            let pre = Self::edge_triples(adj.drop_last());
            let f = (adj.len() - 1) as usize;
            assert forall|k: int| 0 <= k < Self::edge_triples(adj).len() implies Self::triple_listed(
                adj,
                #[trigger] Self::edge_triples(adj)[k],
            ) by {
                let t = Self::edge_triples(adj)[k];
                if k < pre.len() {
                    assert(t == pre[k]);
                    assert(Self::triple_listed(adj.drop_last(), t));
                    let j = choose|j: int|
                        0 <= j < adj.drop_last()[t.0 as int].len() && adj.drop_last()[
                            t.0 as int
                        ][j] == (t.2, t.1);
                    assert(adj[t.0 as int][j] == (t.2, t.1));
                } else {
                    let j = k - pre.len();
                    assert(t == (f, adj.last()[j].1, adj.last()[j].0));
                    assert(adj[f as int][j] == (t.2, t.1));
                }
            }
        }
    }

    /// Conversely, every stored adjacency entry appears among the triples.
    pub proof fn lemma_edge_triples_complete(adj: Seq<Seq<(E, usize)>>, i: int, j: int)
        requires
            adj.len() <= usize::MAX,
            0 <= i < adj.len(),
            0 <= j < adj[i].len(),
        ensures
            exists|k: int|
                0 <= k < Self::edge_triples(adj).len() && (#[trigger] Self::edge_triples(adj)[k])
                    == (i as usize, adj[i][j].1, adj[i][j].0),
        decreases adj.len(),
    {
        let pre = Self::edge_triples(adj.drop_last());
        if i < adj.len() - 1 {
            assert(adj.drop_last()[i] == adj[i]);
            Self::lemma_edge_triples_complete(adj.drop_last(), i, j);
            let k = choose|k: int|
                0 <= k < pre.len() && (#[trigger] pre[k]) == (i as usize, adj[i][j].1, adj[i][j].0);
            assert(Self::edge_triples(adj)[k] == (i as usize, adj[i][j].1, adj[i][j].0));
        } else {
            let k = pre.len() + j;
            assert(Self::edge_triples(adj)[k] == (i as usize, adj[i][j].1, adj[i][j].0));
        }
    }

    /// All edges, flattened in adjacency order as `(from, to, payload)`
    /// triples: first every outgoing edge of node 0 in list order, then
    /// node 1's, and so on.
    #[verifier::loop_isolation(false)]
    pub fn edges(&self) -> (r: Vec<(usize, usize, E)>)
        ensures
            r@ == Self::edge_triples(self.spec_adj()),
    {
        let mut result: Vec<(usize, usize, E)> = Vec::new();
        let mut i: usize = 0;
        let n = self.adj.len();
        while i < n
            invariant
                i <= n,
                result@ =~= Self::edge_triples(self.spec_adj().take(i as int)),
            decreases n - i,
        {
            let deg = self.adj[i].len();
            let mut j: usize = 0;
            while j < deg
                invariant
                    j <= deg,
                    deg == self.spec_adj()[i as int].len(),
                    i < n,
                    result@ =~= Self::edge_triples(self.spec_adj().take(i as int)) + self.spec_adj()[
                        i as int
                    ].take(j as int).map_values(|p: (E, usize)| (i, p.1, p.0)),
                decreases deg - j,
            {
                let e = self.adj[i][j].0.duplicate();
                result.push((i, self.adj[i][j].1, e));
                proof {
                    assert(self.spec_adj()[i as int].take(j + 1).map_values(
                        |p: (E, usize)| (i, p.1, p.0),
                    ) =~= self.spec_adj()[i as int].take(j as int).map_values(
                        |p: (E, usize)| (i, p.1, p.0),
                    ).push((i, self.spec_adj()[i as int][j as int].1, self.spec_adj()[
                        i as int
                    ][j as int].0)));
                }
                j = j + 1;
            }
            proof {
                let pre = self.spec_adj().take(i + 1);
                assert(pre.drop_last() =~= self.spec_adj().take(i as int));
                assert(pre.last() == self.spec_adj()[i as int]);
                assert(pre.last().map_values(|p: (E, usize)| (((pre.len() - 1) as usize), p.1, p.0))
                    =~= self.spec_adj()[i as int].take(deg as int).map_values(
                    |p: (E, usize)| (i, p.1, p.0),
                ));
            }
            i = i + 1;
        }
        proof {
            assert(self.spec_adj().take(n as int) =~= self.spec_adj());
        }
        result
    }

    /// A copy of the whole adjacency structure: for each node, its outgoing
    /// `(edge payload, target index)` pairs in order.
    #[verifier::loop_isolation(false)]
    pub fn edge_list(&self) -> (r: Vec<Vec<(E, usize)>>)
        requires
            self.wf(),
        ensures
            r@.len() == self.spec_adj().len(),
            forall|i: int| 0 <= i < r@.len() ==> (#[trigger] r@[i])@ == self.spec_adj()[i],
    {
        let mut result: Vec<Vec<(E, usize)>> = Vec::new();
        let mut i: usize = 0;
        let n = self.adj.len();
        while i < n
            invariant
                i <= n,
                result@.len() == i,
                forall|k: int| 0 <= k < i ==> (#[trigger] result@[k])@ == self.spec_adj()[k],
            decreases n - i,
        {
            match self.out_edges(i) {
                Ok(l) => result.push(l),
                Err(_) => {
                    proof {
                        assert(false);
                    }
                },
            }
            i = i + 1;
        }
        result
    }

    /// The adjacency structure with payloads dropped: for each node, its
    /// target indices in order.
    #[verifier::loop_isolation(false)]
    pub fn adj_list(&self) -> (r: Vec<Vec<usize>>)
        requires
            self.wf(),
        ensures
            r@.len() == self.spec_adj().len(),
            forall|i: int|
                0 <= i < r@.len() ==> (#[trigger] r@[i])@ == self.spec_adj()[i].map_values(
                    |p: (E, usize)| p.1,
                ),
    {
        let mut result: Vec<Vec<usize>> = Vec::new();
        let mut i: usize = 0;
        let n = self.adj.len();
        while i < n
            invariant
                i <= n,
                result@.len() == i,
                forall|k: int|
                    0 <= k < i ==> (#[trigger] result@[k])@ == self.spec_adj()[k].map_values(
                        |p: (E, usize)| p.1,
                    ),
            decreases n - i,
        {
            match self.neighbors(i) {
                Ok(l) => result.push(l),
                Err(_) => {
                    proof {
                        assert(false);
                    }
                },
            }
            i = i + 1;
        }
        result
    }

    /// One adjacency entry, rewritten for the removal of node `node_id`:
    /// a target above `node_id` shifts down by one.
    pub open spec fn shift_entry(p: (E, usize), node_id: usize) -> (E, usize) {
        if p.1 > node_id {
            (p.0, (p.1 - 1) as usize)
        } else {
            p
        }
    }

    /// The predicate keeping the adjacency entries that survive the removal
    /// of node `node_id`: those not targeting it.
    pub open spec fn survives(node_id: usize) -> spec_fn((E, usize)) -> bool {
        |p: (E, usize)| p.1 != node_id
    }

    /// An adjacency list rewritten for the removal of node `node_id`:
    /// entries targeting `node_id` are dropped, and every target greater
    /// than `node_id` is decremented by one.
    pub open spec fn shift_list(l: Seq<(E, usize)>, node_id: usize) -> Seq<(E, usize)> {
        l.filter(Self::survives(node_id)).map_values(
            |p: (E, usize)| Self::shift_entry(p, node_id),
        )
    }

    /// Removes node `node_id` and its adjacency slot, then rewrites every
    /// remaining adjacency list: entries targeting the removed index are
    /// dropped, entries targeting a greater index are decremented by one.
    /// Fails with [`Error::NoSuchNode`], leaving the graph unchanged, if
    /// `node_id` is out of range.
    #[verifier::loop_isolation(false)]
    pub fn remove_node(&mut self, node_id: usize) -> (r: Result<(), Error>)
        requires
            old(self).wf(),
        ensures
            final(self).wf(),
            match r {
                Ok(()) => {
                    &&& node_id < old(self).spec_nodes().len()
                    &&& final(self).spec_nodes() == old(self).spec_nodes().remove(node_id as int)
                    &&& final(self).spec_adj() =~= old(self).spec_adj().remove(
                        node_id as int,
                    ).map_values(|l: Seq<(E, usize)>| Self::shift_list(l, node_id))
                },
                Err(e) => {
                    &&& node_id >= old(self).spec_nodes().len()
                    &&& e == Error::NoSuchNode
                    &&& *final(self) == *old(self)
                },
            },
    {
        if node_id >= self.nodes.len() {
            return Err(Error::NoSuchNode);
        }
        let _ = self.nodes.remove(node_id);
        let _ = self.adj.remove(node_id);
        let ghost mid = self.spec_adj();
        proof {
            assert(mid =~= old(self).spec_adj().remove(node_id as int));
        }
        let n = self.adj.len();
        let mut new_adj: Vec<Vec<(E, usize)>> = Vec::new();
        let mut i: usize = 0;
        while i < n
            invariant
                i <= n,
                new_adj@.len() == i,
                forall|k: int|
                    0 <= k < i ==> (#[trigger] new_adj@[k])@ == Self::shift_list(mid[k], node_id),
            decreases n - i,
        {
            let deg = self.adj[i].len();
            let mut newl: Vec<(E, usize)> = Vec::new();
            let mut j: usize = 0;
            while j < deg
                invariant
                    j <= deg,
                    i < n,
                    deg == mid[i as int].len(),
                    newl@ =~= Self::shift_list(mid[i as int].take(j as int), node_id),
                decreases deg - j,
            {
                proof {
                    assert(mid[i as int].take(j + 1) =~= mid[i as int].take(j as int).push(
                        mid[i as int][j as int],
                    ));
                    assert(Self::shift_list(mid[i as int].take(j + 1), node_id) =~= {
                        let p = mid[i as int][j as int];
                        if p.1 != node_id {
                            Self::shift_list(mid[i as int].take(j as int), node_id).push(
                                Self::shift_entry(p, node_id),
                            )
                        } else {
                            Self::shift_list(mid[i as int].take(j as int), node_id)
                        }
                    });
                }
                let t = self.adj[i][j].1;
                if t != node_id {
                    let e = self.adj[i][j].0.duplicate();
                    if t > node_id {
                        newl.push((e, t - 1));
                    } else {
                        newl.push((e, t));
                    }
                }
                j = j + 1;
            }
            proof {
                assert(mid[i as int].take(deg as int) =~= mid[i as int]);
            }
            new_adj.push(newl);
            i = i + 1;
        }
        self.adj = new_adj;
        proof {
            assert(self.spec_adj() =~= old(self).spec_adj().remove(node_id as int).map_values(
                |l: Seq<(E, usize)>| Self::shift_list(l, node_id),
            ));
            assert forall|i: int, j: int|
                0 <= i < self.spec_adj().len() && 0 <= j < self.spec_adj()[i].len() implies (
            #[trigger] self.spec_adj()[i][j]).1 < self.spec_nodes().len() by {
                let rm = old(self).spec_adj().remove(node_id as int);
                let l = rm[i];
                let kept = l.filter(Self::survives(node_id));
                assert(self.spec_adj()[i] == rm.map_values(
                    |q: Seq<(E, usize)>| Self::shift_list(q, node_id),
                )[i]);
                assert(self.spec_adj()[i] == Self::shift_list(l, node_id));
                assert(j < kept.len());
                assert(self.spec_adj()[i][j] == Self::shift_entry(kept[j], node_id));
                assert(kept.contains(kept[j]));
                l.lemma_filter_contains_rev(Self::survives(node_id), kept[j]);
                assert(l.contains(kept[j]));
                let k = choose|k: int| 0 <= k < l.len() && l[k] == kept[j];
                assert(l[k].1 < old(self).spec_nodes().len());
                assert(kept[j].1 != node_id);
            }
        }
        Ok(())
    }

    /// `entry` is the rewritten form of some entry of `l` that does not
    /// target `node_id`.
    pub open spec fn rewritten_from(l: Seq<(E, usize)>, node_id: usize, entry: (E, usize)) -> bool {
        exists|k2: int|
            0 <= k2 < l.len() && (#[trigger] l[k2]).1 != node_id && entry == Self::shift_entry(
                l[k2],
                node_id,
            )
    }

    /// The rewrite a removal applies to one adjacency list, spelled out:
    /// every surviving entry is the rewritten form of a stored entry that
    /// did not target the removed index, and every stored entry that did
    /// not target it survives in rewritten form. `shift_entry` leaves a
    /// target below the removed index unchanged and decrements one above
    /// it, so no surviving entry refers to the removed node.
    pub proof fn lemma_shift_list_rewrites(l: Seq<(E, usize)>, node_id: usize)
        ensures
            forall|k: int|
                0 <= k < Self::shift_list(l, node_id).len() ==> Self::rewritten_from(
                    l,
                    node_id,
                    #[trigger] Self::shift_list(l, node_id)[k],
                ),
            forall|k2: int|
                0 <= k2 < l.len() && (#[trigger] l[k2]).1 != node_id ==> Self::shift_list(
                    l,
                    node_id,
                ).contains(Self::shift_entry(l[k2], node_id)),
    {
        let kept = l.filter(Self::survives(node_id));
        assert forall|k: int| 0 <= k < Self::shift_list(l, node_id).len() implies Self::rewritten_from(
            l,
            node_id,
            #[trigger] Self::shift_list(l, node_id)[k],
        ) by {
            assert(Self::shift_list(l, node_id)[k] == Self::shift_entry(kept[k], node_id));
            assert(kept.contains(kept[k]));
            l.lemma_filter_contains_rev(Self::survives(node_id), kept[k]);
            let k2 = choose|k2: int| 0 <= k2 < l.len() && l[k2] == kept[k];
            assert(l[k2].1 != node_id && Self::shift_list(l, node_id)[k] == Self::shift_entry(
                l[k2],
                node_id,
            ));
        }
        assert forall|k2: int|
            0 <= k2 < l.len() && (#[trigger] l[k2]).1 != node_id implies Self::shift_list(
            l,
            node_id,
        ).contains(Self::shift_entry(l[k2], node_id)) by {
            l.lemma_filter_contains(Self::survives(node_id), k2);
            assert(kept.contains(l[k2]));
            let k = choose|k: int| 0 <= k < kept.len() && kept[k] == l[k2];
            assert(Self::shift_list(l, node_id)[k] == Self::shift_entry(l[k2], node_id));
        }
    }

    /// Adding an edge and then removing it restores the prior adjacency
    /// structure: after a successful `add_edge(from, to, edge)` (so no edge
    /// from `from` to `to` existed before), `remove_edge(from, to, edge)`
    /// removes exactly the appended entry and returns the adjacency to its
    /// prior content.
    pub proof fn lemma_edge_round_trip(adj: Seq<Seq<(E, usize)>>, from: int, to: usize, edge: E)
        requires
            0 <= from < adj.len(),
            forall|j: int| 0 <= j < adj[from].len() ==> (#[trigger] adj[from][j]).1 != to,
        ensures
            ({
                let added = adj.update(from, adj[from].push((edge, to)));
                let k = Self::first_match(added[from], to, edge);
                &&& k == adj[from].len()
                &&& added.update(from, added[from].remove(k)) =~~= adj
            }),
    {
        let added = adj.update(from, adj[from].push((edge, to)));
        let k = Self::first_match(added[from], to, edge);
        Self::lemma_first_match(added[from], to, edge);
        assert(added[from][adj[from].len() as int] == (edge, to));
        assert(k == adj[from].len());
        assert(added[from].remove(k) =~= adj[from]);
    }

    /// Whether some stored edge targets node `t`.
    pub open spec fn has_incoming(adj: Seq<Seq<(E, usize)>>, t: usize) -> bool {
        exists|i: int, j: int|
            0 <= i < adj.len() && 0 <= j < adj[i].len() && (#[trigger] adj[i][j]).1 == t
    }

    /// Whether some stored edge targets `t`.
    #[verifier::loop_isolation(false)]
    fn has_incoming_exec(&self, t: usize) -> (r: bool)
        ensures
            r == Self::has_incoming(self.spec_adj(), t),
    {
        let n = self.adj.len();
        let mut i: usize = 0;
        while i < n
            invariant
                i <= n,
                n == self.spec_adj().len(),
                forall|a: int, b: int|
                    0 <= a < i && 0 <= b < self.spec_adj()[a].len() ==> (#[trigger] self.spec_adj()[
                        a
                    ][b]).1 != t,
            decreases n - i,
        {
            let deg = self.adj[i].len();
            let mut j: usize = 0;
            while j < deg
                invariant
                    j <= deg,
                    i < n,
                    deg == self.spec_adj()[i as int].len(),
                    forall|b: int|
                        0 <= b < j ==> (#[trigger] self.spec_adj()[i as int][b]).1 != t,
                decreases deg - j,
            {
                if self.adj[i][j].1 == t {
                    proof {
                        assert(0 <= i < self.spec_adj().len() && 0 <= j
                            < self.spec_adj()[i as int].len() && self.spec_adj()[i as int][
                            j as int
                        ].1 == t);
                    }
                    return true;
                }
                j = j + 1;
            }
            i = i + 1;
        }
        false
    }

    /// The indices below `k` with no incoming edge, ascending.
    pub open spec fn roots_up_to(adj: Seq<Seq<(E, usize)>>, k: nat) -> Seq<usize>
        decreases k,
    {
        if k == 0 {
            Seq::empty()
        } else {
            let pre = Self::roots_up_to(adj, (k - 1) as nat);
            if Self::has_incoming(adj, (k - 1) as usize) {
                pre
            } else {
                pre.push((k - 1) as usize)
            }
        }
    }

    /// The node indices with no incoming edge, in ascending order.
    #[verifier::loop_isolation(false)]
    pub fn roots(&self) -> (r: Vec<usize>)
        requires
            self.wf(),
        ensures
            r@ == Self::roots_up_to(self.spec_adj(), self.spec_nodes().len() as nat),
    {
        let n = self.nodes.len();
        let mut result: Vec<usize> = Vec::new();
        let mut t: usize = 0;
        while t < n
            invariant
                t <= n,
                result@ =~= Self::roots_up_to(self.spec_adj(), t as nat),
            decreases n - t,
        {
            if !self.has_incoming_exec(t) {
                result.push(t);
            }
            t = t + 1;
        }
        result
    }

    /// The indices below `k` with no outgoing edge, ascending.
    pub open spec fn leafs_up_to(adj: Seq<Seq<(E, usize)>>, k: nat) -> Seq<usize>
        decreases k,
    {
        if k == 0 {
            Seq::empty()
        } else {
            let pre = Self::leafs_up_to(adj, (k - 1) as nat);
            if adj[k - 1].len() == 0 {
                pre.push((k - 1) as usize)
            } else {
                pre
            }
        }
    }

    /// The node indices with no outgoing edge, in ascending order.
    #[verifier::loop_isolation(false)]
    pub fn leafs(&self) -> (r: Vec<usize>)
        requires
            self.wf(),
        ensures
            r@ == Self::leafs_up_to(self.spec_adj(), self.spec_nodes().len() as nat),
    {
        let n = self.nodes.len();
        let mut result: Vec<usize> = Vec::new();
        let mut t: usize = 0;
        while t < n
            invariant
                t <= n,
                result@ =~= Self::leafs_up_to(self.spec_adj(), t as nat),
            decreases n - t,
        {
            if self.adj[t].len() == 0 {
                result.push(t);
            }
            t = t + 1;
        }
        result
    }

    /// The predicate selecting the adjacency entries that target `t`.
    pub open spec fn targets(t: usize) -> spec_fn((E, usize)) -> bool {
        |p: (E, usize)| p.1 == t
    }

    /// The sources of the edges into `t` among the sources `0..k`, each
    /// repeated once per such edge, in source order then adjacency order.
    pub open spec fn sources_of(adj: Seq<Seq<(E, usize)>>, t: usize, k: int) -> Seq<usize>
        decreases k,
    {
        if k <= 0 {
            Seq::empty()
        } else {
            Self::sources_of(adj, t, k - 1) + adj[k - 1].filter(Self::targets(t)).map_values(
                |p: (E, usize)| ((k - 1) as usize),
            )
        }
    }

    /// The reverse adjacency, computed on demand: for each node index `t`,
    /// the sources of the edges into `t`, each repeated once per edge, in
    /// source order.
    #[verifier::loop_isolation(false)]
    pub fn inv_adj_list(&self) -> (r: Vec<Vec<usize>>)
        requires
            self.wf(),
        ensures
            r@.len() == self.spec_nodes().len(),
            forall|t: int|
                0 <= t < r@.len() ==> (#[trigger] r@[t])@ == Self::sources_of(
                    self.spec_adj(),
                    t as usize,
                    self.spec_adj().len() as int,
                ),
    {
        let n = self.nodes.len();
        let mut result: Vec<Vec<usize>> = Vec::new();
        let mut t: usize = 0;
        while t < n
            invariant
                t <= n,
                result@.len() == t,
                forall|u: int|
                    0 <= u < t ==> (#[trigger] result@[u])@ == Self::sources_of(
                        self.spec_adj(),
                        u as usize,
                        n as int,
                    ),
            decreases n - t,
        {
            let mut list: Vec<usize> = Vec::new();
            let mut i: usize = 0;
            while i < n
                invariant
                    i <= n,
                    t < n,
                    list@ =~= Self::sources_of(self.spec_adj(), t, i as int),
                decreases n - i,
            {
                let ghost fsrc = |p: (E, usize)| (i as usize);
                let deg = self.adj[i].len();
                let mut j: usize = 0;
                while j < deg
                    invariant
                        j <= deg,
                        i < n,
                        t < n,
                        deg == self.spec_adj()[i as int].len(),
                        list@ =~= Self::sources_of(self.spec_adj(), t, i as int) + self.spec_adj()[
                            i as int
                        ].take(j as int).filter(Self::targets(t)).map_values(fsrc),
                    decreases deg - j,
                {
                    proof {
                        let l = self.spec_adj()[i as int];
                        assert(l.take(j + 1) =~= l.take(j as int).push(l[j as int]));
                        assert(l.take(j + 1).filter(Self::targets(t)).map_values(fsrc) =~= if l[
                            j as int
                        ].1 == t {
                            l.take(j as int).filter(Self::targets(t)).map_values(fsrc).push(i)
                        } else {
                            l.take(j as int).filter(Self::targets(t)).map_values(fsrc)
                        });
                    }
                    if self.adj[i][j].1 == t {
                        list.push(i);
                    }
                    j = j + 1;
                }
                proof {
                    let l = self.spec_adj()[i as int];
                    assert(l.take(deg as int) =~= l);
                    assert(l.filter(Self::targets(t)).map_values(fsrc) =~= Self::sources_of(
                        self.spec_adj(),
                        t,
                        i + 1,
                    ).skip(Self::sources_of(self.spec_adj(), t, i as int).len() as int));
                    assert(list@ =~= Self::sources_of(self.spec_adj(), t, i + 1));
                }
                i = i + 1;
            }
            result.push(list);
            t = t + 1;
        }
        result
    }

    /// The edge count is never negative.
    proof fn lemma_edge_count_nonneg(adj: Seq<Seq<(E, usize)>>)
        ensures
            Self::edge_count(adj) >= 0,
        decreases adj.len(),
    {
        if adj.len() > 0 {
            Self::lemma_edge_count_nonneg(adj.drop_last());
        }
    }

    /// A graph with no edges has only empty adjacency lists.
    proof fn lemma_edge_count_zero(adj: Seq<Seq<(E, usize)>>)
        requires
            Self::edge_count(adj) == 0,
        ensures
            forall|i: int| 0 <= i < adj.len() ==> (#[trigger] adj[i]).len() == 0,
        decreases adj.len(),
    {
        if adj.len() > 0 {
            Self::lemma_edge_count_nonneg(adj.drop_last());
            Self::lemma_edge_count_zero(adj.drop_last());
            assert forall|i: int| 0 <= i < adj.len() implies (#[trigger] adj[i]).len() == 0 by {
                if i < adj.len() - 1 {
                    assert(adj[i] == adj.drop_last()[i]);
                }
            }
        }
    }

    /// `roots_up_to(adj, k)` holds exactly the indices below `k` without an
    /// incoming edge, in ascending order without duplicates.
    proof fn lemma_roots_up_to_members(adj: Seq<Seq<(E, usize)>>, k: nat)
        requires
            k <= usize::MAX,
        ensures
            forall|x: usize|
                #[trigger] Self::roots_up_to(adj, k).contains(x) <==> (x < k
                    && !Self::has_incoming(adj, x)),
            forall|i: int|
                0 <= i < Self::roots_up_to(adj, k).len() ==> (#[trigger] Self::roots_up_to(
                    adj,
                    k,
                )[i]) < k,
            forall|a: int, b: int|
                0 <= a < b < Self::roots_up_to(adj, k).len() ==> Self::roots_up_to(adj, k)[a]
                    != Self::roots_up_to(adj, k)[b],
        decreases k,
    {
        if k > 0 {
            Self::lemma_roots_up_to_members(adj, (k - 1) as nat);
            let pre = Self::roots_up_to(adj, (k - 1) as nat);
            let cur = Self::roots_up_to(adj, k);
            let last = (k - 1) as usize;
            assert forall|i: int| 0 <= i < cur.len() implies (#[trigger] cur[i]) < k by {
                if i < pre.len() {
                    assert(cur[i] == pre[i]);
                }
            }
            assert forall|x: usize| #[trigger] cur.contains(x) implies (x < k
                && !Self::has_incoming(adj, x)) by {
                let i = choose|i: int| 0 <= i < cur.len() && cur[i] == x;
                if i < pre.len() {
                    assert(pre.contains(x));
                }
            }
            assert forall|x: usize| x < k && !Self::has_incoming(adj, x) implies
                #[trigger] cur.contains(x) by {
                if x < last {
                    assert(pre.contains(x));
                    let i = choose|i: int| 0 <= i < pre.len() && pre[i] == x;
                    assert(cur[i] == x);
                } else {
                    assert(x == last);
                    assert(cur[cur.len() - 1] == x);
                }
            }
            assert forall|a: int, b: int| 0 <= a < b < cur.len() implies cur[a] != cur[b] by {
                if b < pre.len() {
                    assert(cur[a] == pre[a] && cur[b] == pre[b]);
                } else {
                    assert(cur[b] == last);
                    assert(cur[a] == pre[a]);
                    assert(pre[a] < k - 1);
                }
            }
        }
    }

    /// A duplicate-free sequence of indices below `bound` has length at
    /// most `bound`.
    proof fn lemma_distinct_bounded(s: Seq<usize>, bound: nat)
        requires
            forall|k: int| 0 <= k < s.len() ==> (#[trigger] s[k]) < bound,
            forall|a: int, b: int| 0 <= a < b < s.len() ==> s[a] != s[b],
        ensures
            s.len() <= bound,
        decreases bound,
    {
        if s.len() > 0 {
            if bound == 0 {
                assert(s[0] < 0);
            } else {
                let last = (bound - 1) as usize;
                if exists|k: int| 0 <= k < s.len() && s[k] == last {
                    let k = choose|k: int| 0 <= k < s.len() && s[k] == last;
                    let t = s.remove(k);
                    assert forall|m: int| 0 <= m < t.len() implies (#[trigger] t[m]) < bound
                        - 1 by {
                        if m < k {
                            assert(t[m] == s[m]);
                        } else {
                            assert(t[m] == s[m + 1]);
                        }
                        assert(t[m] != last);
                    }
                    assert forall|a: int, b: int| 0 <= a < b < t.len() implies t[a] != t[b] by {
                        assert(t[a] == if a < k {
                            s[a]
                        } else {
                            s[a + 1]
                        });
                        assert(t[b] == if b < k {
                            s[b]
                        } else {
                            s[b + 1]
                        });
                    }
                    Self::lemma_distinct_bounded(t, (bound - 1) as nat);
                } else {
                    assert forall|m: int| 0 <= m < s.len() implies (#[trigger] s[m]) < bound
                        - 1 by {
                        assert(s[m] != last);
                    }
                    Self::lemma_distinct_bounded(s, (bound - 1) as nat);
                }
            }
        }
    }

    /// A conservative directed-acyclic-graph check: traverses breadth-first
    /// from all roots (nodes with no incoming edge) and reports false if no
    /// root exists or if the traversal meets an already-visited node. An
    /// empty graph counts as acyclic. This is a reachability-from-roots
    /// traversal, not a full cycle check: a cyclic component unreachable
    /// from every root goes undetected, and a node reachable along two
    /// distinct paths from the roots counts as a revisit. A true answer
    /// does certify that no node reachable from a root carries a
    /// self-loop: such a loop is always caught as a revisit.
    #[verifier::loop_isolation(false)]
    pub fn is_dag(&self) -> (r: bool)
        requires
            self.wf(),
        ensures
            self.spec_nodes().len() == 0 ==> r == true,
            self.spec_nodes().len() > 0 && (forall|t: usize|
                t < self.spec_nodes().len() ==> Self::has_incoming(self.spec_adj(), t)) ==> r
                == false,
            Self::edge_count(self.spec_adj()) == 0 ==> r == true,
            r == true ==> forall|s: usize, v: usize|
                s < self.spec_nodes().len() && !Self::has_incoming(self.spec_adj(), s)
                    && Self::reaches(self.spec_adj(), s, v) ==> !Self::edge_between(
                    self.spec_adj(),
                    v,
                    v,
                ),
    {
        let ghost adjs = self.spec_adj();
        let n = self.nodes.len();
        if n == 0 {
            return true;
        }
        let ghost no_edges = Self::edge_count(self.spec_adj()) == 0;
        proof {
            if no_edges {
                Self::lemma_edge_count_zero(self.spec_adj());
                assert(!Self::has_incoming(self.spec_adj(), 0usize));
            }
            Self::lemma_roots_up_to_members(self.spec_adj(), n as nat);
        }
        let mut queue = self.roots();
        if queue.len() == 0 {
            proof {
                assert(!no_edges) by {
                    if no_edges {
                        assert(Self::roots_up_to(self.spec_adj(), n as nat).contains(0usize));
                    }
                }
            }
            proof {
                assert forall|t: usize| t < self.spec_nodes().len() implies Self::has_incoming(
                    self.spec_adj(),
                    t,
                ) by {
                    if !Self::has_incoming(self.spec_adj(), t) {
                        assert(Self::roots_up_to(self.spec_adj(), n as nat).contains(t));
                        assert(false);
                    }
                }
                assert(!no_edges);
            }
            return false;
        }
        let ghost r0 = queue@[0];
        proof {
            assert(Self::roots_up_to(self.spec_adj(), n as nat).contains(r0));
            assert(r0 < n && !Self::has_incoming(self.spec_adj(), r0));
        }
        let mut visited: Vec<bool> = Vec::new();
        let mut i: usize = 0;
        while i < n
            invariant
                i <= n,
                visited@.len() == i,
                forall|k: int| 0 <= k < i ==> !(#[trigger] visited@[k]),
            decreases n - i,
        {
            visited.push(false);
            i = i + 1;
        }
        proof {
            Self::lemma_distinct_bounded(queue@, n as nat);
        }
        let mut q: usize = 0;
        while q < queue.len()
            invariant
                q <= queue@.len(),
                visited@.len() == n,
                queue@ == Self::roots_up_to(self.spec_adj(), n as nat),
                forall|t: int| 0 <= t < n ==> (#[trigger] visited@[t] == exists|k: int|
                    0 <= k < q && queue@[k] == t),
            decreases queue@.len() - q,
        {
            let v = queue[q];
            visited[v] = true;
            proof {
                assert forall|t: int| 0 <= t < n implies (#[trigger] visited@[t] == exists|k: int|
                    0 <= k < q + 1 && queue@[k] == t) by {
                    if visited@[t] {
                        if t == v as int {
                            assert(queue@[q as int] == t);
                        } else {
                            let k = choose|k: int| 0 <= k < q && queue@[k] == t;
                            assert(queue@[k] == t);
                        }
                    }
                }
            }
            q = q + 1;
        }
        proof {
            assert forall|t: int| 0 <= t < n && visited@[t] implies queue@.contains(t as usize) by {
                let k = choose|k: int| 0 <= k < queue@.len() && queue@[k] == t;
                assert(queue@[k] == t as usize);
            }
            assert forall|s: usize|
                s < n && !Self::has_incoming(adjs, s) implies visited@[s as int] by {
                assert(Self::roots_up_to(adjs, n as nat).contains(s));
            }
        }
        let mut head: usize = 0;
        while head < queue.len()
            invariant
                visited@.len() == n,
                head <= queue@.len(),
                queue@.len() <= n,
                forall|k: int| 0 <= k < queue@.len() ==> (#[trigger] queue@[k]) < n,
                forall|k: int| 0 <= k < queue@.len() ==> visited@[queue@[k] as int],
                forall|a: int, b: int| 0 <= a < b < queue@.len() ==> queue@[a] != queue@[b],
                forall|t: int| 0 <= t < n && visited@[t] ==> queue@.contains(t as usize),
                forall|s: usize| s < n && !Self::has_incoming(adjs, s) ==> visited@[s as int],
                forall|k: int, jj: int|
                    0 <= k < head && 0 <= jj < adjs[queue@[k] as int].len() ==> (#[trigger] adjs[
                        queue@[k] as int
                    ][jj]).1 != queue@[k] && visited@[adjs[queue@[k] as int][jj].1 as int],
            decreases n - head,
        {
            let v = queue[head];
            head = head + 1;
            let deg = self.adj[v].len();
            proof {
                if no_edges {
                    Self::lemma_edge_count_zero(self.spec_adj());
                }
            }
            let mut j: usize = 0;
            while j < deg
                invariant
                    j <= deg,
                    v < n,
                    1 <= head <= queue@.len(),
                    v == queue@[head - 1],
                    deg == self.spec_adj()[v as int].len(),
                    visited@.len() == n,
                    visited@[v as int],
                    queue@.len() <= n,
                    forall|k: int| 0 <= k < queue@.len() ==> (#[trigger] queue@[k]) < n,
                    forall|k: int| 0 <= k < queue@.len() ==> visited@[queue@[k] as int],
                    forall|a: int, b: int| 0 <= a < b < queue@.len() ==> queue@[a] != queue@[b],
                    forall|t: int| 0 <= t < n && visited@[t] ==> queue@.contains(t as usize),
                    forall|s: usize| s < n && !Self::has_incoming(adjs, s) ==> visited@[s as int],
                    forall|k: int, jj: int|
                        0 <= k < head - 1 && 0 <= jj < adjs[queue@[k] as int].len() ==> (
                        #[trigger] adjs[queue@[k] as int][jj]).1 != queue@[k] && visited@[adjs[
                            queue@[k] as int
                        ][jj].1 as int],
                    forall|jj: int|
                        0 <= jj < j ==> (#[trigger] adjs[v as int][jj]).1 != v && visited@[adjs[
                            v as int
                        ][jj].1 as int],
                decreases deg - j,
            {
                proof {
                    if no_edges {
                        assert(deg == 0);
                    }
                }
                let w = self.adj[v][j].1;
                if visited[w] {
                    return false;
                }
                visited[w] = true;
                proof {
                    assert(forall|k: int| 0 <= k < queue@.len() ==> queue@[k] != w);
                    Self::lemma_distinct_bounded(queue@.push(w), n as nat);
                    assert(queue@.push(w).contains(w)) by {
                        assert(queue@.push(w)[queue@.len() as int] == w);
                    }
                }
                queue.push(w);
                j = j + 1;
            }
        }
        proof {
            let vset = Set::new(|t: usize| t < n && visited@[t as int]);
            assert forall|c: usize, jx: int|
                vset.contains(c) && c < adjs.len() && 0 <= jx < adjs[c as int].len() implies
                vset.contains((#[trigger] adjs[c as int][jx]).1) by {
                assert(visited@[c as int]);
                assert(queue@.contains(c));
                let k = choose|k: int| 0 <= k < queue@.len() && queue@[k] == c;
                assert(adjs[queue@[k] as int][jx].1 != queue@[k] && visited@[adjs[
                    queue@[k] as int
                ][jx].1 as int]);
                assert(adjs[c as int][jx].1 < n);
            }
            assert forall|s: usize, v: usize|
                s < self.spec_nodes().len() && !Self::has_incoming(adjs, s) && Self::reaches(
                    adjs,
                    s,
                    v,
                ) implies !Self::edge_between(adjs, v, v) by {
                assert(vset.contains(s));
                Self::lemma_reaches_in_closed(adjs, s, vset, v);
                assert(visited@[v as int]);
                assert(queue@.contains(v));
                let k = choose|k: int| 0 <= k < queue@.len() && queue@[k] == v;
                if Self::edge_between(adjs, v, v) {
                    let jx = choose|jx: int|
                        0 <= jx < adjs[v as int].len() && (#[trigger] adjs[v as int][jx]).1 == v;
                    assert(adjs[queue@[k] as int][jx].1 != queue@[k]);
                    assert(false);
                }
            }
        }
        true
    }

    /// Whether some edge runs from `a` to `b` in `adj`.
    pub open spec fn edge_between(adj: Seq<Seq<(E, usize)>>, a: usize, b: usize) -> bool {
        a < adj.len() && exists|j: int|
            0 <= j < adj[a as int].len() && (#[trigger] adj[a as int][j]).1 == b
    }

    /// `p` walks along stored edges: it is non-empty, starts at a valid
    /// index, and each consecutive pair is joined by an edge.
    pub open spec fn is_path(adj: Seq<Seq<(E, usize)>>, p: Seq<usize>) -> bool {
        &&& p.len() >= 1
        &&& p[0] < adj.len()
        &&& forall|k: int| 0 <= k < p.len() - 1 ==> Self::edge_between(adj, #[trigger] p[k], p[k + 1])
    }

    /// Whether a directed path runs from `s` to `t` in `adj`.
    pub open spec fn reaches(adj: Seq<Seq<(E, usize)>>, s: usize, t: usize) -> bool {
        exists|p: Seq<usize>| Self::is_path(adj, p) && p[0] == s && p[p.len() - 1] == t
    }

    /// Every valid index reaches itself.
    pub proof fn lemma_reaches_self(adj: Seq<Seq<(E, usize)>>, s: usize)
        requires
            s < adj.len(),
        ensures
            Self::reaches(adj, s, s),
    {
        let p = seq![s];
        assert(Self::is_path(adj, p) && p[0] == s && p[p.len() - 1] == s);
    }

    /// Reachability extends along an edge.
    pub proof fn lemma_reaches_step(adj: Seq<Seq<(E, usize)>>, s: usize, c: usize, t: usize)
        requires
            Self::reaches(adj, s, c),
            Self::edge_between(adj, c, t),
        ensures
            Self::reaches(adj, s, t),
    {
        let p = choose|p: Seq<usize>| Self::is_path(adj, p) && p[0] == s && p[p.len() - 1] == c;
        let q = p.push(t);
        assert forall|k: int| 0 <= k < q.len() - 1 implies Self::edge_between(
            adj,
            #[trigger] q[k],
            q[k + 1],
        ) by {
            if k < p.len() - 1 {
                assert(q[k] == p[k] && q[k + 1] == p[k + 1]);
            } else {
                assert(q[k] == c && q[k + 1] == t);
            }
        }
        assert(Self::is_path(adj, q) && q[0] == s && q[q.len() - 1] == t);
    }

    /// Every node of a path whose start lies in a successor-closed set lies
    /// in that set too.
    proof fn lemma_path_in_closed(adj: Seq<Seq<(E, usize)>>, p: Seq<usize>, dom: Set<usize>, k: int)
        requires
            Self::is_path(adj, p),
            dom.contains(p[0]),
            forall|c: usize, j: int|
                dom.contains(c) && c < adj.len() && 0 <= j < adj[c as int].len() ==> dom.contains(
                    (#[trigger] adj[c as int][j]).1,
                ),
            0 <= k < p.len(),
        ensures
            dom.contains(p[k]),
        decreases k,
    {
        if k > 0 {
            Self::lemma_path_in_closed(adj, p, dom, k - 1);
            assert(Self::edge_between(adj, p[k - 1], p[k]));
            let j = choose|j: int|
                0 <= j < adj[p[k - 1] as int].len() && (#[trigger] adj[p[k - 1] as int][j]).1 == p[
                    k
                ];
            assert(dom.contains(adj[p[k - 1] as int][j].1));
        }
    }

    /// Reachability cannot leave a successor-closed set: if `s` lies in a
    /// set that contains the target of every edge leaving it, then so does
    /// everything reachable from `s`.
    pub proof fn lemma_reaches_in_closed(
        adj: Seq<Seq<(E, usize)>>,
        s: usize,
        dom: Set<usize>,
        t: usize,
    )
        requires
            dom.contains(s),
            forall|c: usize, j: int|
                dom.contains(c) && c < adj.len() && 0 <= j < adj[c as int].len() ==> dom.contains(
                    (#[trigger] adj[c as int][j]).1,
                ),
            Self::reaches(adj, s, t),
        ensures
            dom.contains(t),
    {
        let p = choose|p: Seq<usize>| Self::is_path(adj, p) && p[0] == s && p[p.len() - 1] == t;
        Self::lemma_path_in_closed(adj, p, dom, p.len() - 1);
    }
}

} // verus!
