//! Minimum spanning tree via Kruskal's algorithm: edges sorted ascending by
//! weight, accepted when their endpoints lie in different components of a
//! union-by-rank disjoint-set with path compression.
use vstd::multiset::Multiset;
use vstd::prelude::*;
use vstd::set_lib::set_int_range;

use crate::Graph;
use crate::Payload;

verus! {

/// Whether `i` is its own representative.
spec fn is_root(rep: Seq<usize>, i: int) -> bool {
    rep[i] == i
}

/// The set of representatives.
spec fn roots_set(rep: Seq<usize>) -> Set<int> {
    Set::new(|i: int| 0 <= i < rep.len() && rep[i] == i)
}

/// How many representatives there are.
spec fn num_roots(rep: Seq<usize>) -> nat {
    roots_set(rep).len()
}

/// The representative chain from `i`, followed for at most `fuel` steps.
spec fn root_of_n(rep: Seq<usize>, i: int, fuel: nat) -> int
    decreases fuel,
{
    if fuel == 0 || !(0 <= i < rep.len()) {
        i
    } else if rep[i] == i {
        i
    } else {
        root_of_n(rep, rep[i] as int, (fuel - 1) as nat)
    }
}

/// The representative of `i`'s component: the end of its pointer chain.
spec fn root_of(rep: Seq<usize>, i: int) -> int {
    root_of_n(rep, i, rep.len())
}

/// Structural soundness of a disjoint-set state: pointers stay in range,
/// the rank (`dep`) strictly increases along every pointer edge — which
/// both bounds chain length and rules out cycles — and ranks stay small
/// enough that a rank increment cannot overflow while two components
/// remain.
spec fn uf_wf(rep: Seq<usize>, dep: Seq<usize>) -> bool {
    &&& rep.len() <= usize::MAX
    &&& rep.len() == dep.len()
    &&& forall|i: int| 0 <= i < rep.len() ==> (#[trigger] rep[i]) < rep.len()
    &&& forall|i: int|
        0 <= i < rep.len() && rep[i] != i ==> dep[(#[trigger] rep[i]) as int] > dep[i]
    &&& forall|i: int| 0 <= i < rep.len() ==> 1 <= (#[trigger] dep[i]) <= rep.len()
    &&& forall|r: int|
        0 <= r < rep.len() && #[trigger] is_root(rep, r) ==> dep[r] + num_roots(rep) <= rep.len()
            + 1
}

/// The set of representatives is a subset of the index range, so its
/// cardinality is finite and at most `rep.len()`.
proof fn lemma_roots_set_bound(rep: Seq<usize>)
    ensures
        roots_set(rep).finite(),
        roots_set(rep).len() <= rep.len(),
{
    let rng = set_int_range(0, rep.len() as int);
    vstd::set_lib::lemma_int_range(0, rep.len() as int);
    assert(roots_set(rep).subset_of(rng));
    vstd::set_lib::lemma_len_subset(roots_set(rep), rng);
}

/// Two sufficient fuels agree, and the chain ends at a representative.
proof fn lemma_root_of_n2(rep: Seq<usize>, dep: Seq<usize>, i: int, fuel1: nat, fuel2: nat)
    requires
        uf_wf(rep, dep),
        0 <= i < rep.len(),
        fuel1 + dep[i] >= rep.len(),
        fuel2 + dep[i] >= rep.len(),
    ensures
        0 <= root_of_n(rep, i, fuel1) < rep.len(),
        is_root(rep, root_of_n(rep, i, fuel1)),
        root_of_n(rep, i, fuel1) == root_of_n(rep, i, fuel2),
        dep[root_of_n(rep, i, fuel1)] >= dep[i],
    decreases fuel1 + fuel2,
{
    if rep[i] != i {
        assert(dep[rep[i] as int] > dep[i]);
        assert(dep[rep[i] as int] <= rep.len());
        lemma_root_of_n2(rep, dep, rep[i] as int, (fuel1 - 1) as nat, (fuel2 - 1) as nat);
    }
}

/// The representative of `i` is a valid index, is its own representative,
/// and carries a rank at least `i`'s.
proof fn lemma_root_of_props(rep: Seq<usize>, dep: Seq<usize>, i: int)
    requires
        uf_wf(rep, dep),
        0 <= i < rep.len(),
    ensures
        0 <= root_of(rep, i) < rep.len(),
        is_root(rep, root_of(rep, i)),
        is_root(rep, i) ==> root_of(rep, i) == i,
        dep[root_of(rep, i)] >= dep[i],
{
    lemma_root_of_n2(rep, dep, i, rep.len(), rep.len());
}

/// One chain step does not change the representative.
proof fn lemma_root_of_step(rep: Seq<usize>, dep: Seq<usize>, i: int)
    requires
        uf_wf(rep, dep),
        0 <= i < rep.len(),
        rep[i] != i,
    ensures
        root_of(rep, i) == root_of(rep, rep[i] as int),
{
    lemma_root_of_n2(rep, dep, rep[i] as int, (rep.len() - 1) as nat, rep.len());
}

/// Pointing `j` directly at its own representative keeps the state sound
/// and leaves every node's representative unchanged.
proof fn lemma_compress_update(rep: Seq<usize>, dep: Seq<usize>, j: int, k: int)
    requires
        uf_wf(rep, dep),
        0 <= j < rep.len(),
        0 <= k < rep.len(),
    ensures
        uf_wf(rep.update(j, root_of(rep, j) as usize), dep),
        roots_set(rep.update(j, root_of(rep, j) as usize)) == roots_set(rep),
        root_of(rep.update(j, root_of(rep, j) as usize), k) == root_of(rep, k),
    decreases rep.len() - dep[k],
{
    let r = root_of(rep, j);
    let rep2 = rep.update(j, r as usize);
    lemma_root_of_props(rep, dep, j);
    assert(roots_set(rep2) =~= roots_set(rep));
    if rep[j] != j {
        lemma_root_of_step(rep, dep, j);
        lemma_root_of_props(rep, dep, rep[j] as int);
        assert(dep[r] >= dep[rep[j] as int]);
        assert(dep[r] > dep[j]);
    }
    assert forall|rr: int|
        0 <= rr < rep2.len() && #[trigger] is_root(rep2, rr) implies dep[rr] + num_roots(rep2)
        <= rep2.len() + 1 by {
        assert(is_root(rep, rr));
    }
    assert(uf_wf(rep2, dep));
    // the representative of k is unchanged
    if k == j {
        if rep[j] == j {
            assert(rep2 =~= rep);
        } else {
            assert(rep2[j] == r);
            if r == j {
                assert(false);
            }
            assert(is_root(rep2, r));
            lemma_root_of_n2(rep2, dep, r, (rep2.len() - 1) as nat, rep2.len());
            assert(root_of(rep2, j) == r);
        }
    } else {
        if rep[k] == k {
            assert(root_of(rep2, k) == k && root_of(rep, k) == k);
        } else {
            lemma_compress_update(rep, dep, j, rep[k] as int);
            lemma_root_of_step(rep, dep, k);
            lemma_root_of_step(rep2, dep, k);
        }
    }
}

/// Attaching root `a` beneath root `b` when `b`'s rank is already strictly
/// larger keeps the state sound with ranks unchanged.
proof fn lemma_union_wf_unequal(rep: Seq<usize>, dep: Seq<usize>, a: int, b: int)
    requires
        uf_wf(rep, dep),
        0 <= a < rep.len(),
        0 <= b < rep.len(),
        a != b,
        is_root(rep, a),
        is_root(rep, b),
        dep[b] > dep[a],
    ensures
        uf_wf(rep.update(a, b as usize), dep),
        is_root(rep.update(a, b as usize), b),
{
    let rep2 = rep.update(a, b as usize);
    assert(roots_set(rep2) =~= roots_set(rep).remove(a));
    lemma_roots_set_bound(rep);
    assert(num_roots(rep2) == num_roots(rep) - 1);
    assert forall|r: int|
        0 <= r < rep2.len() && #[trigger] is_root(rep2, r) implies dep[r] + num_roots(rep2)
        <= rep2.len() + 1 by {
        assert(is_root(rep, r));
    }
    assert(uf_wf(rep2, dep));
}

/// Two distinct representatives make the representative count at least two.
proof fn lemma_two_roots(rep: Seq<usize>, r1: int, r2: int)
    requires
        0 <= r1 < rep.len(),
        0 <= r2 < rep.len(),
        r1 != r2,
        is_root(rep, r1),
        is_root(rep, r2),
    ensures
        num_roots(rep) >= 2,
{
    lemma_roots_set_bound(rep);
    let pair = Set::<int>::empty().insert(r1).insert(r2);
    assert(pair.subset_of(roots_set(rep)));
    vstd::set_lib::lemma_len_subset(pair, roots_set(rep));
    assert(pair.len() == 2) by {
        assert(Set::<int>::empty().insert(r1).contains(r1));
    }
}

/// Attaching root `r1` beneath root `r2` of equal rank, incrementing
/// `r2`'s rank, keeps the state sound; the increment cannot overflow
/// because two components still exist.
proof fn lemma_union_wf_equal(rep: Seq<usize>, dep: Seq<usize>, r1: int, r2: int)
    requires
        uf_wf(rep, dep),
        0 <= r1 < rep.len(),
        0 <= r2 < rep.len(),
        r1 != r2,
        is_root(rep, r1),
        is_root(rep, r2),
        dep[r1] == dep[r2],
    ensures
        dep[r2] + 1 <= rep.len(),
        uf_wf(rep.update(r1, r2 as usize), dep.update(r2, (dep[r2] + 1) as usize)),
        is_root(rep.update(r1, r2 as usize), r2),
{
    lemma_two_roots(rep, r1, r2);
    assert(dep[r2] + num_roots(rep) <= rep.len() + 1);
    assert(dep[r2] + 1 <= rep.len());
    let rep2 = rep.update(r1, r2 as usize);
    let dep2 = dep.update(r2, (dep[r2] + 1) as usize);
    assert(roots_set(rep2) =~= roots_set(rep).remove(r1));
    lemma_roots_set_bound(rep);
    assert(num_roots(rep2) == num_roots(rep) - 1);
    assert forall|i: int|
        0 <= i < rep2.len() && rep2[i] != i implies dep2[(#[trigger] rep2[i]) as int]
        > dep2[i] by {
        assert(i != r2);
        if i == r1 {
            assert(rep2[i] == r2);
        } else {
            assert(rep2[i] == rep[i]);
            if rep[i] == r2 {
                assert(dep2[r2] == dep[r2] + 1);
            }
        }
    }
    assert forall|r: int|
        0 <= r < rep2.len() && #[trigger] is_root(rep2, r) implies dep2[r] + num_roots(rep2)
        <= rep2.len() + 1 by {
        assert(is_root(rep, r));
    }
    assert(uf_wf(rep2, dep2));
}

/// After attaching root `a` beneath `b`, the nodes whose representative was
/// `a` answer to `b`; every other node keeps its representative. The ranks
/// `dep` and `dep2` describe the state before and after the attachment.
proof fn lemma_attach_preserves(
    rep: Seq<usize>,
    dep: Seq<usize>,
    dep2: Seq<usize>,
    a: int,
    b: int,
    k: int,
)
    requires
        uf_wf(rep, dep),
        uf_wf(rep.update(a, b as usize), dep2),
        0 <= a < rep.len(),
        0 <= b < rep.len(),
        a != b,
        is_root(rep, a),
        is_root(rep, b),
        0 <= k < rep.len(),
    ensures
        root_of(rep.update(a, b as usize), k) == (if root_of(rep, k) == a {
            b
        } else {
            root_of(rep, k)
        }),
    decreases rep.len() - dep[k],
{
    let rep2 = rep.update(a, b as usize);
    if k == a {
        assert(rep2[a] == b);
        assert(is_root(rep2, b));
        lemma_root_of_n2(rep2, dep2, b, (rep2.len() - 1) as nat, rep2.len());
        lemma_root_of_props(rep, dep, a);
    } else if rep[k] == k {
        assert(root_of(rep2, k) == k && root_of(rep, k) == k);
    } else {
        assert(dep[rep[k] as int] > dep[k]);
        lemma_attach_preserves(rep, dep, dep2, a, b, rep[k] as int);
        lemma_root_of_step(rep, dep, k);
        assert(rep2[k] == rep[k]);
        lemma_root_of_step(rep2, dep2, k);
    }
}

/// A disjoint-set (union-find) over node indices, with union by rank and
/// path compression. Scoped to a single spanning-tree invocation.
struct UnionFind {
    rep: Vec<usize>,
    dep: Vec<usize>,
}

impl UnionFind {
    /// The representative pointers.
    pub closed spec fn repv(&self) -> Seq<usize> {
        self.rep@
    }

    /// The rank values.
    pub closed spec fn depv(&self) -> Seq<usize> {
        self.dep@
    }

    /// The structural invariant holds.
    pub closed spec fn wf(&self) -> bool {
        uf_wf(self.repv(), self.depv())
    }

    /// `len` singleton components: every index its own representative, all
    /// ranks one.
    #[verifier::loop_isolation(false)]
    fn new(len: usize) -> (uf: Self)
        ensures
            uf.wf(),
            uf.repv().len() == len,
            uf.depv().len() == len,
            forall|i: int| 0 <= i < len ==> #[trigger] uf.repv()[i] == i,
            forall|i: int| 0 <= i < len ==> #[trigger] uf.depv()[i] == 1,
            num_roots(uf.repv()) == len,
    {
        let mut rep: Vec<usize> = Vec::new();
        let mut dep: Vec<usize> = Vec::new();
        let mut i: usize = 0;
        while i < len
            invariant
                i <= len,
                rep@.len() == i,
                dep@.len() == i,
                forall|k: int| 0 <= k < i ==> #[trigger] rep@[k] == k,
                forall|k: int| 0 <= k < i ==> #[trigger] dep@[k] == 1,
            decreases len - i,
        {
            rep.push(i);
            dep.push(1);
            i = i + 1;
        }
        let uf = Self { rep, dep };
        proof {
            assert(roots_set(uf.repv()) =~= set_int_range(0, len as int));
            vstd::set_lib::lemma_int_range(0, len as int);
            assert(num_roots(uf.repv()) == len);
            assert(uf.wf());
        }
        uf
    }

    /// Whether `i` is its own representative.
    fn is_rep(&self, i: usize) -> (r: bool)
        requires
            i < self.repv().len(),
        ensures
            r == is_root(self.repv(), i as int),
    {
        self.rep[i] == i
    }

    /// The representative of `node_id`'s component, found by chasing
    /// pointers; the state is unchanged.
    #[verifier::loop_isolation(false)]
    fn find_rep(&self, node_id: usize) -> (r: usize)
        requires
            self.wf(),
            node_id < self.repv().len(),
        ensures
            r == root_of(self.repv(), node_id as int),
            is_root(self.repv(), r as int),
            r < self.repv().len(),
    {
        proof {
            lemma_root_of_props(self.repv(), self.depv(), node_id as int);
        }
        let mut r = self.rep[node_id];
        proof {
            if self.rep[node_id as int] != node_id {
                lemma_root_of_step(self.repv(), self.depv(), node_id as int);
            }
        }
        while !self.is_rep(r)
            invariant
                r < self.repv().len(),
                root_of(self.repv(), r as int) == root_of(self.repv(), node_id as int),
            decreases self.repv().len() - self.depv()[r as int],
        {
            proof {
                lemma_root_of_step(self.repv(), self.depv(), r as int);
            }
            r = self.rep[r];
        }
        proof {
            lemma_root_of_props(self.repv(), self.depv(), r as int);
        }
        r
    }

    /// Points every node on the chain from `i` directly at its
    /// representative `r`; no node's representative changes.
    #[verifier::loop_isolation(false)]
    fn compress(&mut self, i: usize, r: usize)
        requires
            old(self).wf(),
            i < old(self).repv().len(),
            r == root_of(old(self).repv(), i as int),
        ensures
            final(self).wf(),
            final(self).repv().len() == old(self).repv().len(),
            final(self).depv() == old(self).depv(),
            roots_set(final(self).repv()) == roots_set(old(self).repv()),
            forall|k: int|
                0 <= k < old(self).repv().len() ==> root_of(final(self).repv(), k) == root_of(
                    old(self).repv(),
                    k,
                ),
    {
        proof {
            lemma_root_of_props(old(self).repv(), old(self).depv(), i as int);
        }
        let mut i = i;
        while i != r
            invariant
                i < self.repv().len(),
                self.wf(),
                self.repv().len() == old(self).repv().len(),
                self.depv() == old(self).depv(),
                r == root_of(self.repv(), i as int),
                is_root(self.repv(), r as int),
                roots_set(self.repv()) == roots_set(old(self).repv()),
                forall|k: int|
                    0 <= k < old(self).repv().len() ==> root_of(self.repv(), k) == root_of(
                        old(self).repv(),
                        k,
                    ),
            decreases self.repv().len() - self.depv()[i as int],
        {
            proof {
                if self.rep@[i as int] == i {
                    lemma_root_of_props(self.repv(), self.depv(), i as int);
                    assert(false);
                }
                lemma_root_of_step(self.repv(), self.depv(), i as int);
            }
            let j = self.rep[i];
            let ghost pre = self.repv();
            self.rep[i] = r;
            proof {
                assert(self.repv() == pre.update(i as int, root_of(pre, i as int) as usize));
                assert forall|k: int| 0 <= k < old(self).repv().len() implies root_of(
                    self.repv(),
                    k,
                ) == root_of(old(self).repv(), k) by {
                    lemma_compress_update(pre, self.depv(), i as int, k);
                }
                lemma_compress_update(pre, self.depv(), i as int, j as int);
            }
            i = j;
        }
    }

    /// Finds `node_id`'s representative and compresses the chain to it; no
    /// node's representative changes.
    fn find_set(&mut self, node_id: usize) -> (r: usize)
        requires
            old(self).wf(),
            node_id < old(self).repv().len(),
        ensures
            final(self).wf(),
            final(self).repv().len() == old(self).repv().len(),
            final(self).depv() == old(self).depv(),
            roots_set(final(self).repv()) == roots_set(old(self).repv()),
            r == root_of(old(self).repv(), node_id as int),
            is_root(final(self).repv(), r as int),
            r < old(self).repv().len(),
            forall|k: int|
                0 <= k < old(self).repv().len() ==> root_of(final(self).repv(), k) == root_of(
                    old(self).repv(),
                    k,
                ),
    {
        let r = self.find_rep(node_id);
        self.compress(node_id, r);
        proof {
            lemma_root_of_props(self.repv(), self.depv(), r as int);
        }
        r
    }

    /// Merges the components of two representatives by rank: the lower-rank
    /// root is attached beneath the higher; on equal rank the second root
    /// survives and its rank grows by one. Returns the surviving
    /// representative.
    fn union_sets(&mut self, r1: usize, r2: usize) -> (r: usize)
        requires
            old(self).wf(),
            r1 < old(self).repv().len(),
            r2 < old(self).repv().len(),
            is_root(old(self).repv(), r1 as int),
            is_root(old(self).repv(), r2 as int),
        ensures
            final(self).wf(),
            final(self).repv().len() == old(self).repv().len(),
            r == (if r1 == r2 || old(self).depv()[r1 as int] > old(self).depv()[r2 as int] {
                r1
            } else {
                r2
            }),
            is_root(final(self).repv(), r as int),
            r1 == r2 ==> *final(self) == *old(self),
            r1 != r2 ==> final(self).repv() == (if old(self).depv()[r1 as int] > old(self).depv()[
                r2 as int
            ] {
                old(self).repv().update(r2 as int, r1)
            } else {
                old(self).repv().update(r1 as int, r2)
            }),
            final(self).depv() == (if r1 != r2 && old(self).depv()[r1 as int] == old(self).depv()[
                r2 as int
            ] {
                old(self).depv().update(r2 as int, (old(self).depv()[r2 as int] + 1) as usize)
            } else {
                old(self).depv()
            }),
            r1 != r2 ==> num_roots(final(self).repv()) == num_roots(old(self).repv()) - 1,
            forall|k: int|
                0 <= k < old(self).repv().len() ==> root_of(final(self).repv(), k) == (if root_of(
                    old(self).repv(),
                    k,
                ) == r1 || root_of(old(self).repv(), k) == r2 {
                    r as int
                } else {
                    root_of(old(self).repv(), k)
                }),
    {
        proof {
            lemma_root_of_props(old(self).repv(), old(self).depv(), r1 as int);
            lemma_root_of_props(old(self).repv(), old(self).depv(), r2 as int);
        }
        if r2 == r1 {
            return r1;
        }
        if self.dep[r1] > self.dep[r2] {
            let ghost pre = self.repv();
            self.rep[r2] = r1;
            proof {
                assert(self.repv() == pre.update(r2 as int, r1 as usize));
                lemma_union_wf_unequal(pre, self.depv(), r2 as int, r1 as int);
                assert(roots_set(self.repv()) =~= roots_set(pre).remove(r2 as int));
                lemma_roots_set_bound(pre);
                assert(num_roots(self.repv()) == num_roots(pre) - 1);
                assert forall|k: int| 0 <= k < pre.len() implies root_of(self.repv(), k) == (
                if root_of(pre, k) == r1 || root_of(pre, k) == r2 {
                    r1 as int
                } else {
                    root_of(pre, k)
                }) by {
                    lemma_attach_preserves(pre, self.depv(), self.depv(), r2 as int, r1 as int, k);
                }
            }
            r1
        } else {
            let ghost pre = self.repv();
            let ghost dpre = self.depv();
            if self.dep[r1] == self.dep[r2] {
                proof {
                    lemma_union_wf_equal(pre, dpre, r1 as int, r2 as int);
                }
                self.dep[r2] = self.dep[r2] + 1;
            }
            self.rep[r1] = r2;
            proof {
                assert(self.repv() == pre.update(r1 as int, r2 as usize));
                if dpre[r1 as int] == dpre[r2 as int] {
                    assert(self.depv() == dpre.update(
                        r2 as int,
                        (dpre[r2 as int] + 1) as usize,
                    ));
                    lemma_union_wf_equal(pre, dpre, r1 as int, r2 as int);
                } else {
                    assert(self.depv() == dpre);
                    lemma_union_wf_unequal(pre, dpre, r1 as int, r2 as int);
                }
                assert(roots_set(self.repv()) =~= roots_set(pre).remove(r1 as int));
                lemma_roots_set_bound(pre);
                assert(num_roots(self.repv()) == num_roots(pre) - 1);
                assert forall|k: int| 0 <= k < pre.len() implies root_of(self.repv(), k) == (
                if root_of(pre, k) == r1 || root_of(pre, k) == r2 {
                    r2 as int
                } else {
                    root_of(pre, k)
                }) by {
                    lemma_attach_preserves(pre, dpre, self.depv(), r1 as int, r2 as int, k);
                }
            }
            r2
        }
    }

    /// Merges the components containing `node_id1` and `node_id2`,
    /// compressing both chains to the surviving representative, which is
    /// returned.
    #[allow(dead_code)]
    fn union(&mut self, node_id1: usize, node_id2: usize) -> (r: usize)
        requires
            old(self).wf(),
            node_id1 < old(self).repv().len(),
            node_id2 < old(self).repv().len(),
        ensures
            final(self).wf(),
            final(self).repv().len() == old(self).repv().len(),
            r == root_of(old(self).repv(), node_id1 as int) || r == root_of(
                old(self).repv(),
                node_id2 as int,
            ),
            root_of(final(self).repv(), node_id1 as int) == r as int,
            root_of(final(self).repv(), node_id2 as int) == r as int,
            forall|k: int|
                0 <= k < old(self).repv().len() ==> root_of(final(self).repv(), k) == (if root_of(
                    old(self).repv(),
                    k,
                ) == root_of(old(self).repv(), node_id1 as int) || root_of(old(self).repv(), k)
                    == root_of(old(self).repv(), node_id2 as int) {
                    r as int
                } else {
                    root_of(old(self).repv(), k)
                }),
    {
        let r1 = self.find_rep(node_id1);
        let r2 = self.find_rep(node_id2);
        let r = self.union_sets(r1, r2);
        self.compress(node_id1, r);
        self.compress(node_id2, r);
        r
    }
}

/// Some listed triple joins `a` and `b`, in either direction: the result
/// edges are read as undirected pairs.
pub open spec fn edge_links<E>(es: Seq<(usize, usize, E)>, a: usize, b: usize) -> bool {
    exists|k: int|
        0 <= k < es.len() && (((#[trigger] es[k]).0 == a && es[k].1 == b) || (es[k].0 == b
            && es[k].1 == a))
}

/// `p` walks from node to node along listed triples (undirected).
pub open spec fn linked_path<E>(es: Seq<(usize, usize, E)>, p: Seq<usize>) -> bool {
    p.len() >= 1 && forall|m: int| 0 <= m < p.len() - 1 ==> edge_links(es, #[trigger] p[m], p[m + 1])
}

/// The listed triples, taken as undirected pairs, connect `a` to `b`.
pub open spec fn forest_connects<E>(es: Seq<(usize, usize, E)>, a: usize, b: usize) -> bool {
    exists|p: Seq<usize>| linked_path(es, p) && p[0] == a && p[p.len() - 1] == b
}

/// Every node is connected to itself.
proof fn lemma_fc_refl<E>(es: Seq<(usize, usize, E)>, a: usize)
    ensures
        forest_connects(es, a, a),
{
    let p = seq![a];
    assert(linked_path(es, p) && p[0] == a && p[p.len() - 1] == a);
}

/// Connectivity is preserved when a triple is appended.
proof fn lemma_fc_push<E>(es: Seq<(usize, usize, E)>, t: (usize, usize, E), a: usize, b: usize)
    requires
        forest_connects(es, a, b),
    ensures
        forest_connects(es.push(t), a, b),
{
    let p = choose|p: Seq<usize>| linked_path(es, p) && p[0] == a && p[p.len() - 1] == b;
    assert forall|m: int| 0 <= m < p.len() - 1 implies edge_links(
        es.push(t),
        #[trigger] p[m],
        p[m + 1],
    ) by {
        let k = choose|k: int|
            0 <= k < es.len() && (((#[trigger] es[k]).0 == p[m] && es[k].1 == p[m + 1]) || (
            es[k].0 == p[m + 1] && es[k].1 == p[m]));
        assert(es.push(t)[k] == es[k]);
    }
    assert(linked_path(es.push(t), p) && p[0] == a && p[p.len() - 1] == b);
}

/// Two connected regions joined by a listed edge are one connected region.
proof fn lemma_fc_join<E>(es: Seq<(usize, usize, E)>, x: usize, a: usize, b: usize, y: usize)
    requires
        forest_connects(es, x, a),
        forest_connects(es, b, y),
        edge_links(es, a, b),
    ensures
        forest_connects(es, x, y),
{
    let p1 = choose|p: Seq<usize>| linked_path(es, p) && p[0] == x && p[p.len() - 1] == a;
    let p2 = choose|p: Seq<usize>| linked_path(es, p) && p[0] == b && p[p.len() - 1] == y;
    let q = p1 + p2;
    assert forall|m: int| 0 <= m < q.len() - 1 implies edge_links(es, #[trigger] q[m], q[m + 1]) by {
        if m < p1.len() - 1 {
            assert(q[m] == p1[m] && q[m + 1] == p1[m + 1]);
            assert(edge_links(es, p1[m], p1[m + 1]));
        } else if m == p1.len() - 1 {
            assert(q[m] == a && q[m + 1] == b);
        } else {
            assert(q[m] == p2[m - p1.len()] && q[m + 1] == p2[m - p1.len() + 1]);
            assert(edge_links(es, p2[m - p1.len()], p2[m - p1.len() + 1]));
        }
    }
    assert(linked_path(es, q) && q[0] == x && q[q.len() - 1] == y);
}

/// Along a linked path, every node shares the first node's representative,
/// provided every listed edge's endpoints already share one.
proof fn lemma_path_roots_equal<E>(
    es: Seq<(usize, usize, E)>,
    rep: Seq<usize>,
    p: Seq<usize>,
    m: int,
)
    requires
        linked_path(es, p),
        p[0] < rep.len(),
        forall|k: int|
            0 <= k < es.len() ==> (#[trigger] es[k]).0 < rep.len() && es[k].1 < rep.len(),
        forall|k: int|
            0 <= k < es.len() ==> root_of(rep, (#[trigger] es[k]).0 as int) == root_of(
                rep,
                es[k].1 as int,
            ),
        0 <= m < p.len(),
    ensures
        p[m] < rep.len(),
        root_of(rep, p[0] as int) == root_of(rep, p[m] as int),
    decreases m,
{
    if m > 0 {
        lemma_path_roots_equal(es, rep, p, m - 1);
        assert(edge_links(es, p[m - 1], p[m]));
        let k = choose|k: int|
            0 <= k < es.len() && (((#[trigger] es[k]).0 == p[m - 1] && es[k].1 == p[m]) || (
            es[k].0 == p[m] && es[k].1 == p[m - 1]));
        assert(root_of(rep, es[k].0 as int) == root_of(rep, es[k].1 as int));
    }
}

/// If every listed edge's endpoints share a representative, connectivity
/// through the listed edges implies a shared representative.
proof fn lemma_fc_roots_equal<E>(
    es: Seq<(usize, usize, E)>,
    rep: Seq<usize>,
    x: usize,
    y: usize,
)
    requires
        x < rep.len(),
        forall|k: int|
            0 <= k < es.len() ==> (#[trigger] es[k]).0 < rep.len() && es[k].1 < rep.len(),
        forall|k: int|
            0 <= k < es.len() ==> root_of(rep, (#[trigger] es[k]).0 as int) == root_of(
                rep,
                es[k].1 as int,
            ),
        forest_connects(es, x, y),
    ensures
        root_of(rep, x as int) == root_of(rep, y as int),
{
    let p = choose|p: Seq<usize>| linked_path(es, p) && p[0] == x && p[p.len() - 1] == y;
    lemma_path_roots_equal(es, rep, p, p.len() - 1);
}

/// Sorts weighted edges ascending by cached weight with a stable
/// first-minimum selection: ties keep their original relative order, as
/// the tie-break the spanning-tree construction relies on.
#[verifier::loop_isolation(false)]
fn sort_by_weight<N: Payload, E: Payload>(
    src: Vec<((usize, usize, E), usize)>,
    Ghost(adjs): Ghost<Seq<Seq<(E, usize)>>>,
    Ghost(keep): Ghost<spec_fn(((usize, usize, E), usize)) -> bool>,
) -> (out: Vec<((usize, usize, E), usize)>)
    requires
        forall|k: int|
            0 <= k < src@.len() ==> Graph::<N, E>::triple_listed(adjs, (#[trigger] src@[k]).0),
        forall|k: int| 0 <= k < src@.len() ==> keep(#[trigger] src@[k]),
    ensures
        out@.len() == src@.len(),
        forall|k: int|
            0 <= k < out@.len() ==> Graph::<N, E>::triple_listed(adjs, (#[trigger] out@[k]).0),
        forall|k: int| 0 <= k < out@.len() ==> keep(#[trigger] out@[k]),
        forall|a: int, b: int| 0 <= a < b < out@.len() ==> out@[a].1 <= out@[b].1,
        out@.to_multiset() == src@.to_multiset(),
{
    broadcast use vstd::seq_lib::group_to_multiset_ensures, vstd::multiset::group_multiset_axioms;

    let ghost orig = src@;
    let mut src = src;
    let mut out: Vec<((usize, usize, E), usize)> = Vec::new();
    let total = src.len();
    proof {
        assert(out@.to_multiset() =~= Multiset::empty());
        assert(out@.to_multiset().add(src@.to_multiset()) =~= orig.to_multiset());
    }
    while src.len() > 0
        invariant
            out@.len() + src@.len() == total,
            forall|k: int|
                0 <= k < src@.len() ==> Graph::<N, E>::triple_listed(adjs, (#[trigger] src@[k]).0),
            forall|k: int|
                0 <= k < out@.len() ==> Graph::<N, E>::triple_listed(adjs, (#[trigger] out@[k]).0),
            forall|k: int| 0 <= k < src@.len() ==> keep(#[trigger] src@[k]),
            forall|k: int| 0 <= k < out@.len() ==> keep(#[trigger] out@[k]),
            forall|a: int, b: int| 0 <= a < b < out@.len() ==> out@[a].1 <= out@[b].1,
            forall|a: int, b: int|
                0 <= a < out@.len() && 0 <= b < src@.len() ==> out@[a].1 <= src@[b].1,
            out@.to_multiset().add(src@.to_multiset()) == orig.to_multiset(),
        decreases src@.len(),
    {
        let mut m: usize = 0;
        let mut j: usize = 1;
        while j < src.len()
            invariant
                m < j <= src@.len(),
                forall|k: int| 0 <= k < j ==> src@[m as int].1 <= (#[trigger] src@[k]).1,
            decreases src@.len() - j,
        {
            if src[j].1 < src[m].1 {
                m = j;
            }
            j = j + 1;
        }
        let ghost pre = src@;
        let ghost outpre = out@;
        let item = src.remove(m);
        proof {
            assert(item == pre[m as int]);
            assert(pre.contains(item));
            assert(src@.to_multiset() == pre.to_multiset().remove(item));
            assert(outpre.push(item).to_multiset() == outpre.to_multiset().insert(item));
            assert(outpre.push(item).to_multiset().add(src@.to_multiset()) =~= outpre.to_multiset(
            ).add(pre.to_multiset()));
            assert forall|k: int|
                0 <= k < src@.len() implies Graph::<N, E>::triple_listed(
                adjs,
                (#[trigger] src@[k]).0,
            ) && keep(src@[k]) by {
                if k < m {
                    assert(src@[k] == pre[k]);
                } else {
                    assert(src@[k] == pre[k + 1]);
                }
            }
            assert forall|a: int, b: int|
                0 <= a < out@.len() + 1 && 0 <= b < src@.len() implies out@.push(item)[a].1
                <= src@[b].1 by {
                let s = if b < m {
                    pre[b]
                } else {
                    pre[b + 1]
                };
                assert(src@[b] == s);
                if a < out@.len() {
                    assert(out@.push(item)[a] == out@[a]);
                } else {
                    assert(out@.push(item)[a] == item);
                }
            }
        }
        out.push(item);
    }
    proof {
        assert(src@.to_multiset() =~= Multiset::empty());
        assert(out@.to_multiset() =~= orig.to_multiset());
    }
    out
}

/// Minimum spanning forest by Kruskal's algorithm: all edges, taken as
/// undirected pairs, are weighed once through `get_weight`, sorted
/// ascending (ties in original edge order), and accepted exactly when
/// their endpoints lie in different components of a disjoint-set over the
/// node indices. Returns the accepted edges as `(from, to, payload)`
/// triples in acceptance order.
///
/// The result holds at most `node_len() - 1` edges; a disconnected graph
/// yields fewer (callers needing connectivity must check the length).
/// Every returned triple is an edge stored in the graph, never a
/// self-loop. The result is a spanning forest: no accepted edge joins two
/// endpoints already connected by the edges accepted before it (the
/// disjoint-set check, which rules out cycles), and the endpoints of every
/// stored edge are connected through the returned triples, taken as
/// undirected pairs.
#[verifier::loop_isolation(false)]
#[verifier::rlimit(100)]
pub fn find_mst<N: Payload, E: Payload, F: Fn(E) -> usize>(
    graph: Graph<N, E>,
    get_weight: F,
) -> (r: Vec<(usize, usize, E)>)
    requires
        graph.wf(),
        forall|e: E| #[trigger] call_requires(get_weight, (e,)),
    ensures
        graph.spec_nodes().len() == 0 ==> r@.len() == 0,
        graph.spec_nodes().len() > 0 ==> r@.len() <= graph.spec_nodes().len() - 1,
        forall|k: int|
            0 <= k < r@.len() ==> Graph::<N, E>::triple_listed(
                graph.spec_adj(),
                #[trigger] r@[k],
            ),
        forall|k: int| 0 <= k < r@.len() ==> (#[trigger] r@[k]).0 != r@[k].1,
        forall|p: int, q: int|
            0 <= p < q < r@.len() ==> !((r@[p].0 == r@[q].0 && r@[p].1 == r@[q].1) || (r@[p].0
                == r@[q].1 && r@[p].1 == r@[q].0)),
        exists|ws: Seq<usize>|
            #![all_triggers]
            {
                &&& ws.len() == r@.len()
                &&& forall|k: int|
                    0 <= k < ws.len() ==> call_ensures(get_weight, (r@[k].2,), ws[k])
                &&& forall|a: int, b: int| 0 <= a < b < ws.len() ==> ws[a] <= ws[b]
            },
        forall|i: int, j: int|
            0 <= i < graph.spec_adj().len() && 0 <= j < graph.spec_adj()[i].len()
                ==> forest_connects(r@, i as usize, (#[trigger] graph.spec_adj()[i][j]).1),
        forall|k: int|
            0 <= k < r@.len() ==> !forest_connects(
                r@.take(k),
                (#[trigger] r@[k]).0,
                r@[k].1,
            ),
{
    let ghost adjs = graph.spec_adj();
    let n = graph.node_len();
    let all = graph.edges();
    proof {
        Graph::<N, E>::lemma_edge_triples_members(adjs);
    }
    let mut weighted: Vec<((usize, usize, E), usize)> = Vec::new();
    let mut i: usize = 0;
    while i < all.len()
        invariant
            i <= all@.len(),
            weighted@.len() == i,
            forall|k: int|
                0 <= k < i ==> Graph::<N, E>::triple_listed(adjs, (#[trigger] weighted@[k]).0),
            forall|k: int|
                0 <= k < i ==> call_ensures(
                    get_weight,
                    ((#[trigger] weighted@[k]).0.2,),
                    weighted@[k].1,
                ),
            forall|k: int| 0 <= k < i ==> (#[trigger] weighted@[k]).0 == all@[k],
        decreases all@.len() - i,
    {
        let w = get_weight(all[i].2.duplicate());
        let trip = (all[i].0, all[i].1, all[i].2.duplicate());
        proof {
            assert(trip == all@[i as int]);
        }
        weighted.push((trip, w));
        i = i + 1;
    }
    let ghost weighed = |p: ((usize, usize, E), usize)| call_ensures(get_weight, (p.0.2,), p.1);
    let ghost wsnap = weighted@;
    let edges = sort_by_weight::<N, E>(weighted, Ghost(adjs), Ghost(weighed));

    let mut result: Vec<(usize, usize, E)> = Vec::new();
    let ghost mut ws: Seq<usize> = Seq::empty();
    if n == 0 {
        proof {
            assert(ws.len() == result@.len() && (forall|k: int|
                0 <= k < ws.len() ==> call_ensures(get_weight, (result@[k].2,), ws[k])) && (forall|
                a: int,
                b: int,
            | 0 <= a < b < ws.len() ==> ws[a] <= ws[b]));
        }
        return result;
    }
    let mut union_find = UnionFind::new(n);
    proof {
        assert forall|x: usize, y: usize|
            x < n && y < n && root_of(union_find.repv(), x as int) == root_of(
                union_find.repv(),
                y as int,
            ) implies forest_connects(result@, x, y) by {
            lemma_root_of_props(union_find.repv(), union_find.depv(), x as int);
            lemma_root_of_props(union_find.repv(), union_find.depv(), y as int);
            assert(x == y);
            lemma_fc_refl(result@, x);
        }
    }
    let mut i: usize = 0;
    while result.len() + 1 < n && i < edges.len()
        invariant
            union_find.wf(),
            union_find.repv().len() == n,
            result@.len() + 1 <= n,
            i <= edges@.len(),
            forall|k: int|
                0 <= k < result@.len() ==> Graph::<N, E>::triple_listed(
                    adjs,
                    #[trigger] result@[k],
                ),
            forall|k: int| 0 <= k < result@.len() ==> (#[trigger] result@[k]).0 != result@[k].1,
            forall|k: int|
                0 <= k < result@.len() ==> (#[trigger] result@[k]).0 < n && result@[k].1 < n,
            forall|k: int|
                0 <= k < result@.len() ==> root_of(union_find.repv(), (#[trigger] result@[k]).0 as int)
                    == root_of(union_find.repv(), result@[k].1 as int),
            forall|p: int, q: int|
                0 <= p < q < result@.len() ==> !((result@[p].0 == result@[q].0 && result@[p].1
                    == result@[q].1) || (result@[p].0 == result@[q].1 && result@[p].1
                    == result@[q].0)),
            ws.len() == result@.len(),
            forall|k: int| 0 <= k < ws.len() ==> call_ensures(get_weight, (result@[k].2,), ws[k]),
            forall|a: int, b: int| 0 <= a < b < ws.len() ==> ws[a] <= ws[b],
            forall|a: int, b: int|
                0 <= a < ws.len() && i <= b < edges@.len() ==> ws[a] <= edges@[b].1,
            num_roots(union_find.repv()) == n - result@.len(),
            forall|k: int|
                0 <= k < i ==> root_of(union_find.repv(), (#[trigger] edges@[k]).0.0 as int)
                    == root_of(union_find.repv(), edges@[k].0.1 as int),
            forall|x: usize, y: usize|
                #![trigger root_of(union_find.repv(), x as int), root_of(union_find.repv(), y as int)]
                x < n && y < n && root_of(union_find.repv(), x as int) == root_of(
                    union_find.repv(),
                    y as int,
                ) ==> forest_connects(result@, x, y),
            forall|k: int|
                0 <= k < result@.len() ==> !forest_connects(
                    result@.take(k),
                    (#[trigger] result@[k]).0,
                    result@[k].1,
                ),
        decreases edges@.len() - i,
    {
        let idx = i;
        i = i + 1;
        let a = edges[idx].0.0;
        let b = edges[idx].0.1;
        proof {
            assert(Graph::<N, E>::triple_listed(adjs, edges@[idx as int].0));
            let t = edges@[idx as int].0;
            let j = choose|j: int| 0 <= j < adjs[t.0 as int].len() && adjs[t.0 as int][j] == (
                t.2,
                t.1,
            );
            assert(adjs[t.0 as int][j].1 < graph.spec_nodes().len());
            assert(a < n && b < n);
        }
        let ghost rep0 = union_find.repv();
        let c1 = union_find.find_set(a);
        let ghost rep1 = union_find.repv();
        let c2 = union_find.find_set(b);
        proof {
            assert(root_of(union_find.repv(), c1 as int) == root_of(rep1, c1 as int));
            lemma_root_of_props(rep1, union_find.depv(), c1 as int);
            assert forall|k: int| 0 <= k < n implies root_of(union_find.repv(), k) == root_of(
                rep0,
                k,
            ) by {
                assert(root_of(rep1, k) == root_of(rep0, k));
            }
            assert(c1 == root_of(union_find.repv(), a as int));
            assert(c2 == root_of(union_find.repv(), b as int));
        }
        if c1 != c2 {
            proof {
                assert(c2 == root_of(rep0, b as int));
                if a == b {
                    assert(c1 == c2);
                }
                assert(root_of(union_find.repv(), c1 as int) == c1 as int);
                lemma_root_of_props(union_find.repv(), union_find.depv(), c1 as int);
                assert(is_root(union_find.repv(), c1 as int));
            }
            let ghost rep2 = union_find.repv();
            proof {
                assert forall|p: int, q: int|
                    0 <= p < q < result@.len() + 1 implies !((result@.push((a, b, edges@[
                    idx as int
                ].0.2))[p].0 == result@.push((a, b, edges@[idx as int].0.2))[q].0 && result@.push(
                    (a, b, edges@[idx as int].0.2),
                )[p].1 == result@.push((a, b, edges@[idx as int].0.2))[q].1) || (result@.push(
                    (a, b, edges@[idx as int].0.2),
                )[p].0 == result@.push((a, b, edges@[idx as int].0.2))[q].1 && result@.push(
                    (a, b, edges@[idx as int].0.2),
                )[p].1 == result@.push((a, b, edges@[idx as int].0.2))[q].0)) by {
                    if q == result@.len() {
                        let ep = result@[p];
                        if (ep.0 == a && ep.1 == b) || (ep.0 == b && ep.1 == a) {
                            assert(root_of(rep2, ep.0 as int) == root_of(rep2, ep.1 as int));
                            assert(root_of(rep2, a as int) != root_of(rep2, b as int));
                        }
                    }
                }
            }
            proof {
                assert(weighed(edges@[idx as int]));
                ws = ws.push(edges@[idx as int].1);
            }
            let ghost res0 = result@;
            result.push((a, b, edges[idx].0.2.duplicate()));
            let ghost pre_union = union_find.repv();
            let _ = union_find.union_sets(c1, c2);
            proof {
                assert(result@ == res0.push((a, b, edges@[idx as int].0.2)));
                assert(edge_links(result@, a, b)) by {
                    assert(result@[res0.len() as int].0 == a && result@[res0.len() as int].1 == b);
                }
                assert forall|k: int|
                    0 <= k < result@.len() implies !forest_connects(
                    result@.take(k),
                    (#[trigger] result@[k]).0,
                    result@[k].1,
                ) by {
                    assert(result@.take(k) =~= res0.take(k));
                    if k < res0.len() {
                        assert(result@[k] == res0[k]);
                    } else {
                        assert(result@.take(k) =~= res0);
                        assert(result@[k] == (a, b, edges@[idx as int].0.2));
                        if forest_connects(res0, a, b) {
                            lemma_fc_roots_equal(res0, pre_union, a, b);
                            assert(root_of(pre_union, a as int) == c1 as int);
                            assert(root_of(pre_union, b as int) == c2 as int);
                            assert(false);
                        }
                    }
                }
                assert forall|k: int|
                    0 <= k < result@.len() implies root_of(
                    union_find.repv(),
                    (#[trigger] result@[k]).0 as int,
                ) == root_of(union_find.repv(), result@[k].1 as int) by {
                    if k < result@.len() - 1 {
                        assert(root_of(pre_union, result@[k].0 as int) == root_of(
                            pre_union,
                            result@[k].1 as int,
                        ));
                    } else {
                        assert(root_of(pre_union, a as int) == c1 as int && root_of(
                            pre_union,
                            b as int,
                        ) == c2 as int);
                    }
                }
                assert forall|k: int|
                    0 <= k < i implies root_of(
                    union_find.repv(),
                    (#[trigger] edges@[k]).0.0 as int,
                ) == root_of(union_find.repv(), edges@[k].0.1 as int) by {
                    assert(Graph::<N, E>::triple_listed(adjs, edges@[k].0));
                    let jj = choose|jj: int|
                        0 <= jj < adjs[edges@[k].0.0 as int].len() && adjs[edges@[k].0.0 as int][jj]
                            == (edges@[k].0.2, edges@[k].0.1);
                    assert(adjs[edges@[k].0.0 as int][jj].1 < n);
                    if k < idx {
                        assert(root_of(pre_union, edges@[k].0.0 as int) == root_of(
                            pre_union,
                            edges@[k].0.1 as int,
                        ));
                    } else {
                        assert(root_of(pre_union, a as int) == c1 as int && root_of(
                            pre_union,
                            b as int,
                        ) == c2 as int);
                    }
                }
                assert forall|x: usize, y: usize|
                    x < n && y < n && root_of(union_find.repv(), x as int) == root_of(
                        union_find.repv(),
                        y as int,
                    ) implies forest_connects(result@, x, y) by {
                    let rx = root_of(pre_union, x as int);
                    let ry = root_of(pre_union, y as int);
                    let nt = (a, b, edges@[idx as int].0.2);
                    assert(root_of(pre_union, a as int) == c1 as int);
                    assert(root_of(pre_union, b as int) == c2 as int);
                    if rx == ry {
                        assert(root_of(rep0, x as int) == root_of(rep0, y as int));
                        assert(forest_connects(res0, x, y));
                        lemma_fc_push(res0, nt, x, y);
                    } else if rx == c1 as int && ry == c2 as int {
                        assert(root_of(rep0, x as int) == root_of(rep0, a as int));
                        assert(forest_connects(res0, x, a));
                        assert(root_of(rep0, b as int) == root_of(rep0, y as int));
                        assert(forest_connects(res0, b, y));
                        lemma_fc_push(res0, nt, x, a);
                        lemma_fc_push(res0, nt, b, y);
                        lemma_fc_join(result@, x, a, b, y);
                    } else {
                        assert(rx == c2 as int && ry == c1 as int);
                        assert(root_of(rep0, x as int) == root_of(rep0, b as int));
                        assert(forest_connects(res0, x, b));
                        assert(root_of(rep0, a as int) == root_of(rep0, y as int));
                        assert(forest_connects(res0, a, y));
                        lemma_fc_push(res0, nt, x, b);
                        lemma_fc_push(res0, nt, a, y);
                        assert(edge_links(result@, b, a)) by {
                            assert(result@[res0.len() as int].0 == a && result@[
                                res0.len() as int
                            ].1 == b);
                        }
                        lemma_fc_join(result@, x, b, a, y);
                    }
                }
            }
        } else {
            proof {
                assert forall|k: int|
                    0 <= k < i implies root_of(
                    union_find.repv(),
                    (#[trigger] edges@[k]).0.0 as int,
                ) == root_of(union_find.repv(), edges@[k].0.1 as int) by {
                    assert(Graph::<N, E>::triple_listed(adjs, edges@[k].0));
                    let jj = choose|jj: int|
                        0 <= jj < adjs[edges@[k].0.0 as int].len() && adjs[edges@[k].0.0 as int][jj]
                            == (edges@[k].0.2, edges@[k].0.1);
                    assert(adjs[edges@[k].0.0 as int][jj].1 < n);
                    if k < idx {
                        assert(root_of(rep0, edges@[k].0.0 as int) == root_of(
                            rep0,
                            edges@[k].0.1 as int,
                        ));
                    }
                }
                assert forall|x: usize, y: usize|
                    x < n && y < n && root_of(union_find.repv(), x as int) == root_of(
                        union_find.repv(),
                        y as int,
                    ) implies forest_connects(result@, x, y) by {
                    assert(root_of(rep0, x as int) == root_of(rep0, y as int));
                }
            }
        }
    }
    proof {
        assert(ws.len() == result@.len() && (forall|k: int|
            0 <= k < ws.len() ==> call_ensures(get_weight, (result@[k].2,), ws[k])) && (forall|
            a: int,
            b: int,
        | 0 <= a < b < ws.len() ==> ws[a] <= ws[b]));
        let repf = union_find.repv();
        broadcast use vstd::seq_lib::group_to_multiset_ensures;

        assert forall|gi: int, gj: int|
            0 <= gi < adjs.len() && 0 <= gj < adjs[gi].len() implies exists|k: int|
            0 <= k < edges@.len() && (#[trigger] edges@[k]).0.0 == gi as usize && edges@[k].0.1 == (
        #[trigger] adjs[gi][gj]).1 by {
            Graph::<N, E>::lemma_edge_triples_complete(adjs, gi, gj);
            let k0 = choose|k0: int|
                0 <= k0 < all@.len() && (#[trigger] all@[k0]) == (
                    gi as usize,
                    adjs[gi][gj].1,
                    adjs[gi][gj].0,
                );
            assert(wsnap[k0].0 == all@[k0]);
            assert(wsnap.contains(wsnap[k0]));
            assert(edges@.to_multiset().contains(wsnap[k0]));
            assert(edges@.contains(wsnap[k0]));
            let k = choose|k: int| 0 <= k < edges@.len() && edges@[k] == wsnap[k0];
            assert(edges@[k].0.0 == gi as usize && edges@[k].0.1 == adjs[gi][gj].1);
        }
        assert forall|gi: int, gj: int|
            0 <= gi < adjs.len() && 0 <= gj < adjs[gi].len() implies forest_connects(
            result@,
            gi as usize,
            (#[trigger] adjs[gi][gj]).1,
        ) by {
            let x = gi as usize;
            let y = adjs[gi][gj].1;
            assert(y < n);
            if i < edges@.len() {
                // stopped early with node_len() - 1 accepted edges: one
                // component remains, so every pair is already connected
                assert(result@.len() + 1 == n);
                assert(num_roots(repf) == 1);
                lemma_root_of_props(repf, union_find.depv(), x as int);
                lemma_root_of_props(repf, union_find.depv(), y as int);
                let rx = root_of(repf, x as int);
                let ry = root_of(repf, y as int);
                if rx != ry {
                    lemma_two_roots(repf, rx, ry);
                    assert(false);
                }
            } else {
                // every edge was considered: its endpoints were either
                // joined or already in one component
                let k = choose|k: int|
                    0 <= k < edges@.len() && (#[trigger] edges@[k]).0.0 == x && edges@[k].0.1 == y;
                assert(root_of(repf, edges@[k].0.0 as int) == root_of(repf, edges@[k].0.1 as int));
                assert(root_of(repf, x as int) == root_of(repf, y as int));
            }
        }
    }
    result
}

} // verus!
