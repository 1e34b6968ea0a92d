//! Rerooting dynamic programming over a tree: for every node, the result of a
//! tree fold as if the tree were rooted at that node.
use crate::succint_bit_vector::{lemma_occurrences_at_most_length, occurrences};
use vstd::prelude::*;

verus! {

/// The algebra combined by a rerooting pass.
pub trait RerootingData {
    type Cost: Copy;

    type Data: Copy;

    /// Value of `merge`.
    spec fn spec_merge(&self, first: Self::Data, second: Self::Data) -> Self::Data;

    /// Value of `apply`.
    spec fn spec_apply(
        &self,
        value: Self::Data,
        index: usize,
        parent: usize,
        cost: Self::Cost,
    ) -> Self::Data;

    /// Value of `e`.
    spec fn spec_e(&self) -> Self::Data;

    /// Value of `leaf`.
    spec fn spec_leaf(&self) -> Self::Data;

    /// Merges two partial results; `e()` is its identity.
    fn merge(&self, first: Self::Data, second: Self::Data) -> (r: Self::Data)
        ensures
            r == self.spec_merge(first, second),
    ;

    /// Uses the result of the subtree at `index` to update it as seen from
    /// `parent`, across an edge of the given cost.
    fn apply(&self, value: Self::Data, index: usize, parent: usize, cost: Self::Cost) -> (r:
        Self::Data)
        ensures
            r == self.spec_apply(value, index, parent, cost),
    ;

    /// Identity element of `merge`.
    fn e(&self) -> (r: Self::Data)
        ensures
            r == self.spec_e(),
    ;

    /// Result of a node without children.
    fn leaf(&self) -> (r: Self::Data)
        ensures
            r == self.spec_leaf(),
    ;
}

/// Relies on num_traits::One::one for the cost of an unweighted edge.
#[verifier::external_body]
fn unit_cost<C: num_traits::One>() -> C {
    C::one()
}

/// Every neighbour named in the adjacency lists is a node of the graph.
pub open spec fn edges_in_range<C>(edges: Seq<Seq<(usize, C)>>) -> bool {
    forall|i: int, k: int|
        0 <= i < edges.len() && 0 <= k < edges[i].len() ==> #[trigger] edges[i][k].0 < edges.len()
}

/// Merge, from `e` and left to right, of the first `k` values of `s`.
pub open spec fn fold_seq<T: RerootingData>(alg: T, s: Seq<T::Data>, k: int) -> T::Data
    decreases k,
{
    if k <= 0 {
        alg.spec_e()
    } else {
        alg.spec_merge(fold_seq(alg, s, k - 1), s[k - 1])
    }
}

/// What each neighbour of `u` contributes to `u`, in adjacency order: its
/// value carried across the edge.
pub open spec fn contributions<T: RerootingData>(
    alg: T,
    edges: Seq<Seq<(usize, T::Cost)>>,
    vals: Seq<T::Data>,
    u: int,
) -> Seq<T::Data> {
    Seq::new(
        edges[u].len(),
        |j: int| alg.spec_apply(vals[edges[u][j].0 as int], edges[u][j].0, u as usize, edges[u][j].1),
    )
}

/// The answer for `u` when the tree is rooted at `u`: the merge of what all
/// its neighbours contribute.
pub open spec fn rerooted<T: RerootingData>(
    alg: T,
    edges: Seq<Seq<(usize, T::Cost)>>,
    vals: Seq<T::Data>,
    u: int,
) -> T::Data {
    fold_seq(alg, contributions(alg, edges, vals, u), edges[u].len() as int)
}

/// Merge, from `e` and in adjacency order, of what the first `k` neighbours
/// of `u` contribute, counting only neighbours placed after `u` by `pos`.
pub open spec fn fold_later<T: RerootingData>(
    alg: T,
    edges: Seq<Seq<(usize, T::Cost)>>,
    pos: Seq<usize>,
    vals: Seq<T::Data>,
    u: int,
    k: int,
) -> T::Data
    decreases k,
{
    if k <= 0 {
        alg.spec_e()
    } else {
        let acc = fold_later(alg, edges, pos, vals, u, k - 1);
        let c = edges[u][k - 1].0;
        if pos[c as int] > pos[u] {
            alg.spec_merge(acc, alg.spec_apply(vals[c as int], c, u as usize, edges[u][k - 1].1))
        } else {
            acc
        }
    }
}

/// One of the first `k` neighbours of `u` is placed after `u` by `pos`.
pub open spec fn has_later<C>(edges: Seq<Seq<(usize, C)>>, pos: Seq<usize>, u: int, k: int) -> bool {
    exists|j: int| 0 <= j < k && #[trigger] pos[edges[u][j].0 as int] > pos[u]
}

/// The value of the subtree at `u` in terms of the values of its children,
/// the neighbours placed after `u`: `leaf()` without children.
pub open spec fn subtree_step<T: RerootingData>(
    alg: T,
    edges: Seq<Seq<(usize, T::Cost)>>,
    pos: Seq<usize>,
    vals: Seq<T::Data>,
    u: int,
) -> T::Data {
    if has_later(edges, pos, u, edges[u].len() as int) {
        fold_later(alg, edges, pos, vals, u, edges[u].len() as int)
    } else {
        alg.spec_leaf()
    }
}

/// `pos` numbers the nodes reached from `start`, `start` first, each once;
/// every other reached node is a neighbour of one numbered before it; the
/// neighbours of reached nodes are reached; nodes not reached get the number
/// of nodes.
pub open spec fn is_rooting<C>(edges: Seq<Seq<(usize, C)>>, start: int, pos: Seq<usize>) -> bool {
    &&& pos.len() == edges.len()
    &&& pos[start] == 0
    &&& forall|v: int| 0 <= v < edges.len() ==> #[trigger] pos[v] <= edges.len()
    &&& forall|u: int, v: int|
        0 <= u < edges.len() && 0 <= v < edges.len() && pos[u] < edges.len() && #[trigger] pos[u]
            == #[trigger] pos[v] ==> u == v
    &&& forall|u: int, j: int|
        0 <= u < edges.len() && pos[u] < edges.len() && 0 <= j < edges[u].len() ==> #[trigger] pos[
        edges[u][j].0 as int] < edges.len()
    &&& forall|v: int|
        0 <= v < edges.len() && #[trigger] pos[v] < edges.len() && v != start ==> exists|u: int, j: int|
            0 <= u < edges.len() && 0 <= j < edges[u].len() && pos[u] < pos[v] && #[trigger] edges[u][j].0
                == v
}

/// Changing the value of a node placed no later than `u` leaves the fold over
/// the later neighbours of `u` as it is.
proof fn lemma_fold_later_frame<T: RerootingData>(
    alg: T,
    edges: Seq<Seq<(usize, T::Cost)>>,
    pos: Seq<usize>,
    vals: Seq<T::Data>,
    u: int,
    k: int,
    x: int,
    val: T::Data,
)
    requires
        edges_in_range(edges),
        0 <= u < edges.len(),
        0 <= k <= edges[u].len(),
        0 <= x < vals.len(),
        vals.len() == edges.len(),
        pos.len() == edges.len(),
        pos[x] <= pos[u],
    ensures
        fold_later(alg, edges, pos, vals.update(x, val), u, k) == fold_later(alg, edges, pos, vals, u, k),
    decreases k,
{
    if k > 0 {
        lemma_fold_later_frame(alg, edges, pos, vals, u, k - 1, x, val);
        assert(edges[u][k - 1].0 < edges.len());
    }
}

/// Marking one unmarked position adds one to every count of marks that
/// covers it.
proof fn lemma_mark_one(s: Seq<bool>, p: int, i: int)
    requires
        0 <= p < s.len(),
        !s[p],
        0 <= i <= s.len(),
    ensures
        occurrences(s.update(p, true), true, i) == occurrences(s, true, i) + if p < i {
            1int
        } else {
            0int
        },
    decreases i,
{
    if i > 0 {
        lemma_mark_one(s, p, i - 1);
    }
}

/// A sequence without marks counts none.
proof fn lemma_no_marks(s: Seq<bool>, i: int)
    requires
        0 <= i <= s.len(),
        forall|j: int| 0 <= j < i ==> !s[j],
    ensures
        occurrences(s, true, i) == 0,
    decreases i,
{
    if i > 0 {
        lemma_no_marks(s, i - 1);
    }
}

/// A vector of `len` copies of `x`.
fn filled<D: Copy>(x: D, len: usize) -> (r: Vec<D>)
    ensures
        r@.len() == len,
        forall|i: int| 0 <= i < len ==> #[trigger] r@[i] == x,
{
    let mut r: Vec<D> = Vec::new();
    let mut i: usize = 0;
    while i < len
        invariant
            i <= len,
            r@.len() == i,
            forall|j: int| 0 <= j < i ==> #[trigger] r@[j] == x,
        decreases len - i,
    {
        r.push(x);
        i += 1;
    }
    r
}

/// A tree given by adjacency lists with edge costs, and the algebra folded
/// over it.
pub struct Rerooting<T: RerootingData> {
    n: usize,
    g: Vec<Vec<(usize, T::Cost)>>,
    memo: Vec<T::Data>,
    ans: Vec<T::Data>,
    d: T,
}

impl<T: RerootingData> Rerooting<T> {
    /// The adjacency lists, each entry a neighbour and the cost of the edge.
    pub closed spec fn edges(&self) -> Seq<Seq<(usize, T::Cost)>> {
        self.g@.map_values(|v: Vec<(usize, T::Cost)>| v@)
    }

    /// The algebra folded over the tree.
    pub closed spec fn algebra(&self) -> T {
        self.d
    }

    /// For every node, the fold of its subtree in the last rooting.
    pub closed spec fn subtree_values(&self) -> Seq<T::Data> {
        self.memo@
    }

    /// For every node, its answer in the last run.
    pub closed spec fn answers(&self) -> Seq<T::Data> {
        self.ans@
    }

    /// The working tables have one entry per node.
    pub closed spec fn wf(&self) -> bool {
        &&& self.g@.len() == self.n
        &&& self.memo@.len() == self.n
        &&& self.ans@.len() == self.n
    }

    /// Builds the tree from unweighted adjacency lists: every edge gets the
    /// unit cost.
    pub fn new_from_graph(g: Vec<Vec<usize>>, d: T) -> (r: Self)
        where
            T::Cost: num_traits::One,
        ensures
            r.wf(),
            r.algebra() == d,
            forall|i: int| 0 <= i < g@.len() ==> #[trigger] r.answers()[i] == d.spec_e(),
            forall|i: int| 0 <= i < g@.len() ==> #[trigger] r.subtree_values()[i] == d.spec_e(),
            r.edges().len() == g@.len(),
            forall|i: int| 0 <= i < g@.len() ==> #[trigger] r.edges()[i].len() == g@[i]@.len(),
            forall|i: int, k: int|
                0 <= i < g@.len() && 0 <= k < g@[i]@.len() ==> #[trigger] r.edges()[i][k].0
                    == g@[i]@[k],
    {
        let n = g.len();
        let mut g2: Vec<Vec<(usize, T::Cost)>> = Vec::new();
        let mut i: usize = 0;
        while i < n
            invariant
                n == g@.len(),
                i <= n,
                g2@.len() == i,
                forall|j: int| 0 <= j < i ==> #[trigger] g2@[j]@.len() == g@[j]@.len(),
                forall|j: int, k: int|
                    0 <= j < i && 0 <= k < g@[j]@.len() ==> #[trigger] g2@[j]@[k].0 == g@[j]@[k],
            decreases n - i,
        {
            let mut row: Vec<(usize, T::Cost)> = Vec::new();
            let mut k: usize = 0;
            while k < g[i].len()
                invariant
                    n == g@.len(),
                    i < n,
                    k <= g@[i as int]@.len(),
                    row@.len() == k,
                    forall|m: int| 0 <= m < k ==> #[trigger] row@[m].0 == g@[i as int]@[m],
                decreases g@[i as int]@.len() - k,
            {
                row.push((g[i][k], unit_cost::<T::Cost>()));
                k += 1;
            }
            g2.push(row);
            i += 1;
        }
        let empty = d.e();
        let r = Rerooting { n, g: g2, memo: filled(empty, n), ans: filled(empty, n), d };
        assert(r.edges().len() == g@.len());
        r
    }

    /// Builds the tree from adjacency lists that carry edge costs.
    pub fn new_from_graph_with_cost(g: Vec<Vec<(usize, T::Cost)>>, d: T) -> (r: Self)
        ensures
            r.wf(),
            r.algebra() == d,
            forall|i: int| 0 <= i < g@.len() ==> #[trigger] r.answers()[i] == d.spec_e(),
            forall|i: int| 0 <= i < g@.len() ==> #[trigger] r.subtree_values()[i] == d.spec_e(),
            r.edges() == g@.map_values(|v: Vec<(usize, T::Cost)>| v@),
    {
        let n = g.len();
        let empty = d.e();
        Rerooting { n, g, memo: filled(empty, n), ans: filled(empty, n), d }
    }
    /// The nodes reachable from `start` in breadth-first order, each once,
    /// and for each node its place in that order (`n` for nodes not reached).
    fn visit_order(&self, start: usize) -> (r: (Vec<usize>, Vec<usize>))
        requires
            self.wf(),
            edges_in_range(self.edges()),
            start < self.n,
        ensures
            is_rooting(self.edges(), start as int, r.1@),
            r.0@.len() <= self.n,
            forall|k: int| 0 <= k < r.0@.len() ==> #[trigger] r.0@[k] < self.n,
            forall|k: int| 0 <= k < r.0@.len() ==> #[trigger] r.1@[r.0@[k] as int] == k,
            forall|v: int| 0 <= v < self.n && r.1@[v] < self.n ==> r.1@[v] < r.0@.len(),
            forall|v: int|
                0 <= v < self.n && r.1@[v] < self.n ==> r.0@[#[trigger] r.1@[v] as int] == v,
            r.0@.len() > 0,
            r.0@[0] == start,
    {
        let ghost edges = self.edges();
        let n = self.n;
        let mut visited: Vec<bool> = Vec::new();
        let mut pos: Vec<usize> = Vec::new();
        let mut i: usize = 0;
        while i < n
            invariant
                i <= n,
                visited@.len() == i,
                pos@.len() == i,
                forall|j: int| 0 <= j < i ==> !#[trigger] visited@[j],
                forall|j: int| 0 <= j < i ==> #[trigger] pos@[j] == n,
            decreases n - i,
        {
            visited.push(false);
            pos.push(n);
            i += 1;
        }
        proof {
            lemma_no_marks(visited@, n as int);
            lemma_mark_one(visited@, start as int, n as int);
        }
        visited.set(start, true);
        pos.set(start, 0);
        let mut order: Vec<usize> = Vec::new();
        order.push(start);
        assert forall|v: int| 0 <= v < n implies #[trigger] pos@[v] == if v == start {
            0
        } else {
            n
        } by {}
        let mut head: usize = 0;
        while head < order.len()
            invariant
                self.wf(),
                edges == self.edges(),
                edges_in_range(edges),
                n == self.n,
                start < n,
                visited@.len() == n,
                pos@.len() == n,
                order@.len() == occurrences(visited@, true, n as int),
                head <= order@.len(),
                order@.len() > 0,
                order@[0] == start,
                forall|k: int| 0 <= k < order@.len() ==> #[trigger] order@[k] < n,
                forall|k: int| 0 <= k < order@.len() ==> #[trigger] pos@[order@[k] as int] == k,
                forall|v: int| 0 <= v < n ==> (#[trigger] visited@[v] <==> pos@[v] < n),
                forall|v: int| 0 <= v < n ==> #[trigger] pos@[v] <= n,
                forall|v: int| 0 <= v < n && pos@[v] < n ==> #[trigger] pos@[v] < order@.len(),
                forall|v: int|
                    0 <= v < n && pos@[v] < n ==> order@[#[trigger] pos@[v] as int] == v,
                forall|k: int, j: int|
                    0 <= k < head && 0 <= j < edges[order@[k] as int].len() ==> #[trigger] pos@[
                    edges[order@[k] as int][j].0 as int] < n,
                forall|v: int|
                    0 <= v < n && #[trigger] pos@[v] < n && v != start ==> exists|u: int, j: int|
                        0 <= u < n && 0 <= j < edges[u].len() && pos@[u] < pos@[v]
                            && #[trigger] edges[u][j].0 == v,
            decreases n - head,
        {
            proof {
                lemma_occurrences_at_most_length(visited@, true, n as int);
            }
            let current = order[head];
            let degree = self.g[current].len();
            let mut k: usize = 0;
            while k < degree
                invariant
                    self.wf(),
                    edges == self.edges(),
                    edges_in_range(edges),
                    n == self.n,
                    start < n,
                    current < n,
                    current == order@[head as int],
                    degree == edges[current as int].len(),
                    k <= degree,
                    visited@.len() == n,
                    pos@.len() == n,
                    order@.len() == occurrences(visited@, true, n as int),
                    head < order@.len(),
                    order@[0] == start,
                    forall|m: int| 0 <= m < order@.len() ==> #[trigger] order@[m] < n,
                    forall|m: int| 0 <= m < order@.len() ==> #[trigger] pos@[order@[m] as int] == m,
                    forall|v: int| 0 <= v < n ==> (#[trigger] visited@[v] <==> pos@[v] < n),
                    forall|v: int| 0 <= v < n ==> #[trigger] pos@[v] <= n,
                    forall|v: int| 0 <= v < n && pos@[v] < n ==> #[trigger] pos@[v] < order@.len(),
                    forall|v: int|
                        0 <= v < n && pos@[v] < n ==> order@[#[trigger] pos@[v] as int] == v,
                    forall|m: int, j: int|
                        0 <= m < head && 0 <= j < edges[order@[m] as int].len() ==> #[trigger] pos@[
                        edges[order@[m] as int][j].0 as int] < n,
                    forall|j: int| 0 <= j < k ==> #[trigger] pos@[edges[current as int][j].0 as int] < n,
                    forall|v: int|
                        0 <= v < n && #[trigger] pos@[v] < n && v != start ==> exists|u: int, j: int|
                            0 <= u < n && 0 <= j < edges[u].len() && pos@[u] < pos@[v]
                                && #[trigger] edges[u][j].0 == v,
                decreases degree - k,
            {
                let next = self.g[current][k].0;
                assert(edges[current as int][k as int].0 == next);
                if !visited[next] {
                    proof {
                        lemma_mark_one(visited@, next as int, n as int);
                        lemma_occurrences_at_most_length(visited@.update(next as int, true), true, n as int);
                    }
                    let ghost old_pos = pos@;
                    let place = order.len();
                    visited.set(next, true);
                    pos.set(next, place);
                    order.push(next);
                    proof {
                        assert forall|v: int|
                            0 <= v < n && #[trigger] pos@[v] < n && v != start implies exists|u: int, j: int|
                            0 <= u < n && 0 <= j < edges[u].len() && pos@[u] < pos@[v]
                                && #[trigger] edges[u][j].0 == v by {
                            if v == next {
                                assert(edges[current as int][k as int].0 == v);
                                assert(pos@[current as int] < pos@[v]);
                            } else {
                                assert(old_pos[v] < n);
                                let (u, j) = choose|u: int, j: int|
                                    0 <= u < n && 0 <= j < edges[u].len() && old_pos[u] < old_pos[v]
                                        && #[trigger] edges[u][j].0 == v;
                                assert(pos@[u] < pos@[v]);
                            }
                        }
                    }
                }
                k += 1;
            }
            head += 1;
        }
        proof {
            lemma_occurrences_at_most_length(visited@, true, n as int);
        }
        (order, pos)
    }

    /// Folds every subtree bottom-up: nodes are taken in reverse visiting
    /// order, so each child, a neighbour placed later, is done before its
    /// parent.
    fn upward_pass(&mut self, order: &Vec<usize>, pos: &Vec<usize>)
        requires
            old(self).wf(),
            edges_in_range(old(self).edges()),
            pos@.len() == old(self).n,
            forall|k: int| 0 <= k < order@.len() ==> #[trigger] order@[k] < old(self).n,
            forall|k: int| 0 <= k < order@.len() ==> #[trigger] pos@[order@[k] as int] == k,
        ensures
            final(self).wf(),
            final(self).n == old(self).n,
            final(self).edges() == old(self).edges(),
            final(self).algebra() == old(self).algebra(),
            final(self).answers() == old(self).answers(),
            forall|k: int|
                0 <= k < order@.len() ==> final(self).subtree_values()[#[trigger] order@[k] as int]
                    == subtree_step(
                    old(self).algebra(),
                    old(self).edges(),
                    pos@,
                    final(self).subtree_values(),
                    order@[k] as int,
                ),
            forall|v: int|
                0 <= v < old(self).n && !(0 <= #[trigger] pos@[v] < order@.len())
                    ==> final(self).subtree_values()[v] == old(self).subtree_values()[v],
    {
        let ghost edges = self.edges();
        let ghost alg = self.d;
        let ghost memo0 = self.memo@;
        let ghost ans0 = self.ans@;
        let mut idx = order.len();
        while idx > 0
            invariant
                self.wf(),
                self.edges() == edges,
                self.d == alg,
                self.ans@ == ans0,
                edges_in_range(edges),
                idx <= order@.len(),
                pos@.len() == self.n,
                forall|k: int| 0 <= k < order@.len() ==> #[trigger] order@[k] < self.n,
                forall|k: int| 0 <= k < order@.len() ==> #[trigger] pos@[order@[k] as int] == k,
                forall|k: int|
                    idx <= k < order@.len() ==> self.memo@[#[trigger] order@[k] as int]
                        == subtree_step(alg, edges, pos@, self.memo@, order@[k] as int),
                forall|v: int|
                    0 <= v < self.n && !(idx <= #[trigger] pos@[v] < order@.len())
                        ==> self.memo@[v] == memo0[v],
            decreases idx,
        {
            idx -= 1;
            let current = order[idx];
            let mut upd = false;
            let mut acc = self.d.e();
            let degree = self.g[current].len();
            let mut k: usize = 0;
            while k < degree
                invariant
                    self.wf(),
                    self.edges() == edges,
                    self.d == alg,
                    edges_in_range(edges),
                    current < self.n,
                    pos@.len() == self.n,
                    degree == edges[current as int].len(),
                    k <= degree,
                    acc == fold_later(alg, edges, pos@, self.memo@, current as int, k as int),
                    upd == has_later(edges, pos@, current as int, k as int),
                decreases degree - k,
            {
                let (next, next_cost) = self.g[current][k];
                assert(edges[current as int][k as int].0 == next);
                assert(edges[current as int][k as int].1 == next_cost);
                if pos[next] > pos[current] {
                    upd = true;
                    let carried = self.d.apply(self.memo[next], next, current, next_cost);
                    acc = self.d.merge(acc, carried);
                    assert(pos@[edges[current as int][k as int].0 as int] > pos@[current as int]);
                } else {
                    assert(has_later(edges, pos@, current as int, k + 1) ==> has_later(
                        edges,
                        pos@,
                        current as int,
                        k as int,
                    ));
                }
                k += 1;
            }
            let value = if upd {
                acc
            } else {
                self.d.leaf()
            };
            let ghost before = self.memo@;
            self.memo.set(current, value);
            proof {
                assert forall|m: int|
                    idx <= m < order@.len() implies self.memo@[#[trigger] order@[m] as int]
                    == subtree_step(alg, edges, pos@, self.memo@, order@[m] as int) by {
                    lemma_fold_later_frame(
                        alg,
                        edges,
                        pos@,
                        before,
                        order@[m] as int,
                        edges[order@[m] as int].len() as int,
                        current as int,
                        value,
                    );
                }
            }
        }
    }

    /// Hands every node what the rest of the tree contributes to it, and
    /// records the answer for each node: nodes are taken in visiting order,
    /// so the neighbour a node is reached from, placed earlier, is done first.
    fn downward_pass(&mut self, order: &Vec<usize>, pos: &Vec<usize>)
        requires
            old(self).wf(),
            edges_in_range(old(self).edges()),
            pos@.len() == old(self).n,
            order@.len() > 0,
            forall|k: int| 0 <= k < order@.len() ==> #[trigger] order@[k] < old(self).n,
            forall|k: int| 0 <= k < order@.len() ==> #[trigger] pos@[order@[k] as int] == k,
        ensures
            final(self).wf(),
            final(self).n == old(self).n,
            final(self).edges() == old(self).edges(),
            final(self).algebra() == old(self).algebra(),
            final(self).subtree_values() == old(self).subtree_values(),
            final(self).answers()[order@[0] as int] == rerooted(
                old(self).algebra(),
                old(self).edges(),
                old(self).subtree_values(),
                order@[0] as int,
            ),
            forall|v: int|
                0 <= v < old(self).n && !(0 <= #[trigger] pos@[v] < order@.len())
                    ==> final(self).answers()[v] == old(self).answers()[v],
    {
        let ghost edges = self.edges();
        let ghost alg = self.d;
        let ghost memo0 = self.memo@;
        let ghost ans0 = self.ans@;
        let ghost root = order@[0] as int;
        let empty = self.d.e();
        let mut from_parent = filled(empty, self.n);
        let mut idx: usize = 0;
        while idx < order.len()
            invariant
                self.wf(),
                self.edges() == edges,
                self.d == alg,
                self.memo@ == memo0,
                edges_in_range(edges),
                empty == alg.spec_e(),
                root == order@[0] as int,
                idx <= order@.len(),
                pos@.len() == self.n,
                forall|k: int| 0 <= k < order@.len() ==> #[trigger] order@[k] < self.n,
                forall|k: int| 0 <= k < order@.len() ==> #[trigger] pos@[order@[k] as int] == k,
                from_parent@.len() == self.n,
                idx == 0 ==> from_parent@[root] == empty,
                idx > 0 ==> self.ans@[root] == rerooted(alg, edges, memo0, root),
                ans0.len() == self.n,
                forall|v: int|
                    0 <= v < self.n && !(0 <= #[trigger] pos@[v] < idx) ==> self.ans@[v] == ans0[v],
            decreases order@.len() - idx,
        {
            let current = order[idx];
            let v = from_parent[current];
            let degree = self.g[current].len();
            let mut to_child: Vec<T::Data> = Vec::new();
            let mut k: usize = 0;
            while k < degree
                invariant
                    self.wf(),
                    self.edges() == edges,
                    self.d == alg,
                    self.memo@ == memo0,
                    edges_in_range(edges),
                    current < self.n,
                    pos@.len() == self.n,
                    degree == edges[current as int].len(),
                    k <= degree,
                    to_child@.len() == k,
                    idx == 0 ==> pos@[current as int] == 0,
                    idx == 0 ==> forall|j: int|
                        0 <= j < k ==> #[trigger] to_child@[j] == contributions(
                            alg,
                            edges,
                            memo0,
                            current as int,
                        )[j],
                decreases degree - k,
            {
                let (next, next_cost) = self.g[current][k];
                assert(edges[current as int][k as int].0 == next);
                assert(edges[current as int][k as int].1 == next_cost);
                if pos[next] < pos[current] {
                    to_child.push(v);
                } else {
                    to_child.push(self.d.apply(self.memo[next], next, current, next_cost));
                }
                k += 1;
            }
            // merges of every prefix and every suffix of the children's results
            let mut head: Vec<T::Data> = Vec::new();
            head.push(empty);
            let mut k: usize = 0;
            while k < degree
                invariant
                    self.d == alg,
                    empty == alg.spec_e(),
                    k <= degree,
                    to_child@.len() == degree,
                    head@.len() == k + 1,
                    forall|j: int| 0 <= j <= k ==> #[trigger] head@[j] == fold_seq(alg, to_child@, j),
                decreases degree - k,
            {
                let merged = self.d.merge(head[k], to_child[k]);
                head.push(merged);
                k += 1;
            }
            let mut tail = filled(empty, degree);
            tail.push(empty);
            let mut k: usize = degree;
            while k > 0
                invariant
                    k <= degree,
                    to_child@.len() == degree,
                    tail@.len() == degree + 1,
                decreases k,
            {
                let merged = self.d.merge(tail[k], to_child[k - 1]);
                tail.set(k - 1, merged);
                k -= 1;
            }
            assert(head@[degree as int] == fold_seq(alg, to_child@, degree as int));
            if idx == 0 {
                assert(to_child@ =~= contributions(alg, edges, memo0, current as int));
                assert(current as int == root);
            } else {
                assert(pos@[order@[0] as int] == 0);
                assert(current as int != root);
            }
            self.ans.set(current, head[degree]);
            // every child gets the merge of all results but its own
            let mut k: usize = 0;
            while k < degree
                invariant
                    self.wf(),
                    self.edges() == edges,
                    self.d == alg,
                    self.memo@ == memo0,
                    edges_in_range(edges),
                    current < self.n,
                    pos@.len() == self.n,
                    degree == edges[current as int].len(),
                    k <= degree,
                    head@.len() == degree + 1,
                    tail@.len() == degree + 1,
                    from_parent@.len() == self.n,
                decreases degree - k,
            {
                let (next, next_cost) = self.g[current][k];
                assert(edges[current as int][k as int].0 == next);
                if pos[next] > pos[current] {
                    let next_v = self.d.merge(head[k], tail[k + 1]);
                    from_parent.set(next, self.d.apply(next_v, current, next, next_cost));
                }
                k += 1;
            }
            idx += 1;
        }
    }

    /// The answer for every node, the tree being rerooted at each node in
    /// turn; `start` is the node the traversal begins from.
    ///
    /// The nodes reached from `start` are numbered in visiting order; the
    /// children of a node are its neighbours numbered after it, which on a
    /// tree rooted at `start` are the neighbours other than its parent. The
    /// value of a node's subtree is `leaf()` without children, else the merge,
    /// from `e()` and in adjacency order, of `apply(value of child, child,
    /// node, cost)` over its children. The answer for `start` is that merge
    /// over all its neighbours. Every other reached node gets the merge of
    /// what all its neighbours contribute, the parent's side included; the
    /// contributions after the node's own slot are folded from the right, so
    /// this is the fold rooted at that node only when `merge` is associative
    /// and commutative with identity `e()`. Nodes not reached keep `e()`.
    pub fn run(&mut self, start: usize) -> (r: Vec<T::Data>)
        requires
            old(self).wf(),
            edges_in_range(old(self).edges()),
            start < old(self).edges().len(),
        ensures
            r@.len() == old(self).edges().len(),
            r@ == final(self).answers(),
            final(self).wf(),
            final(self).edges() == old(self).edges(),
            final(self).algebra() == old(self).algebra(),
            r@[start as int] == rerooted(
                old(self).algebra(),
                old(self).edges(),
                final(self).subtree_values(),
                start as int,
            ),
            exists|pos: Seq<usize>|
                {
                    &&& is_rooting(old(self).edges(), start as int, pos)
                    &&& forall|v: int|
                        0 <= v < old(self).edges().len() && #[trigger] pos[v] < old(
                            self,
                        ).edges().len() ==> final(self).subtree_values()[v] == subtree_step(
                            old(self).algebra(),
                            old(self).edges(),
                            pos,
                            final(self).subtree_values(),
                            v,
                        )
                    &&& forall|v: int|
                        0 <= v < old(self).edges().len() && #[trigger] pos[v] == old(
                            self,
                        ).edges().len() ==> final(self).subtree_values()[v]
                            == old(self).algebra().spec_e() && r@[v]
                            == old(self).algebra().spec_e()
                },
    {
        let empty = self.d.e();
        self.memo = filled(empty, self.n);
        self.ans = filled(empty, self.n);
        let ghost filled_memo = self.memo@;
        let ghost filled_ans = self.ans@;
        let (order, pos) = self.visit_order(start);
        self.upward_pass(&order, &pos);
        self.downward_pass(&order, &pos);
        let mut r: Vec<T::Data> = Vec::new();
        let mut i: usize = 0;
        while i < self.n
            invariant
                self.wf(),
                i <= self.n,
                r@.len() == i,
                forall|j: int| 0 <= j < i ==> #[trigger] r@[j] == self.ans@[j],
            decreases self.n - i,
        {
            r.push(self.ans[i]);
            i += 1;
        }
        assert(r@ =~= self.ans@);
        proof {
            let n = self.n as int;
            assert forall|v: int|
                0 <= v < n && #[trigger] pos@[v] < n implies self.subtree_values()[v]
                == subtree_step(self.d, self.edges(), pos@, self.subtree_values(), v) by {
                assert(order@[pos@[v] as int] == v);
            }
            assert forall|v: int|
                0 <= v < n && #[trigger] pos@[v] == n implies self.subtree_values()[v]
                == self.d.spec_e() && r@[v] == self.d.spec_e() by {
                assert(!(0 <= pos@[v] < order@.len()));
                assert(filled_memo[v] == empty);
                assert(filled_ans[v] == empty);
            }
        }
        r
    }
}

} // verus!
