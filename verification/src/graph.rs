//! The graph engine: two arenas of slots (nodes and edges), where every live
//! node owns two intrusive chains of edges, one per direction.  A chain is
//! singly linked through the edges' link fields and terminates back at the
//! owning node, so an edge carries no resolved endpoints; they are recovered
//! by walking a chain to its end.
//!
//! A ghost model (`ChainModel`) records each chain as a sequence of edge
//! indices together with the source and destination of every live edge; the
//! well-formedness predicate `wf` ties the model to the concrete links and is
//! preserved by every operation.

use vstd::prelude::*;

verus! {

/// Handle for a node slot.  Stable: it stays valid until that exact slot is
/// removed, whatever happens to other slots.
#[derive(Clone, Copy, Debug, PartialEq, Eq, Hash, Structural)]
pub struct NodeIndex(pub usize);

/// Handle for an edge slot, stable in the same way.
#[derive(Clone, Copy, Debug, PartialEq, Eq, Hash, Structural)]
pub struct EdgeIndex(pub usize);

/// A link to the next edge of a chain, or to the owning node when the chain
/// terminates here.
pub type NogeIndex = Result<EdgeIndex, NodeIndex>;

/// A pair of per-direction values; direction 0 is outgoing, 1 is incoming.
#[derive(Clone, Copy, Debug, PartialEq, Eq, Structural)]
pub struct Links<T> {
    pub out: T,
    pub inc: T,
}

impl<T: Copy> Links<T> {
    pub open spec fn at(self, d: int) -> T {
        if d == 0 {
            self.out
        } else {
            self.inc
        }
    }

    pub fn get(&self, d: usize) -> (r: T)
        requires
            d < 2,
        ensures
            r == self.at(d as int),
    {
        if d == 0 {
            self.out
        } else {
            self.inc
        }
    }

    pub fn set(&mut self, d: usize, v: T)
        requires
            d < 2,
        ensures
            final(self).at(d as int) == v,
            final(self).at(1 - d as int) == old(self).at(1 - d as int),
    {
        if d == 0 {
            self.out = v;
        } else {
            self.inc = v;
        }
    }
}

/// A node slot's payload and the heads of its two adjacency chains.
pub struct Node<N> {
    pub next: Links<Option<EdgeIndex>>,
    pub data: N,
}

/// An edge slot's payload and its two chain links.
pub struct Edge<E> {
    pub next: Links<NogeIndex>,
    pub data: E,
}

/// Ghost model of the adjacency structure: each live node's two chains as
/// sequences of edge indices, and each live edge's resolved endpoints.
pub ghost struct ChainModel {
    /// Key: (node, direction); value: the edges of that chain, head first.
    pub chains: Map<(NodeIndex, int), Seq<EdgeIndex>>,
    /// Source node of each live edge (owner of its outgoing chain).
    pub srcs: Map<EdgeIndex, NodeIndex>,
    /// Destination node of each live edge (owner of its incoming chain).
    pub dsts: Map<EdgeIndex, NodeIndex>,
}

/// What one live edge looks like from outside: endpoints and payload.
pub ghost struct EdgeInfo<E> {
    pub src: NodeIndex,
    pub dst: NodeIndex,
    pub data: E,
}

/// The graph engine.  Slots are never physically removed: a freed slot turns
/// into a tombstone (`Err`) so that every other handle stays valid.
pub struct Graph<N, E> {
    pub nodes: Vec<Result<Node<N>, ()>>,
    pub edges: Vec<Result<Edge<E>, ()>>,
    pub model: Ghost<ChainModel>,
}

impl<N, E> Graph<N, E> {
    pub open spec fn node_live(self, i: NodeIndex) -> bool {
        i.0 < self.nodes@.len() && self.nodes@[i.0 as int] is Ok
    }

    pub open spec fn node_at(self, i: NodeIndex) -> Node<N> {
        self.nodes@[i.0 as int]->Ok_0
    }

    pub open spec fn edge_live(self, e: EdgeIndex) -> bool {
        e.0 < self.edges@.len() && self.edges@[e.0 as int] is Ok
    }

    pub open spec fn edge_at(self, e: EdgeIndex) -> Edge<E> {
        self.edges@[e.0 as int]->Ok_0
    }

    /// The chain of `n` in direction `d`, head first.
    pub open spec fn chain(self, n: NodeIndex, d: int) -> Seq<EdgeIndex> {
        self.model@.chains[(n, d)]
    }

    /// Source node of a live edge.
    pub open spec fn src(self, e: EdgeIndex) -> NodeIndex {
        self.model@.srcs[e]
    }

    /// Destination node of a live edge.
    pub open spec fn dst(self, e: EdgeIndex) -> NodeIndex {
        self.model@.dsts[e]
    }

    /// The node owning the chain that holds `e` in direction `d`.
    pub open spec fn owner(self, d: int, e: EdgeIndex) -> NodeIndex {
        if d == 0 {
            self.src(e)
        } else {
            self.dst(e)
        }
    }

    /// The other endpoint of `e` as seen from its direction-`d` owner.
    pub open spec fn other(self, d: int, e: EdgeIndex) -> NodeIndex {
        self.owner(1 - d, e)
    }

    /// The modelled chain of a live node matches the concrete links: the
    /// node's head link starts it, every member is a live edge owned by `n`,
    /// each member's link leads to the next, and the last link returns to `n`.
    pub open spec fn chain_ok(self, n: NodeIndex, d: int) -> bool {
        let c = self.chain(n, d);
        &&& self.node_at(n).next.at(d) == (if c.len() == 0 {
            Option::<EdgeIndex>::None
        } else {
            Some(c[0])
        })
        &&& forall|i: int| 0 <= i < c.len() ==> self.edge_live(#[trigger] c[i])
        &&& forall|i: int|
            0 <= i < c.len() ==> (#[trigger] self.edge_at(c[i])).next.at(d) == (if i + 1
                < c.len() {
                Result::<EdgeIndex, NodeIndex>::Ok(c[i + 1])
            } else {
                Result::<EdgeIndex, NodeIndex>::Err(n)
            })
        &&& forall|i: int| 0 <= i < c.len() ==> self.owner(d, #[trigger] c[i]) == n
        &&& c.no_duplicates()
    }

    /// Chain closure and no dangling references: every live node's two chains
    /// are well formed, every live edge has live endpoints and sits in the
    /// chain of its owner for both directions.
    pub open spec fn wf(self) -> bool {
        &&& forall|n: NodeIndex, d: int|
            self.node_live(n) && 0 <= d < 2 ==> #[trigger] self.chain_ok(n, d)
        &&& forall|e: EdgeIndex|
            #[trigger] self.edge_live(e) ==> self.node_live(self.src(e)) && self.node_live(
                self.dst(e),
            )
        &&& forall|e: EdgeIndex, d: int|
            self.edge_live(e) && 0 <= d < 2 ==> #[trigger] self.chain(
                self.owner(d, e),
                d,
            ).contains(e)
    }

    /// Live nodes and their payloads.
    pub open spec fn nodes_view(self) -> Map<NodeIndex, N> {
        Map::new(|i: NodeIndex| self.node_live(i), |i: NodeIndex| self.node_at(i).data)
    }

    /// Live edges with their resolved endpoints and payloads.
    pub open spec fn edges_view(self) -> Map<EdgeIndex, EdgeInfo<E>> {
        Map::new(
            |e: EdgeIndex| self.edge_live(e),
            |e: EdgeIndex| EdgeInfo { src: self.src(e), dst: self.dst(e), data: self.edge_at(e).data },
        )
    }

    /// `r` is the first free node slot: every slot before it is live.
    pub open spec fn is_first_free_node(self, r: NodeIndex) -> bool {
        &&& !self.node_live(r)
        &&& r.0 <= self.nodes@.len()
        &&& forall|j: usize| j < r.0 ==> #[trigger] self.node_live(NodeIndex(j))
    }

    /// `r` is the first free edge slot: every slot before it is live.
    pub open spec fn is_first_free_edge(self, r: EdgeIndex) -> bool {
        &&& !self.edge_live(r)
        &&& r.0 <= self.edges@.len()
        &&& forall|j: usize| j < r.0 ==> #[trigger] self.edge_live(EdgeIndex(j))
    }
}

impl<N, E> Default for Graph<N, E> {
    /// The empty graph: no slots at all.
    fn default() -> (r: Self)
        ensures
            r.wf(),
            r.nodes_view() == Map::<NodeIndex, N>::empty(),
            r.edges_view() == Map::<EdgeIndex, EdgeInfo<E>>::empty(),
            r.nodes@.len() == 0,
            r.edges@.len() == 0,
    {
        let r = Graph {
            nodes: Vec::new(),
            edges: Vec::new(),
            model: Ghost(
                ChainModel {
                    chains: Map::empty(),
                    srcs: Map::empty(),
                    dsts: Map::empty(),
                },
            ),
        };
        proof {
            assert(r.nodes_view() =~= Map::<NodeIndex, N>::empty());
            assert(r.edges_view() =~= Map::<EdgeIndex, EdgeInfo<E>>::empty());
        }
        r
    }
}

impl<N, E> Graph<N, E> {
    /// Index of the first tombstone in the node arena, or its length.
    fn first_free_node(&self) -> (r: usize)
        ensures
            self.is_first_free_node(NodeIndex(r)),
    {
        let mut i: usize = 0;
        while i < self.nodes.len()
            invariant
                i <= self.nodes@.len(),
                forall|j: usize| j < i ==> #[trigger] self.node_live(NodeIndex(j)),
            decreases self.nodes@.len() - i,
        {
            if self.nodes[i].is_err() {
                return i;
            }
            i += 1;
        }
        i
    }

    /// Index of the first tombstone in the edge arena, or its length.
    fn first_free_edge(&self) -> (r: usize)
        ensures
            self.is_first_free_edge(EdgeIndex(r)),
    {
        let mut i: usize = 0;
        while i < self.edges.len()
            invariant
                i <= self.edges@.len(),
                forall|j: usize| j < i ==> #[trigger] self.edge_live(EdgeIndex(j)),
            decreases self.edges@.len() - i,
        {
            if self.edges[i].is_err() {
                return i;
            }
            i += 1;
        }
        i
    }

    /// Mutable access to a live node slot.
    fn node_mut(&mut self, i: NodeIndex) -> (r: &mut Node<N>)
        requires
            old(self).node_live(i),
        ensures
            *r == old(self).node_at(i),
            final(self).nodes@ == old(self).nodes@.update(
                i.0 as int,
                Result::<Node<N>, ()>::Ok(*final(r)),
            ),
            final(self).edges@ == old(self).edges@,
            final(self).model == old(self).model,
    {
        match &mut self.nodes[i.0] {
            Ok(node) => node,
            Err(_) => unreached(),
        }
    }

    /// Mutable access to a live edge slot.
    fn edge_mut(&mut self, e: EdgeIndex) -> (r: &mut Edge<E>)
        requires
            old(self).edge_live(e),
        ensures
            *r == old(self).edge_at(e),
            final(self).edges@ == old(self).edges@.update(
                e.0 as int,
                Result::<Edge<E>, ()>::Ok(*final(r)),
            ),
            final(self).nodes@ == old(self).nodes@,
            final(self).model == old(self).model,
    {
        match &mut self.edges[e.0] {
            Ok(edge) => edge,
            Err(_) => unreached(),
        }
    }

    /// Adds a node holding `node` in the first free slot (reusing a tombstone
    /// if one exists, else growing the arena) and returns its handle, which
    /// is valid until that slot is removed.
    pub fn add_node(&mut self, node: N) -> (r: NodeIndex)
        requires
            old(self).wf(),
        ensures
            final(self).wf(),
            old(self).is_first_free_node(r),
            final(self).node_live(r),
            final(self).nodes_view() == old(self).nodes_view().insert(r, node),
            final(self).edges_view() == old(self).edges_view(),
            final(self).edges@.len() == old(self).edges@.len(),
            forall|n: NodeIndex, d: int|
                old(self).node_live(n) && 0 <= d < 2 ==> final(self).chain(n, d) == old(
                    self,
                ).chain(n, d),
            forall|d: int| 0 <= d < 2 ==> final(self).chain(r, d) == Seq::<EdgeIndex>::empty(),
    {
        let i = self.first_free_node();
        let r = NodeIndex(i);
        let fresh = Ok(Node { data: node, next: Links { out: None, inc: None } });
        if i == self.nodes.len() {
            self.nodes.push(fresh);
        } else {
            self.nodes[i] = fresh;
        }
        proof {
            let m = self.model@;
            self.model@ = ChainModel {
                chains: m.chains.insert((r, 0), Seq::empty()).insert((r, 1), Seq::empty()),
                srcs: m.srcs,
                dsts: m.dsts,
            };
        }
        proof {
            let o = *old(self);
            let s = *self;
            assert forall|n: NodeIndex, d: int| s.node_live(n) && 0 <= d < 2 implies #[trigger] s
                .chain_ok(n, d) by {
                if n == r {
                    assert(s.chain(r, 0) == Seq::<EdgeIndex>::empty());
                    assert(s.chain(r, 1) == Seq::<EdgeIndex>::empty());
                    assert(s.node_at(r).next.at(d) is None);
                    assert(Seq::<EdgeIndex>::empty().no_duplicates());
                } else {
                    assert(o.node_live(n));
                    assert(o.chain_ok(n, d));
                    assert(s.chain(n, d) == o.chain(n, d));
                    assert(s.node_at(n) == o.node_at(n));
                    let c = s.chain(n, d);
                    assert forall|k: int| 0 <= k < c.len() implies (#[trigger] s.edge_at(c[k]))
                        == o.edge_at(c[k]) && s.edge_live(c[k]) && s.owner(d, c[k]) == o.owner(
                        d,
                        c[k],
                    ) by {}
                }
            }
            assert forall|e: EdgeIndex, d: int| s.edge_live(e) && 0 <= d < 2 implies #[trigger] s
                .chain(s.owner(d, e), d).contains(e) by {
                assert(o.edge_live(e));
                assert(o.chain(o.owner(d, e), d).contains(e));
                assert(o.node_live(o.owner(d, e)));
                assert(o.owner(d, e) != r);
                assert(s.chain(s.owner(d, e), d) == o.chain(o.owner(d, e), d));
            }
            assert forall|e: EdgeIndex| #[trigger] s.edge_live(e) implies s.node_live(s.src(e))
                && s.node_live(s.dst(e)) by {
                assert(o.edge_live(e));
            }
            assert(s.nodes_view() =~= o.nodes_view().insert(r, node));
            assert(s.edges_view() =~= o.edges_view());
        }
        r
    }

    /// Adds an edge from `src_idx` to `dst_idx` holding `edge`, linking it at
    /// the head of the source's outgoing chain and the destination's incoming
    /// chain, and returns its handle (first free edge slot).
    pub fn add_edge(&mut self, src_idx: NodeIndex, dst_idx: NodeIndex, edge: E) -> (r: EdgeIndex)
        requires
            old(self).wf(),
            old(self).node_live(src_idx),
            old(self).node_live(dst_idx),
        ensures
            final(self).wf(),
            old(self).is_first_free_edge(r),
            final(self).edge_live(r),
            final(self).src(r) == src_idx,
            final(self).dst(r) == dst_idx,
            final(self).edges_view() == old(self).edges_view().insert(
                r,
                EdgeInfo { src: src_idx, dst: dst_idx, data: edge },
            ),
            final(self).nodes_view() == old(self).nodes_view(),
            final(self).nodes@.len() == old(self).nodes@.len(),
            forall|n: NodeIndex, d: int|
                old(self).node_live(n) && 0 <= d < 2 ==> final(self).chain(n, d) == (if n == (
                if d == 0 {
                    src_idx
                } else {
                    dst_idx
                }) {
                    seq![r] + old(self).chain(n, d)
                } else {
                    old(self).chain(n, d)
                }),
    {
        let i = self.first_free_edge();
        let r = EdgeIndex(i);
        let ghost o = *old(self);
        let n = self.node_mut(src_idx);
        let old_head = n.next.get(0);
        n.next.set(0, Some(r));
        let src_link: NogeIndex = match old_head {
            Some(e2) => Ok(e2),
            None => Err(src_idx),
        };
        let n = self.node_mut(dst_idx);
        let old_head = n.next.get(1);
        n.next.set(1, Some(r));
        let dst_link: NogeIndex = match old_head {
            Some(e2) => Ok(e2),
            None => Err(dst_idx),
        };
        let fresh = Ok(Edge { data: edge, next: Links { out: src_link, inc: dst_link } });
        if i == self.edges.len() {
            self.edges.push(fresh);
        } else {
            self.edges[i] = fresh;
        }
        proof {
            let m = self.model@;
            self.model@ = ChainModel {
                chains: m.chains.insert((src_idx, 0), seq![r] + m.chains[(src_idx, 0)]).insert(
                    (dst_idx, 1),
                    seq![r] + m.chains[(dst_idx, 1)],
                ),
                srcs: m.srcs.insert(r, src_idx),
                dsts: m.dsts.insert(r, dst_idx),
            };
        }
        proof {
            let s = *self;
            // a dead slot sits in no chain of the old graph
            assert forall|n: NodeIndex, d: int|
                o.node_live(n) && 0 <= d < 2 implies !(#[trigger] o.chain(n, d)).contains(r) by {
                if o.chain(n, d).contains(r) {
                    let k = choose|k: int| 0 <= k < o.chain(n, d).len() && o.chain(n, d)[k] == r;
                    assert(o.chain_ok(n, d));
                    assert(o.edge_live(o.chain(n, d)[k]));
                }
            }
            assert forall|n: NodeIndex, d: int| s.node_live(n) && 0 <= d < 2 implies #[trigger] s
                .chain_ok(n, d) by {
                assert(o.node_live(n));
                assert(o.chain_ok(n, d));
                let c = o.chain(n, d);
                let cs = s.chain(n, d);
                assert(!c.contains(r));
                assert forall|k: int| 0 <= k < c.len() implies !(c[k] == r) by {
                    assert(c.contains(c[k]));
                }
                if (n == src_idx && d == 0) || (n == dst_idx && d == 1) {
                    assert(cs == seq![r] + c);
                    assert(cs[0] == r);
                    assert(s.edge_live(r));
                    assert(s.edge_at(r).next.at(d) == (if d == 0 {
                        src_link
                    } else {
                        dst_link
                    }));
                    assert forall|k: int| 1 <= k < cs.len() implies cs[k] == c[k - 1] by {}
                    assert forall|k: int|
                        0 <= k < cs.len() implies s.edge_live(#[trigger] cs[k]) && s.owner(d, cs[k])
                        == n && s.edge_at(cs[k]).next.at(d) == (if k + 1 < cs.len() {
                        Result::<EdgeIndex, NodeIndex>::Ok(cs[k + 1])
                    } else {
                        Result::<EdgeIndex, NodeIndex>::Err(n)
                    }) by {
                        if k >= 1 {
                            assert(cs[k] == c[k - 1]);
                            assert(s.edge_at(c[k - 1]) == o.edge_at(c[k - 1]));
                        }
                    }
                    assert(cs.no_duplicates()) by {
                        assert forall|p: int, q: int|
                            0 <= p < q < cs.len() implies cs[p] != cs[q] by {
                            if p == 0 {
                                assert(cs[q] == c[q - 1]);
                            } else {
                                assert(cs[p] == c[p - 1] && cs[q] == c[q - 1]);
                            }
                        }
                    }
                } else {
                    assert(cs == c);
                    assert(s.node_at(n).next.at(d) == o.node_at(n).next.at(d));
                    assert forall|k: int|
                        0 <= k < c.len() implies s.edge_live(#[trigger] c[k]) && s.owner(d, c[k])
                        == n && s.edge_at(c[k]).next.at(d) == o.edge_at(c[k]).next.at(d) by {
                        assert(c[k] != r);
                    }
                }
            }
            assert forall|e: EdgeIndex| #[trigger] s.edge_live(e) implies s.node_live(s.src(e))
                && s.node_live(s.dst(e)) by {
                if e != r {
                    assert(o.edge_live(e));
                }
            }
            assert forall|e: EdgeIndex, d: int| s.edge_live(e) && 0 <= d < 2 implies #[trigger] s
                .chain(s.owner(d, e), d).contains(e) by {
                if e == r {
                    if d == 0 {
                        assert(s.chain(src_idx, 0)[0] == r);
                    } else {
                        assert(s.chain(dst_idx, 1)[0] == r);
                    }
                } else {
                    assert(o.edge_live(e));
                    assert(o.chain(o.owner(d, e), d).contains(e));
                    let m2 = o.owner(d, e);
                    let k = choose|k: int|
                        0 <= k < o.chain(m2, d).len() && o.chain(m2, d)[k] == e;
                    assert(s.owner(d, e) == m2);
                    if (m2 == src_idx && d == 0) || (m2 == dst_idx && d == 1) {
                        assert(s.chain(m2, d)[k + 1] == e);
                    } else {
                        assert(s.chain(m2, d)[k] == e);
                    }
                }
            }
            assert(s.edges_view() =~= o.edges_view().insert(
                r,
                EdgeInfo { src: src_idx, dst: dst_idx, data: edge },
            ));
            assert(s.nodes_view() =~= o.nodes_view());
        }
        r
    }

    /// One step along a chain: the link stored at an edge, or the first edge
    /// of the chain when standing on the owning node.
    fn next(&self, idx: NogeIndex, dir: usize) -> (r: NogeIndex)
        requires
            dir < 2,
            idx is Ok ==> self.edge_live(idx->Ok_0),
            idx is Err ==> self.node_live(idx->Err_0) && self.chain_ok(idx->Err_0, dir as int)
                && self.chain(idx->Err_0, dir as int).len() > 0,
        ensures
            idx is Ok ==> r == self.edge_at(idx->Ok_0).next.at(dir as int),
            idx is Err ==> r == Result::<EdgeIndex, NodeIndex>::Ok(
                self.chain(idx->Err_0, dir as int)[0],
            ),
    {
        match idx {
            Ok(edge_idx) => match &self.edges[edge_idx.0] {
                Ok(edge) => edge.next.get(dir),
                Err(_) => unreached(),
            },
            Err(node_idx) => match &self.nodes[node_idx.0] {
                Ok(node) => Ok(node.next.get(dir).unwrap()),
                Err(_) => unreached(),
            },
        }
    }

    /// Position `j` of the circular walk around the chain `c` of owner `n`:
    /// the edges of `c` at `0 .. c.len()`, then the owning node itself.
    pub open spec fn ring(c: Seq<EdgeIndex>, n: NodeIndex, j: int) -> NogeIndex {
        if j < c.len() {
            Result::<EdgeIndex, NodeIndex>::Ok(c[j])
        } else if j == c.len() {
            Result::<EdgeIndex, NodeIndex>::Err(n)
        } else {
            Result::<EdgeIndex, NodeIndex>::Ok(c[j - c.len() - 1])
        }
    }

    /// Finds the predecessor of `idx` in its direction-`dir` chain by walking
    /// the chain forward until the link pointing at `idx` is found: the prior
    /// edge, or the owning node when `idx` is the chain's head.  Chains carry
    /// no back links, so this costs one walk of the chain.
    #[verifier::loop_isolation(false)]
    fn prior(&self, idx: EdgeIndex, dir: usize) -> (r: NogeIndex)
        requires
            dir < 2,
            self.edge_live(idx),
            self.node_live(self.owner(dir as int, idx)),
            self.chain_ok(self.owner(dir as int, idx), dir as int),
            self.chain(self.owner(dir as int, idx), dir as int).contains(idx),
        ensures
            ({
                let n = self.owner(dir as int, idx);
                let c = self.chain(n, dir as int);
                let p = c.index_of(idx);
                r == (if p == 0 {
                    Result::<EdgeIndex, NodeIndex>::Err(n)
                } else {
                    Result::<EdgeIndex, NodeIndex>::Ok(c[p - 1])
                })
            }),
    {
        let ghost n = self.owner(dir as int, idx);
        let ghost c = self.chain(n, dir as int);
        let ghost p = c.index_of(idx);
        proof {
            assert(0 <= p < c.len() && c[p] == idx);
            assert(self.edge_at(c[p]).next.at(dir as int) == (if p + 1 < c.len() {
                Result::<EdgeIndex, NodeIndex>::Ok(c[p + 1])
            } else {
                Result::<EdgeIndex, NodeIndex>::Err(n)
            }));
        }
        let mut cur = match &self.edges[idx.0] {
            Ok(edge) => edge.next.get(dir),
            Err(_) => unreached(),
        };
        let ghost mut k: int = 1;
        proof {
            assert(cur == Self::ring(c, n, p + 1));
        }
        loop
            invariant
                1 <= k <= c.len(),
                cur == Self::ring(c, n, p + k),
            decreases c.len() - k,
        {
            proof {
                if cur is Ok {
                    assert(c.contains(cur->Ok_0)) by {
                        if p + k < c.len() {
                            assert(c[p + k] == cur->Ok_0);
                        } else {
                            assert(c[p + k - c.len() - 1] == cur->Ok_0);
                        }
                    }
                }
            }
            let nx = self.next(cur, dir);
            proof {
                // the walk advances one ring position per step
                assert(nx == Self::ring(c, n, p + k + 1)) by {
                    if p + k < c.len() {
                        assert(cur == Result::<EdgeIndex, NodeIndex>::Ok(c[p + k]));
                        assert(self.edge_at(c[p + k]).next.at(dir as int) == (if p + k + 1
                            < c.len() {
                            Result::<EdgeIndex, NodeIndex>::Ok(c[p + k + 1])
                        } else {
                            Result::<EdgeIndex, NodeIndex>::Err(n)
                        }));
                        if p + k + 1 > c.len() {
                            assert(p + k + 1 - c.len() - 1 == 0);
                            assert(p == 0 && p + k == c.len() - 1 && false);
                        }
                    } else if p + k == c.len() {
                        assert(cur == Result::<EdgeIndex, NodeIndex>::Err(n));
                        assert(nx == Result::<EdgeIndex, NodeIndex>::Ok(c[0]));
                        assert(p + k + 1 - c.len() - 1 == 0);
                    } else {
                        let j = p + k - c.len() - 1;
                        assert(0 <= j < p);
                        assert(cur == Result::<EdgeIndex, NodeIndex>::Ok(c[j]));
                        assert(self.edge_at(c[j]).next.at(dir as int)
                            == Result::<EdgeIndex, NodeIndex>::Ok(c[j + 1]));
                        assert(p + k + 1 - c.len() - 1 == j + 1);
                    }
                }
            }
            match nx {
                Ok(e) => {
                    if e == idx {
                        proof {
                            // only the true predecessor links back to `idx`
                            assert(k == c.len()) by {
                                if p + k + 1 < c.len() {
                                    assert(c[p + k + 1] == c[p]);
                                    assert(p + k + 1 != p);
                                    assert(false);
                                } else if p + k + 1 == c.len() {
                                    assert(nx == Result::<EdgeIndex, NodeIndex>::Err(n));
                                    assert(false);
                                } else {
                                    let j = p + k - c.len();
                                    assert(c[j] == c[p]);
                                    if j != p {
                                        assert(false);
                                    }
                                }
                            }
                            if p == 0 {
                                assert(cur == Self::ring(c, n, c.len() as int));
                            } else {
                                assert(p + k - c.len() - 1 == p - 1);
                                assert(cur == Result::<EdgeIndex, NodeIndex>::Ok(c[p - 1]));
                            }
                        }
                        return cur;
                    }
                },
                Err(_) => {},
            }
            proof {
                // not yet at the predecessor, so the walk is not done
                assert(k < c.len()) by {
                    if k == c.len() {
                        assert(p + k + 1 > c.len());
                        assert(p + k + 1 - c.len() - 1 == p);
                        assert(nx == Result::<EdgeIndex, NodeIndex>::Ok(c[p]));
                        assert(false);
                    }
                }
                k = k + 1;
            }
            cur = nx;
        }
    }

    /// Unlinks `idx` from its direction-`dir` chain by rewriting its
    /// predecessor's link to skip it.  Everything else — both arenas, the
    /// other chain of the edge, every other chain — is untouched.
    fn unchain(&mut self, idx: EdgeIndex, dir: usize)
        requires
            dir < 2,
            old(self).edge_live(idx),
            old(self).node_live(old(self).owner(dir as int, idx)),
            old(self).chain_ok(old(self).owner(dir as int, idx), dir as int),
            old(self).chain(old(self).owner(dir as int, idx), dir as int).contains(idx),
        ensures
            ({
                let o = *old(self);
                let s = *final(self);
                let n = o.owner(dir as int, idx);
                let c = o.chain(n, dir as int);
                let p = c.index_of(idx);
                &&& s.model@.chains == o.model@.chains.insert((n, dir as int), c.remove(p))
                &&& s.model@.srcs == o.model@.srcs
                &&& s.model@.dsts == o.model@.dsts
                &&& s.nodes@.len() == o.nodes@.len()
                &&& s.edges@.len() == o.edges@.len()
                &&& forall|m: NodeIndex|
                    m.0 < o.nodes@.len() && m != n ==> s.nodes@[m.0 as int] == o.nodes@[m.0 as int]
                &&& s.node_live(n)
                &&& s.node_at(n).data == o.node_at(n).data
                &&& s.node_at(n).next.at(1 - dir as int) == o.node_at(n).next.at(1 - dir as int)
                &&& s.node_at(n).next.at(dir as int) == (if p == 0 {
                    if c.len() > 1 {
                        Some(c[1])
                    } else {
                        Option::<EdgeIndex>::None
                    }
                } else {
                    o.node_at(n).next.at(dir as int)
                })
                &&& forall|f: EdgeIndex|
                    f.0 < o.edges@.len() && !(p > 0 && f == c[p - 1]) ==> s.edges@[f.0 as int]
                        == o.edges@[f.0 as int]
                &&& p > 0 ==> s.edge_live(c[p - 1]) && s.edge_at(c[p - 1]).data == o.edge_at(
                    c[p - 1],
                ).data && s.edge_at(c[p - 1]).next.at(1 - dir as int) == o.edge_at(
                    c[p - 1],
                ).next.at(1 - dir as int) && s.edge_at(c[p - 1]).next.at(dir as int) == (if p + 1
                    < c.len() {
                    Result::<EdgeIndex, NodeIndex>::Ok(c[p + 1])
                } else {
                    Result::<EdgeIndex, NodeIndex>::Err(n)
                })
            }),
    {
        let ghost o = *old(self);
        let ghost n = o.owner(dir as int, idx);
        let ghost c = o.chain(n, dir as int);
        let ghost p = c.index_of(idx);
        proof {
            assert(0 <= p < c.len() && c[p] == idx);
        }
        proof {
            // the links stored at `idx` and at its predecessor
            assert(o.edge_at(c[p]).next.at(dir as int) == (if p + 1 < c.len() {
                Result::<EdgeIndex, NodeIndex>::Ok(c[p + 1])
            } else {
                Result::<EdgeIndex, NodeIndex>::Err(n)
            }));
            if p > 0 {
                assert(o.edge_live(c[p - 1]));
                assert(o.edge_at(c[p - 1]).next.at(dir as int)
                    == Result::<EdgeIndex, NodeIndex>::Ok(c[p]));
            }
        }
        let pr = self.prior(idx, dir);
        let link = match &self.edges[idx.0] {
            Ok(edge) => edge.next.get(dir),
            Err(_) => unreached(),
        };
        match pr {
            Ok(pe) => {
                proof {
                    assert(pe == c[p - 1]);
                }
                let em = self.edge_mut(pe);
                em.next.set(dir, link);
            },
            Err(pn) => {
                proof {
                    assert(pn == n);
                }
                let target = match link {
                    Ok(e) => Some(e),
                    Err(_) => None,
                };
                let nm = self.node_mut(pn);
                nm.next.set(dir, target);
            },
        }
        proof {
            let m = self.model@;
            self.model@ = ChainModel {
                chains: m.chains.insert((n, dir as int), c.remove(p)),
                srcs: m.srcs,
                dsts: m.dsts,
            };
        }
        proof {
            let s = *self;
            if p == 0 {
                assert(s.node_at(n).next.at(dir as int) == (if c.len() > 1 {
                    Some(c[1])
                } else {
                    Option::<EdgeIndex>::None
                }));
            } else {
                assert(s.edge_at(c[p - 1]).next.at(dir as int) == (if p + 1 < c.len() {
                    Result::<EdgeIndex, NodeIndex>::Ok(c[p + 1])
                } else {
                    Result::<EdgeIndex, NodeIndex>::Err(n)
                }));
            }
        }
    }
}

/// Removing an element of a duplicate-free sequence at its (unique) index is
/// the same as removing it by value; the result is duplicate-free, one
/// shorter, keeps every other element in order and no longer contains it.
pub proof fn lemma_remove_at_index_of<A>(c: Seq<A>, x: A)
    requires
        c.no_duplicates(),
        c.contains(x),
    ensures
        c.remove_value(x) == c.remove(c.index_of(x)),
        0 <= c.index_of(x) < c.len(),
        c[c.index_of(x)] == x,
        c.remove_value(x).len() == c.len() - 1,
        c.remove_value(x).no_duplicates(),
        !c.remove_value(x).contains(x),
        forall|j: int|
            0 <= j < c.index_of(x) ==> #[trigger] c.remove_value(x)[j] == c[j],
        forall|j: int|
            c.index_of(x) <= j < c.len() - 1 ==> #[trigger] c.remove_value(x)[j] == c[j + 1],
{
    let p = c.index_of(x);
    assert(0 <= p < c.len() && c[p] == x);
    c.index_of_first_ensures(x);
    let i = c.index_of_first(x)->Some_0;
    assert(c[i] == x);
    if i != p {
        assert(false);
    }
    c.remove_ensures(p);
    let r = c.remove(p);
    assert forall|a: int, b: int| 0 <= a < b < r.len() implies r[a] != r[b] by {
        let a2: int = if a < p {
            a
        } else {
            a + 1
        };
        let b2: int = if b < p {
            b
        } else {
            b + 1
        };
        assert(r[a] == c[a2] && r[b] == c[b2]);
    }
    assert forall|j: int| 0 <= j < r.len() implies r[j] != x by {
        let j2: int = if j < p {
            j
        } else {
            j + 1
        };
        assert(r[j] == c[j2]);
    }
}

/// A sequence that does not contain a value is unchanged by removing it.
pub proof fn lemma_remove_value_absent<A>(c: Seq<A>, x: A)
    requires
        !c.contains(x),
    ensures
        c.remove_value(x) == c,
{
    c.index_of_first_ensures(x);
}

/// `c` without the elements of `dead`, in order.
pub open spec fn sans<A>(c: Seq<A>, dead: Set<A>) -> Seq<A>
    decreases c.len(),
{
    if c.len() == 0 {
        Seq::empty()
    } else {
        let rest = sans(c.drop_last(), dead);
        if dead.contains(c.last()) {
            rest
        } else {
            rest.push(c.last())
        }
    }
}

/// What `sans` holds: exactly the surviving elements, still duplicate-free.
pub proof fn lemma_sans_contains<A>(c: Seq<A>, dead: Set<A>)
    requires
        c.no_duplicates(),
    ensures
        forall|x: A| sans(c, dead).contains(x) <==> c.contains(x) && !dead.contains(x),
        sans(c, dead).no_duplicates(),
        sans(c, dead).len() <= c.len(),
    decreases c.len(),
{
    if c.len() == 0 {
    } else {
        let head = c.drop_last();
        assert(head.no_duplicates());
        lemma_sans_contains(head, dead);
        assert forall|x: A| c.contains(x) implies x == c.last() || head.contains(x) by {
            let i = choose|i: int| 0 <= i < c.len() && c[i] == x;
            if i < c.len() - 1 {
                assert(head[i] == x);
            }
        }
        assert forall|x: A| head.contains(x) implies c.contains(x) by {
            let i = choose|i: int| 0 <= i < head.len() && head[i] == x;
            assert(c[i] == x);
        }
        assert(c.contains(c.last()));
        if !dead.contains(c.last()) {
            let r = sans(head, dead).push(c.last());
            assert(!head.contains(c.last()));
            assert forall|x: A| r.contains(x) implies c.contains(x) && !dead.contains(x) by {
                let i = choose|i: int| 0 <= i < r.len() && r[i] == x;
                if i < r.len() - 1 {
                    assert(sans(head, dead)[i] == x);
                    assert(sans(head, dead).contains(x));
                }
            }
            assert forall|x: A|
                c.contains(x) && !dead.contains(x) implies r.contains(x) by {
                if x == c.last() {
                    assert(r[r.len() - 1] == x);
                } else {
                    assert(sans(head, dead).contains(x));
                    let i = choose|i: int| 0 <= i < sans(head, dead).len() && sans(head, dead)[i]
                        == x;
                    assert(r[i] == x);
                }
            }
            assert(r.no_duplicates()) by {
                assert forall|a: int, b: int| 0 <= a < b < r.len() implies r[a] != r[b] by {
                    if b < r.len() - 1 {
                        assert(sans(head, dead)[a] == r[a] && sans(head, dead)[b] == r[b]);
                    } else {
                        assert(sans(head, dead)[a] == r[a]);
                        assert(sans(head, dead).contains(r[a]));
                        assert(head.contains(r[a]));
                    }
                }
            }
        } else {
            assert forall|x: A|
                c.contains(x) && !dead.contains(x) implies sans(c, dead).contains(x) by {
                assert(x != c.last());
                assert(head.contains(x));
            }
            assert forall|x: A|
                sans(c, dead).contains(x) implies c.contains(x) && !dead.contains(x) by {
                assert(head.contains(x));
            }
        }
    }
}

/// Removing nothing removes nothing.
pub proof fn lemma_sans_empty<A>(c: Seq<A>)
    ensures
        sans(c, Set::empty()) == c,
    decreases c.len(),
{
    if c.len() == 0 {
        assert(sans(c, Set::<A>::empty()) =~= c);
    } else {
        lemma_sans_empty(c.drop_last());
        assert(sans(c, Set::<A>::empty()) =~= c.drop_last().push(c.last()));
        assert(c.drop_last().push(c.last()) =~= c);
    }
}

/// Removing one more value by itself is one more step of `sans`.
pub proof fn lemma_sans_step<A>(c: Seq<A>, dead: Set<A>, x: A)
    requires
        c.no_duplicates(),
        !dead.contains(x),
    ensures
        sans(c, dead).remove_value(x) == sans(c, dead.insert(x)),
    decreases c.len(),
{
    lemma_sans_contains(c, dead);
    lemma_sans_contains(c, dead.insert(x));
    if c.len() == 0 {
        lemma_remove_value_absent(sans(c, dead), x);
    } else {
        let head = c.drop_last();
        let last = c.last();
        assert(head.no_duplicates());
        lemma_sans_step(head, dead, x);
        lemma_sans_contains(head, dead);
        assert forall|y: A| head.contains(y) implies c.contains(y) by {
            let i = choose|i: int| 0 <= i < head.len() && head[i] == y;
            assert(c[i] == y);
        }
        assert(!head.contains(last));
        if dead.contains(last) {
            assert(sans(c, dead) == sans(head, dead));
            assert(sans(c, dead.insert(x)) == sans(head, dead.insert(x)));
        } else if last == x {
            // the last element is the one removed
            assert(sans(c, dead) == sans(head, dead).push(last));
            assert(sans(c, dead.insert(x)) == sans(head, dead.insert(x)));
            assert(!sans(head, dead).contains(x));
            assert(!head.contains(x));
            lemma_sans_same_when_absent(head, dead, x);
            let s = sans(head, dead).push(last);
            assert(s.contains(x)) by {
                assert(s[s.len() - 1] == x);
            }
            s.index_of_first_ensures(x);
            let i = s.index_of_first(x)->Some_0;
            assert(s[i] == x);
            if i < s.len() - 1 {
                assert(sans(head, dead)[i] == x);
                assert(sans(head, dead).contains(x));
                assert(false);
            }
            assert(s.remove_value(x) == s.remove(s.len() - 1));
            assert(s.remove(s.len() - 1) =~= sans(head, dead));
        } else {
            assert(sans(c, dead) == sans(head, dead).push(last));
            assert(sans(c, dead.insert(x)) == sans(head, dead.insert(x)).push(last));
            let s = sans(head, dead);
            let sp = s.push(last);
            if s.contains(x) {
                s.index_of_first_ensures(x);
                sp.index_of_first_ensures(x);
                let i = s.index_of_first(x)->Some_0;
                assert(sp[i] == x);
                let j = sp.index_of_first(x)->Some_0;
                assert(0 <= j <= i);
                if j < s.len() {
                    assert(s[j] == x);
                    assert(j >= i);
                } else {
                    assert(sp[j] == last);
                    assert(false);
                }
                assert(i == j);
                assert(sp.remove_value(x) =~= s.remove_value(x).push(last)) by {
                    s.remove_ensures(i);
                    sp.remove_ensures(i);
                }
            } else {
                assert(!sp.contains(x)) by {
                    if sp.contains(x) {
                        let i = choose|i: int| 0 <= i < sp.len() && sp[i] == x;
                        if i < sp.len() - 1 {
                            assert(s[i] == x);
                        }
                    }
                }
                lemma_remove_value_absent(sp, x);
                lemma_remove_value_absent(s, x);
                assert(!head.contains(x));
                lemma_sans_same_when_absent(head, dead, x);
            }
        }
    }
}

/// Marking an absent value as dead changes nothing.
pub proof fn lemma_sans_same_when_absent<A>(c: Seq<A>, dead: Set<A>, x: A)
    requires
        !c.contains(x),
    ensures
        sans(c, dead.insert(x)) == sans(c, dead),
    decreases c.len(),
{
    if c.len() == 0 {
    } else {
        assert(c.contains(c.last())) by {
            assert(c[c.len() - 1] == c.last());
        }
        assert(!c.drop_last().contains(x)) by {
            if c.drop_last().contains(x) {
                let i = choose|i: int| 0 <= i < c.drop_last().len() && c.drop_last()[i] == x;
                assert(c[i] == x);
            }
        }
        lemma_sans_same_when_absent(c.drop_last(), dead, x);
        assert(c.last() != x);
    }
}

/// Removing two sets in turn is removing their union.
pub proof fn lemma_sans_union<A>(c: Seq<A>, g1: Set<A>, g2: Set<A>)
    requires
        c.no_duplicates(),
    ensures
        sans(sans(c, g1), g2) == sans(c, g1.union(g2)),
    decreases c.len(),
{
    lemma_sans_contains(c, g1);
    if c.len() == 0 {
    } else {
        let head = c.drop_last();
        let last = c.last();
        assert(head.no_duplicates());
        lemma_sans_union(head, g1, g2);
        if g1.contains(last) || g2.contains(last) {
            assert(g1.union(g2).contains(last));
            if g1.contains(last) {
                assert(sans(sans(c, g1), g2) == sans(sans(head, g1), g2));
            } else {
                assert(sans(c, g1) == sans(head, g1).push(last));
                assert(sans(c, g1).drop_last() =~= sans(head, g1));
                assert(sans(sans(c, g1), g2) == sans(sans(head, g1), g2));
            }
        } else {
            assert(sans(c, g1) == sans(head, g1).push(last));
            assert(sans(c, g1).drop_last() =~= sans(head, g1));
            assert(sans(c, g1).last() == last);
            assert(sans(sans(c, g1), g2) == sans(sans(head, g1), g2).push(last));
            assert(!g1.union(g2).contains(last));
        }
    }
}

impl<N, E> Graph<N, E> {
    /// Removes a live edge: unlinks it from both of its chains, tombstones
    /// the slot and hands the payload back.  Every chain, in both directions,
    /// is simply the old chain without this edge; nothing else changes.
    pub(crate) fn remove_edge_unchecked(&mut self, idx: EdgeIndex) -> (r: E)
        requires
            old(self).wf(),
            old(self).edge_live(idx),
        ensures
            final(self).wf(),
            r == old(self).edge_at(idx).data,
            final(self).edges_view() == old(self).edges_view().remove(idx),
            final(self).nodes_view() == old(self).nodes_view(),
            final(self).nodes@.len() == old(self).nodes@.len(),
            final(self).edges@.len() == old(self).edges@.len(),
            forall|m: NodeIndex, d: int|
                old(self).node_live(m) && 0 <= d < 2 ==> final(self).chain(m, d) == old(
                    self,
                ).chain(m, d).remove_value(idx),
    {
        let ghost o = *old(self);
        let ghost n0 = o.owner(0, idx);
        let ghost c0 = o.chain(n0, 0);
        let ghost p0 = c0.index_of(idx);
        let ghost n1 = o.owner(1, idx);
        let ghost c1 = o.chain(n1, 1);
        let ghost p1 = c1.index_of(idx);
        proof {
            assert(o.edge_live(idx));
            assert(o.chain(n0, 0).contains(idx));
            assert(o.chain(n1, 1).contains(idx));
            assert(o.node_live(n0) && o.node_live(n1));
            assert(o.chain_ok(n0, 0) && o.chain_ok(n1, 1));
            lemma_remove_at_index_of(c0, idx);
            lemma_remove_at_index_of(c1, idx);
        }
        self.unchain(idx, 0);
        let ghost s1 = *self;
        proof {
            // the incoming chain is untouched by the outgoing unlink
            assert(s1.owner(1, idx) == n1);
            assert(s1.chain(n1, 1) == c1);
            assert(s1.node_live(n1));
            assert(s1.edge_live(idx));
            assert(s1.chain_ok(n1, 1)) by {
                assert(s1.node_at(n1).next.at(1) == o.node_at(n1).next.at(1));
                assert forall|k: int|
                    0 <= k < c1.len() implies s1.edge_live(#[trigger] c1[k]) && s1.owner(1, c1[k])
                    == n1 && s1.edge_at(c1[k]).next.at(1) == o.edge_at(c1[k]).next.at(1) by {
                    assert(o.edge_live(c1[k]));
                    if p0 > 0 && c1[k] == c0[p0 - 1] {
                        assert(s1.edge_at(c1[k]).next.at(1) == o.edge_at(c1[k]).next.at(1));
                    }
                }
            }
        }
        self.unchain(idx, 1);
        let ghost s2 = *self;
        let mut tmp: Result<Edge<E>, ()> = Err(());
        core::mem::swap(&mut tmp, &mut self.edges[idx.0]);
        let edge = match tmp {
            Ok(edge) => edge,
            Err(_) => unreached(),
        };
        proof {
            let s = *self;
            // an edge other than `idx`, live in `o`, kept its slot throughout
            assert forall|f: EdgeIndex|
                f.0 < o.edges@.len() && f != idx && !(p0 > 0 && f == c0[p0 - 1]) && !(p1 > 0 && f
                    == c1[p1 - 1]) implies s.edges@[f.0 as int] == o.edges@[f.0 as int] by {}
            assert forall|m: NodeIndex, d: int|
                o.node_live(m) && 0 <= d < 2 implies s.node_live(m) && #[trigger] s.chain(m, d)
                    == o.chain(m, d).remove_value(idx) && s.node_at(m).data == o.node_at(
                m,
            ).data by {
                assert(o.chain_ok(m, d));
                if d == 0 {
                    if m == n0 {
                        assert(s.chain(m, 0) == c0.remove(p0));
                    } else {
                        assert(s.chain(m, d) == o.chain(m, d));
                        assert(!o.chain(m, d).contains(idx)) by {
                            if o.chain(m, d).contains(idx) {
                                let k = choose|k: int|
                                    0 <= k < o.chain(m, d).len() && o.chain(m, d)[k] == idx;
                                assert(o.owner(d, o.chain(m, d)[k]) == m);
                            }
                        }
                        lemma_remove_value_absent(o.chain(m, d), idx);
                    }
                } else {
                    if m == n1 {
                        assert(s.chain(m, 1) == c1.remove(p1));
                    } else {
                        assert(s.chain(m, d) == o.chain(m, d));
                        assert(!o.chain(m, d).contains(idx)) by {
                            if o.chain(m, d).contains(idx) {
                                let k = choose|k: int|
                                    0 <= k < o.chain(m, d).len() && o.chain(m, d)[k] == idx;
                                assert(o.owner(d, o.chain(m, d)[k]) == m);
                            }
                        }
                        lemma_remove_value_absent(o.chain(m, d), idx);
                    }
                }
            }
            assert forall|m: NodeIndex, d: int| s.node_live(m) && 0 <= d < 2 implies #[trigger] s
                .chain_ok(m, d) by {
                assert(o.node_live(m));
                assert(o.chain_ok(m, d));
                let c = o.chain(m, d);
                let cr = s.chain(m, d);
                assert(cr == c.remove_value(idx));
                // head link
                assert(s.node_at(m).next.at(d) == (if cr.len() == 0 {
                    Option::<EdgeIndex>::None
                } else {
                    Some(cr[0])
                })) by {
                    if (m == n0 && d == 0) || (m == n1 && d == 1) {
                        let p = if d == 0 {
                            p0
                        } else {
                            p1
                        };
                        if p == 0 {
                        } else {
                            assert(cr[0] == c[0]);
                        }
                    } else {
                        assert(s.node_at(m).next.at(d) == o.node_at(m).next.at(d));
                        assert(cr == c);
                    }
                }
                // members: live, owned by m, linked in order
                assert forall|k: int|
                    0 <= k < cr.len() implies s.edge_live(#[trigger] cr[k]) && s.owner(d, cr[k])
                    == m && s.edge_at(cr[k]).next.at(d) == (if k + 1 < cr.len() {
                    Result::<EdgeIndex, NodeIndex>::Ok(cr[k + 1])
                } else {
                    Result::<EdgeIndex, NodeIndex>::Err(m)
                }) by {
                    if (m == n0 && d == 0) || (m == n1 && d == 1) {
                        let p = if d == 0 {
                            p0
                        } else {
                            p1
                        };
                        let k2: int = if k < p {
                            k
                        } else {
                            k + 1
                        };
                        assert(cr[k] == c[k2] && c.contains(c[k2]));
                        assert(o.edge_live(c[k2]) && o.owner(d, c[k2]) == m);
                        if k2 == p - 1 {
                            // the rewritten predecessor link
                            assert(s.edge_at(cr[k]).next.at(d) == (if p + 1 < c.len() {
                                Result::<EdgeIndex, NodeIndex>::Ok(c[p + 1])
                            } else {
                                Result::<EdgeIndex, NodeIndex>::Err(m)
                            }));
                            if k + 1 < cr.len() {
                                assert(cr[k + 1] == c[p + 1]);
                            }
                        } else {
                            assert(s.edge_at(c[k2]).next.at(d) == o.edge_at(c[k2]).next.at(d))
                                by {
                                assert(c[k2] != idx);
                                if d == 0 && p1 > 0 && c[k2] == c1[p1 - 1] {
                                    // its incoming link changed, not this one
                                }
                                if d == 1 && p0 > 0 && c[k2] == c0[p0 - 1] {
                                }
                            }
                            if k + 1 < cr.len() {
                                let k3: int = if k + 1 < p {
                                    k + 1
                                } else {
                                    k + 2
                                };
                                assert(cr[k + 1] == c[k3]);
                                if k2 + 1 == p {
                                    assert(false);
                                }
                                assert(k3 == k2 + 1);
                            } else {
                                assert(k2 == c.len() - 1);
                            }
                        }
                    } else {
                        assert(cr == c);
                        assert(c.contains(c[k]));
                        assert(o.edge_live(c[k]) && o.owner(d, c[k]) == m);
                        assert(c[k] != idx);
                        assert(s.edge_at(c[k]).next.at(d) == o.edge_at(c[k]).next.at(d));
                    }
                }
            }
            assert forall|e: EdgeIndex| #[trigger] s.edge_live(e) implies s.node_live(s.src(e))
                && s.node_live(s.dst(e)) by {
                assert(o.edge_live(e));
            }
            assert forall|e: EdgeIndex, d: int| s.edge_live(e) && 0 <= d < 2 implies #[trigger] s
                .chain(s.owner(d, e), d).contains(e) by {
                assert(o.edge_live(e) && e != idx);
                assert(o.chain(o.owner(d, e), d).contains(e));
                let m = o.owner(d, e);
                assert(o.node_live(m));
                let c = o.chain(m, d);
                let k = choose|k: int| 0 <= k < c.len() && c[k] == e;
                assert(s.chain(m, d) == c.remove_value(idx));
                if (m == n0 && d == 0) || (m == n1 && d == 1) {
                    let p = if d == 0 {
                        p0
                    } else {
                        p1
                    };
                    if k < p {
                        assert(c.remove_value(idx)[k] == e);
                    } else {
                        assert(k != p);
                        assert(c.remove_value(idx)[k - 1] == e);
                    }
                } else {
                    assert(!c.contains(idx)) by {
                        assert(o.chain_ok(m, d));
                        if c.contains(idx) {
                            let k9 = choose|k9: int| 0 <= k9 < c.len() && c[k9] == idx;
                            assert(o.owner(d, c[k9]) == m);
                        }
                    }
                    lemma_remove_value_absent(c, idx);
                    assert(s.chain(m, d)[k] == e);
                }
            }
            assert(s.edges_view() =~= o.edges_view().remove(idx));
            assert(s.nodes_view() =~= o.nodes_view());
        }
        edge.data
    }

    /// Pops the head edge of `idx`'s direction-`dir` chain: the node's head
    /// link skips it (no predecessor scan needed on this side), the opposite
    /// chain is unlinked the ordinary way, and the slot is tombstoned,
    /// discarding the payload.
    fn pop_head_edge(&mut self, idx: NodeIndex, dir: usize)
        requires
            dir < 2,
            old(self).wf(),
            old(self).node_live(idx),
            old(self).chain(idx, dir as int).len() > 0,
        ensures
            ({
                let o = *old(self);
                let s = *final(self);
                let e = o.chain(idx, dir as int)[0];
                &&& s.wf()
                &&& s.edges_view() == o.edges_view().remove(e)
                &&& s.nodes_view() == o.nodes_view()
                &&& forall|m: NodeIndex| #[trigger] s.node_live(m) == o.node_live(m)
                &&& s.nodes@.len() == o.nodes@.len()
                &&& s.edges@.len() == o.edges@.len()
                &&& forall|m: NodeIndex, d: int|
                    o.node_live(m) && 0 <= d < 2 ==> s.chain(m, d) == o.chain(m, d).remove_value(
                        e,
                    )
            }),
    {
        let ghost o = *old(self);
        let ghost d = dir as int;
        let ghost d2i = 1 - d;
        let ghost c = o.chain(idx, d);
        proof {
            assert(o.chain_ok(idx, d));
        }
        let e = match &self.nodes[idx.0] {
            Ok(node) => node.next.get(dir).unwrap(),
            Err(_) => unreached(),
        };
        let ghost n2 = o.owner(d2i, e);
        let ghost c2 = o.chain(n2, d2i);
        proof {
            assert(e == c[0]);
            assert(c.contains(c[0]));
            assert(o.edge_live(e));
            assert(o.owner(d, e) == idx);
            assert(o.chain(n2, d2i).contains(e));
            assert(o.node_live(n2));
            assert(o.chain_ok(n2, d2i));
            lemma_remove_at_index_of(c2, e);
            lemma_remove_at_index_of(c, e);
            assert(c.index_of(e) == 0) by {
                let p = c.index_of(e);
                if p != 0 {
                    assert(c[p] == c[0]);
                    assert(false);
                }
            }
        }
        let ghost p2 = c2.index_of(e);
        let lnk = match &self.edges[e.0] {
            Ok(edge) => edge.next.get(dir),
            Err(_) => unreached(),
        };
        let newhead = match lnk {
            Ok(e2) => Some(e2),
            Err(_) => None,
        };
        let nm = self.node_mut(idx);
        nm.next.set(dir, newhead);
        proof {
            let m = self.model@;
            self.model@ = ChainModel {
                chains: m.chains.insert((idx, d), c.subrange(1, c.len() as int)),
                srcs: m.srcs,
                dsts: m.dsts,
            };
        }
        let ghost s1 = *self;
        proof {
            // the opposite chain is untouched by the head pop
            assert(s1.owner(d2i, e) == n2);
            assert(s1.chain(n2, d2i) == c2);
            assert(s1.node_live(n2));
            assert(s1.edge_live(e));
            assert(s1.chain_ok(n2, d2i)) by {
                assert(s1.node_at(n2).next.at(d2i) == o.node_at(n2).next.at(d2i));
                assert forall|k: int|
                    0 <= k < c2.len() implies s1.edge_live(#[trigger] c2[k]) && s1.owner(
                    d2i,
                    c2[k],
                ) == n2 && s1.edge_at(c2[k]).next.at(d2i) == o.edge_at(c2[k]).next.at(d2i) by {
                    assert(o.edge_live(c2[k]));
                }
            }
        }
        let dir2: usize = 1 - dir;
        self.unchain(e, dir2);
        self.edges[e.0] = Err(());
        proof {
            let s = *self;
            let cd = c.subrange(1, c.len() as int);
            assert(cd == c.remove(0));
            assert(s.chain(idx, d) == cd);
            assert(s.chain(n2, d2i) == c2.remove(p2));
            // frame: which slots changed
            assert forall|f: EdgeIndex|
                f.0 < o.edges@.len() && f != e && !(p2 > 0 && f == c2[p2 - 1])
                    implies s.edges@[f.0 as int] == o.edges@[f.0 as int] by {}
            assert forall|m: NodeIndex, dd: int|
                o.node_live(m) && 0 <= dd < 2 implies s.node_live(m) && #[trigger] s.chain(m, dd)
                    == o.chain(m, dd).remove_value(e) && s.node_at(m).data == o.node_at(
                m,
            ).data by {
                assert(o.chain_ok(m, dd));
                if m == idx && dd == d {
                    assert(s.chain(m, dd) == c.remove(0));
                } else if m == n2 && dd == d2i {
                    assert(s.chain(m, dd) == c2.remove(p2));
                } else {
                    assert(s.chain(m, dd) == o.chain(m, dd));
                    assert(!o.chain(m, dd).contains(e)) by {
                        if o.chain(m, dd).contains(e) {
                            let k = choose|k: int|
                                0 <= k < o.chain(m, dd).len() && o.chain(m, dd)[k] == e;
                            assert(o.owner(dd, o.chain(m, dd)[k]) == m);
                        }
                    }
                    lemma_remove_value_absent(o.chain(m, dd), e);
                }
            }
            assert forall|m: NodeIndex, dd: int|
                s.node_live(m) && 0 <= dd < 2 implies #[trigger] s.chain_ok(m, dd) by {
                assert(o.node_live(m));
                assert(o.chain_ok(m, dd));
                let co = o.chain(m, dd);
                let cr = s.chain(m, dd);
                assert(cr == co.remove_value(e));
                let p: int = if m == idx && dd == d {
                    0
                } else {
                    p2
                };
                // head link of the chain
                assert(s.node_at(m).next.at(dd) == (if cr.len() == 0 {
                    Option::<EdgeIndex>::None
                } else {
                    Some(cr[0])
                })) by {
                    if m == idx && dd == d {
                        if c.len() > 1 {
                            assert(cr[0] == c[1]);
                        }
                    } else if m == n2 && dd == d2i {
                        if p2 == 0 {
                        } else {
                            assert(cr[0] == co[0]);
                            assert(s.node_at(m).next.at(dd) == o.node_at(m).next.at(dd));
                        }
                    } else {
                        assert(s.node_at(m).next.at(dd) == o.node_at(m).next.at(dd));
                        assert(cr == co);
                    }
                }
                if (m == idx && dd == d) || (m == n2 && dd == d2i) {
                    assert(co.contains(e));
                    assert(co.index_of(e) == p) by {
                        if m == idx && dd == d {
                            let q = co.index_of(e);
                            assert(co[q] == co[0]);
                            if q != 0 {
                                assert(false);
                            }
                        }
                    }
                    assert forall|k: int|
                        0 <= k < cr.len() implies s.edge_live(#[trigger] cr[k]) && s.owner(
                        dd,
                        cr[k],
                    ) == m && s.edge_at(cr[k]).next.at(dd) == (if k + 1 < cr.len() {
                        Result::<EdgeIndex, NodeIndex>::Ok(cr[k + 1])
                    } else {
                        Result::<EdgeIndex, NodeIndex>::Err(m)
                    }) by {
                        let k2: int = if k < p {
                            k
                        } else {
                            k + 1
                        };
                        assert(cr[k] == co[k2] && co.contains(co[k2]));
                        assert(o.edge_live(co[k2]) && o.owner(dd, co[k2]) == m);
                        assert(co[k2] != e);
                        if k2 == p - 1 {
                            // the rewritten predecessor link (only in the d2 chain)
                            assert(m == n2 && dd == d2i && p == p2 && co == c2);
                            assert(s.edge_at(cr[k]).next.at(dd) == (if p + 1 < co.len() {
                                Result::<EdgeIndex, NodeIndex>::Ok(co[p + 1])
                            } else {
                                Result::<EdgeIndex, NodeIndex>::Err(m)
                            }));
                            if k + 1 < cr.len() {
                                assert(cr[k + 1] == co[p + 1]);
                            }
                        } else {
                            assert(s.edge_at(co[k2]).next.at(dd) == o.edge_at(co[k2]).next.at(
                                dd,
                            ));
                            if k + 1 < cr.len() {
                                let k3: int = if k + 1 < p {
                                    k + 1
                                } else {
                                    k + 2
                                };
                                assert(cr[k + 1] == co[k3]);
                                if k2 + 1 == p {
                                    assert(false);
                                }
                                assert(k3 == k2 + 1);
                            } else {
                                assert(k2 == co.len() - 1);
                            }
                        }
                    }
                } else {
                    assert(cr == co);
                    assert forall|k: int|
                        0 <= k < cr.len() implies s.edge_live(#[trigger] cr[k]) && s.owner(
                        dd,
                        cr[k],
                    ) == m && s.edge_at(cr[k]).next.at(dd) == o.edge_at(cr[k]).next.at(dd) by {
                        assert(co.contains(co[k]));
                        assert(o.edge_live(co[k]) && o.owner(dd, co[k]) == m);
                        assert(co[k] != e);
                    }
                }
            }
            assert forall|f: EdgeIndex| #[trigger] s.edge_live(f) implies s.node_live(s.src(f))
                && s.node_live(s.dst(f)) by {
                assert(o.edge_live(f));
            }
            assert forall|f: EdgeIndex, dd: int|
                s.edge_live(f) && 0 <= dd < 2 implies #[trigger] s.chain(s.owner(dd, f), dd)
                    .contains(f) by {
                assert(o.edge_live(f) && f != e);
                assert(o.chain(o.owner(dd, f), dd).contains(f));
                let m = o.owner(dd, f);
                assert(o.node_live(m));
                let co = o.chain(m, dd);
                let k = choose|k: int| 0 <= k < co.len() && co[k] == f;
                assert(s.chain(m, dd) == co.remove_value(e));
                if co.contains(e) {
                    assert(o.chain_ok(m, dd));
                    lemma_remove_at_index_of(co, e);
                    let pe = co.index_of(e);
                    if k < pe {
                        assert(co.remove_value(e)[k] == f);
                    } else {
                        assert(k != pe);
                        assert(co.remove_value(e)[k - 1] == f);
                    }
                } else {
                    lemma_remove_value_absent(co, e);
                    assert(s.chain(m, dd)[k] == f);
                }
            }
            assert(s.edges_view() =~= o.edges_view().remove(e));
            assert(s.nodes_view() =~= o.nodes_view());
        }
    }

    /// The edges whose direction-`d` chain is owned by `n`.
    pub open spec fn owned(self, n: NodeIndex, d: int) -> Set<EdgeIndex> {
        Set::new(|e: EdgeIndex| self.edge_live(e) && self.owner(d, e) == n)
    }

    /// The live edges incident to `n` in either direction.
    pub open spec fn incident(self, n: NodeIndex) -> Set<EdgeIndex> {
        Set::new(|e: EdgeIndex| self.edge_live(e) && (self.src(e) == n || self.dst(e) == n))
    }

    /// Empties `idx`'s direction-`dir` chain by popping its head until none
    /// is left, removing each popped edge entirely.
    #[verifier::loop_isolation(false)]
    fn strip_chain(&mut self, idx: NodeIndex, dir: usize)
        requires
            dir < 2,
            old(self).wf(),
            old(self).node_live(idx),
        ensures
            ({
                let o = *old(self);
                let s = *final(self);
                &&& s.wf()
                &&& s.nodes_view() == o.nodes_view()
                &&& forall|m: NodeIndex| #[trigger] s.node_live(m) == o.node_live(m)
                &&& s.chain(idx, dir as int).len() == 0
                &&& forall|e: EdgeIndex|
                    #[trigger] s.edge_live(e) <==> o.edge_live(e) && o.owner(dir as int, e) != idx
                &&& s.edges_view() == o.edges_view().remove_keys(o.owned(idx, dir as int))
                &&& s.nodes@.len() == o.nodes@.len()
                &&& s.edges@.len() == o.edges@.len()
                &&& forall|m: NodeIndex, d: int|
                    o.node_live(m) && 0 <= d < 2 ==> s.chain(m, d) == sans(
                        o.chain(m, d),
                        o.owned(idx, dir as int),
                    )
            }),
    {
        let ghost o = *old(self);
        let ghost dead = o.owned(idx, dir as int);
        let ghost mut gone = Set::<EdgeIndex>::empty();
        proof {
            assert forall|m: NodeIndex, d: int|
                o.node_live(m) && 0 <= d < 2 implies self.chain(m, d) == sans(
                #[trigger] o.chain(m, d),
                gone,
            ) by {
                lemma_sans_empty(o.chain(m, d));
            }
            assert(self.edges_view() =~= o.edges_view().remove_keys(gone));
        }
        loop
            invariant
                self.wf(),
                self.node_live(idx),
                forall|m: NodeIndex| #[trigger] self.node_live(m) == o.node_live(m),
                gone.subset_of(dead),
                forall|e: EdgeIndex|
                    #[trigger] self.edge_live(e) <==> o.edge_live(e) && !gone.contains(e),
                forall|m: NodeIndex, d: int|
                    o.node_live(m) && 0 <= d < 2 ==> self.chain(m, d) == sans(
                        #[trigger] o.chain(m, d),
                        gone,
                    ),
                self.nodes_view() == o.nodes_view(),
                self.edges_view() == o.edges_view().remove_keys(gone),
                self.nodes@.len() == o.nodes@.len(),
                self.edges@.len() == o.edges@.len(),
            decreases self.chain(idx, dir as int).len(),
        {
            let head = match &self.nodes[idx.0] {
                Ok(node) => node.next.get(dir),
                Err(_) => unreached(),
            };
            let e = match head {
                Some(e) => e,
                None => {
                    proof {
                        assert(self.chain_ok(idx, dir as int));
                        // an empty head link means an empty chain; and then
                        // every owned edge has been popped
                        assert(gone =~= dead) by {
                            assert forall|f: EdgeIndex| dead.contains(f) implies gone.contains(
                                f,
                            ) by {
                                if !gone.contains(f) {
                                    assert(self.edge_live(f));
                                    assert(self.edges_view()[f] == o.edges_view()[f]);
                                    assert(self.owner(dir as int, f) == idx);
                                    assert(self.chain(idx, dir as int).contains(f));
                                }
                            }
                        }
                    }
                    return ;
                },
            };
            let ghost cur = *self;
            proof {
                assert(cur.chain_ok(idx, dir as int));
                assert(cur.chain(idx, dir as int)[0] == e);
                assert(cur.chain(idx, dir as int).contains(e));
                assert(cur.edge_live(e));
                assert(cur.owner(dir as int, e) == idx);
                assert(o.edge_live(e) && !gone.contains(e));
                assert(cur.edges_view()[e] == o.edges_view()[e]);
                assert(o.owner(dir as int, e) == idx);
                assert(dead.contains(e));
            }
            self.pop_head_edge(idx, dir);
            proof {
                let s = *self;
                assert forall|m: NodeIndex, d: int|
                    o.node_live(m) && 0 <= d < 2 implies s.chain(m, d) == sans(
                    #[trigger] o.chain(m, d),
                    gone.insert(e),
                ) by {
                    assert(cur.node_live(m));
                    assert(s.chain(m, d) == cur.chain(m, d).remove_value(e));
                    assert(cur.chain(m, d) == sans(o.chain(m, d), gone));
                    assert(o.chain_ok(m, d));
                    lemma_sans_step(o.chain(m, d), gone, e);
                }
                gone = gone.insert(e);
                assert(self.chain(idx, dir as int).len() < cur.chain(idx, dir as int).len()) by {
                    lemma_remove_at_index_of(cur.chain(idx, dir as int), e);
                }
                assert(self.edges_view() =~= o.edges_view().remove_keys(gone));
                assert forall|f: EdgeIndex|
                    #[trigger] self.edge_live(f) <==> o.edge_live(f) && !gone.contains(f) by {
                    if self.edge_live(f) {
                        assert(self.edges_view().contains_key(f));
                    }
                    if o.edge_live(f) && !gone.contains(f) {
                        assert(self.edges_view().contains_key(f));
                    }
                }
            }
        }
    }

    /// Removes a live node: first removes every incident edge (the cascading
    /// removal), then tombstones the node slot and hands the payload back.
    /// No edge survives the removal of one of its endpoints.
    pub(crate) fn remove_node_unchecked(&mut self, idx: NodeIndex) -> (r: N)
        requires
            old(self).wf(),
            old(self).node_live(idx),
        ensures
            final(self).wf(),
            r == old(self).node_at(idx).data,
            final(self).nodes_view() == old(self).nodes_view().remove(idx),
            final(self).edges_view() == old(self).edges_view().remove_keys(
                old(self).incident(idx),
            ),
            final(self).nodes@.len() == old(self).nodes@.len(),
            final(self).edges@.len() == old(self).edges@.len(),
            forall|e: EdgeIndex|
                #[trigger] final(self).edge_live(e) <==> old(self).edge_live(e) && old(self).src(e)
                    != idx && old(self).dst(e) != idx,
            forall|m: NodeIndex, d: int|
                old(self).node_live(m) && m != idx && 0 <= d < 2 ==> final(self).chain(m, d)
                    == sans(old(self).chain(m, d), old(self).incident(idx)),
    {
        let ghost o = *old(self);
        self.strip_chain(idx, 0);
        let ghost t1 = *self;
        self.strip_chain(idx, 1);
        let ghost t2 = *self;
        proof {
            assert(t2.node_live(idx));
            assert(o.nodes_view().contains_key(idx));
            assert(t2.nodes_view()[idx] == o.nodes_view()[idx]);
            assert(t2.node_at(idx).data == o.node_at(idx).data);
        }
        let mut tmp: Result<Node<N>, ()> = Err(());
        core::mem::swap(&mut tmp, &mut self.nodes[idx.0]);
        let node = match tmp {
            Ok(node) => node,
            Err(_) => unreached(),
        };
        proof {
            let s = *self;
            let dead0 = o.owned(idx, 0);
            let dead1 = t1.owned(idx, 1);
            assert(dead0.union(dead1) =~= o.incident(idx)) by {
                assert forall|f: EdgeIndex| #[trigger] o.incident(idx).contains(f) implies dead0
                    .contains(f) || dead1.contains(f) by {
                    if o.src(f) == idx {
                    } else {
                        assert(t1.edge_live(f));
                        assert(t1.edges_view()[f] == o.edges_view()[f]);
                    }
                }
                assert forall|f: EdgeIndex|
                    dead0.contains(f) || dead1.contains(f) implies o.incident(idx).contains(
                    f,
                ) by {
                    if dead1.contains(f) {
                        assert(t1.edge_live(f));
                        assert(t1.edges_view()[f] == o.edges_view()[f]);
                    }
                }
            }
            assert forall|e: EdgeIndex| #[trigger] s.edge_live(e) implies t2.edge_live(e)
                && s.edges_view()[e] == t2.edges_view()[e] by {}
            // liveness after both strips
            assert forall|e: EdgeIndex|
                (#[trigger] s.edge_live(e) <==> o.edge_live(e) && o.src(e) != idx && o.dst(e)
                    != idx) by {
                if t2.edge_live(e) {
                    assert(t1.edge_live(e));
                    assert(t1.edges_view()[e] == o.edges_view()[e]);
                    assert(t2.edges_view()[e] == t1.edges_view()[e]);
                }
                if o.edge_live(e) && o.src(e) != idx && o.dst(e) != idx {
                    assert(t1.edge_live(e));
                    assert(t1.edges_view()[e] == o.edges_view()[e]);
                    assert(t2.edge_live(e));
                }
            }
            // chains after both strips
            assert forall|m: NodeIndex, d: int|
                o.node_live(m) && m != idx && 0 <= d < 2 implies #[trigger] s.chain(m, d) == sans(
                o.chain(m, d),
                o.incident(idx),
            ) by {
                assert(t1.chain(m, d) == sans(o.chain(m, d), dead0));
                assert(t1.node_live(m)) by {
                    assert(t1.nodes_view().contains_key(m));
                }
                assert(t2.chain(m, d) == sans(t1.chain(m, d), dead1));
                assert(o.chain_ok(m, d));
                lemma_sans_union(o.chain(m, d), dead0, dead1);
                assert(s.chain(m, d) == t2.chain(m, d));
                lemma_sans_congruent(o.chain(m, d), dead0.union(dead1), o.incident(idx));
            }
            // the node's removal does not disturb any surviving chain
            assert forall|m: NodeIndex, d: int|
                s.node_live(m) && 0 <= d < 2 implies #[trigger] s.chain_ok(m, d) by {
                assert(m != idx);
                assert(t2.node_live(m)) by {
                    assert(t2.nodes_view().contains_key(m));
                }
                assert(t2.chain_ok(m, d));
                let c = t2.chain(m, d);
                assert(s.chain(m, d) == c);
                assert(s.node_at(m) == t2.node_at(m));
                assert forall|k: int|
                    0 <= k < c.len() implies s.edge_live(#[trigger] c[k]) && s.edge_at(c[k])
                    == t2.edge_at(c[k]) && s.owner(d, c[k]) == t2.owner(d, c[k]) by {
                    assert(t2.edge_live(c[k]));
                }
            }
            assert forall|e: EdgeIndex| #[trigger] s.edge_live(e) implies s.node_live(s.src(e))
                && s.node_live(s.dst(e)) by {
                assert(t2.edge_live(e));
                assert(t2.node_live(t2.src(e)) && t2.node_live(t2.dst(e)));
                assert(o.edge_live(e));
                assert(t1.edges_view()[e] == o.edges_view()[e]);
                assert(t2.edges_view()[e] == t1.edges_view()[e]);
                assert(s.src(e) != idx && s.dst(e) != idx);
            }
            assert forall|e: EdgeIndex, d: int|
                s.edge_live(e) && 0 <= d < 2 implies #[trigger] s.chain(s.owner(d, e), d)
                    .contains(e) by {
                assert(t2.edge_live(e));
                assert(t2.chain(t2.owner(d, e), d).contains(e));
            }
            assert(s.nodes_view() =~= o.nodes_view().remove(idx));
            assert(s.edges_view() =~= o.edges_view().remove_keys(o.incident(idx))) by {
                assert(t2.edges_view() == t1.edges_view().remove_keys(dead1));
                assert(t1.edges_view() == o.edges_view().remove_keys(dead0));
                assert(s.edges_view() =~= t2.edges_view());
            }
        }
        node.data
    }

    /// Removes the edge behind `idx` if it is live, returning its payload;
    /// a dead or out-of-range handle changes nothing and yields nothing.
    pub fn remove_edge(&mut self, idx: EdgeIndex) -> (r: Option<E>)
        requires
            old(self).wf(),
        ensures
            final(self).wf(),
            old(self).edge_live(idx) ==> {
                &&& r == Some(old(self).edge_at(idx).data)
                &&& final(self).edges_view() == old(self).edges_view().remove(idx)
                &&& final(self).nodes_view() == old(self).nodes_view()
                &&& final(self).nodes@.len() == old(self).nodes@.len()
                &&& final(self).edges@.len() == old(self).edges@.len()
                &&& forall|m: NodeIndex, d: int|
                    old(self).node_live(m) && 0 <= d < 2 ==> final(self).chain(m, d) == old(
                        self,
                    ).chain(m, d).remove_value(idx)
            },
            !old(self).edge_live(idx) ==> r is None && *final(self) == *old(self),
    {
        if idx.0 < self.edges.len() && self.edges[idx.0].is_ok() {
            return Some(self.remove_edge_unchecked(idx));
        }
        None
    }

    /// Removes the node behind `idx` and every edge incident to it if the
    /// node is live, returning its payload; a dead or out-of-range handle
    /// changes nothing and yields nothing.
    pub fn remove_node(&mut self, idx: NodeIndex) -> (r: Option<N>)
        requires
            old(self).wf(),
        ensures
            final(self).wf(),
            old(self).node_live(idx) ==> {
                &&& r == Some(old(self).node_at(idx).data)
                &&& final(self).nodes_view() == old(self).nodes_view().remove(idx)
                &&& final(self).edges_view() == old(self).edges_view().remove_keys(
                    old(self).incident(idx),
                )
                &&& final(self).nodes@.len() == old(self).nodes@.len()
                &&& final(self).edges@.len() == old(self).edges@.len()
                &&& forall|e: EdgeIndex|
                    #[trigger] final(self).edge_live(e) <==> old(self).edge_live(e) && old(
                        self,
                    ).src(e) != idx && old(self).dst(e) != idx
                &&& forall|m: NodeIndex, d: int|
                    old(self).node_live(m) && m != idx && 0 <= d < 2 ==> final(self).chain(m, d)
                        == sans(old(self).chain(m, d), old(self).incident(idx))
            },
            !old(self).node_live(idx) ==> r is None && *final(self) == *old(self),
    {
        if idx.0 < self.nodes.len() && self.nodes[idx.0].is_ok() {
            return Some(self.remove_node_unchecked(idx));
        }
        None
    }
}

/// Round trip for edges: inserting an edge into a fresh slot and then
/// removing that same slot leaves every view as it was, and the payload the
/// removal hands back is the one inserted; no other live handle is touched
/// at any point.  The premises are exactly what `add_edge` and `remove_edge`
/// ensure for the two states they produce.
pub proof fn lemma_edge_round_trip<N, E>(
    g0: Graph<N, E>,
    g1: Graph<N, E>,
    g2: Graph<N, E>,
    e: EdgeIndex,
    src: NodeIndex,
    dst: NodeIndex,
    data: E,
)
    requires
        g0.wf(),
        g0.is_first_free_edge(e),
        g1.edges_view() == g0.edges_view().insert(e, EdgeInfo { src, dst, data }),
        g1.nodes_view() == g0.nodes_view(),
        g2.edges_view() == g1.edges_view().remove(e),
        g2.nodes_view() == g1.nodes_view(),
    ensures
        g2.edges_view() == g0.edges_view(),
        g2.nodes_view() == g0.nodes_view(),
        g1.edges_view()[e].data == data,
{
    assert(!g0.edges_view().contains_key(e));
    assert(g2.edges_view() =~= g0.edges_view());
}

/// Round trip for nodes: adding a node under a fresh slot and then removing
/// that slot leaves every view as it was — in particular, the fresh node had
/// no incident edges, so the cascading removal touches no edge — and the
/// payload handed back is the one inserted.  The premises are exactly what
/// `add_node` and `remove_node` ensure for the two states they produce.
pub proof fn lemma_node_round_trip<N, E>(
    g0: Graph<N, E>,
    g1: Graph<N, E>,
    g2: Graph<N, E>,
    v: NodeIndex,
    data: N,
)
    requires
        g0.wf(),
        g1.wf(),
        !g0.nodes_view().contains_key(v),
        g1.nodes_view() == g0.nodes_view().insert(v, data),
        g1.edges_view() == g0.edges_view(),
        g2.nodes_view() == g1.nodes_view().remove(v),
        g2.edges_view() == g1.edges_view().remove_keys(g1.incident(v)),
    ensures
        g2.nodes_view() == g0.nodes_view(),
        g2.edges_view() == g0.edges_view(),
        g1.nodes_view()[v] == data,
{
    assert(g1.incident(v) =~= Set::<EdgeIndex>::empty()) by {
        assert forall|e: EdgeIndex| !(#[trigger] g1.incident(v).contains(e)) by {
            if g1.incident(v).contains(e) {
                assert(g1.edge_live(e));
                assert(g1.edges_view().contains_key(e));
                assert(g0.edges_view().contains_key(e));
                assert(g0.edge_live(e));
                assert(g0.edges_view()[e] == g1.edges_view()[e]);
                assert(g1.edges_view()[e].src == g1.src(e) && g1.edges_view()[e].dst == g1.dst(
                    e,
                ));
                assert(g0.edges_view()[e].src == g0.src(e) && g0.edges_view()[e].dst == g0.dst(
                    e,
                ));
                assert(g0.src(e) == g1.src(e) && g0.dst(e) == g1.dst(e));
                assert(g0.node_live(g0.src(e)) && g0.node_live(g0.dst(e)));
                assert(!g0.node_live(v));
            }
        }
    }
    assert(g2.edges_view() =~= g0.edges_view());
    assert(g2.nodes_view() =~= g0.nodes_view());
}

/// Two equal removal sets remove the same elements.
pub proof fn lemma_sans_congruent<A>(c: Seq<A>, g1: Set<A>, g2: Set<A>)
    requires
        g1 =~= g2,
    ensures
        sans(c, g1) == sans(c, g2),
{
}

/// A finite sequence of `EdgeIndex` handles produced by walking one chain,
/// handed out one by one; it does not restart.
pub struct Edges {
    pub items: Vec<EdgeIndex>,
    pub pos: usize,
}

impl Edges {
    /// What is still to be yielded.
    pub open spec fn remaining(self) -> Seq<EdgeIndex> {
        if self.pos as int <= self.items@.len() {
            self.items@.skip(self.pos as int)
        } else {
            Seq::empty()
        }
    }

    /// Yields the next edge of the chain, or nothing once exhausted.
    pub fn next(&mut self) -> (r: Option<EdgeIndex>)
        ensures
            old(self).remaining().len() > 0 ==> r == Some(old(self).remaining()[0])
                && final(self).remaining() == old(self).remaining().skip(1),
            old(self).remaining().len() == 0 ==> r is None && *final(self) == *old(self),
    {
        if self.pos < self.items.len() {
            let e = self.items[self.pos];
            self.pos += 1;
            proof {
                assert(final(self).remaining() =~= old(self).remaining().skip(1));
            }
            return Some(e);
        }
        proof {
            assert(old(self).remaining().len() == 0);
        }
        None
    }
}

/// Pairs of (neighbor node, connecting edge) produced by resolving each edge
/// of a chain to its far endpoint, handed out one by one.
pub struct Neighbors {
    pub items: Vec<(NodeIndex, EdgeIndex)>,
    pub pos: usize,
}

impl Neighbors {
    /// What is still to be yielded.
    pub open spec fn remaining(self) -> Seq<(NodeIndex, EdgeIndex)> {
        if self.pos as int <= self.items@.len() {
            self.items@.skip(self.pos as int)
        } else {
            Seq::empty()
        }
    }

    /// Yields the next (neighbor, edge) pair, or nothing once exhausted.
    pub fn next(&mut self) -> (r: Option<(NodeIndex, EdgeIndex)>)
        ensures
            old(self).remaining().len() > 0 ==> r == Some(old(self).remaining()[0])
                && final(self).remaining() == old(self).remaining().skip(1),
            old(self).remaining().len() == 0 ==> r is None && *final(self) == *old(self),
    {
        if self.pos < self.items.len() {
            let p = self.items[self.pos];
            self.pos += 1;
            proof {
                assert(final(self).remaining() =~= old(self).remaining().skip(1));
            }
            return Some(p);
        }
        proof {
            assert(old(self).remaining().len() == 0);
        }
        None
    }
}

impl<N, E> Graph<N, E> {
    /// Walks direction `dir` from `e`'s link to the terminating node, which
    /// is the owner of `e`'s chain on that side.
    #[verifier::loop_isolation(false)]
    fn chain_end(&self, e: EdgeIndex, dir: usize) -> (r: NodeIndex)
        requires
            dir < 2,
            self.wf(),
            self.edge_live(e),
        ensures
            r == self.owner(dir as int, e),
    {
        let ghost n = self.owner(dir as int, e);
        let ghost c = self.chain(n, dir as int);
        let ghost p = c.index_of(e);
        proof {
            assert(self.chain(n, dir as int).contains(e));
            assert(self.node_live(n));
            assert(self.chain_ok(n, dir as int));
            assert(0 <= p < c.len() && c[p] == e);
            assert(self.edge_at(c[p]).next.at(dir as int) == (if p + 1 < c.len() {
                Result::<EdgeIndex, NodeIndex>::Ok(c[p + 1])
            } else {
                Result::<EdgeIndex, NodeIndex>::Err(n)
            }));
        }
        let mut cur = match &self.edges[e.0] {
            Ok(edge) => edge.next.get(dir),
            Err(_) => unreached(),
        };
        let ghost mut j: int = p + 1;
        loop
            invariant
                p < j <= c.len(),
                cur == (if j < c.len() {
                    Result::<EdgeIndex, NodeIndex>::Ok(c[j])
                } else {
                    Result::<EdgeIndex, NodeIndex>::Err(n)
                }),
            decreases c.len() - j,
        {
            match cur {
                Ok(e2) => {
                    proof {
                        assert(c.contains(c[j]));
                        assert(self.edge_at(c[j]).next.at(dir as int) == (if j + 1 < c.len() {
                            Result::<EdgeIndex, NodeIndex>::Ok(c[j + 1])
                        } else {
                            Result::<EdgeIndex, NodeIndex>::Err(n)
                        }));
                    }
                    cur = match &self.edges[e2.0] {
                        Ok(edge) => edge.next.get(dir),
                        Err(_) => unreached(),
                    };
                    proof {
                        j = j + 1;
                    }
                },
                Err(nid) => {
                    return nid;
                },
            }
        }
    }

    /// The endpoints of a live edge, recovered by walking both chains to
    /// their terminating nodes; nothing for a dead or out-of-range handle.
    pub(crate) fn src_dst(&self, idx: EdgeIndex) -> (r: Option<(NodeIndex, NodeIndex)>)
        requires
            self.wf(),
        ensures
            self.edge_live(idx) ==> r == Some((self.src(idx), self.dst(idx))),
            !self.edge_live(idx) ==> r is None,
    {
        if idx.0 < self.edges.len() && self.edges[idx.0].is_ok() {
            let s = self.chain_end(idx, 0);
            let d = self.chain_end(idx, 1);
            return Some((s, d));
        }
        None
    }

    /// Collects `idx`'s direction-`dir` chain, head first.
    #[verifier::loop_isolation(false)]
    fn chain_collect(&self, idx: NodeIndex, dir: usize) -> (v: Vec<EdgeIndex>)
        requires
            dir < 2,
            self.wf(),
            self.node_live(idx),
        ensures
            v@ == self.chain(idx, dir as int),
    {
        let ghost c = self.chain(idx, dir as int);
        proof {
            assert(self.chain_ok(idx, dir as int));
        }
        let mut v: Vec<EdgeIndex> = Vec::new();
        let mut cur = match &self.nodes[idx.0] {
            Ok(node) => node.next.get(dir),
            Err(_) => unreached(),
        };
        loop
            invariant
                v@.len() <= c.len(),
                v@ == c.take(v@.len() as int),
                cur == (if v@.len() < c.len() {
                    Some(c[v@.len() as int])
                } else {
                    Option::<EdgeIndex>::None
                }),
            decreases c.len() - v@.len(),
        {
            match cur {
                Some(e) => {
                    proof {
                        let i0 = v@.len() as int;
                        assert(c.contains(c[i0]));
                        assert(self.edge_at(c[i0]).next.at(dir as int) == (if i0 + 1 < c.len() {
                            Result::<EdgeIndex, NodeIndex>::Ok(c[i0 + 1])
                        } else {
                            Result::<EdgeIndex, NodeIndex>::Err(idx)
                        }));
                    }
                    let lnk = match &self.edges[e.0] {
                        Ok(edge) => edge.next.get(dir),
                        Err(_) => unreached(),
                    };
                    v.push(e);
                    cur = match lnk {
                        Ok(e2) => Some(e2),
                        Err(_) => None,
                    };
                    proof {
                        assert(v@ =~= c.take(v@.len() as int));
                    }
                },
                None => {
                    proof {
                        assert(v@ =~= c);
                    }
                    return v;
                },
            }
        }
    }

    /// The edges of `idx`'s direction-`dir` chain, as a finite sequence in
    /// chain order (most recently linked first).
    pub fn edges(&self, idx: NodeIndex, dir: usize) -> (r: Edges)
        requires
            dir < 2,
            self.wf(),
            self.node_live(idx),
        ensures
            r.remaining() == self.chain(idx, dir as int),
            r.items@ == self.chain(idx, dir as int),
            r.pos == 0,
    {
        let items = self.chain_collect(idx, dir);
        let r = Edges { items, pos: 0 };
        proof {
            assert(r.remaining() =~= r.items@);
        }
        r
    }

    /// The neighbors of `idx` in direction `dir`: for each edge of the
    /// chain, the far endpoint (found by walking the opposite chain to its
    /// terminating node) together with the edge.
    #[verifier::loop_isolation(false)]
    pub fn neighbors(&self, idx: NodeIndex, dir: usize) -> (r: Neighbors)
        requires
            dir < 2,
            self.wf(),
            self.node_live(idx),
        ensures
            r.pos == 0,
            r.remaining() == r.items@,
            r.items@.len() == self.chain(idx, dir as int).len(),
            forall|k: int|
                0 <= k < r.items@.len() ==> (#[trigger] r.items@[k]).1 == self.chain(
                    idx,
                    dir as int,
                )[k] && r.items@[k].0 == self.other(dir as int, self.chain(idx, dir as int)[k]),
    {
        let ghost c = self.chain(idx, dir as int);
        proof {
            assert(self.chain_ok(idx, dir as int));
        }
        let chain = self.chain_collect(idx, dir);
        let node_dir: usize = 1 - dir;
        let mut items: Vec<(NodeIndex, EdgeIndex)> = Vec::new();
        let mut i: usize = 0;
        while i < chain.len()
            invariant
                i <= chain@.len(),
                items@.len() == i,
                forall|k: int|
                    0 <= k < i ==> (#[trigger] items@[k]).1 == c[k] && items@[k].0 == self.other(
                        dir as int,
                        c[k],
                    ),
            decreases chain@.len() - i,
        {
            let e = chain[i];
            proof {
                assert(c.contains(c[i as int]));
            }
            let nb = self.chain_end(e, node_dir);
            items.push((nb, e));
            i += 1;
        }
        let r = Neighbors { items, pos: 0 };
        proof {
            assert(r.remaining() =~= r.items@);
        }
        r
    }
}

/// Breadth-first traversal order over the nodes reachable from a start node,
/// handed out one by one, the start node first.
pub struct Bfs {
    pub order: Vec<NodeIndex>,
    pub pos: usize,
}

impl Bfs {
    /// What is still to be yielded.
    pub open spec fn remaining(self) -> Seq<NodeIndex> {
        if self.pos as int <= self.order@.len() {
            self.order@.skip(self.pos as int)
        } else {
            Seq::empty()
        }
    }

    /// Yields the next node in breadth-first order, or nothing once done.
    pub fn next(&mut self) -> (r: Option<NodeIndex>)
        ensures
            old(self).remaining().len() > 0 ==> r == Some(old(self).remaining()[0])
                && final(self).remaining() == old(self).remaining().skip(1),
            old(self).remaining().len() == 0 ==> r is None && *final(self) == *old(self),
    {
        if self.pos < self.order.len() {
            let v = self.order[self.pos];
            self.pos += 1;
            proof {
                assert(final(self).remaining() =~= old(self).remaining().skip(1));
            }
            return Some(v);
        }
        None
    }
}

/// A duplicate-free sequence of node handles below a bound cannot be longer
/// than the bound.
pub proof fn lemma_bounded_distinct_len(s: Seq<NodeIndex>, bound: nat)
    requires
        s.no_duplicates(),
        forall|i: int| 0 <= i < s.len() ==> (#[trigger] s[i]).0 < bound,
    ensures
        s.len() <= bound,
{
    let ints = s.map_values(|v: NodeIndex| v.0 as int);
    assert(ints.no_duplicates()) by {
        assert forall|a: int, b: int| 0 <= a < b < ints.len() implies ints[a] != ints[b] by {
            assert(s[a] != s[b]);
        }
    }
    ints.unique_seq_to_set();
    assert(ints.to_set().subset_of(vstd::set_lib::set_int_range(0, bound as int))) by {
        assert forall|x: int| ints.to_set().contains(x) implies 0 <= x < bound by {
            let i = choose|i: int| 0 <= i < ints.len() && ints[i] == x;
            assert(s[i].0 < bound);
        }
    }
    vstd::set_lib::lemma_int_range(0, bound as int);
    vstd::set_lib::lemma_len_subset(
        ints.to_set(),
        vstd::set_lib::set_int_range(0, bound as int),
    );
}

impl<N, E> Graph<N, E> {
    /// One hop in direction `d`: some live edge owned by `u` ends at `v`.
    pub open spec fn step(self, d: int, u: NodeIndex, v: NodeIndex) -> bool {
        exists|e: EdgeIndex|
            #[trigger] self.edge_live(e) && self.owner(d, e) == u && self.other(d, e) == v
    }

    /// A nonempty sequence of nodes, each hop following a live edge.
    pub open spec fn is_path(self, d: int, p: Seq<NodeIndex>) -> bool {
        &&& p.len() > 0
        &&& forall|i: int| 0 <= i < p.len() - 1 ==> self.step(d, p[i], #[trigger] p[i + 1])
    }

    /// `t` can be reached from `s` by following direction-`d` edges (in zero
    /// or more hops).
    pub open spec fn reachable(self, d: int, s: NodeIndex, t: NodeIndex) -> bool {
        exists|p: Seq<NodeIndex>| #[trigger] self.is_path(d, p) && p[0] == s && p.last() == t
    }

    /// A set of nodes containing the path's start and closed under single
    /// hops contains the path's end.
    proof fn lemma_path_in_closed(self, d: int, s: Seq<NodeIndex>, p: Seq<NodeIndex>)
        requires
            self.is_path(d, p),
            s.contains(p[0]),
            forall|u: NodeIndex, v: NodeIndex|
                s.contains(u) && #[trigger] self.step(d, u, v) ==> s.contains(v),
        ensures
            s.contains(p.last()),
        decreases p.len(),
    {
        if p.len() == 1 {
        } else {
            let q = p.drop_last();
            assert(self.is_path(d, q)) by {
                assert forall|i: int| 0 <= i < q.len() - 1 implies self.step(
                    d,
                    q[i],
                    #[trigger] q[i + 1],
                ) by {
                    assert(self.step(d, p[i], p[i + 1]));
                }
            }
            self.lemma_path_in_closed(d, s, q);
            let i = p.len() - 2;
            assert(self.step(d, p[i], p[i + 1]));
            assert(q.last() == p[i]);
            assert(s.contains(q.last()));
        }
    }

    /// `t` is reachable from `s` in at most `n` hops.
    pub open spec fn reach_n(self, d: int, s: NodeIndex, t: NodeIndex, n: nat) -> bool
        decreases n,
    {
        s == t || (n > 0 && exists|w: NodeIndex|
            #[trigger] self.step(d, s, w) && self.reach_n(d, w, t, (n - 1) as nat))
    }

    /// More hops reach no fewer nodes.
    proof fn lemma_reach_n_mono(self, d: int, s: NodeIndex, t: NodeIndex, n: nat, m: nat)
        requires
            self.reach_n(d, s, t, n),
            n <= m,
        ensures
            self.reach_n(d, s, t, m),
        decreases n,
    {
        if s != t {
            let w = choose|w: NodeIndex|
                #[trigger] self.step(d, s, w) && self.reach_n(d, w, t, (n - 1) as nat);
            self.lemma_reach_n_mono(d, w, t, (n - 1) as nat, (m - 1) as nat);
        }
    }

    /// One more hop behind a bounded walk.
    proof fn lemma_reach_n_extend(self, d: int, s: NodeIndex, u: NodeIndex, v: NodeIndex, n: nat)
        requires
            self.reach_n(d, s, u, n),
            self.step(d, u, v),
        ensures
            self.reach_n(d, s, v, n + 1),
        decreases n,
    {
        if s == u {
            assert(self.reach_n(d, v, v, n));
        } else {
            let w = choose|w: NodeIndex|
                #[trigger] self.step(d, s, w) && self.reach_n(d, w, u, (n - 1) as nat);
            self.lemma_reach_n_extend(d, w, u, v, (n - 1) as nat);
        }
    }

    /// Bounded walks are exactly paths: reachability agrees with `reach_n`.
    proof fn lemma_reach_iff_reach_n(self, d: int, s: NodeIndex, t: NodeIndex)
        ensures
            self.reachable(d, s, t) <==> exists|n: nat| self.reach_n(d, s, t, n),
    {
        if self.reachable(d, s, t) {
            let p = choose|p: Seq<NodeIndex>|
                #[trigger] self.is_path(d, p) && p[0] == s && p.last() == t;
            self.lemma_path_to_reach_n(d, p);
            assert(self.reach_n(d, s, t, (p.len() - 1) as nat));
        }
        if exists|n: nat| self.reach_n(d, s, t, n) {
            let n = choose|n: nat| self.reach_n(d, s, t, n);
            self.lemma_reach_n_to_path(d, s, t, n);
        }
    }

    /// A path is a bounded walk of its own length.
    proof fn lemma_path_to_reach_n(self, d: int, p: Seq<NodeIndex>)
        requires
            self.is_path(d, p),
        ensures
            self.reach_n(d, p[0], p.last(), (p.len() - 1) as nat),
        decreases p.len(),
    {
        if p.len() > 1 {
            let q = p.subrange(1, p.len() as int);
            assert(self.is_path(d, q)) by {
                assert forall|i: int| 0 <= i < q.len() - 1 implies self.step(
                    d,
                    q[i],
                    #[trigger] q[i + 1],
                ) by {
                    let j = i + 1;
                    assert(self.step(d, p[j], p[j + 1]));
                }
            }
            self.lemma_path_to_reach_n(d, q);
            assert(q.last() == p.last());
            assert(self.step(d, p[0], p[1]));
            assert(q[0] == p[1]);
        }
    }

    /// A bounded walk yields a path.
    proof fn lemma_reach_n_to_path(self, d: int, s: NodeIndex, t: NodeIndex, n: nat)
        requires
            self.reach_n(d, s, t, n),
        ensures
            self.reachable(d, s, t),
        decreases n,
    {
        if s == t {
            let p0 = seq![s];
            assert(self.is_path(d, p0) && p0[0] == s && p0.last() == t);
        } else {
            let w = choose|w: NodeIndex|
                #[trigger] self.step(d, s, w) && self.reach_n(d, w, t, (n - 1) as nat);
            self.lemma_reach_n_to_path(d, w, t, (n - 1) as nat);
            let q = choose|q: Seq<NodeIndex>|
                #[trigger] self.is_path(d, q) && q[0] == w && q.last() == t;
            let p = seq![s] + q;
            assert(self.is_path(d, p)) by {
                assert forall|i: int| 0 <= i < p.len() - 1 implies self.step(
                    d,
                    p[i],
                    #[trigger] p[i + 1],
                ) by {
                    if i == 0 {
                        assert(p[1] == q[0]);
                    } else {
                        let j = i - 1;
                        assert(p[i] == q[j] && p[i + 1] == q[j + 1]);
                        assert(self.step(d, q[j], q[j + 1]));
                    }
                }
            }
            assert(p[0] == s && p.last() == t);
        }
    }

    /// `k` is the exact hop distance: reachable in `k` hops and in no fewer.
    pub open spec fn is_dist(self, d: int, s: NodeIndex, t: NodeIndex, k: nat) -> bool {
        self.reach_n(d, s, t, k) && (k == 0 || !self.reach_n(d, s, t, (k - 1) as nat))
    }

    /// The hop distance from `s` to `t`: the length of a shortest
    /// direction-`d` path (its breadth-first depth).
    pub open spec fn dist(self, d: int, s: NodeIndex, t: NodeIndex) -> nat {
        choose|k: nat| self.is_dist(d, s, t, k)
    }

    /// Every reachable node has an exact distance, below every walk bound.
    proof fn lemma_dist_exists(self, d: int, s: NodeIndex, t: NodeIndex)
        requires
            self.reachable(d, s, t),
        ensures
            self.is_dist(d, s, t, self.dist(d, s, t)),
            forall|n: nat| self.reach_n(d, s, t, n) ==> self.dist(d, s, t) <= n,
            self.reach_n(d, s, t, self.dist(d, s, t)),
    {
        self.lemma_reach_iff_reach_n(d, s, t);
        let n0 = choose|n: nat| self.reach_n(d, s, t, n);
        self.lemma_least_bound(d, s, t, n0);
        let k = choose|k: nat| self.is_dist(d, s, t, k);
        assert(self.is_dist(d, s, t, self.dist(d, s, t)));
        assert forall|n: nat| self.reach_n(d, s, t, n) implies self.dist(d, s, t) <= n by {
            let dd = self.dist(d, s, t);
            if dd > n {
                self.lemma_reach_n_mono(d, s, t, n, (dd - 1) as nat);
            }
        }
    }

    /// Below any walk bound lies an exact distance.
    proof fn lemma_least_bound(self, d: int, s: NodeIndex, t: NodeIndex, n: nat)
        requires
            self.reach_n(d, s, t, n),
        ensures
            exists|k: nat| self.is_dist(d, s, t, k),
        decreases n,
    {
        if n == 0 {
            assert(self.is_dist(d, s, t, 0));
        } else if self.reach_n(d, s, t, (n - 1) as nat) {
            self.lemma_least_bound(d, s, t, (n - 1) as nat);
        } else {
            assert(self.is_dist(d, s, t, n));
        }
    }

    /// The distance to the start itself is zero, and zero only there.
    proof fn lemma_dist_zero(self, d: int, s: NodeIndex, t: NodeIndex)
        requires
            self.reachable(d, s, t),
        ensures
            self.dist(d, s, t) == 0 <==> s == t,
    {
        self.lemma_dist_exists(d, s, t);
        if s == t {
            assert(self.reach_n(d, s, t, 0));
        } else {
            if self.dist(d, s, t) == 0 {
                assert(self.reach_n(d, s, t, 0));
            }
        }
    }

    /// A hop off a reachable node overshoots its distance by at most one.
    proof fn lemma_dist_triangle(self, d: int, s: NodeIndex, u: NodeIndex, v: NodeIndex)
        requires
            self.reachable(d, s, u),
            self.step(d, u, v),
        ensures
            self.reachable(d, s, v),
            self.dist(d, s, v) <= self.dist(d, s, u) + 1,
    {
        self.lemma_dist_exists(d, s, u);
        self.lemma_reach_n_extend(d, s, u, v, self.dist(d, s, u));
        self.lemma_reach_n_to_path(d, s, v, self.dist(d, s, u) + 1);
        self.lemma_dist_exists(d, s, v);
    }

    /// The last hop of a bounded walk.
    proof fn lemma_last_hop(self, d: int, s: NodeIndex, t: NodeIndex, n: nat)
        requires
            self.reach_n(d, s, t, n),
            s != t,
        ensures
            exists|w: NodeIndex|
                #[trigger] self.step(d, w, t) && self.reach_n(d, s, w, (n - 1) as nat),
        decreases n,
    {
        let v = choose|v: NodeIndex|
            #[trigger] self.step(d, s, v) && self.reach_n(d, v, t, (n - 1) as nat);
        if v == t {
            assert(self.step(d, s, t) && self.reach_n(d, s, s, (n - 1) as nat));
        } else {
            self.lemma_last_hop(d, v, t, (n - 1) as nat);
            let w = choose|w: NodeIndex|
                #[trigger] self.step(d, w, t) && self.reach_n(d, v, w, (n - 2) as nat);
            assert(self.reach_n(d, s, w, (n - 1) as nat)) by {
                assert(self.step(d, s, v) && self.reach_n(d, v, w, ((n - 1) - 1) as nat));
            }
        }
    }

    /// A node at distance `k >= 1` has a predecessor at distance `k - 1`.
    proof fn lemma_dist_pred(self, d: int, s: NodeIndex, t: NodeIndex)
        requires
            self.reachable(d, s, t),
            t != s,
        ensures
            exists|w: NodeIndex|
                #[trigger] self.step(d, w, t) && self.reachable(d, s, w) && self.dist(d, s, w)
                    + 1 == self.dist(d, s, t),
    {
        self.lemma_dist_exists(d, s, t);
        let k = self.dist(d, s, t);
        assert(k >= 1) by {
            if k == 0 {
                assert(self.reach_n(d, s, t, 0));
            }
        }
        self.lemma_last_hop(d, s, t, k);
        let w = choose|w: NodeIndex|
            #[trigger] self.step(d, w, t) && self.reach_n(d, s, w, (k - 1) as nat);
        self.lemma_reach_n_to_path(d, s, w, (k - 1) as nat);
        self.lemma_dist_exists(d, s, w);
        assert(self.dist(d, s, w) <= k - 1);
        assert(self.dist(d, s, w) >= k - 1) by {
            if self.dist(d, s, w) < k - 1 {
                self.lemma_reach_n_extend(d, s, w, t, self.dist(d, s, w));
                self.lemma_reach_n_mono(d, s, t, self.dist(d, s, w) + 1, (k - 1) as nat);
            }
        }
        assert(self.step(d, w, t) && self.reachable(d, s, w) && self.dist(d, s, w) + 1 == k);
    }

    /// A hop is exactly what one round of `neighbors` yields: `v` follows
    /// `u` by one direction-`d` edge exactly when `v` stands in `u`'s chain
    /// resolved to its far endpoints.  So the nodes `bfs` visits are the
    /// ones reached by repeated neighbor expansion.
    pub proof fn lemma_step_is_neighbor(self, d: int, u: NodeIndex, v: NodeIndex)
        requires
            self.wf(),
            self.node_live(u),
            0 <= d < 2,
        ensures
            self.step(d, u, v) <==> exists|k: int|
                0 <= k < self.chain(u, d).len() && self.other(d, #[trigger] self.chain(u, d)[k])
                    == v,
    {
        let c = self.chain(u, d);
        assert(self.chain_ok(u, d));
        if self.step(d, u, v) {
            let e = choose|e: EdgeIndex|
                #[trigger] self.edge_live(e) && self.owner(d, e) == u && self.other(d, e) == v;
            assert(self.chain(self.owner(d, e), d).contains(e));
            let k = choose|k: int| 0 <= k < c.len() && c[k] == e;
            assert(self.other(d, c[k]) == v);
        }
        if exists|k: int|
            0 <= k < c.len() && self.other(d, #[trigger] c[k]) == v {
            let k = choose|k: int| 0 <= k < c.len() && self.other(d, #[trigger] c[k]) == v;
            assert(c.contains(c[k]));
            assert(self.edge_live(c[k]) && self.owner(d, c[k]) == u);
        }
    }

    /// Breadth-first traversal from `idx` in direction `dir`: visits exactly
    /// the reachable nodes, each exactly once, the start node first, using a
    /// FIFO frontier and a visited set.
    #[verifier::loop_isolation(false)]
    pub fn bfs(&self, idx: NodeIndex, dir: usize) -> (r: Bfs)
        requires
            dir < 2,
            self.wf(),
            self.node_live(idx),
        ensures
            r.pos == 0,
            r.remaining() == r.order@,
            r.order@.len() > 0 && r.order@[0] == idx,
            r.order@.no_duplicates(),
            forall|v: NodeIndex|
                #[trigger] r.order@.contains(v) <==> self.reachable(dir as int, idx, v),
            forall|k: int, l: int|
                0 <= k <= l < r.order@.len() ==> self.dist(dir as int, idx, #[trigger] r.order@[k])
                    <= self.dist(dir as int, idx, #[trigger] r.order@[l]),
    {
        let ghost d = dir as int;
        let mut visited: Vec<bool> = Vec::new();
        while visited.len() < self.nodes.len()
            invariant
                visited@.len() <= self.nodes@.len(),
                forall|j: int| 0 <= j < visited@.len() ==> !(#[trigger] visited@[j]),
            decreases self.nodes@.len() - visited@.len(),
        {
            visited.push(false);
        }
        let mut order: Vec<NodeIndex> = Vec::new();
        order.push(idx);
        visited[idx.0] = true;
        proof {
            // the start node reaches itself by the one-node path, at depth
            // zero
            let p0 = seq![idx];
            assert(self.is_path(d, p0) && p0[0] == idx && p0.last() == idx);
            assert(self.reachable(d, idx, idx));
            self.lemma_dist_zero(d, idx, idx);
        }
        let mut qh: usize = 0;
        while qh < order.len()
            invariant
                visited@.len() == self.nodes@.len(),
                qh <= order@.len(),
                order@.len() >= 1 && order@[0] == idx,
                order@.no_duplicates(),
                forall|k: int| 0 <= k < order@.len() ==> self.node_live(#[trigger] order@[k]),
                forall|j: int|
                    0 <= j < visited@.len() ==> (#[trigger] visited@[j] <==> order@.contains(
                        NodeIndex(j as usize),
                    )),
                forall|k: int|
                    0 <= k < order@.len() ==> self.reachable(d, idx, #[trigger] order@[k]),
                forall|k: int, w: NodeIndex|
                    0 <= k < qh && #[trigger] self.step(d, order@[k], w) ==> order@.contains(w),
                forall|k: int, l: int|
                    0 <= k <= l < order@.len() ==> self.dist(d, idx, #[trigger] order@[k])
                        <= self.dist(d, idx, #[trigger] order@[l]),
                forall|l: int|
                    qh < order@.len() && qh <= l < order@.len() ==> self.dist(
                        d,
                        idx,
                        #[trigger] order@[l],
                    ) <= self.dist(d, idx, order@[qh as int]) + 1,
                forall|v: NodeIndex|
                    qh < order@.len() && self.reachable(d, idx, v) && (#[trigger] self.dist(
                        d,
                        idx,
                        v,
                    )) < self.dist(d, idx, order@[qh as int]) ==> order@.contains(v),
                order@.len() <= self.nodes@.len(),
            decreases self.nodes@.len() - qh,
        {
            let u = order[qh];
            let ghost c = self.chain(u, d);
            proof {
                assert(self.chain_ok(u, d));
            }
            let nbrs = self.neighbors(u, dir);
            let mut i: usize = 0;
            while i < nbrs.items.len()
                invariant
                    nbrs.items@.len() == c.len(),
                    forall|k: int|
                        0 <= k < c.len() ==> (#[trigger] nbrs.items@[k]).1 == c[k]
                            && nbrs.items@[k].0 == self.other(d, c[k]),
                    i <= c.len(),
                    visited@.len() == self.nodes@.len(),
                    qh < order@.len(),
                    order@.len() >= 1 && order@[0] == idx,
                    order@.no_duplicates(),
                    order@[qh as int] == u,
                    forall|k: int| 0 <= k < order@.len() ==> self.node_live(#[trigger] order@[k]),
                    forall|j: int|
                        0 <= j < visited@.len() ==> (#[trigger] visited@[j] <==> order@.contains(
                            NodeIndex(j as usize),
                        )),
                    forall|k: int|
                        0 <= k < order@.len() ==> self.reachable(d, idx, #[trigger] order@[k]),
                    forall|k: int, w: NodeIndex|
                        0 <= k < qh && #[trigger] self.step(d, order@[k], w) ==> order@.contains(
                            w,
                        ),
                    forall|k: int, l: int|
                        0 <= k <= l < order@.len() ==> self.dist(d, idx, #[trigger] order@[k])
                            <= self.dist(d, idx, #[trigger] order@[l]),
                    forall|l: int|
                        qh <= l < order@.len() ==> self.dist(d, idx, #[trigger] order@[l])
                            <= self.dist(d, idx, order@[qh as int]) + 1,
                    forall|v: NodeIndex|
                        self.reachable(d, idx, v) && (#[trigger] self.dist(d, idx, v))
                            < self.dist(d, idx, order@[qh as int]) ==> order@.contains(v),
                    forall|k: int|
                        0 <= k < i ==> order@.contains(#[trigger] self.other(d, c[k])),
                    order@.len() <= self.nodes@.len(),
                decreases c.len() - i,
            {
                let (v, _e) = nbrs.items[i];
                proof {
                    assert(c.contains(c[i as int]));
                    assert(self.edge_live(c[i as int]));
                    assert(self.owner(d, c[i as int]) == u);
                    assert(self.node_live(self.other(d, c[i as int])));
                    assert(v == self.other(d, c[i as int]));
                    assert(self.step(d, u, v)) by {
                        assert(self.edge_live(c[i as int]) && self.owner(d, c[i as int]) == u
                            && self.other(d, c[i as int]) == v);
                    }
                    assert(self.reachable(d, idx, u)) by {
                        assert(self.reachable(d, idx, order@[qh as int]));
                    }
                    self.lemma_dist_triangle(d, idx, u, v);
                }
                if !visited[v.0] {
                    let ghost order0 = order@;
                    visited[v.0] = true;
                    order.push(v);
                    proof {
                        // extend u's witness path by this edge
                        assert(self.reachable(d, idx, u));
                        let pu = choose|pu: Seq<NodeIndex>|
                            #[trigger] self.is_path(d, pu) && pu[0] == idx && pu.last() == u;
                        let pv = pu.push(v);
                        assert(self.is_path(d, pv)) by {
                            assert(self.step(d, u, v)) by {
                                assert(self.edge_live(c[i as int]) && self.owner(d, c[i as int])
                                    == u && self.other(d, c[i as int]) == v);
                            }
                            assert forall|k: int| 0 <= k < pv.len() - 1 implies self.step(
                                d,
                                pv[k],
                                #[trigger] pv[k + 1],
                            ) by {
                                if k < pu.len() - 1 {
                                    assert(self.step(d, pu[k], pu[k + 1]));
                                }
                            }
                        }
                        assert(pv[0] == idx && pv.last() == v);
                        assert(self.reachable(d, idx, v));
                        assert(order@.no_duplicates()) by {
                            assert(!order0.contains(v));
                            assert forall|a: int, b: int|
                                0 <= a < b < order@.len() implies order@[a] != order@[b] by {
                                if b < order@.len() - 1 {
                                    assert(order0[a] == order@[a] && order0[b] == order@[b]);
                                } else {
                                    assert(order0[a] == order@[a]);
                                    assert(order0.contains(order@[a]));
                                }
                            }
                        }
                        lemma_bounded_distinct_len(order@, self.nodes@.len());
                        // facts about the extended order: old entries keep
                        // their places, membership only grows
                        assert(order@.len() == order0.len() + 1);
                        assert forall|k: int|
                            0 <= k < order0.len() implies order@[k] == order0[k] by {}
                        assert forall|w: NodeIndex| order0.contains(w) implies order@.contains(
                            w,
                        ) by {
                            let k = choose|k: int| 0 <= k < order0.len() && order0[k] == w;
                            assert(order@[k] == w);
                        }
                        assert forall|j: int|
                            0 <= j < visited@.len() implies (#[trigger] visited@[j]
                                <==> order@.contains(NodeIndex(j as usize))) by {
                            let nj = NodeIndex(j as usize);
                            if j == v.0 as int {
                                assert(order@[order@.len() - 1] == v);
                            } else {
                                if order@.contains(nj) {
                                    let k = choose|k: int|
                                        0 <= k < order@.len() && order@[k] == nj;
                                    assert(k < order0.len());
                                    assert(order0.contains(nj));
                                }
                            }
                        }
                        assert forall|k: int, w: NodeIndex|
                            0 <= k < qh && #[trigger] self.step(d, order@[k], w)
                                implies order@.contains(w) by {
                            assert(order@[k] == order0[k]);
                            assert(order0.contains(w));
                        }
                        // a fresh visit happens exactly at the node's depth
                        assert(self.dist(d, idx, v) == self.dist(d, idx, u) + 1) by {
                            if self.dist(d, idx, v) <= self.dist(d, idx, u) {
                                self.lemma_dist_zero(d, idx, v);
                                if v == idx {
                                    assert(order0.contains(idx)) by {
                                        assert(order0[0] == idx);
                                    }
                                } else {
                                    self.lemma_dist_pred(d, idx, v);
                                    let w = choose|w: NodeIndex|
                                        #[trigger] self.step(d, w, v) && self.reachable(
                                            d,
                                            idx,
                                            w,
                                        ) && self.dist(d, idx, w) + 1 == self.dist(d, idx, v);
                                    assert(self.dist(d, idx, w) < self.dist(d, idx, u));
                                    assert(order0.contains(w));
                                    let p = choose|p: int|
                                        0 <= p < order0.len() && order0[p] == w;
                                    assert(p < qh) by {
                                        if p >= qh {
                                            assert(self.dist(d, idx, order0[qh as int])
                                                <= self.dist(d, idx, order0[p]));
                                        }
                                    }
                                    assert(self.step(d, order0[p], v));
                                    assert(order0.contains(v));
                                }
                            }
                        }
                        // the new tail entry sits at the deepest level
                        assert forall|k: int, l: int|
                            0 <= k <= l < order@.len() implies self.dist(
                            d,
                            idx,
                            #[trigger] order@[k],
                        ) <= self.dist(d, idx, #[trigger] order@[l]) by {
                            if l == order@.len() - 1 {
                                if k < l {
                                    assert(order@[k] == order0[k]);
                                    if k >= qh {
                                        assert(self.dist(d, idx, order0[k]) <= self.dist(
                                            d,
                                            idx,
                                            order0[qh as int],
                                        ) + 1);
                                    } else {
                                        assert(self.dist(d, idx, order0[k]) <= self.dist(
                                            d,
                                            idx,
                                            order0[qh as int],
                                        ));
                                    }
                                }
                            } else {
                                assert(order@[k] == order0[k] && order@[l] == order0[l]);
                            }
                        }
                        assert forall|l: int|
                            qh <= l < order@.len() implies self.dist(d, idx, #[trigger] order@[l])
                            <= self.dist(d, idx, order@[qh as int]) + 1 by {
                            if l < order@.len() - 1 {
                                assert(order@[l] == order0[l]);
                            }
                        }
                    }
                }
                i += 1;
            }
            proof {
                // all hops out of u now lead into the visited order
                assert forall|w: NodeIndex| #[trigger] self.step(d, u, w) implies order@.contains(
                    w,
                ) by {
                    let e = choose|e: EdgeIndex|
                        #[trigger] self.edge_live(e) && self.owner(d, e) == u && self.other(d, e)
                            == w;
                    assert(self.chain(self.owner(d, e), d).contains(e));
                    let k = choose|k: int| 0 <= k < c.len() && c[k] == e;
                    assert(order@.contains(self.other(d, c[k])));
                }
                // when the head advances, the frontier deepens by at most
                // one, and everything at the old depth is visited by now
                if qh + 1 < order@.len() {
                    let dd = self.dist(d, idx, order@[qh as int]);
                    assert forall|v: NodeIndex|
                        self.reachable(d, idx, v) && (#[trigger] self.dist(d, idx, v))
                            < self.dist(d, idx, order@[qh + 1]) implies order@.contains(v) by {
                        if self.dist(d, idx, v) < dd {
                        } else {
                            assert(self.dist(d, idx, v) == dd) by {
                                assert(self.dist(d, idx, order@[qh + 1]) <= dd + 1);
                            }
                            self.lemma_dist_zero(d, idx, v);
                            if v == idx {
                                assert(order@[0] == idx);
                            } else {
                                self.lemma_dist_pred(d, idx, v);
                                let w = choose|w: NodeIndex|
                                    #[trigger] self.step(d, w, v) && self.reachable(d, idx, w)
                                        && self.dist(d, idx, w) + 1 == self.dist(d, idx, v);
                                assert(self.dist(d, idx, w) < dd);
                                assert(order@.contains(w));
                                let p = choose|p: int| 0 <= p < order@.len() && order@[p] == w;
                                assert(p < qh) by {
                                    if p >= qh {
                                        assert(self.dist(d, idx, order@[qh as int]) <= self.dist(
                                            d,
                                            idx,
                                            order@[p],
                                        ));
                                    }
                                }
                                assert(self.step(d, order@[p], v));
                            }
                        }
                    }
                    assert forall|l: int|
                        qh + 1 <= l < order@.len() implies self.dist(d, idx, #[trigger] order@[l])
                        <= self.dist(d, idx, order@[qh + 1]) + 1 by {
                        assert(self.dist(d, idx, order@[l]) <= dd + 1);
                        assert(dd <= self.dist(d, idx, order@[qh + 1]));
                    }
                }
            }
            qh += 1;
        }
        proof {
            // a closed visited set holds every reachable node
            assert forall|u2: NodeIndex, w: NodeIndex|
                order@.contains(u2) && #[trigger] self.step(d, u2, w) implies order@.contains(
                w,
            ) by {
                let k = choose|k: int| 0 <= k < order@.len() && order@[k] == u2;
                assert(self.step(d, order@[k], w));
            }
            assert forall|v: NodeIndex|
                self.reachable(d, idx, v) implies order@.contains(v) by {
                let p = choose|p: Seq<NodeIndex>|
                    #[trigger] self.is_path(d, p) && p[0] == idx && p.last() == v;
                assert(order@.contains(idx)) by {
                    assert(order@[0] == idx);
                }
                self.lemma_path_in_closed(d, order@, p);
            }
        }
        let r = Bfs { order, pos: 0 };
        proof {
            assert(r.remaining() =~= r.order@);
        }
        r
    }
}

/// Per-node result of the staged scheduling computation: the node's stage in
/// the traversal and its edge counts per direction.
#[derive(Clone, Copy, Debug, PartialEq, Eq, Structural)]
pub struct ScheduleInfo {
    pub stage: usize,
    pub count: Links<usize>,
}

impl ScheduleInfo {
    /// A fresh entry discovered at `stage` with `count` direction-`dir`
    /// edges and no sightings from the other side yet.
    fn new(stage: usize, count: usize, dir: usize) -> (r: Self)
        requires
            dir < 2,
        ensures
            r.stage == stage,
            r.count.at(dir as int) == count,
            r.count.at(1 - dir as int) == 0,
    {
        let mut info = ScheduleInfo { stage, count: Links { out: 0, inc: 0 } };
        info.count.set(dir, count);
        info
    }

    /// A repeated sighting: the stage moves to the current frontier depth
    /// and the opposite-direction edge count grows by one.
    fn update(&mut self, stage: usize, dir: usize)
        requires
            dir < 2,
            old(self).count.at(1 - dir as int) < usize::MAX,
        ensures
            final(self).stage == stage,
            final(self).count.at(1 - dir as int) == old(self).count.at(1 - dir as int) + 1,
            final(self).count.at(dir as int) == old(self).count.at(dir as int),
    {
        self.stage = stage;
        let d2: usize = 1 - dir;
        let c = self.count.get(d2);
        self.count.set(d2, c + 1);
    }
}

/// A schedule entry exists for `v`.
pub open spec fn sched_has(s: Seq<(NodeIndex, ScheduleInfo)>, v: NodeIndex) -> bool {
    exists|k: int| 0 <= k < s.len() && (#[trigger] s[k]).0 == v
}

/// The set of edge handles below a bound is finite and no larger than it.
pub proof fn lemma_edges_below_finite(bound: nat)
    ensures
        Set::new(|e: EdgeIndex| (e.0 as nat) < bound).finite(),
        Set::new(|e: EdgeIndex| (e.0 as nat) < bound).len() <= bound,
    decreases bound,
{
    if bound == 0 {
        assert(Set::new(|e: EdgeIndex| (e.0 as nat) < bound) =~= Set::empty());
    } else {
        lemma_edges_below_finite((bound - 1) as nat);
        let prev = Set::new(|e: EdgeIndex| (e.0 as nat) < bound - 1);
        assert(Set::new(|e: EdgeIndex| (e.0 as nat) < bound) =~= prev.insert(
            EdgeIndex((bound - 1) as usize),
        ));
    }
}

impl<N, E> Graph<N, E> {
    /// Whether a node slot is live.
    pub fn has_node(&self, idx: NodeIndex) -> (r: bool)
        ensures
            r == self.node_live(idx),
    {
        idx.0 < self.nodes.len() && self.nodes[idx.0].is_ok()
    }

    /// Whether an edge slot is live.
    pub fn has_edge(&self, idx: EdgeIndex) -> (r: bool)
        ensures
            r == self.edge_live(idx),
    {
        idx.0 < self.edges.len() && self.edges[idx.0].is_ok()
    }

    /// Whether no node and no edge is live (all slots are tombstones).
    pub fn no_live(&self) -> (r: bool)
        ensures
            r == ((forall|v: NodeIndex| !self.node_live(v)) && (forall|e: EdgeIndex|
                !self.edge_live(e))),
    {
        let mut i: usize = 0;
        while i < self.nodes.len()
            invariant
                i <= self.nodes@.len(),
                forall|j: int| 0 <= j < i ==> self.nodes@[j] is Err,
            decreases self.nodes@.len() - i,
        {
            if self.nodes[i].is_ok() {
                proof {
                    assert(self.node_live(NodeIndex(i)));
                }
                return false;
            }
            i += 1;
        }
        let mut k: usize = 0;
        while k < self.edges.len()
            invariant
                k <= self.edges@.len(),
                forall|j: int| 0 <= j < k ==> self.edges@[j] is Err,
            decreases self.edges@.len() - k,
        {
            if self.edges[k].is_ok() {
                proof {
                    assert(self.edge_live(EdgeIndex(k)));
                }
                return false;
            }
            k += 1;
        }
        proof {
            assert forall|v: NodeIndex| !self.node_live(v) by {}
            assert forall|e: EdgeIndex| !self.edge_live(e) by {}
        }
        true
    }

    /// Drops every slot, tombstones included: the empty graph again.
    pub fn clear(&mut self)
        ensures
            final(self).wf(),
            final(self).nodes_view() == Map::<NodeIndex, N>::empty(),
            final(self).edges_view() == Map::<EdgeIndex, EdgeInfo<E>>::empty(),
            final(self).nodes@.len() == 0,
            final(self).edges@.len() == 0,
    {
        self.nodes.clear();
        self.edges.clear();
        proof {
            self.model@ = ChainModel {
                chains: Map::empty(),
                srcs: Map::empty(),
                dsts: Map::empty(),
            };
            assert(self.nodes_view() =~= Map::<NodeIndex, N>::empty());
            assert(self.edges_view() =~= Map::<EdgeIndex, EdgeInfo<E>>::empty());
        }
    }

    /// Finds the entry for `v`, if any.
    fn sched_find(sched: &Vec<(NodeIndex, ScheduleInfo)>, v: NodeIndex) -> (r: Option<usize>)
        ensures
            r is Some ==> r->Some_0 < sched@.len() && sched@[r->Some_0 as int].0 == v,
            r is None ==> !sched_has(sched@, v),
    {
        let mut k: usize = 0;
        while k < sched.len()
            invariant
                k <= sched@.len(),
                forall|j: int| 0 <= j < k ==> (#[trigger] sched@[j]).0 != v,
            decreases sched@.len() - k,
        {
            if sched[k].0 == v {
                return Some(k);
            }
            k += 1;
        }
        None
    }

    /// An edge arrives at `v` along a shortest path when its owner sits one
    /// hop closer to the start than `v` itself.
    pub open spec fn on_shortest(self, d: int, start: NodeIndex, e: EdgeIndex) -> bool {
        self.dist(d, start, self.owner(d, e)) + 1 == self.dist(d, start, self.other(d, e))
    }

    /// How many of the sighted edges arrive at `v` along a shortest path.
    pub open spec fn sighted_count(
        self,
        seen: Set<EdgeIndex>,
        d: int,
        start: NodeIndex,
        v: NodeIndex,
    ) -> nat {
        Set::new(
            |e: EdgeIndex|
                seen.contains(e) && self.other(d, e) == v && self.on_shortest(d, start, e),
        ).len()
    }

    /// Sighting one new edge raises its endpoint's count by one when it
    /// arrives along a shortest path, else no count at all; no other node's
    /// count moves either way.
    proof fn lemma_sighted_step(self, seen: Set<EdgeIndex>, e: EdgeIndex, d: int, start: NodeIndex)
        requires
            seen.finite(),
            !seen.contains(e),
        ensures
            self.on_shortest(d, start, e) ==> self.sighted_count(
                seen.insert(e),
                d,
                start,
                self.other(d, e),
            ) == self.sighted_count(seen, d, start, self.other(d, e)) + 1,
            !self.on_shortest(d, start, e) ==> self.sighted_count(
                seen.insert(e),
                d,
                start,
                self.other(d, e),
            ) == self.sighted_count(seen, d, start, self.other(d, e)),
            forall|w: NodeIndex|
                w != self.other(d, e) ==> #[trigger] self.sighted_count(
                    seen.insert(e),
                    d,
                    start,
                    w,
                ) == self.sighted_count(seen, d, start, w),
    {
        let v = self.other(d, e);
        let before = Set::new(
            |f: EdgeIndex|
                seen.contains(f) && self.other(d, f) == v && self.on_shortest(d, start, f),
        );
        let after = Set::new(
            |f: EdgeIndex|
                seen.insert(e).contains(f) && self.other(d, f) == v && self.on_shortest(
                    d,
                    start,
                    f,
                ),
        );
        assert(before.subset_of(seen));
        vstd::set_lib::lemma_len_subset(before, seen);
        if self.on_shortest(d, start, e) {
            assert(after =~= before.insert(e));
        } else {
            assert(after =~= before);
        }
        assert forall|w: NodeIndex|
            w != v implies #[trigger] self.sighted_count(seen.insert(e), d, start, w)
            == self.sighted_count(seen, d, start, w) by {
            assert(Set::new(
                |f: EdgeIndex|
                    seen.insert(e).contains(f) && self.other(d, f) == w && self.on_shortest(
                        d,
                        start,
                        f,
                    ),
            ) =~= Set::new(
                |f: EdgeIndex|
                    seen.contains(f) && self.other(d, f) == w && self.on_shortest(d, start, f),
            ));
        }
    }

    /// How many live direction-`d` edges arrive at `v` along a shortest
    /// path from a reachable node.
    pub open spec fn into_count(self, d: int, start: NodeIndex, v: NodeIndex) -> nat {
        Set::new(
            |e: EdgeIndex|
                self.edge_live(e) && self.reachable(d, start, self.owner(d, e)) && self.other(
                    d,
                    e,
                ) == v && self.on_shortest(d, start, e),
        ).len()
    }

    /// Gathers traversal information for every node reachable from `idx` in
    /// direction `dir`: a breadth-first walk assigns each node its stage —
    /// its breadth-first depth, the length of a shortest direction-`dir`
    /// path from the start, which a sighting updates only when it arrives by
    /// a shorter-or-equal path — and counts its edges: the direction-`dir`
    /// count is the node's full chain length; the opposite count grows once
    /// per counted sighting, so it ends as the number of edges arriving
    /// along shortest paths, less the one that discovered the node (the
    /// start, at depth zero, was never discovered and counts none).
    #[verifier::loop_isolation(false)]
    pub fn schedule(&self, idx: NodeIndex, dir: usize) -> (r: Vec<(NodeIndex, ScheduleInfo)>)
        requires
            dir < 2,
            self.wf(),
            self.node_live(idx),
        ensures
            r@.len() >= 1,
            r@[0].0 == idx,
            r@[0].1.stage == 0,
            forall|k: int, l: int| 0 <= k < l < r@.len() ==> (#[trigger] r@[k]).0 != (
            #[trigger] r@[l]).0,
            forall|v: NodeIndex| sched_has(r@, v) <==> self.reachable(dir as int, idx, v),
            forall|k: int|
                0 <= k < r@.len() ==> (#[trigger] r@[k]).1.count.at(dir as int) == self.chain(
                    r@[k].0,
                    dir as int,
                ).len(),
            forall|k: int|
                0 <= k < r@.len() ==> (#[trigger] r@[k]).1.stage as nat == self.dist(
                    dir as int,
                    idx,
                    r@[k].0,
                ),
            forall|k: int|
                0 <= k < r@.len() ==> (#[trigger] r@[k]).1.count.at(1 - dir as int) as int
                    == self.into_count(dir as int, idx, r@[k].0) - (if r@[k].0 == idx {
                    0int
                } else {
                    1int
                }),
    {
        let ghost d = dir as int;
        let mut queue: Vec<(NodeIndex, usize)> = Vec::new();
        let mut sched: Vec<(NodeIndex, ScheduleInfo)> = Vec::new();
        let ecap = self.edges.len();
        let ghost bound = ecap as nat;
        let ghost mut seen = Set::<EdgeIndex>::empty();
        proof {
            assert(seen.finite() && seen.len() == 0);
        }
        queue.push((idx, 0));
        let c0 = self.chain_collect(idx, dir);
        sched.push((idx, ScheduleInfo::new(0, c0.len(), dir)));
        proof {
            let p0 = seq![idx];
            assert(self.is_path(d, p0) && p0[0] == idx && p0.last() == idx);
            assert(self.reachable(d, idx, idx));
            self.lemma_dist_zero(d, idx, idx);
            assert forall|v: NodeIndex| #[trigger] self.sighted_count(seen, d, idx, v) == 0 by {
                assert(Set::new(
                    |e: EdgeIndex|
                        seen.contains(e) && self.other(d, e) == v && self.on_shortest(d, idx, e),
                ) =~= Set::<EdgeIndex>::empty());
            }
        }
        let mut qh: usize = 0;
        while qh < queue.len()
            invariant
                qh <= queue@.len(),
                queue@.len() == sched@.len(),
                queue@.len() >= 1 && queue@[0].0 == idx && sched@[0].0 == idx,
                forall|k: int| 0 <= k < queue@.len() ==> (#[trigger] queue@[k]).0 == sched@[k].0,
                forall|k: int, l: int|
                    0 <= k < l < queue@.len() ==> (#[trigger] queue@[k]).0 != (
                #[trigger] queue@[l]).0,
                forall|k: int|
                    0 <= k < queue@.len() ==> self.node_live((#[trigger] queue@[k]).0),
                forall|k: int|
                    0 <= k < queue@.len() ==> self.reachable(d, idx, (#[trigger] queue@[k]).0),
                forall|k: int, w: NodeIndex|
                    0 <= k < qh && #[trigger] self.step(d, queue@[k].0, w) ==> sched_has(
                        sched@,
                        w,
                    ),
                forall|k: int| 0 <= k < queue@.len() ==> (#[trigger] queue@[k]).1 <= k,
                forall|k: int|
                    0 <= k < queue@.len() ==> (#[trigger] queue@[k]).1 as nat == self.dist(
                        d,
                        idx,
                        queue@[k].0,
                    ),
                forall|k: int|
                    0 <= k < sched@.len() ==> (#[trigger] sched@[k]).1.stage as nat == self.dist(
                        d,
                        idx,
                        sched@[k].0,
                    ),
                forall|k: int, l: int|
                    0 <= k <= l < queue@.len() ==> (#[trigger] queue@[k]).1 <= (
                    #[trigger] queue@[l]).1,
                forall|l: int|
                    qh < queue@.len() && qh <= l < queue@.len() ==> (#[trigger] queue@[l]).1
                        <= queue@[qh as int].1 + 1,
                forall|v: NodeIndex|
                    qh < queue@.len() && self.reachable(d, idx, v) && (#[trigger] self.dist(
                        d,
                        idx,
                        v,
                    )) < queue@[qh as int].1 ==> sched_has(sched@, v),
                forall|k: int|
                    0 <= k < sched@.len() ==> (#[trigger] sched@[k]).1.count.at(d) == self.chain(
                        sched@[k].0,
                        d,
                    ).len(),
                queue@.len() <= self.nodes@.len(),
                seen.finite(),
                seen.len() <= bound,
                forall|e: EdgeIndex| #[trigger] seen.contains(e) ==> (e.0 as nat) < bound,
                forall|e: EdgeIndex|
                    #[trigger] seen.contains(e) ==> self.edge_live(e) && sched_has(
                        sched@,
                        self.owner(d, e),
                    ) && sched_has(sched@, self.other(d, e)) && (exists|k: int|
                        0 <= k < qh && (#[trigger] queue@[k]).0 == self.owner(d, e)),
                forall|k: int, j: int|
                    0 <= k < qh && 0 <= j < self.chain(queue@[k].0, d).len() ==> seen.contains(
                        #[trigger] self.chain(queue@[k].0, d)[j],
                    ),
                forall|k: int|
                    0 <= k < sched@.len() ==> (#[trigger] sched@[k]).1.count.at(1 - d)
                        <= seen.len(),
                forall|k: int|
                    0 <= k < sched@.len() ==> (#[trigger] sched@[k]).1.count.at(1 - d) as int
                        == self.sighted_count(seen, d, idx, sched@[k].0) - (if sched@[k].0
                        == idx {
                        0int
                    } else {
                        1int
                    }),
            decreases self.nodes@.len() - qh,
        {
            let (u, stage) = queue[qh];
            let head = match &self.nodes[u.0] {
                Ok(node) => node.next.get(dir),
                Err(_) => unreached(),
            };
            if head.is_some() {
                let next_stage = stage + 1;
                let ghost c = self.chain(u, d);
                proof {
                    assert(self.chain_ok(u, d));
                }
                let nbrs = self.neighbors(u, dir);
                let mut i: usize = 0;
                while i < nbrs.items.len()
                    invariant
                        nbrs.items@.len() == c.len(),
                        forall|k: int|
                            0 <= k < c.len() ==> (#[trigger] nbrs.items@[k]).1 == c[k]
                                && nbrs.items@[k].0 == self.other(d, c[k]),
                        i <= c.len(),
                        qh < queue@.len(),
                        queue@.len() == sched@.len(),
                        queue@.len() >= 1 && queue@[0].0 == idx && sched@[0].0 == idx,
                        queue@[qh as int].0 == u,
                        forall|k: int|
                            0 <= k < queue@.len() ==> (#[trigger] queue@[k]).0 == sched@[k].0,
                        forall|k: int, l: int|
                            0 <= k < l < queue@.len() ==> (#[trigger] queue@[k]).0 != (
                        #[trigger] queue@[l]).0,
                        forall|k: int|
                            0 <= k < queue@.len() ==> self.node_live((#[trigger] queue@[k]).0),
                        forall|k: int|
                            0 <= k < queue@.len() ==> self.reachable(
                                d,
                                idx,
                                (#[trigger] queue@[k]).0,
                            ),
                        forall|k: int, w: NodeIndex|
                            0 <= k < qh && #[trigger] self.step(d, queue@[k].0, w) ==> sched_has(
                                sched@,
                                w,
                            ),
                        forall|k: int| 0 <= k < queue@.len() ==> (#[trigger] queue@[k]).1 <= k,
                        forall|k: int|
                            0 <= k < queue@.len() ==> (#[trigger] queue@[k]).1 as nat
                                == self.dist(d, idx, queue@[k].0),
                        forall|k: int|
                            0 <= k < sched@.len() ==> (#[trigger] sched@[k]).1.stage as nat
                                == self.dist(d, idx, sched@[k].0),
                        forall|k: int, l: int|
                            0 <= k <= l < queue@.len() ==> (#[trigger] queue@[k]).1 <= (
                            #[trigger] queue@[l]).1,
                        forall|l: int|
                            qh <= l < queue@.len() ==> (#[trigger] queue@[l]).1 <= queue@[
                                qh as int
                            ].1 + 1,
                        forall|v: NodeIndex|
                            self.reachable(d, idx, v) && (#[trigger] self.dist(d, idx, v))
                                < queue@[qh as int].1 ==> sched_has(sched@, v),
                        forall|k: int|
                            0 <= k < sched@.len() ==> (#[trigger] sched@[k]).1.count.at(d)
                                == self.chain(sched@[k].0, d).len(),
                        queue@.len() <= self.nodes@.len(),
                        next_stage >= 1,
                        stage as nat == self.dist(d, idx, u),
                        seen.finite(),
                        seen.len() <= bound,
                        forall|e: EdgeIndex| #[trigger] seen.contains(e) ==> (e.0 as nat) < bound,
                        forall|e: EdgeIndex|
                            #[trigger] seen.contains(e) ==> self.edge_live(e) && sched_has(
                                sched@,
                                self.owner(d, e),
                            ) && sched_has(sched@, self.other(d, e)) && ((exists|k: int|
                                0 <= k < qh && (#[trigger] queue@[k]).0 == self.owner(d, e))
                                || (exists|k: int| 0 <= k < i && c[k] == e)),
                        forall|k: int| 0 <= k < i ==> #[trigger] seen.contains(c[k]),
                        forall|k: int, j: int|
                            0 <= k < qh && 0 <= j < self.chain(queue@[k].0, d).len()
                                ==> seen.contains(#[trigger] self.chain(queue@[k].0, d)[j]),
                        forall|k: int|
                            0 <= k < sched@.len() ==> (#[trigger] sched@[k]).1.count.at(1 - d)
                                <= seen.len(),
                        forall|k: int|
                            0 <= k < sched@.len() ==> (#[trigger] sched@[k]).1.count.at(1 - d)
                                as int == self.sighted_count(seen, d, idx, sched@[k].0) - (
                            if sched@[k].0 == idx {
                                0int
                            } else {
                                1int
                            }),
                        forall|k: int|
                            0 <= k < i ==> sched_has(sched@, #[trigger] self.other(d, c[k])),
                    decreases c.len() - i,
                {
                    let ghost queue0 = queue@;
                    let (v, _e) = nbrs.items[i];
                    proof {
                        assert(c.contains(c[i as int]));
                        assert(self.edge_live(c[i as int]));
                        assert(self.owner(d, c[i as int]) == u);
                        assert(self.node_live(self.other(d, c[i as int])));
                        assert(v == self.other(d, c[i as int]));
                        assert(self.step(d, u, v)) by {
                            assert(self.edge_live(c[i as int]) && self.owner(d, c[i as int])
                                == u && self.other(d, c[i as int]) == v);
                        }
                        assert(self.reachable(d, idx, u)) by {
                            assert(self.reachable(d, idx, queue@[qh as int].0));
                        }
                        self.lemma_dist_triangle(d, idx, u, v);
                        assert(self.dist(d, idx, v) <= stage + 1);
                        // this edge has not been sighted before
                        assert(!seen.contains(c[i as int])) by {
                            if seen.contains(c[i as int]) {
                                if exists|k: int|
                                    0 <= k < qh && (#[trigger] queue@[k]).0 == self.owner(
                                        d,
                                        c[i as int],
                                    ) {
                                    let k = choose|k: int|
                                        0 <= k < qh && (#[trigger] queue@[k]).0 == self.owner(
                                            d,
                                            c[i as int],
                                        );
                                    assert(queue@[k].0 != queue@[qh as int].0);
                                } else {
                                    let k = choose|k: int| 0 <= k < i && c[k] == c[i as int];
                                    assert(false);
                                }
                            }
                        }
                        assert(seen.len() < bound) by {
                            let all = Set::new(|e: EdgeIndex| (e.0 as nat) < bound);
                            lemma_edges_below_finite(bound);
                            assert(seen.subset_of(all));
                            vstd::set_lib::lemma_len_subset(seen, all);
                            if seen.len() == bound {
                                assert(seen =~= all) by {
                                    if seen != all {
                                        let miss = choose|x: EdgeIndex|
                                            all.contains(x) && !seen.contains(x);
                                        assert(seen.insert(miss).subset_of(all));
                                        vstd::set_lib::lemma_len_subset(seen.insert(miss), all);
                                    }
                                }
                                assert(all.contains(c[i as int]));
                            }
                        }
                    }
                    let found = Self::sched_find(&sched, v);
                    let ghost sched0 = sched@;
                    match found {
                        Some(pos) => {
                            proof {
                                assert(sched@[pos as int].1.count.at(1 - d) <= seen.len());
                                assert(sched@[pos as int].1.stage as nat == self.dist(
                                    d,
                                    idx,
                                    v,
                                ));
                            }
                            let cur = sched[pos].1.stage;
                            if next_stage <= cur {
                                proof {
                                    // a shorter-or-equal arrival can only be
                                    // an equal one: depths never undershoot
                                    assert(next_stage as nat == self.dist(d, idx, v));
                                }
                                let mut info = sched[pos].1;
                                let key = sched[pos].0;
                                info.update(next_stage, dir);
                                sched[pos] = (key, info);
                            }
                        },
                        None => {
                            let cc = self.chain_collect(v, dir);
                            queue.push((v, next_stage));
                            sched.push((v, ScheduleInfo::new(next_stage, cc.len(), dir)));
                            proof {
                                // v is reachable through u
                                let pu = choose|pu: Seq<NodeIndex>|
                                    #[trigger] self.is_path(d, pu) && pu[0] == idx && pu.last()
                                        == u;
                                let pv = pu.push(v);
                                assert(self.is_path(d, pv)) by {
                                    assert(self.step(d, u, v)) by {
                                        assert(self.edge_live(c[i as int]) && self.owner(
                                            d,
                                            c[i as int],
                                        ) == u && self.other(d, c[i as int]) == v);
                                    }
                                    assert forall|k: int| 0 <= k < pv.len() - 1 implies self.step(
                                        d,
                                        pv[k],
                                        #[trigger] pv[k + 1],
                                    ) by {
                                        if k < pu.len() - 1 {
                                            assert(self.step(d, pu[k], pu[k + 1]));
                                        }
                                    }
                                }
                                assert(pv[0] == idx && pv.last() == v);
                                assert(self.reachable(d, idx, v));
                                // a fresh sighting happens exactly at the
                                // node's depth: anything nearer would have
                                // been recorded when its predecessor level
                                // was processed
                                assert(self.dist(d, idx, v) as int == next_stage as int) by {
                                    if self.dist(d, idx, v) < next_stage {
                                        self.lemma_dist_zero(d, idx, v);
                                        if v == idx {
                                            assert(sched0[0].0 == idx);
                                            assert(sched_has(sched0, idx));
                                        } else {
                                            self.lemma_dist_pred(d, idx, v);
                                            let w = choose|w: NodeIndex|
                                                #[trigger] self.step(d, w, v) && self.reachable(
                                                    d,
                                                    idx,
                                                    w,
                                                ) && self.dist(d, idx, w) + 1 == self.dist(
                                                    d,
                                                    idx,
                                                    v,
                                                );
                                            assert(self.dist(d, idx, w) < queue0[qh as int].1);
                                            assert(sched_has(sched0, w));
                                            let p = choose|p: int|
                                                0 <= p < sched0.len() && (#[trigger] sched0[p]).0
                                                    == w;
                                            assert(queue0[p].0 == w);
                                            assert(queue0[p].1 as nat == self.dist(d, idx, w));
                                            assert(p < qh) by {
                                                if p >= qh {
                                                    assert(queue0[qh as int].1 <= queue0[p].1);
                                                }
                                            }
                                            assert(self.step(d, queue0[p].0, v));
                                            assert(sched_has(sched0, v));
                                        }
                                    }
                                }
                                // distinct keys still: v was absent
                                assert forall|k: int, l: int|
                                    0 <= k < l < queue@.len() implies (#[trigger] queue@[k]).0
                                    != (#[trigger] queue@[l]).0 by {
                                    if l == queue@.len() - 1 {
                                        assert(sched0[k].0 == queue@[k].0);
                                    }
                                }
                                let qseq = queue@.map_values(|p: (NodeIndex, usize)| p.0);
                                assert(qseq.no_duplicates()) by {
                                    assert forall|a: int, b: int|
                                        0 <= a < b < qseq.len() implies qseq[a] != qseq[b] by {
                                        assert(queue@[a].0 != queue@[b].0);
                                    }
                                }
                                assert forall|k: int|
                                    0 <= k < qseq.len() implies (#[trigger] qseq[k]).0
                                    < self.nodes@.len() by {
                                    assert(self.node_live(queue@[k].0));
                                }
                                lemma_bounded_distinct_len(qseq, self.nodes@.len());
                                // the new tail entry sits at the deepest
                                // level, so the order invariants keep
                                assert forall|k: int, l: int|
                                    0 <= k <= l < queue@.len() implies (#[trigger] queue@[k]).1
                                    <= (#[trigger] queue@[l]).1 by {
                                    if l == queue@.len() - 1 {
                                        assert(queue@[l].1 == next_stage);
                                        if k < l {
                                            assert(queue@[k] == queue0[k]);
                                            if k >= qh {
                                                assert(queue0[k].1 <= queue0[qh as int].1 + 1);
                                            } else {
                                                assert(queue0[k].1 <= queue0[qh as int].1);
                                            }
                                        }
                                    } else {
                                        assert(queue@[k] == queue0[k] && queue@[l] == queue0[l]);
                                    }
                                }
                                assert forall|l: int|
                                    qh <= l < queue@.len() implies (#[trigger] queue@[l]).1
                                    <= queue@[qh as int].1 + 1 by {
                                    if l < queue@.len() - 1 {
                                        assert(queue@[l] == queue0[l]);
                                    }
                                }
                                assert forall|k: int|
                                    0 <= k < queue@.len() implies (#[trigger] queue@[k]).1 as nat
                                    == self.dist(d, idx, queue@[k].0) by {
                                    if k < queue@.len() - 1 {
                                        assert(queue@[k] == queue0[k]);
                                    }
                                }
                            }
                        },
                    }
                    proof {
                        let seen0 = seen;
                        seen = seen.insert(c[i as int]);
                        self.lemma_sighted_step(seen0, c[i as int], d, idx);
                        assert(v == self.other(d, c[i as int]));
                        let updated = found is Some && next_stage as nat <= sched0[
                            found->Some_0 as int
                        ].1.stage;
                        // the counted sightings are exactly the arrivals on
                        // a shortest path
                        assert(self.on_shortest(d, idx, c[i as int]) <==> (found is None
                            || updated)) by {
                            if found is Some {
                                assert(sched0[found->Some_0 as int].0 == v);
                                assert(sched0[found->Some_0 as int].1.stage as nat == self.dist(
                                    d,
                                    idx,
                                    v,
                                ));
                            }
                        }
                        assert(sched_has(sched@, u)) by {
                            assert(sched@[qh as int].0 == u);
                        }
                        assert forall|w: NodeIndex| sched_has(sched0, w) implies sched_has(
                            sched@,
                            w,
                        ) by {
                            let k = choose|k: int| 0 <= k < sched0.len() && sched0[k].0 == w;
                            assert(sched@[k].0 == w);
                        }
                        assert(sched_has(sched@, v)) by {
                            if found is Some {
                                assert(sched@[found->Some_0 as int].0 == v);
                            } else {
                                assert(sched@[sched@.len() - 1].0 == v);
                            }
                        }
                        assert forall|k: int|
                            0 <= k < sched@.len() implies (#[trigger] sched@[k]).1.count.at(1 - d)
                            <= seen.len() by {
                            if found is Some && k == found->Some_0 as int {
                            } else if k < sched0.len() {
                                assert(sched@[k] == sched0[k]);
                            }
                        }
                        if found is None {
                            // a first sighting: nothing had arrived at v yet
                            assert(self.sighted_count(seen0, d, idx, v) == 0) by {
                                assert(Set::new(
                                    |f: EdgeIndex|
                                        seen0.contains(f) && self.other(d, f) == v
                                            && self.on_shortest(d, idx, f),
                                ) =~= Set::<EdgeIndex>::empty()) by {
                                    assert forall|f: EdgeIndex|
                                        !(seen0.contains(f) && self.other(d, f) == v
                                            && self.on_shortest(d, idx, f)) by {
                                        if seen0.contains(f) && self.other(d, f) == v {
                                            assert(sched_has(sched0, v));
                                        }
                                    }
                                }
                            }
                            assert(v != idx) by {
                                if v == idx {
                                    assert(sched0[0].0 == idx);
                                    assert(sched_has(sched0, idx));
                                }
                            }
                        }
                        assert forall|k: int|
                            0 <= k < sched@.len() implies (#[trigger] sched@[k]).1.count.at(1 - d)
                            as int == self.sighted_count(seen, d, idx, sched@[k].0) - (if sched@[
                            k
                        ].0 == idx {
                            0int
                        } else {
                            1int
                        }) by {
                            let w = sched@[k].0;
                            if found is Some {
                                let pos = found->Some_0 as int;
                                if k == pos {
                                    assert(w == v);
                                    assert(sched0[k].1.count.at(1 - d) as int
                                        == self.sighted_count(seen0, d, idx, v) - (if v == idx {
                                        0int
                                    } else {
                                        1int
                                    }));
                                    if updated {
                                        assert(self.on_shortest(d, idx, c[i as int]));
                                        assert(self.sighted_count(seen, d, idx, v)
                                            == self.sighted_count(seen0, d, idx, v) + 1);
                                    } else {
                                        assert(sched@[k] == sched0[k]);
                                        assert(!self.on_shortest(d, idx, c[i as int]));
                                        assert(self.sighted_count(seen, d, idx, v)
                                            == self.sighted_count(seen0, d, idx, v));
                                    }
                                } else {
                                    assert(sched@[k] == sched0[k]);
                                    assert(w != v) by {
                                        if w == v {
                                            assert(queue@[k].0 == sched0[k].0);
                                            assert(queue@[pos].0 == sched0[pos].0);
                                            assert(queue@[k].0 != queue@[pos].0);
                                        }
                                    }
                                    assert(self.sighted_count(seen, d, idx, w)
                                        == self.sighted_count(seen0, d, idx, w));
                                }
                            } else {
                                if k < sched0.len() {
                                    assert(sched@[k] == sched0[k]);
                                    assert(w != v) by {
                                        if w == v {
                                            assert(sched_has(sched0, v));
                                        }
                                    }
                                    assert(self.sighted_count(seen, d, idx, w)
                                        == self.sighted_count(seen0, d, idx, w));
                                } else {
                                    assert(w == v);
                                    assert(sched@[k].1.count.at(1 - d) == 0);
                                    assert(self.on_shortest(d, idx, c[i as int]));
                                    assert(self.sighted_count(seen, d, idx, v) == 1);
                                }
                            }
                        }
                        assert forall|e2: EdgeIndex|
                            #[trigger] seen.contains(e2) implies self.edge_live(e2) && sched_has(
                            sched@,
                            self.owner(d, e2),
                        ) && ((exists|k: int|
                            0 <= k < qh && (#[trigger] queue@[k]).0 == self.owner(d, e2)) || (
                        exists|k: int| 0 <= k < i + 1 && c[k] == e2)) by {
                            if e2 == c[i as int] {
                                assert(0 <= i < i + 1 && c[i as int] == e2);
                                assert(self.owner(d, e2) == u);
                                assert(sched_has(sched@, u));
                            } else {
                                assert(seen0.contains(e2));
                                assert(sched_has(sched0, self.owner(d, e2)));
                                assert(sched_has(sched@, self.owner(d, e2)));
                                if exists|k: int|
                                    0 <= k < qh && (#[trigger] queue0[k]).0 == self.owner(
                                        d,
                                        e2,
                                    ) {
                                    let k = choose|k: int|
                                        0 <= k < qh && (#[trigger] queue0[k]).0 == self.owner(
                                            d,
                                            e2,
                                        );
                                    assert(queue@[k] == queue0[k]);
                                } else {
                                    let k = choose|k: int| 0 <= k < i && c[k] == e2;
                                    assert(0 <= k < i + 1 && c[k] == e2);
                                }
                            }
                        }
                    }
                    i += 1;
                }
                proof {
                    // all hops out of u are now recorded
                    assert forall|w: NodeIndex| #[trigger] self.step(d, u, w) implies sched_has(
                        sched@,
                        w,
                    ) by {
                        let e = choose|e: EdgeIndex|
                            #[trigger] self.edge_live(e) && self.owner(d, e) == u && self.other(
                                d,
                                e,
                            ) == w;
                        assert(self.chain(self.owner(d, e), d).contains(e));
                        let k = choose|k: int| 0 <= k < c.len() && c[k] == e;
                        assert(sched_has(sched@, self.other(d, c[k])));
                    }
                    // and u's whole chain has been sighted
                    assert forall|k: int, j: int|
                        0 <= k < qh + 1 && 0 <= j < self.chain(queue@[k].0, d).len()
                            implies seen.contains(#[trigger] self.chain(queue@[k].0, d)[j]) by {
                        if k == qh {
                            assert(queue@[k].0 == u);
                            assert(seen.contains(c[j]));
                        }
                    }
                }
            } else {
                proof {
                    // no head link, no chain, no hops to record
                    assert(self.chain_ok(u, d));
                    assert forall|w: NodeIndex| #[trigger] self.step(d, u, w) implies sched_has(
                        sched@,
                        w,
                    ) by {
                        let e = choose|e: EdgeIndex|
                            #[trigger] self.edge_live(e) && self.owner(d, e) == u && self.other(
                                d,
                                e,
                            ) == w;
                        assert(self.chain(self.owner(d, e), d).contains(e));
                    }
                    assert forall|k: int, j: int|
                        0 <= k < qh + 1 && 0 <= j < self.chain(queue@[k].0, d).len()
                            implies seen.contains(#[trigger] self.chain(queue@[k].0, d)[j]) by {
                        if k == qh {
                            assert(queue@[k].0 == u);
                            assert(self.chain(u, d).len() == 0);
                        }
                    }
                }
            }
            proof {
                // when the head advances, the frontier deepens by at most
                // one, and everything at the old depth is recorded by now
                if qh + 1 < queue@.len() {
                    let dd = queue@[qh as int].1;
                    assert forall|v: NodeIndex|
                        self.reachable(d, idx, v) && (#[trigger] self.dist(d, idx, v)) < queue@[
                            qh + 1
                        ].1 implies sched_has(sched@, v) by {
                        if self.dist(d, idx, v) < dd {
                        } else {
                            assert(self.dist(d, idx, v) == dd) by {
                                assert(queue@[qh + 1].1 <= dd + 1);
                            }
                            self.lemma_dist_zero(d, idx, v);
                            if v == idx {
                                assert(sched@[0].0 == idx);
                            } else {
                                self.lemma_dist_pred(d, idx, v);
                                let w = choose|w: NodeIndex|
                                    #[trigger] self.step(d, w, v) && self.reachable(d, idx, w)
                                        && self.dist(d, idx, w) + 1 == self.dist(d, idx, v);
                                assert(self.dist(d, idx, w) < dd);
                                assert(sched_has(sched@, w));
                                let p = choose|p: int|
                                    0 <= p < sched@.len() && (#[trigger] sched@[p]).0 == w;
                                assert(queue@[p].0 == w);
                                assert(queue@[p].1 as nat == self.dist(d, idx, w));
                                assert(p < qh) by {
                                    if p >= qh {
                                        assert(queue@[qh as int].1 <= queue@[p].1);
                                    }
                                }
                                assert(self.step(d, queue@[p].0, v));
                            }
                        }
                    }
                    assert forall|l: int|
                        qh + 1 <= l < queue@.len() implies (#[trigger] queue@[l]).1 <= queue@[
                            qh + 1
                        ].1 + 1 by {
                        assert(queue@[l].1 <= queue@[qh as int].1 + 1);
                        assert(queue@[qh as int].1 <= queue@[qh + 1].1);
                    }
                }
            }
            qh += 1;
        }
        proof {
            // the recorded set is closed under hops, so it holds everything
            // reachable; and it only holds reachable nodes
            let keys = sched@.map_values(|p: (NodeIndex, ScheduleInfo)| p.0);
            assert forall|u2: NodeIndex, w: NodeIndex|
                keys.contains(u2) && #[trigger] self.step(d, u2, w) implies keys.contains(w) by {
                let k = choose|k: int| 0 <= k < keys.len() && keys[k] == u2;
                assert(queue@[k].0 == u2);
                assert(self.step(d, queue@[k].0, w));
                assert(sched_has(sched@, w));
                let l = choose|l: int| 0 <= l < sched@.len() && sched@[l].0 == w;
                assert(keys[l] == w);
            }
            assert forall|v: NodeIndex|
                self.reachable(d, idx, v) implies sched_has(sched@, v) by {
                let p = choose|p: Seq<NodeIndex>|
                    #[trigger] self.is_path(d, p) && p[0] == idx && p.last() == v;
                assert(keys.contains(idx)) by {
                    assert(keys[0] == idx);
                }
                self.lemma_path_in_closed(d, keys, p);
                let k = choose|k: int| 0 <= k < keys.len() && keys[k] == v;
                assert(sched@[k].0 == v);
            }
            assert forall|v: NodeIndex| sched_has(sched@, v) implies self.reachable(
                d,
                idx,
                v,
            ) by {
                let k = choose|k: int| 0 <= k < sched@.len() && sched@[k].0 == v;
                assert(self.reachable(d, idx, queue@[k].0));
            }
            assert forall|k: int, l: int|
                0 <= k < l < sched@.len() implies (#[trigger] sched@[k]).0 != (
            #[trigger] sched@[l]).0 by {
                assert(queue@[k].0 == sched@[k].0 && queue@[l].0 == sched@[l].0);
            }
            // the sighted edges are exactly those leaving reachable nodes
            assert forall|e: EdgeIndex|
                #[trigger] seen.contains(e) <==> (self.edge_live(e) && self.reachable(
                d,
                idx,
                self.owner(d, e),
            )) by {
                if seen.contains(e) {
                    let k = choose|k: int|
                        0 <= k < qh && (#[trigger] queue@[k]).0 == self.owner(d, e);
                    assert(self.reachable(d, idx, queue@[k].0));
                }
                if self.edge_live(e) && self.reachable(d, idx, self.owner(d, e)) {
                    assert(sched_has(sched@, self.owner(d, e)));
                    let k = choose|k: int|
                        0 <= k < sched@.len() && (#[trigger] sched@[k]).0 == self.owner(d, e);
                    assert(queue@[k].0 == self.owner(d, e));
                    assert(self.chain(self.owner(d, e), d).contains(e));
                    let cu = self.chain(self.owner(d, e), d);
                    let j = choose|j: int| 0 <= j < cu.len() && cu[j] == e;
                    assert(seen.contains(self.chain(queue@[k].0, d)[j]));
                }
            }
            assert forall|k: int|
                0 <= k < sched@.len() implies (#[trigger] sched@[k]).1.count.at(1 - d) as int
                == self.into_count(d, idx, sched@[k].0) - (if sched@[k].0 == idx {
                0int
            } else {
                1int
            }) by {
                let v2 = sched@[k].0;
                assert(Set::new(
                    |e: EdgeIndex|
                        seen.contains(e) && self.other(d, e) == v2 && self.on_shortest(
                            d,
                            idx,
                            e,
                        ),
                ) =~= Set::new(
                    |e: EdgeIndex|
                        self.edge_live(e) && self.reachable(d, idx, self.owner(d, e))
                            && self.other(d, e) == v2 && self.on_shortest(d, idx, e),
                ));
                assert(self.sighted_count(seen, d, idx, v2) == self.into_count(d, idx, v2));
            }
            self.lemma_dist_zero(d, idx, idx);
            assert(sched@[0].1.stage == 0);
        }
        sched
    }
}

} // verus!
