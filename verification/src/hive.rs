//! The named-node layer and the undo/redo log.
//!
//! A `Hive` owns a payload-free graph together with a map from external
//! string identifiers to node handles.  Every mutation performed through it
//! records a data-only inverse action in the undo log; a recorded action is
//! replayed by a single dispatch function, so the log is plain data with no
//! captured state.

use vstd::prelude::*;

use crate::graph::{
    lemma_sans_congruent, lemma_sans_contains, lemma_sans_empty, lemma_sans_step, sans,
    EdgeIndex, EdgeInfo, Graph, NodeIndex,
};

verus! {

broadcast use vstd::seq::axiom_seq_index_decreases;

/// One recorded inverse action of the undo log.  `Composite` groups a run of
/// entries into a single step that replays them newest first.
pub enum Action {
    AddNode(String),
    RemoveNode(String),
    AddEdge(NodeIndex, NodeIndex),
    RemoveEdge(EdgeIndex),
    Composite(Vec<Action>),
}

/// The mathematical shape of an `Action`: names as character sequences.
pub ghost enum ActionV {
    AddNode(Seq<char>),
    RemoveNode(Seq<char>),
    AddEdge(NodeIndex, NodeIndex),
    RemoveEdge(EdgeIndex),
    Composite(Seq<ActionV>),
}

/// The view of one action.
pub open spec fn action_view(a: Action) -> ActionV
    decreases a,
{
    match a {
        Action::AddNode(name) => ActionV::AddNode(name@),
        Action::RemoveNode(name) => ActionV::RemoveNode(name@),
        Action::AddEdge(x, y) => ActionV::AddEdge(x, y),
        Action::RemoveEdge(e) => ActionV::RemoveEdge(e),
        Action::Composite(v) => ActionV::Composite(views_of(v@)),
    }
}

/// The views of a sequence of actions, in order.
pub open spec fn views_of(v: Seq<Action>) -> Seq<ActionV>
    decreases v,
{
    if v.len() == 0 {
        Seq::empty()
    } else {
        views_of(v.drop_last()).push(action_view(v.last()))
    }
}

/// `views_of` maps each element to its view.
pub proof fn lemma_views_of(v: Seq<Action>)
    ensures
        views_of(v).len() == v.len(),
        forall|i: int| 0 <= i < v.len() ==> views_of(v)[i] == action_view(#[trigger] v[i]),
    decreases v.len(),
{
    if v.len() > 0 {
        lemma_views_of(v.drop_last());
        assert forall|i: int| 0 <= i < v.len() implies views_of(v)[i] == action_view(
            #[trigger] v[i],
        ) by {
            if i < v.len() - 1 {
                assert(v.drop_last()[i] == v[i]);
            }
        }
    }
}

impl View for Action {
    type V = ActionV;

    open spec fn view(&self) -> ActionV {
        action_view(*self)
    }
}

impl Clone for Action {
    /// A structural copy whose view is the same.
    #[verifier::loop_isolation(false)]
    fn clone(&self) -> (r: Self)
        ensures
            r@ == self@,
        decreases self,
    {
        match self {
            Action::AddNode(name) => Action::AddNode(name.clone()),
            Action::RemoveNode(name) => Action::RemoveNode(name.clone()),
            Action::AddEdge(a, b) => Action::AddEdge(*a, *b),
            Action::RemoveEdge(e) => Action::RemoveEdge(*e),
            Action::Composite(v) => {
                let mut copy: Vec<Action> = Vec::new();
                let mut i: usize = 0;
                while i < v.len()
                    invariant
                        i <= v@.len(),
                        copy@.len() == i,
                        forall|k: int| 0 <= k < i ==> (#[trigger] copy@[k])@ == v@[k]@,
                    decreases v@.len() - i,
                {
                    proof {
                        assert(decreases_to!(v@ => v@[i as int]));
                    }
                    let a = &v[i];
                    copy.push(a.clone());
                    i += 1;
                }
                let r = Action::Composite(copy);
                proof {
                    lemma_views_of(copy@);
                    lemma_views_of(v@);
                    assert(r@ is Composite);
                    assert forall|k: int|
                        0 <= k < copy@.len() implies views_of(copy@)[k] == views_of(v@)[k] by {
                        assert(copy@[k]@ == v@[k]@);
                    }
                    assert(r@->Composite_0 =~= self@->Composite_0);
                    assert(r@ == self@);
                }
                r
            },
        }
    }
}

/// The undo/redo log: an ordered history of inverse actions and a cursor
/// `pos` giving the number of entries currently applied.  While `pause` is
/// set, tracking is suppressed (used while replaying a redo, whose side
/// effects would otherwise corrupt the log).
pub struct Undo {
    pub history: Vec<Action>,
    pub pos: usize,
    pub pause: bool,
}

impl Undo {
    /// The history as a sequence of action views.
    pub open spec fn hist(self) -> Seq<ActionV> {
        self.history@.map_values(|a: Action| a@)
    }

    /// The cursor never runs past the history.
    pub open spec fn wf(self) -> bool {
        self.pos <= self.history@.len()
    }

    /// Appends an inverse action.  If the cursor is behind the end (some
    /// actions were undone and a new action is now recorded), the undone
    /// future is discarded first: a new branch begins and the old redo
    /// entries are gone.  While paused, nothing is recorded.
    pub(crate) fn track(&mut self, action: Action)
        requires
            old(self).wf(),
        ensures
            final(self).wf(),
            old(self).pause ==> *final(self) == *old(self),
            !old(self).pause ==> final(self).hist() == old(self).hist().take(
                old(self).pos as int,
            ).push(action@) && final(self).pos == old(self).pos + 1 && final(self).pause == old(
                self,
            ).pause,
    {
        if self.pause {
            return ;
        }
        let ghost o = *old(self);
        if self.pos < self.history.len() {
            self.history.truncate(self.pos);
        }
        self.history.push(action);
        self.pos = self.history.len();
        proof {
            assert(final(self).hist() =~= o.hist().take(o.pos as int).push(action@));
        }
    }

    /// Moves the cursor back to the end of the history.
    fn reset(&mut self)
        ensures
            final(self).history == old(self).history,
            final(self).pause == old(self).pause,
            final(self).pos == old(self).history@.len(),
            final(self).wf(),
    {
        self.pos = self.history.len();
    }

    /// The current history length, usable later to delimit a range.
    pub fn snapshot(&self) -> (r: usize)
        ensures
            r == self.history@.len(),
    {
        self.history.len()
    }

    /// The cursor: how many recorded actions are currently applied.
    pub fn position(&self) -> (r: usize)
        ensures
            r == self.pos,
    {
        self.pos
    }

    /// Merges the entries recorded since `snapshot` into one composite
    /// entry that undoes (and redoes) them as a single unit, and moves the
    /// cursor to the new end.  With fewer than two entries in range this is
    /// a no-op.
    pub fn pile(&mut self, snapshot: usize)
        requires
            old(self).wf(),
            old(self).pause ==> old(self).history@.len() < 2 || old(self).history@.len()
                < snapshot + 2,
        ensures
            final(self).wf(),
            (old(self).history@.len() < 2 || old(self).history@.len() < snapshot + 2)
                ==> *final(self) == *old(self),
            !(old(self).history@.len() < 2 || old(self).history@.len() < snapshot + 2) ==> {
                &&& final(self).hist() == old(self).hist().take(snapshot as int).push(
                    ActionV::Composite(old(self).hist().skip(snapshot as int)),
                )
                &&& final(self).pos == snapshot + 1
                &&& final(self).pos == final(self).history@.len()
                &&& final(self).pause == old(self).pause
            },
    {
        let n = self.history.len();
        if n < 2 || n - 2 < snapshot {
            return ;
        }
        let ghost o = *old(self);
        let pile = self.history.split_off(snapshot);
        self.history.push(Action::Composite(pile));
        self.reset();
        proof {
            let pv = ActionV::Composite(o.hist().skip(snapshot as int));
            let tail = final(self).history@.last()->Composite_0@;
            lemma_views_of(tail);
            assert(tail == o.history@.subrange(snapshot as int, o.history@.len() as int));
            assert forall|k: int|
                0 <= k < tail.len() implies views_of(tail)[k] == o.hist().skip(
                snapshot as int,
            )[k] by {
                assert(tail[k] == o.history@[snapshot + k]);
            }
            assert(final(self).history@.last()@->Composite_0 =~= o.hist().skip(snapshot as int));
            assert(final(self).history@.last()@ == pv);
            assert(final(self).hist() =~= o.hist().take(snapshot as int).push(pv));
        }
    }
}

/// The name map described by an association list, later entries winning
/// (entries are kept distinct, so this never matters).
pub open spec fn names_of(entries: Seq<(String, NodeIndex)>) -> Map<Seq<char>, NodeIndex>
    decreases entries.len(),
{
    if entries.len() == 0 {
        Map::empty()
    } else {
        names_of(entries.drop_last()).insert(entries.last().0@, entries.last().1)
    }
}

/// What the name map of a duplicate-free association list holds: exactly the
/// listed names, each bound to its listed handle.
pub proof fn lemma_names_of(entries: Seq<(String, NodeIndex)>)
    requires
        forall|i: int, j: int|
            0 <= i < j < entries.len() ==> (#[trigger] entries[i]).0@ != (
            #[trigger] entries[j]).0@,
    ensures
        forall|s: Seq<char>|
            #[trigger] names_of(entries).contains_key(s) <==> exists|i: int|
                0 <= i < entries.len() && (#[trigger] entries[i]).0@ == s,
        forall|i: int|
            0 <= i < entries.len() ==> names_of(entries)[(#[trigger] entries[i]).0@]
                == entries[i].1,
    decreases entries.len(),
{
    if entries.len() > 0 {
        let head = entries.drop_last();
        lemma_names_of(head);
        assert forall|s: Seq<char>| #[trigger] names_of(entries).contains_key(s) implies exists|
            i: int,
        | 0 <= i < entries.len() && (#[trigger] entries[i]).0@ == s by {
            if s == entries.last().0@ {
                assert(entries[entries.len() - 1].0@ == s);
            } else {
                assert(names_of(head).contains_key(s));
                let i = choose|i: int| 0 <= i < head.len() && (#[trigger] head[i]).0@ == s;
                assert(head[i] == entries[i]);
                assert(entries[i].0@ == s);
            }
        }
        assert forall|i: int|
            0 <= i < entries.len() implies names_of(entries).contains_key(
            (#[trigger] entries[i]).0@,
        ) by {
            if i < entries.len() - 1 {
                assert(head[i] == entries[i]);
                assert(names_of(head).contains_key(head[i].0@)) by {
                    assert(head[i].0@ == head[i].0@);
                }
            }
        }
        assert forall|i: int|
            0 <= i < entries.len() implies names_of(entries)[(#[trigger] entries[i]).0@]
            == entries[i].1 by {
            if i < entries.len() - 1 {
                assert(head[i] == entries[i]);
                assert(entries[i].0@ != entries.last().0@);
            }
        }
    }
}

/// `r` is the first free node handle for the live set.
pub open spec fn is_ff_node(live: Set<NodeIndex>, r: NodeIndex) -> bool {
    &&& !live.contains(r)
    &&& forall|j: usize| j < r.0 ==> #[trigger] live.contains(NodeIndex(j))
}

/// The first free node handle (the least one not live).
pub open spec fn ff_node(live: Set<NodeIndex>) -> NodeIndex {
    choose|r: NodeIndex| is_ff_node(live, r)
}

/// The first free handle is unique, so any witness is it.
pub proof fn lemma_ff_node(live: Set<NodeIndex>, r: NodeIndex)
    requires
        is_ff_node(live, r),
    ensures
        ff_node(live) == r,
{
    let c = ff_node(live);
    assert(is_ff_node(live, c));
    if c.0 < r.0 {
        assert(live.contains(NodeIndex(c.0)));
    } else if r.0 < c.0 {
        assert(live.contains(NodeIndex(r.0)));
    }
}

/// `r` is the first free edge handle for the edge map.
pub open spec fn is_ff_edge(edges: Map<EdgeIndex, EdgeInfo<()>>, r: EdgeIndex) -> bool {
    &&& !edges.contains_key(r)
    &&& forall|j: usize| j < r.0 ==> #[trigger] edges.contains_key(EdgeIndex(j))
}

/// The first free edge handle (the least one unused).
pub open spec fn ff_edge(edges: Map<EdgeIndex, EdgeInfo<()>>) -> EdgeIndex {
    choose|r: EdgeIndex| is_ff_edge(edges, r)
}

/// The first free edge handle is unique, so any witness is it.
pub proof fn lemma_ff_edge(edges: Map<EdgeIndex, EdgeInfo<()>>, r: EdgeIndex)
    requires
        is_ff_edge(edges, r),
    ensures
        ff_edge(edges) == r,
{
    let c = ff_edge(edges);
    assert(is_ff_edge(edges, c));
    if c.0 < r.0 {
        assert(edges.contains_key(EdgeIndex(c.0)));
    } else if r.0 < c.0 {
        assert(edges.contains_key(EdgeIndex(r.0)));
    }
}

/// The abstract state of a hive: the name map, the live node handles, the
/// live edges with endpoints, and the undo log.
pub ghost struct HState {
    pub names: Map<Seq<char>, NodeIndex>,
    pub live: Set<NodeIndex>,
    pub edges: Map<EdgeIndex, EdgeInfo<()>>,
    pub hist: Seq<ActionV>,
    pub pos: int,
    pub pause: bool,
}

/// Recording one inverse action: nothing while paused, else the undone
/// future is discarded, the action appended and the cursor follows the end.
pub open spec fn tr_track(s: HState, a: ActionV) -> HState {
    if s.pause {
        s
    } else {
        HState { hist: s.hist.take(s.pos).push(a), pos: s.pos + 1, ..s }
    }
}

/// The handle a named node lookup-or-create resolves to: the existing one,
/// or the first free slot.
pub open spec fn node_idx_for(s: HState, name: Seq<char>) -> NodeIndex {
    if s.names.contains_key(name) {
        s.names[name]
    } else {
        ff_node(s.live)
    }
}

/// Looking up or creating a named node; a creation is undo-tracked with the
/// inverse action of removing the name again.
pub open spec fn tr_add_node(s: HState, name: Seq<char>) -> HState {
    if s.names.contains_key(name) {
        s
    } else {
        let r = ff_node(s.live);
        let s1 = tr_track(s, ActionV::RemoveNode(name));
        HState { names: s1.names.insert(name, r), live: s1.live.insert(r), ..s1 }
    }
}

/// The handle the next added edge gets.
pub open spec fn edge_idx_for(s: HState) -> EdgeIndex {
    ff_edge(s.edges)
}

/// Adding an edge between two live nodes, undo-tracked with the inverse
/// action of removing that edge.
pub open spec fn tr_add_edge(s: HState, a: NodeIndex, b: NodeIndex) -> HState {
    let e = ff_edge(s.edges);
    let s1 = tr_track(s, ActionV::RemoveEdge(e));
    HState { edges: s1.edges.insert(e, EdgeInfo { src: a, dst: b, data: () }), ..s1 }
}

/// Removing an edge by handle if it is live, undo-tracked with the inverse
/// action of re-adding it between the same endpoints.
pub open spec fn tr_remove_edge(s: HState, e: EdgeIndex) -> HState {
    if s.edges.contains_key(e) {
        let s1 = tr_track(s, ActionV::AddEdge(s.edges[e].src, s.edges[e].dst));
        HState { edges: s1.edges.remove(e), ..s1 }
    } else {
        s
    }
}

/// Connecting two nodes by name: look up or create each, then add an edge.
pub open spec fn tr_pipe(s: HState, src: Seq<char>, dst: Seq<char>) -> HState {
    let a = node_idx_for(s, src);
    let s1 = tr_add_node(s, src);
    let b = node_idx_for(s1, dst);
    let s2 = tr_add_node(s1, dst);
    tr_add_edge(s2, a, b)
}

/// `q` lists the elements of `s` in strictly decreasing slot order.
pub open spec fn is_desc_of(q: Seq<EdgeIndex>, s: Set<EdgeIndex>) -> bool {
    &&& forall|k: int| 0 <= k < q.len() ==> s.contains(#[trigger] q[k])
    &&& forall|e: EdgeIndex| #[trigger] s.contains(e) ==> q.contains(e)
    &&& forall|k: int, l: int| 0 <= k < l < q.len() ==> q[k].0 > q[l].0
}

/// The elements of `s` in decreasing slot order (the unique such listing).
pub open spec fn desc_of(s: Set<EdgeIndex>) -> Seq<EdgeIndex> {
    choose|q: Seq<EdgeIndex>| is_desc_of(q, s)
}

/// There is only one strictly decreasing listing of a set, so any witness
/// is the canonical one.
pub proof fn lemma_desc_of(s: Set<EdgeIndex>, q: Seq<EdgeIndex>)
    requires
        is_desc_of(q, s),
    ensures
        desc_of(s) == q,
{
    let c = desc_of(s);
    assert(is_desc_of(c, s));
    lemma_desc_same(q, c, s);
}

/// Two strictly decreasing listings of the same set are equal.
pub proof fn lemma_desc_same(q1: Seq<EdgeIndex>, q2: Seq<EdgeIndex>, s: Set<EdgeIndex>)
    requires
        is_desc_of(q1, s),
        is_desc_of(q2, s),
    ensures
        q1 == q2,
    decreases q1.len(),
{
    if q1.len() == 0 {
        if q2.len() > 0 {
            assert(s.contains(q2[0]));
            assert(q1.contains(q2[0]));
        }
        assert(q1 =~= q2);
    } else {
        assert(q2.len() > 0) by {
            assert(s.contains(q1[0]));
            if q2.len() == 0 {
                assert(q2.contains(q1[0]));
            }
        }
        // both heads are the maximum of the set
        assert(q1[0] == q2[0]) by {
            assert(s.contains(q1[0]) && s.contains(q2[0]));
            assert(q1.contains(q2[0]) && q2.contains(q1[0]));
            let k1 = choose|k: int| 0 <= k < q1.len() && q1[k] == q2[0];
            let k2 = choose|k: int| 0 <= k < q2.len() && q2[k] == q1[0];
            assert(q1[0].0 >= q1[k1].0) by {
                if k1 > 0 {
                    assert(q1[0].0 > q1[k1].0);
                }
            }
            assert(q2[0].0 >= q2[k2].0) by {
                if k2 > 0 {
                    assert(q2[0].0 > q2[k2].0);
                }
            }
        }
        let x = q1[0];
        let s2 = s.remove(x);
        let t1 = q1.subrange(1, q1.len() as int);
        let t2 = q2.subrange(1, q2.len() as int);
        assert(is_desc_of(t1, s2)) by {
            lemma_desc_tail(q1, s);
        }
        assert(is_desc_of(t2, s2)) by {
            lemma_desc_tail(q2, s);
        }
        lemma_desc_same(t1, t2, s2);
        assert(q1 =~= q2) by {
            assert forall|k: int| 0 <= k < q1.len() implies q1[k] == q2[k] by {
                if k > 0 {
                    assert(t1[k - 1] == t2[k - 1]);
                }
            }
        }
    }
}

/// Behind its head, a decreasing listing lists the set without the head.
pub proof fn lemma_desc_tail(q: Seq<EdgeIndex>, s: Set<EdgeIndex>)
    requires
        is_desc_of(q, s),
        q.len() > 0,
    ensures
        is_desc_of(q.subrange(1, q.len() as int), s.remove(q[0])),
{
    let t = q.subrange(1, q.len() as int);
    let s2 = s.remove(q[0]);
    assert forall|k: int| 0 <= k < t.len() implies s2.contains(#[trigger] t[k]) by {
        assert(t[k] == q[k + 1]);
        assert(s.contains(q[k + 1]));
        assert(q[0].0 > q[k + 1].0);
    }
    assert forall|e: EdgeIndex| #[trigger] s2.contains(e) implies t.contains(e) by {
        assert(s.contains(e));
        assert(q.contains(e));
        let k = choose|k: int| 0 <= k < q.len() && q[k] == e;
        assert(k != 0);
        assert(t[k - 1] == e);
    }
}

/// The live edges of an edge map incident to `v`.
pub open spec fn incident_set(edges: Map<EdgeIndex, EdgeInfo<()>>, v: NodeIndex) -> Set<
    EdgeIndex,
> {
    Set::new(|e: EdgeIndex| edges.contains_key(e) && (edges[e].src == v || edges[e].dst == v))
}

/// Removing the listed edges in order, each undo-tracked.
pub open spec fn tr_remove_edges(s: HState, q: Seq<EdgeIndex>) -> HState
    decreases q.len(),
{
    if q.len() == 0 {
        s
    } else {
        tr_remove_edges(tr_remove_edge(s, q[0]), q.subrange(1, q.len() as int))
    }
}

/// Removing listed edges that are all present removes exactly their set.
pub proof fn lemma_tr_remove_edges_effect(s: HState, q: Seq<EdgeIndex>)
    requires
        q.no_duplicates(),
        forall|k: int| 0 <= k < q.len() ==> s.edges.contains_key(#[trigger] q[k]),
    ensures
        tr_remove_edges(s, q).edges == s.edges.remove_keys(q.to_set()),
    decreases q.len(),
{
    if q.len() == 0 {
        assert(s.edges.remove_keys(q.to_set()) =~= s.edges);
    } else {
        let s1 = tr_remove_edge(s, q[0]);
        let t = q.subrange(1, q.len() as int);
        assert(s1.edges == s.edges.remove(q[0]));
        assert(t.no_duplicates());
        assert forall|k: int| 0 <= k < t.len() implies s1.edges.contains_key(
            #[trigger] t[k],
        ) by {
            assert(t[k] == q[k + 1]);
            assert(s.edges.contains_key(q[k + 1]));
            assert(q[k + 1] != q[0]);
        }
        lemma_tr_remove_edges_effect(s1, t);
        assert(s1.edges.remove_keys(t.to_set()) =~= s.edges.remove_keys(q.to_set())) by {
            assert forall|e: EdgeIndex|
                q.to_set().contains(e) <==> (t.to_set().contains(e) || e == q[0]) by {
                if q.to_set().contains(e) {
                    assert(q.contains(e));
                    let k = choose|k: int| 0 <= k < q.len() && q[k] == e;
                    if k > 0 {
                        assert(t[k - 1] == e);
                        assert(t.contains(e));
                    }
                } else {
                    if t.to_set().contains(e) {
                        assert(t.contains(e));
                        let k = choose|k: int| 0 <= k < t.len() && t[k] == e;
                        assert(q[k + 1] == e);
                        assert(q.contains(e));
                    }
                    if e == q[0] {
                        assert(q.contains(e));
                    }
                }
            }
        }
    }
}

/// Removing edges reads and writes nothing but the edge map and the log, so
/// two states differing only in their name map step in lockstep.
pub proof fn lemma_tr_remove_edges_frame(s: HState, t: HState, q: Seq<EdgeIndex>)
    requires
        t.live == s.live,
        t.edges == s.edges,
        t.hist == s.hist,
        t.pos == s.pos,
        t.pause == s.pause,
    ensures
        tr_remove_edges(s, q).names == s.names,
        tr_remove_edges(t, q).names == t.names,
        tr_remove_edges(t, q).live == tr_remove_edges(s, q).live,
        tr_remove_edges(t, q).edges == tr_remove_edges(s, q).edges,
        tr_remove_edges(t, q).hist == tr_remove_edges(s, q).hist,
        tr_remove_edges(t, q).pos == tr_remove_edges(s, q).pos,
        tr_remove_edges(t, q).pause == tr_remove_edges(s, q).pause,
    decreases q.len(),
{
    if q.len() > 0 {
        let s1 = tr_remove_edge(s, q[0]);
        let t1 = tr_remove_edge(t, q[0]);
        lemma_tr_remove_edges_frame(s1, t1, q.subrange(1, q.len() as int));
    }
}

/// Removing a node by name: every incident edge is removed first, highest
/// slot first, each removal undo-tracked on its own; then the name and the
/// node go, tracked with the inverse action of re-adding the name.
pub open spec fn tr_remove_node(s: HState, name: Seq<char>) -> HState {
    if !s.names.contains_key(name) {
        s
    } else {
        let v = s.names[name];
        let q = desc_of(incident_set(s.edges, v));
        let s1 = tr_remove_edges(s, q);
        let s2 = HState { names: s1.names.remove(name), live: s1.live.remove(v), ..s1 };
        tr_track(s2, ActionV::AddNode(name))
    }
}

/// The named-node layer: a payload-free graph, the map from external names
/// to node handles, and the undo log fed by every mutation.
pub struct Hive {
    pub graph: Graph<(), ()>,
    pub nodes: Vec<(String, NodeIndex)>,
    pub undo: Undo,
}

impl Hive {
    /// The name map.
    pub open spec fn names(self) -> Map<Seq<char>, NodeIndex> {
        names_of(self.nodes@)
    }

    /// The abstract state.
    pub open spec fn st(self) -> HState {
        HState {
            names: self.names(),
            live: Set::new(|v: NodeIndex| self.graph.node_live(v)),
            edges: self.graph.edges_view(),
            hist: self.undo.hist(),
            pos: self.undo.pos as int,
            pause: self.undo.pause,
        }
    }

    /// The always-held part of soundness: a sound graph, a cursor in range,
    /// distinct names bound to distinct live nodes.
    pub open spec fn wf_core(self) -> bool {
        &&& self.graph.wf()
        &&& self.undo.wf()
        &&& forall|i: int, j: int|
            0 <= i < j < self.nodes@.len() ==> (#[trigger] self.nodes@[i]).0@ != (
            #[trigger] self.nodes@[j]).0@
        &&& forall|i: int|
            0 <= i < self.nodes@.len() ==> self.graph.node_live((#[trigger] self.nodes@[i]).1)
        &&& forall|i: int, j: int|
            0 <= i < j < self.nodes@.len() ==> (#[trigger] self.nodes@[i]).1 != (
            #[trigger] self.nodes@[j]).1
    }

    /// A hive is sound when additionally every live node carries a name:
    /// names and live nodes are in bijection.
    pub open spec fn wf(self) -> bool {
        &&& self.wf_core()
        &&& forall|v: NodeIndex|
            #[trigger] self.graph.node_live(v) ==> exists|i: int|
                0 <= i < self.nodes@.len() && (#[trigger] self.nodes@[i]).1 == v
    }

    /// The position of a name in the association list, if present.
    fn find_name(&self, node: &String) -> (r: Option<usize>)
        ensures
            r is Some ==> r->Some_0 < self.nodes@.len() && self.nodes@[r->Some_0 as int].0@
                == node@,
            r is None ==> forall|i: int|
                0 <= i < self.nodes@.len() ==> (#[trigger] self.nodes@[i]).0@ != node@,
    {
        let mut i: usize = 0;
        while i < self.nodes.len()
            invariant
                i <= self.nodes@.len(),
                forall|k: int| 0 <= k < i ==> (#[trigger] self.nodes@[k]).0@ != node@,
            decreases self.nodes@.len() - i,
        {
            if self.nodes[i].0 == *node {
                return Some(i);
            }
            i += 1;
        }
        None
    }

    /// The handle of a named node, if the name is live.
    pub fn lookup(&self, node: &str) -> (r: Option<NodeIndex>)
        requires
            self.wf(),
        ensures
            self.names().contains_key(node@) ==> r == Some(self.names()[node@]),
            !self.names().contains_key(node@) ==> r is None,
    {
        let owned = node.to_owned();
        let found = self.find_name(&owned);
        proof {
            lemma_names_of(self.nodes@);
        }
        match found {
            Some(i) => Some(self.nodes[i].1),
            None => None,
        }
    }

    /// Looks up the node of `node`, creating (and undo-tracking) it if the
    /// name is new, and returns its handle.
    fn add_node(&mut self, node: &str) -> (r: NodeIndex)
        requires
            old(self).wf(),
        ensures
            final(self).wf(),
            final(self).st() == tr_add_node(old(self).st(), node@),
            r == node_idx_for(old(self).st(), node@),
            final(self).graph.node_live(r),
            final(self).names().contains_key(node@) && final(self).names()[node@] == r,
    {
        let ghost o = *old(self);
        let owned = node.to_owned();
        let found = self.find_name(&owned);
        proof {
            lemma_names_of(self.nodes@);
        }
        match found {
            Some(i) => {
                let r = self.nodes[i].1;
                proof {
                    assert(o.names().contains_key(node@));
                    assert(o.names()[node@] == r);
                    assert(final(self).st() == tr_add_node(o.st(), node@));
                }
                r
            },
            None => {
                proof {
                    assert(!o.names().contains_key(node@));
                }
                self.undo.track(Action::RemoveNode(owned.clone()));
                let r = self.graph.add_node(());
                self.nodes.push((owned, r));
                proof {
                    let s = *self;
                    assert(o.graph.is_first_free_node(r));
                    assert(is_ff_node(o.st().live, r)) by {
                        assert(!o.graph.node_live(r));
                        assert forall|j: usize| j < r.0 implies #[trigger] o.st().live.contains(
                            NodeIndex(j),
                        ) by {
                            assert(o.graph.node_live(NodeIndex(j)));
                        }
                    }
                    lemma_ff_node(o.st().live, r);
                    // the association list stays duplicate-free on both sides
                    assert forall|i: int|
                        0 <= i < s.nodes@.len() implies s.graph.node_live(
                        (#[trigger] s.nodes@[i]).1,
                    ) by {
                        if i < s.nodes@.len() - 1 {
                            assert(s.nodes@[i] == o.nodes@[i]);
                            assert(o.graph.node_live(o.nodes@[i].1));
                            assert(o.graph.nodes_view().contains_key(o.nodes@[i].1));
                            assert(s.graph.nodes_view().contains_key(o.nodes@[i].1));
                        }
                    }
                    assert forall|i: int, j: int|
                        0 <= i < j < s.nodes@.len() implies (#[trigger] s.nodes@[i]).1 != (
                    #[trigger] s.nodes@[j]).1 by {
                        if j == s.nodes@.len() - 1 {
                            assert(o.graph.node_live(o.nodes@[i].1));
                        }
                    }
                    assert forall|v: NodeIndex| #[trigger] s.graph.node_live(v) implies exists|
                        i: int,
                    | 0 <= i < s.nodes@.len() && (#[trigger] s.nodes@[i]).1 == v by {
                        if v == r {
                            assert(s.nodes@[s.nodes@.len() - 1].1 == v);
                        } else {
                            assert(s.graph.nodes_view().contains_key(v));
                            assert(o.graph.nodes_view().contains_key(v));
                            assert(o.graph.node_live(v));
                            let i = choose|i: int|
                                0 <= i < o.nodes@.len() && (#[trigger] o.nodes@[i]).1 == v;
                            assert(s.nodes@[i].1 == v);
                        }
                    }
                    // the new name map is the old one plus this binding
                    assert(s.nodes@.drop_last() =~= o.nodes@);
                    assert(s.names() == o.names().insert(node@, r));
                    // and the new live set is the old one plus this handle
                    assert(s.st().live =~= o.st().live.insert(r)) by {
                        assert forall|v: NodeIndex|
                            s.graph.node_live(v) <==> (o.graph.node_live(v) || v == r) by {
                            if v != r {
                                if s.graph.node_live(v) {
                                    assert(s.graph.nodes_view().contains_key(v));
                                    assert(o.graph.nodes_view().contains_key(v));
                                } else {
                                    if o.graph.node_live(v) {
                                        assert(o.graph.nodes_view().contains_key(v));
                                        assert(s.graph.nodes_view().contains_key(v));
                                    }
                                }
                            }
                        }
                    }
                    assert(s.st().edges =~= o.st().edges);
                    assert(s.st() == tr_add_node(o.st(), node@));
                }
                r
            },
        }
    }

    /// Adds an edge between two live nodes and undo-tracks its removal.
    fn add_edge(&mut self, src: NodeIndex, dst: NodeIndex)
        requires
            old(self).wf(),
            old(self).graph.node_live(src),
            old(self).graph.node_live(dst),
        ensures
            final(self).wf(),
            final(self).st() == tr_add_edge(old(self).st(), src, dst),
    {
        let ghost o = *old(self);
        let edge = self.graph.add_edge(src, dst, ());
        self.undo.track(Action::RemoveEdge(edge));
        proof {
            let s = *self;
            assert(o.graph.is_first_free_edge(edge));
            assert(is_ff_edge(o.st().edges, edge)) by {
                assert(!o.graph.edge_live(edge));
                assert forall|j: usize| j < edge.0 implies #[trigger] o.st().edges.contains_key(
                    EdgeIndex(j),
                ) by {
                    assert(o.graph.edge_live(EdgeIndex(j)));
                }
            }
            lemma_ff_edge(o.st().edges, edge);
            assert forall|i: int|
                0 <= i < s.nodes@.len() implies s.graph.node_live(
                (#[trigger] s.nodes@[i]).1,
            ) by {
                assert(o.graph.node_live(o.nodes@[i].1));
                assert(o.graph.nodes_view().contains_key(o.nodes@[i].1));
                assert(s.graph.nodes_view().contains_key(o.nodes@[i].1));
            }
            assert forall|v: NodeIndex| #[trigger] s.graph.node_live(v) implies exists|i: int|
                0 <= i < s.nodes@.len() && (#[trigger] s.nodes@[i]).1 == v by {
                assert(s.graph.nodes_view().contains_key(v));
                assert(o.graph.nodes_view().contains_key(v));
                assert(o.graph.node_live(v));
                let i = choose|i: int|
                    0 <= i < o.nodes@.len() && (#[trigger] o.nodes@[i]).1 == v;
                assert(s.nodes@[i].1 == v);
            }
            assert(s.st().live =~= o.st().live) by {
                assert forall|v: NodeIndex|
                    s.graph.node_live(v) <==> o.graph.node_live(v) by {
                    if s.graph.node_live(v) {
                        assert(s.graph.nodes_view().contains_key(v));
                        assert(o.graph.nodes_view().contains_key(v));
                    } else if o.graph.node_live(v) {
                        assert(o.graph.nodes_view().contains_key(v));
                        assert(s.graph.nodes_view().contains_key(v));
                    }
                }
            }
            assert(s.st() == tr_add_edge(o.st(), src, dst));
        }
    }

    /// Removes an edge by handle if it is live and undo-tracks re-adding it;
    /// says whether anything was removed.
    fn remove_edge(&mut self, edge: EdgeIndex) -> (r: bool)
        requires
            old(self).wf_core(),
        ensures
            final(self).wf_core(),
            old(self).wf() ==> final(self).wf(),
            final(self).st() == tr_remove_edge(old(self).st(), edge),
            r == old(self).st().edges.contains_key(edge),
            final(self).nodes == old(self).nodes,
            forall|v: NodeIndex|
                #[trigger] final(self).graph.node_live(v) == old(self).graph.node_live(v),
            old(self).st().edges.contains_key(edge) ==> forall|m: NodeIndex, dd: int|
                old(self).graph.node_live(m) && 0 <= dd < 2 ==> final(self).graph.chain(m, dd)
                    == old(self).graph.chain(m, dd).remove_value(edge),
            !old(self).st().edges.contains_key(edge) ==> final(self).graph == old(self).graph,
    {
        let ghost o = *old(self);
        let ends = self.graph.src_dst(edge);
        match ends {
            Some((src, dst)) => {
                proof {
                    assert(o.graph.edge_live(edge));
                    assert(o.st().edges.contains_key(edge));
                    assert(o.st().edges[edge] == EdgeInfo { src, dst, data: () });
                }
                self.graph.remove_edge_unchecked(edge);
                self.undo.track(Action::AddEdge(src, dst));
                proof {
                    let s = *self;
                    assert forall|v: NodeIndex|
                        #[trigger] s.graph.node_live(v) == o.graph.node_live(v) by {
                        if s.graph.node_live(v) {
                            assert(s.graph.nodes_view().contains_key(v));
                            assert(o.graph.nodes_view().contains_key(v));
                        } else if o.graph.node_live(v) {
                            assert(o.graph.nodes_view().contains_key(v));
                            assert(s.graph.nodes_view().contains_key(v));
                        }
                    }
                    assert forall|i: int|
                        0 <= i < s.nodes@.len() implies s.graph.node_live(
                        (#[trigger] s.nodes@[i]).1,
                    ) by {
                        assert(o.graph.node_live(o.nodes@[i].1));
                    }
                    if o.wf() {
                        assert forall|v: NodeIndex| #[trigger] s.graph.node_live(v) implies exists|
                            i: int,
                        | 0 <= i < s.nodes@.len() && (#[trigger] s.nodes@[i]).1 == v by {
                            assert(o.graph.node_live(v));
                            let i = choose|i: int|
                                0 <= i < o.nodes@.len() && (#[trigger] o.nodes@[i]).1 == v;
                            assert(s.nodes@[i].1 == v);
                        }
                    }
                    assert(s.st().live =~= o.st().live) by {
                        assert forall|v: NodeIndex|
                            s.graph.node_live(v) <==> o.graph.node_live(v) by {
                            if s.graph.node_live(v) {
                                assert(s.graph.nodes_view().contains_key(v));
                                assert(o.graph.nodes_view().contains_key(v));
                            } else if o.graph.node_live(v) {
                                assert(o.graph.nodes_view().contains_key(v));
                                assert(s.graph.nodes_view().contains_key(v));
                            }
                        }
                    }
                    assert(s.st() == tr_remove_edge(o.st(), edge));
                }
                true
            },
            None => {
                proof {
                    assert(!o.graph.edge_live(edge));
                    assert(!o.st().edges.contains_key(edge));
                    assert(final(self).st() == tr_remove_edge(o.st(), edge));
                }
                false
            },
        }
    }

    /// Connects `src` to `dst` by name, creating either node as needed;
    /// each creation and the new edge are separately undo-tracked.
    pub fn pipe(&mut self, src: &str, dst: &str)
        requires
            old(self).wf(),
        ensures
            final(self).wf(),
            final(self).st() == tr_pipe(old(self).st(), src@, dst@),
    {
        let a = self.add_node(src);
        let ghost m1 = *self;
        let b = self.add_node(dst);
        proof {
            assert(m1.st().live.contains(a)) by {
                assert(m1.graph.node_live(a));
            }
            assert(self.st().live.contains(a)) by {
                assert(self.st() == tr_add_node(m1.st(), dst@));
            }
            assert(self.graph.node_live(a));
        }
        self.add_edge(a, b);
    }

    /// The listed handles sorted into strictly decreasing slot order, each
    /// kept once.
    #[verifier::loop_isolation(false)]
    fn sort_desc_unique(input: &Vec<EdgeIndex>) -> (out: Vec<EdgeIndex>)
        ensures
            forall|e: EdgeIndex| #[trigger] out@.contains(e) <==> input@.contains(e),
            forall|k: int, l: int| 0 <= k < l < out@.len() ==> out@[k].0 > out@[l].0,
    {
        let mut out: Vec<EdgeIndex> = Vec::new();
        let mut i: usize = 0;
        while i < input.len()
            invariant
                i <= input@.len(),
                forall|e: EdgeIndex|
                    #[trigger] out@.contains(e) <==> input@.take(i as int).contains(e),
                forall|k: int, l: int| 0 <= k < l < out@.len() ==> out@[k].0 > out@[l].0,
            decreases input@.len() - i,
        {
            let x = input[i];
            let mut k: usize = 0;
            while k < out.len() && out[k].0 > x.0
                invariant
                    k <= out@.len(),
                    forall|j: int| 0 <= j < k ==> out@[j].0 > x.0,
                decreases out@.len() - k,
            {
                k += 1;
            }
            let ghost out0 = out@;
            if k < out.len() && out[k].0 == x.0 {
                // already present: an equal slot is the same handle
                proof {
                    assert(out@[k as int] == x);
                    assert(out@.contains(x));
                    assert(out@ =~= out0);
                    assert forall|e: EdgeIndex|
                        #[trigger] out@.contains(e) <==> input@.take(i + 1).contains(e) by {
                        assert(input@.take(i + 1).drop_last() =~= input@.take(i as int));
                        if out@.contains(e) {
                            let j = choose|j: int|
                                0 <= j < input@.take(i as int).len() && input@.take(i as int)[j]
                                    == e;
                            assert(input@.take(i + 1)[j] == e);
                        }
                        if input@.take(i + 1).contains(e) {
                            let j = choose|j: int|
                                0 <= j < input@.take(i + 1).len() && #[trigger] input@.take(
                                    i + 1,
                                )[j] == e;
                            if j < i {
                                assert(input@.take(i as int)[j] == e);
                            } else {
                                assert(e == x);
                            }
                        }
                    }
                }
            } else {
                out.insert(k, x);
                proof {
                    assert(out@ =~= out0.insert(k as int, x));
                    assert forall|a: int, b: int|
                        0 <= a < b < out@.len() implies out@[a].0 > out@[b].0 by {
                        let a2: int = if a < k {
                            a
                        } else {
                            a - 1
                        };
                        let b2: int = if b < k {
                            b
                        } else {
                            b - 1
                        };
                        if a == k {
                            // x sits before b: every earlier element beat x,
                            // so x must beat what follows
                            assert(out@[b] == out0[b - 1]);
                            if b - 1 == k {
                                assert(!(out0[k as int].0 > x.0));
                                assert(out0[k as int].0 != x.0);
                            } else {
                                assert(out0[k as int].0 > out0[b - 1].0);
                                assert(!(out0[k as int].0 > x.0));
                                assert(out0[k as int].0 != x.0);
                            }
                        } else if b == k {
                            assert(out@[a] == out0[a]);
                            assert(out0[a].0 > x.0);
                        } else {
                            assert(out@[a] == out0[a2] && out@[b] == out0[b2]);
                        }
                    }
                    assert forall|e: EdgeIndex|
                        #[trigger] out@.contains(e) <==> input@.take(i + 1).contains(e) by {
                        assert(input@.take(i + 1).drop_last() =~= input@.take(i as int));
                        if out@.contains(e) {
                            let j = choose|j: int| 0 <= j < out@.len() && out@[j] == e;
                            if j == k {
                                assert(input@.take(i + 1)[i as int] == x);
                            } else {
                                let j2: int = if j < k {
                                    j
                                } else {
                                    j - 1
                                };
                                assert(out0[j2] == e);
                                assert(out0.contains(e));
                                let j3 = choose|j3: int|
                                    0 <= j3 < input@.take(i as int).len() && input@.take(
                                        i as int,
                                    )[j3] == e;
                                assert(input@.take(i + 1)[j3] == e);
                            }
                        }
                        if input@.take(i + 1).contains(e) {
                            let j = choose|j: int|
                                0 <= j < input@.take(i + 1).len() && #[trigger] input@.take(
                                    i + 1,
                                )[j] == e;
                            if j < i {
                                assert(input@.take(i as int)[j] == e);
                                assert(out0.contains(e));
                                let j2 = choose|j2: int| 0 <= j2 < out0.len() && out0[j2] == e;
                                if j2 < k {
                                    assert(out@[j2] == e);
                                } else {
                                    assert(out@[j2 + 1] == e);
                                }
                            } else {
                                assert(e == x);
                                assert(out@[k as int] == x);
                            }
                        }
                    }
                }
            }
            i += 1;
        }
        proof {
            assert(input@.take(input@.len() as int) =~= input@);
        }
        out
    }

    /// Removes the node of `node` if the name is live: every incident edge
    /// goes first (highest slot first, each removal undo-tracked on its
    /// own), then the name and the node itself, undo-tracked with the
    /// inverse action of re-adding the name.  Says whether a node was
    /// removed.
    #[verifier::loop_isolation(false)]
    pub fn remove_node(&mut self, node: &str) -> (r: bool)
        requires
            old(self).wf(),
        ensures
            final(self).wf(),
            final(self).st() == tr_remove_node(old(self).st(), node@),
            r == old(self).names().contains_key(node@),
            old(self).names().contains_key(node@) ==> (forall|m: NodeIndex, dd: int|
                old(self).graph.node_live(m) && m != old(self).names()[node@] && 0 <= dd < 2
                    ==> final(self).graph.chain(m, dd) == sans(
                    old(self).graph.chain(m, dd),
                    old(self).graph.incident(old(self).names()[node@]),
                )),
            !old(self).names().contains_key(node@) ==> final(self).graph == old(self).graph,
    {
        let ghost o = *old(self);
        let owned = node.to_owned();
        let found = self.find_name(&owned);
        proof {
            lemma_names_of(self.nodes@);
        }
        let i = match found {
            Some(i) => i,
            None => {
                proof {
                    assert(!o.names().contains_key(node@));
                }
                return false;
            },
        };
        let idx = self.nodes.remove(i).1;
        let ghost m0 = *self;
        proof {
            assert(o.names().contains_key(node@));
            assert(o.names()[node@] == idx);
            // dropping one entry keeps the list's soundness, except that
            // `idx` is now a live node without a name
            assert forall|a: int, b: int|
                0 <= a < b < m0.nodes@.len() implies (#[trigger] m0.nodes@[a]).0@ != (
            #[trigger] m0.nodes@[b]).0@ && (#[trigger] m0.nodes@[a]).1 != (
            #[trigger] m0.nodes@[b]).1 by {
                let a2: int = if a < i {
                    a
                } else {
                    a + 1
                };
                let b2: int = if b < i {
                    b
                } else {
                    b + 1
                };
                assert(m0.nodes@[a] == o.nodes@[a2] && m0.nodes@[b] == o.nodes@[b2]);
            }
            assert forall|a: int|
                0 <= a < m0.nodes@.len() implies m0.graph.node_live(
                (#[trigger] m0.nodes@[a]).1,
            ) by {
                let a2: int = if a < i {
                    a
                } else {
                    a + 1
                };
                assert(m0.nodes@[a] == o.nodes@[a2]);
            }
            // the new name map is the old one without this name
            lemma_names_of(m0.nodes@);
            assert(m0.names() =~= o.names().remove(node@)) by {
                assert forall|s2: Seq<char>|
                    #[trigger] m0.names().contains_key(s2) <==> o.names().remove(
                        node@,
                    ).contains_key(s2) by {
                    if m0.names().contains_key(s2) {
                        let a = choose|a: int|
                            0 <= a < m0.nodes@.len() && (#[trigger] m0.nodes@[a]).0@ == s2;
                        let a2: int = if a < i {
                            a
                        } else {
                            a + 1
                        };
                        assert(o.nodes@[a2].0@ == s2);
                        assert(a2 != i);
                        assert(s2 != node@) by {
                            if a2 < i {
                                assert(o.nodes@[a2].0@ != o.nodes@[i as int].0@);
                            } else {
                                assert(o.nodes@[i as int].0@ != o.nodes@[a2].0@);
                            }
                        }
                    }
                    if o.names().remove(node@).contains_key(s2) {
                        let a = choose|a: int|
                            0 <= a < o.nodes@.len() && (#[trigger] o.nodes@[a]).0@ == s2;
                        assert(a != i);
                        let a2: int = if a < i {
                            a
                        } else {
                            a - 1
                        };
                        assert(m0.nodes@[a2].0@ == s2);
                    }
                }
                assert forall|s2: Seq<char>|
                    #[trigger] m0.names().contains_key(s2) implies m0.names()[s2]
                    == o.names()[s2] by {
                    let a = choose|a: int|
                        0 <= a < m0.nodes@.len() && (#[trigger] m0.nodes@[a]).0@ == s2;
                    let a2: int = if a < i {
                        a
                    } else {
                        a + 1
                    };
                    assert(m0.nodes@[a] == o.nodes@[a2]);
                    assert(m0.names()[m0.nodes@[a].0@] == m0.nodes@[a].1);
                    assert(o.names()[o.nodes@[a2].0@] == o.nodes@[a2].1);
                }
            }
        }
        // gather the incident edges: both chains of the node
        let e0 = self.graph.edges(idx, 0);
        let e1 = self.graph.edges(idx, 1);
        let mut all = e0.items;
        let mut more = e1.items;
        all.append(&mut more);
        let sorted = Self::sort_desc_unique(&all);
        let ghost q = sorted@;
        proof {
            // the sorted handles list exactly the incident edges
            assert(is_desc_of(q, incident_set(o.st().edges, idx))) by {
                let inc = incident_set(o.st().edges, idx);
                assert forall|k: int| 0 <= k < q.len() implies inc.contains(#[trigger] q[k]) by {
                    assert(q.contains(q[k]));
                    assert(all@.contains(q[k]));
                    let j = choose|j: int| 0 <= j < all@.len() && all@[j] == q[k];
                    if j < o.graph.chain(idx, 0).len() {
                        assert(o.graph.chain(idx, 0)[j] == q[k]);
                        assert(o.graph.chain(idx, 0).contains(q[k]));
                        assert(o.graph.chain_ok(idx, 0));
                        assert(o.graph.edge_live(q[k]) && o.graph.src(q[k]) == idx);
                    } else {
                        let j2 = j - o.graph.chain(idx, 0).len();
                        assert(o.graph.chain(idx, 1)[j2] == q[k]);
                        assert(o.graph.chain(idx, 1).contains(q[k]));
                        assert(o.graph.chain_ok(idx, 1));
                        assert(o.graph.edge_live(q[k]) && o.graph.dst(q[k]) == idx);
                    }
                }
                assert forall|e: EdgeIndex| #[trigger] inc.contains(e) implies q.contains(e) by {
                    assert(o.graph.edge_live(e));
                    if o.graph.src(e) == idx {
                        assert(o.graph.chain(o.graph.owner(0, e), 0).contains(e));
                        let k = choose|k: int|
                            0 <= k < o.graph.chain(idx, 0).len() && o.graph.chain(idx, 0)[k] == e;
                        assert(all@[k] == e);
                    } else {
                        assert(o.graph.chain(o.graph.owner(1, e), 1).contains(e));
                        let k = choose|k: int|
                            0 <= k < o.graph.chain(idx, 1).len() && o.graph.chain(idx, 1)[k] == e;
                        assert(all@[k + o.graph.chain(idx, 0).len()] == e);
                    }
                    assert(all@.contains(e));
                }
            }
            lemma_desc_of(incident_set(o.st().edges, idx), q);
        }
        // remove them, highest slot first, each tracked on its own
        let ghost s_begin = self.st();
        proof {
            assert(q.skip(0) =~= q);
        }
        proof {
            assert forall|m: NodeIndex, dd: int|
                o.graph.node_live(m) && 0 <= dd < 2 implies #[trigger] self.graph.chain(m, dd)
                == sans(o.graph.chain(m, dd), q.take(0).to_set()) by {
                assert(q.take(0).to_set() =~= Set::<EdgeIndex>::empty());
                lemma_sans_congruent(
                    o.graph.chain(m, dd),
                    q.take(0).to_set(),
                    Set::<EdgeIndex>::empty(),
                );
                lemma_sans_empty(o.graph.chain(m, dd));
            }
        }
        let mut k: usize = 0;
        while k < sorted.len()
            invariant
                k <= q.len(),
                self.wf_core(),
                self.nodes == m0.nodes,
                tr_remove_edges(s_begin, q) == tr_remove_edges(self.st(), q.skip(k as int)),
                forall|v: NodeIndex|
                    #[trigger] self.graph.node_live(v) == m0.graph.node_live(v),
                forall|m: NodeIndex, dd: int|
                    o.graph.node_live(m) && 0 <= dd < 2 ==> #[trigger] self.graph.chain(m, dd)
                        == sans(o.graph.chain(m, dd), q.take(k as int).to_set()),
            decreases q.len() - k,
        {
            let ghost pre = self.st();
            let ghost preg = self.graph;
            proof {
                // the next listed edge is still live: it sits in one of the
                // node's chains, and nothing removed it yet
                let e = q[k as int];
                assert(q.no_duplicates()) by {
                    assert forall|a: int, b: int| 0 <= a < b < q.len() implies q[a] != q[b] by {
                        assert(q[a].0 > q[b].0);
                    }
                }
                assert(!q.take(k as int).to_set().contains(e)) by {
                    if q.take(k as int).contains(e) {
                        let j = choose|j: int| 0 <= j < k && q.take(k as int)[j] == e;
                        assert(q[j] == q[k as int]);
                    }
                }
                assert(incident_set(o.st().edges, idx).contains(e));
                assert(self.graph.node_live(idx));
                if o.graph.src(e) == idx {
                    assert(o.graph.chain(o.graph.owner(0, e), 0).contains(e));
                    assert(o.graph.chain_ok(idx, 0));
                    lemma_sans_contains(o.graph.chain(idx, 0), q.take(k as int).to_set());
                    assert(self.graph.chain(idx, 0).contains(e));
                    assert(self.graph.chain_ok(idx, 0));
                    assert(self.graph.edge_live(e));
                } else {
                    assert(o.graph.edge_live(e) && o.graph.dst(e) == idx);
                    assert(o.graph.chain(o.graph.owner(1, e), 1).contains(e));
                    assert(o.graph.chain_ok(idx, 1));
                    lemma_sans_contains(o.graph.chain(idx, 1), q.take(k as int).to_set());
                    assert(self.graph.chain(idx, 1).contains(e));
                    assert(self.graph.chain_ok(idx, 1));
                    assert(self.graph.edge_live(e));
                }
                assert(pre.edges.contains_key(e)) by {
                    assert(self.graph.edges_view().contains_key(e));
                }
            }
            self.remove_edge(sorted[k]);
            proof {
                assert(q.skip(k as int)[0] == q[k as int]);
                assert(q.skip(k as int).subrange(1, q.skip(k as int).len() as int) =~= q.skip(
                    k + 1,
                ));
                assert(tr_remove_edges(pre, q.skip(k as int)) == tr_remove_edges(
                    tr_remove_edge(pre, q[k as int]),
                    q.skip(k + 1),
                ));
                // one more listed edge is gone from every chain
                let e = q[k as int];
                assert(q.take(k + 1).to_set() =~= q.take(k as int).to_set().insert(e)) by {
                    assert forall|f: EdgeIndex|
                        q.take(k + 1).contains(f) <==> (q.take(k as int).contains(f) || f
                            == e) by {
                        if q.take(k + 1).contains(f) {
                            let j = choose|j: int|
                                0 <= j < k + 1 && #[trigger] q.take(k + 1)[j] == f;
                            if j < k {
                                assert(q.take(k as int)[j] == f);
                            } else {
                                assert(q[j] == f);
                            }
                        }
                        if q.take(k as int).contains(f) {
                            let j = choose|j: int| 0 <= j < k && q.take(k as int)[j] == f;
                            assert(q.take(k + 1)[j] == f);
                        }
                        if f == e {
                            assert(q.take(k + 1)[k as int] == f);
                        }
                    }
                }
                assert forall|m: NodeIndex, dd: int|
                    o.graph.node_live(m) && 0 <= dd < 2 implies #[trigger] self.graph.chain(
                    m,
                    dd,
                ) == sans(o.graph.chain(m, dd), q.take(k + 1).to_set()) by {
                    assert(preg.node_live(m));
                    assert(self.graph.chain(m, dd) == preg.chain(m, dd).remove_value(e));
                    assert(preg.chain(m, dd) == sans(
                        o.graph.chain(m, dd),
                        q.take(k as int).to_set(),
                    ));
                    assert(o.graph.chain_ok(m, dd));
                    lemma_sans_step(o.graph.chain(m, dd), q.take(k as int).to_set(), e);
                    lemma_sans_congruent(
                        o.graph.chain(m, dd),
                        q.take(k as int).to_set().insert(e),
                        q.take(k + 1).to_set(),
                    );
                }
            }
            k += 1;
        }
        let ghost m1 = *self;
        proof {
            assert(q.skip(q.len() as int) =~= Seq::<EdgeIndex>::empty());
            assert(m1.st() == tr_remove_edges(s_begin, q));
            assert(m1.graph.node_live(idx));
        }
        // the chains of the node are now empty, so this only frees the slot
        self.graph.remove_node_unchecked(idx);
        self.undo.track(Action::AddNode(owned));
        proof {
            let s = *self;
            // every incident edge was already gone before the node went
            assert forall|e: EdgeIndex|
                #[trigger] m1.graph.edge_live(e) implies !(m1.graph.src(e) == idx || m1.graph.dst(
                e,
            ) == idx) by {
                lemma_tr_remove_edges_effect(s_begin, q);
                assert(m1.st().edges == s_begin.edges.remove_keys(q.to_set()));
                assert(m1.st().edges.contains_key(e));
                if m1.graph.src(e) == idx || m1.graph.dst(e) == idx {
                    assert(s_begin.edges.contains_key(e));
                    assert(s_begin.edges[e] == m1.st().edges[e]);
                    assert(incident_set(o.st().edges, idx).contains(e));
                    assert(q.contains(e));
                    assert(q.to_set().contains(e));
                }
            }
            assert(m1.graph.incident(idx) =~= Set::<EdgeIndex>::empty());
            // so the node's removal removes no further edges
            assert(s.graph.edges_view() =~= m1.graph.edges_view());
            assert(s.st().edges =~= m1.st().edges);
            assert(s.st().live =~= m1.st().live.remove(idx)) by {
                assert forall|v: NodeIndex|
                    #[trigger] s.graph.node_live(v) <==> (m1.graph.node_live(v) && v != idx) by {
                    if v != idx {
                        if s.graph.node_live(v) {
                            assert(s.graph.nodes_view().contains_key(v));
                            assert(m1.graph.nodes_view().contains_key(v));
                        } else if m1.graph.node_live(v) {
                            assert(m1.graph.nodes_view().contains_key(v));
                            assert(s.graph.nodes_view().contains_key(v));
                        }
                    } else {
                        if s.graph.node_live(idx) {
                            assert(s.graph.nodes_view().contains_key(idx));
                            assert(m1.graph.nodes_view().remove(idx).contains_key(idx));
                        }
                    }
                }
            }
            // soundness is restored: the unnamed node is gone
            assert forall|a: int|
                0 <= a < s.nodes@.len() implies s.graph.node_live((#[trigger] s.nodes@[a]).1) by {
                assert(m1.graph.node_live(m1.nodes@[a].1));
                assert(m1.graph.nodes_view().contains_key(m1.nodes@[a].1));
                assert(m0.nodes@[a].1 != idx) by {
                    let a2: int = if a < i {
                        a
                    } else {
                        a + 1
                    };
                    assert(m0.nodes@[a] == o.nodes@[a2]);
                    if a2 < i {
                        assert(o.nodes@[a2].1 != o.nodes@[i as int].1);
                    } else if a2 > i {
                        assert(o.nodes@[i as int].1 != o.nodes@[a2].1);
                    }
                }
                assert(s.graph.nodes_view().contains_key(m1.nodes@[a].1));
            }
            assert forall|v: NodeIndex| #[trigger] s.graph.node_live(v) implies exists|a: int|
                0 <= a < s.nodes@.len() && (#[trigger] s.nodes@[a]).1 == v by {
                assert(s.st().live.contains(v));
                assert(m1.st().live.remove(idx).contains(v));
                assert(m1.st().live.contains(v));
                assert(m1.graph.node_live(v) && v != idx);
                assert(o.graph.node_live(v));
                let a = choose|a: int| 0 <= a < o.nodes@.len() && (#[trigger] o.nodes@[a]).1 == v;
                assert(a != i);
                let a2: int = if a < i {
                    a
                } else {
                    a - 1
                };
                assert(s.nodes@[a2].1 == v);
            }
            // the surviving chains are the old chains with the incident
            // edges gone, in their old order
            assert forall|m: NodeIndex, dd: int|
                o.graph.node_live(m) && m != idx && 0 <= dd < 2 implies #[trigger] s.graph.chain(
                m,
                dd,
            ) == sans(o.graph.chain(m, dd), o.graph.incident(idx)) by {
                assert(q.take(q.len() as int) =~= q);
                assert(m1.graph.chain(m, dd) == sans(o.graph.chain(m, dd), q.to_set()));
                assert(m1.graph.node_live(m));
                assert(s.graph.chain(m, dd) == sans(
                    m1.graph.chain(m, dd),
                    m1.graph.incident(idx),
                ));
                lemma_sans_congruent(
                    m1.graph.chain(m, dd),
                    m1.graph.incident(idx),
                    Set::<EdgeIndex>::empty(),
                );
                lemma_sans_empty(m1.graph.chain(m, dd));
                assert(q.to_set() =~= o.graph.incident(idx)) by {
                    assert forall|f: EdgeIndex|
                        q.to_set().contains(f) <==> o.graph.incident(idx).contains(f) by {
                        if q.contains(f) {
                            assert(incident_set(o.st().edges, idx).contains(f));
                            assert(o.st().edges.contains_key(f));
                            assert(o.graph.edge_live(f));
                            assert(o.graph.edges_view()[f].src == o.graph.src(f)
                                && o.graph.edges_view()[f].dst == o.graph.dst(f));
                        }
                        if o.graph.incident(idx).contains(f) {
                            assert(o.graph.edge_live(f));
                            assert(o.graph.edges_view().contains_key(f));
                            assert(o.graph.edges_view()[f].src == o.graph.src(f)
                                && o.graph.edges_view()[f].dst == o.graph.dst(f));
                            assert(incident_set(o.st().edges, idx).contains(f));
                            assert(q.contains(f));
                        }
                    }
                }
                lemma_sans_congruent(o.graph.chain(m, dd), q.to_set(), o.graph.incident(idx));
            }
            // and the abstract state took exactly the specified path
            assert(s.names() == m0.names());
            assert(m1.names() == m0.names());
            let spec_s1 = tr_remove_edges(o.st(), q);
            assert(s_begin.names == m0.names() && s_begin.edges == o.st().edges && s_begin.live
                =~= o.st().live) by {
                assert forall|v: NodeIndex|
                    m0.graph.node_live(v) <==> o.graph.node_live(v) by {
                    if m0.graph.node_live(v) {
                        assert(m0.graph.nodes_view().contains_key(v));
                        assert(o.graph.nodes_view().contains_key(v));
                    } else if o.graph.node_live(v) {
                        assert(o.graph.nodes_view().contains_key(v));
                        assert(m0.graph.nodes_view().contains_key(v));
                    }
                }
            }
            lemma_tr_remove_edges_frame(o.st(), s_begin, q);
            assert(m1.st().names == m0.names() && spec_s1.names == o.names() && m1.st().live
                =~= spec_s1.live && m1.st().edges == spec_s1.edges && m1.st().hist
                == spec_s1.hist && m1.st().pos == spec_s1.pos && m1.st().pause
                == spec_s1.pause) by {
                assert(m1.st() == tr_remove_edges(s_begin, q));
            }
            assert(s.st() == tr_remove_node(o.st(), node@)) by {
                let v1 = tr_remove_edges(o.st(), q);
                let v2 = HState {
                    names: v1.names.remove(node@),
                    live: v1.live.remove(idx),
                    ..v1
                };
                let v3 = tr_track(v2, ActionV::AddNode(node@));
                assert(s.st().names =~= v3.names) by {
                    assert(m0.names() == o.names().remove(node@));
                }
                assert(s.st().live =~= v3.live);
                assert(s.st().edges =~= v3.edges);
                assert(s.st().hist =~= v3.hist);
                assert(s.st() == v3);
                assert(tr_remove_node(o.st(), node@) == v3);
            }
        }
        true
    }

    /// Removes an edge by raw slot id if such an edge is live; says whether
    /// anything was removed.  The removal is undo-tracked.
    pub fn delete_edge(&mut self, idx: usize) -> (r: bool)
        requires
            old(self).wf(),
        ensures
            final(self).wf(),
            final(self).st() == tr_remove_edge(old(self).st(), EdgeIndex(idx)),
            r == old(self).st().edges.contains_key(EdgeIndex(idx)),
    {
        self.remove_edge(EdgeIndex(idx))
    }
}

/// Merging the log entries recorded past `snapshot` into one composite
/// entry (a no-op below two entries), as `Undo::pile` does.
pub open spec fn tr_pile(s: HState, snapshot: int) -> HState {
    if s.hist.len() < 2 || s.hist.len() < snapshot + 2 {
        s
    } else {
        HState {
            hist: s.hist.take(snapshot).push(ActionV::Composite(s.hist.skip(snapshot))),
            pos: snapshot + 1,
            ..s
        }
    }
}

/// Replaying one recorded action.  A replay that would break an invariant
/// (a name to remove that is not there, an endpoint that is not live) is
/// skipped.  A composite replays its entries newest first and re-piles what
/// that replay recorded, so the group stays one undo step.
pub open spec fn tr_apply(s: HState, a: ActionV) -> HState
    decreases a, 0int,
{
    match a {
        ActionV::AddNode(name) => tr_add_node(s, name),
        ActionV::RemoveNode(name) => tr_remove_node(s, name),
        ActionV::AddEdge(x, y) => if s.live.contains(x) && s.live.contains(y) {
            tr_add_edge(s, x, y)
        } else {
            s
        },
        ActionV::RemoveEdge(e) => tr_remove_edge(s, e),
        ActionV::Composite(v) => {
            let snapshot = s.hist.len() as int;
            let s1 = tr_apply_list(s, v);
            tr_pile(s1, snapshot)
        },
    }
}

/// Replaying a list of recorded actions, last entry first.
pub open spec fn tr_apply_list(s: HState, v: Seq<ActionV>) -> HState
    decreases v, v.len(),
{
    if v.len() == 0 {
        s
    } else {
        tr_apply_list(tr_apply(s, v.last()), v.drop_last())
    }
}

/// A paused replay changes the log in no way.
pub proof fn lemma_tr_apply_paused(s: HState, a: ActionV)
    requires
        s.pause,
    ensures
        tr_apply(s, a).hist == s.hist,
        tr_apply(s, a).pos == s.pos,
        tr_apply(s, a).pause == s.pause,
    decreases a, 0int,
{
    match a {
        ActionV::RemoveNode(name) => {
            if s.names.contains_key(name) {
                let v = s.names[name];
                let q = desc_of(incident_set(s.edges, v));
                lemma_tr_remove_edges_paused(s, q);
            }
        },
        ActionV::RemoveEdge(e) => {},
        ActionV::Composite(v) => {
            lemma_tr_apply_list_paused(s, v);
        },
        _ => {},
    }
}

/// A paused replay of a list changes the log in no way.
pub proof fn lemma_tr_apply_list_paused(s: HState, v: Seq<ActionV>)
    requires
        s.pause,
    ensures
        tr_apply_list(s, v).hist == s.hist,
        tr_apply_list(s, v).pos == s.pos,
        tr_apply_list(s, v).pause == s.pause,
    decreases v, v.len(),
{
    if v.len() > 0 {
        lemma_tr_apply_paused(s, v.last());
        lemma_tr_apply_list_paused(tr_apply(s, v.last()), v.drop_last());
    }
}

/// Paused edge removals change the log in no way.
pub proof fn lemma_tr_remove_edges_paused(s: HState, q: Seq<EdgeIndex>)
    requires
        s.pause,
    ensures
        tr_remove_edges(s, q).hist == s.hist,
        tr_remove_edges(s, q).pos == s.pos,
        tr_remove_edges(s, q).pause == s.pause,
    decreases q.len(),
{
    if q.len() > 0 {
        lemma_tr_remove_edges_paused(tr_remove_edge(s, q[0]), q.subrange(1, q.len() as int));
    }
}

/// A replay never flips the suppression flag.
pub proof fn lemma_tr_apply_pause_const(s: HState, a: ActionV)
    ensures
        tr_apply(s, a).pause == s.pause,
    decreases a, 0int,
{
    match a {
        ActionV::RemoveNode(name) => {
            if s.names.contains_key(name) {
                let v = s.names[name];
                let q = desc_of(incident_set(s.edges, v));
                lemma_tr_remove_edges_pause_const(s, q);
            }
        },
        ActionV::Composite(v) => {
            lemma_tr_apply_list_pause_const(s, v);
        },
        _ => {},
    }
}

/// As `lemma_tr_apply_pause_const`, for a list of entries.
pub proof fn lemma_tr_apply_list_pause_const(s: HState, v: Seq<ActionV>)
    ensures
        tr_apply_list(s, v).pause == s.pause,
    decreases v, v.len(),
{
    if v.len() > 0 {
        lemma_tr_apply_pause_const(s, v.last());
        lemma_tr_apply_list_pause_const(tr_apply(s, v.last()), v.drop_last());
    }
}

/// As `lemma_tr_apply_pause_const`, for a run of edge removals.
pub proof fn lemma_tr_remove_edges_pause_const(s: HState, q: Seq<EdgeIndex>)
    ensures
        tr_remove_edges(s, q).pause == s.pause,
    decreases q.len(),
{
    if q.len() > 0 {
        lemma_tr_remove_edges_pause_const(tr_remove_edge(s, q[0]), q.subrange(1, q.len() as int));
    }
}

/// Pile atomicity: replaying one composite entry does to the hive exactly
/// what replaying its merged entries one by one (newest first) does; the
/// re-piling at the end only reshapes the log, never the graph or the
/// names.  So one undo of a piled group equals undoing the group's entries
/// individually.
pub proof fn lemma_composite_atomic(s: HState, v: Seq<ActionV>)
    ensures
        tr_apply(s, ActionV::Composite(v)).names == tr_apply_list(s, v).names,
        tr_apply(s, ActionV::Composite(v)).live == tr_apply_list(s, v).live,
        tr_apply(s, ActionV::Composite(v)).edges == tr_apply_list(s, v).edges,
        tr_apply(s, ActionV::Composite(v)).pause == tr_apply_list(s, v).pause,
{
}

/// A replay that starts with the cursor at the end of the history keeps it
/// there and never shortens the history below its starting length.
pub proof fn lemma_tr_apply_grows(s: HState, a: ActionV)
    requires
        s.pos == s.hist.len(),
    ensures
        tr_apply(s, a).pos == tr_apply(s, a).hist.len(),
        tr_apply(s, a).hist.len() >= s.hist.len(),
    decreases a, 0int,
{
    if s.pause {
        lemma_tr_apply_paused(s, a);
    } else {
        match a {
            ActionV::RemoveNode(name) => {
                if s.names.contains_key(name) {
                    let v = s.names[name];
                    let q = desc_of(incident_set(s.edges, v));
                    lemma_tr_remove_edges_grows(s, q);
                }
            },
            ActionV::Composite(v) => {
                lemma_tr_apply_list_grows(s, v);
            },
            _ => {},
        }
    }
}

/// As `lemma_tr_apply_grows`, for a list of entries.
pub proof fn lemma_tr_apply_list_grows(s: HState, v: Seq<ActionV>)
    requires
        s.pos == s.hist.len(),
    ensures
        tr_apply_list(s, v).pos == tr_apply_list(s, v).hist.len(),
        tr_apply_list(s, v).hist.len() >= s.hist.len(),
    decreases v, v.len(),
{
    if v.len() > 0 {
        lemma_tr_apply_grows(s, v.last());
        lemma_tr_apply_list_grows(tr_apply(s, v.last()), v.drop_last());
    }
}

/// As `lemma_tr_apply_grows`, for a run of edge removals.
pub proof fn lemma_tr_remove_edges_grows(s: HState, q: Seq<EdgeIndex>)
    requires
        s.pos == s.hist.len(),
    ensures
        tr_remove_edges(s, q).pos == tr_remove_edges(s, q).hist.len(),
        tr_remove_edges(s, q).hist.len() >= s.hist.len(),
    decreases q.len(),
{
    if q.len() > 0 {
        lemma_tr_remove_edges_grows(tr_remove_edge(s, q[0]), q.subrange(1, q.len() as int));
    }
}

/// One undo step: replay the inverse entry at the cursor with the cursor
/// parked at the end (so what the replay records lands behind every entry,
/// ready to serve as the redo record), then move the cursor down by one.
pub open spec fn tr_undo1(s: HState) -> HState {
    let a = s.hist[s.pos - 1];
    let s1 = tr_apply(HState { pos: s.hist.len() as int, ..s }, a);
    HState { pos: s.pos - 1, ..s1 }
}

/// Up to `n` undo steps, stopping when the history is exhausted.
pub open spec fn tr_undo(s: HState, n: int) -> HState
    decreases n,
{
    if n <= 0 || s.pos <= 0 {
        s
    } else {
        tr_undo(tr_undo1(s), n - 1)
    }
}

/// How many of `n` requested undo steps actually run.
pub open spec fn tr_undo_steps(s: HState, n: int) -> int
    decreases n,
{
    if n <= 0 || s.pos <= 0 {
        0
    } else {
        1 + tr_undo_steps(tr_undo1(s), n - 1)
    }
}

/// Undoing decrements the cursor once per step and stops at zero.
pub proof fn lemma_tr_undo_pos(s: HState, n: int)
    requires
        n >= 0,
        s.pos >= 0,
    ensures
        tr_undo(s, n).pos == (if n >= s.pos {
            0
        } else {
            s.pos - n
        }),
        tr_undo_steps(s, n) == (if n >= s.pos {
            s.pos
        } else {
            n
        }),
    decreases n,
{
    if n > 0 && s.pos > 0 {
        lemma_tr_undo_pos(tr_undo1(s), n - 1);
    }
}

/// One redo step: take the newest entry out of the history (it was recorded
/// by the undo being redone), replay it with tracking suppressed, and move
/// the cursor up by one.
pub open spec fn tr_redo1(s: HState) -> HState {
    let a = s.hist.last();
    let s1 = tr_apply(HState { hist: s.hist.drop_last(), ..s }, a);
    HState { pos: s.pos + 1, ..s1 }
}

/// Up to `n` redo steps, stopping when nothing past the cursor is left.
pub open spec fn tr_redo_steps(s: HState, n: int) -> HState
    decreases n,
{
    if n <= 0 || !(s.pos + 1 < s.hist.len()) {
        s
    } else {
        tr_redo_steps(tr_redo1(s), n - 1)
    }
}

/// How many of `n` requested redo steps actually run.
pub open spec fn tr_redo_count(s: HState, n: int) -> int
    decreases n,
{
    if n <= 0 || !(s.pos + 1 < s.hist.len()) {
        0
    } else {
        1 + tr_redo_count(tr_redo1(s), n - 1)
    }
}

/// Redoing: tracking is suppressed for the whole run, then restored.
pub open spec fn tr_redo(s: HState, n: int) -> HState {
    let s1 = tr_redo_steps(HState { pause: true, ..s }, n);
    HState { pause: false, ..s1 }
}

/// Undoing everything, then — when that left the hive observably empty, as
/// a sound history must — dropping the history itself.
pub open spec fn tr_clear(s: HState) -> HState {
    let s1 = tr_undo(s, s.pos);
    if s1.names =~= Map::<Seq<char>, NodeIndex>::empty() && s1.live =~= Set::<
        NodeIndex,
    >::empty() && s1.edges =~= Map::<EdgeIndex, EdgeInfo<()>>::empty() {
        HState { hist: Seq::empty(), pos: 0, ..s1 }
    } else {
        s1
    }
}

impl Hive {
    /// Replays one recorded action against the hive.  A replay whose
    /// structural expectation fails (a missing name, a dead endpoint) is
    /// skipped rather than performed halfway.
    #[verifier::loop_isolation(false)]
    fn apply(&mut self, action: Action)
        requires
            old(self).wf(),
        ensures
            final(self).wf(),
            final(self).st() == tr_apply(old(self).st(), action@),
        decreases action,
    {
        match action {
            Action::AddNode(name) => {
                self.add_node(name.as_str());
            },
            Action::RemoveNode(name) => {
                self.remove_node(name.as_str());
            },
            Action::AddEdge(x, y) => {
                if self.graph.has_node(x) && self.graph.has_node(y) {
                    proof {
                        assert(old(self).st().live.contains(x));
                        assert(old(self).st().live.contains(y));
                    }
                    self.add_edge(x, y);
                } else {
                    proof {
                        assert(!(old(self).st().live.contains(x) && old(self).st().live.contains(
                            y,
                        )));
                    }
                }
            },
            Action::RemoveEdge(e) => {
                self.remove_edge(e);
            },
            Action::Composite(mut v) => {
                let ghost whole = v@;
                proof {
                    assert(whole == action->Composite_0@);
                }
                let snapshot = self.undo.snapshot();
                let ghost s0 = self.st();
                while v.len() > 0
                    invariant
                        self.wf(),
                        v@.len() <= whole.len(),
                        v@ == whole.take(v@.len() as int),
                        tr_apply_list(s0, views_of(whole)) == tr_apply_list(
                            self.st(),
                            views_of(v@),
                        ),
                    decreases v@.len(),
                {
                    let ghost lpre = v@.len() as int;
                    let x = match v.pop() {
                        Some(x) => x,
                        None => unreached(),
                    };
                    let ghost pre = self.st();
                    let ghost vb = v@;
                    proof {
                        assert(vb =~= whole.take(lpre - 1));
                        assert(x == whole.take(lpre)[lpre - 1]);
                        assert(x == whole[lpre - 1]);
                        assert(decreases_to!(whole => whole[lpre - 1]));
                        assert(vb.push(x) =~= whole.take(lpre));
                        lemma_views_of(vb.push(x));
                        lemma_views_of(vb);
                        assert(views_of(vb.push(x)).last() == x@) by {
                            assert(vb.push(x)[vb.len() as int] == x);
                        }
                        assert(views_of(vb.push(x)).drop_last() =~= views_of(vb)) by {
                            assert forall|k: int|
                                0 <= k < vb.len() implies views_of(vb.push(x))[k] == views_of(
                                vb,
                            )[k] by {
                                assert(vb.push(x)[k] == vb[k]);
                            }
                        }
                        assert(tr_apply_list(pre, views_of(vb.push(x))) == tr_apply_list(
                            tr_apply(pre, x@),
                            views_of(vb),
                        ));
                    }
                    self.apply(x);
                }
                proof {
                    assert(v@ =~= Seq::<Action>::empty());
                    assert(views_of(v@).len() == 0);
                    assert(tr_apply_list(s0, views_of(whole)) == self.st());
                    if self.undo.pause {
                        lemma_tr_apply_list_pause_const(s0, views_of(whole));
                        assert(s0.pause);
                        lemma_tr_apply_list_paused(s0, views_of(whole));
                        assert(self.st().hist.len() < snapshot + 2);
                    }
                }
                self.undo.pile(snapshot);
                proof {
                    let s1 = tr_apply_list(s0, views_of(whole));
                    if s0.pause {
                        lemma_tr_apply_list_paused(s0, views_of(whole));
                        assert(s1.hist.len() < snapshot + 2);
                    }
                    assert(final(self).st() == tr_pile(s1, snapshot as int));
                    assert(action@ == ActionV::Composite(views_of(whole)));
                }
            },
        }
    }

    /// Replays up to `n` recorded inverse actions, moving the cursor back
    /// one per step; each replay records its own inverse behind the history
    /// as the redo record.  Returns how many steps were unavailable because
    /// the history was exhausted.
    #[verifier::loop_isolation(false)]
    pub fn undo(&mut self, n: usize) -> (ignored: usize)
        requires
            old(self).wf(),
        ensures
            final(self).wf(),
            final(self).st() == tr_undo(old(self).st(), n as int),
            ignored == n - tr_undo_steps(old(self).st(), n as int),
    {
        let ghost o = *old(self);
        let mut i: usize = 0;
        while i < n
            invariant
                i <= n,
                self.wf(),
                tr_undo(o.st(), n as int) == tr_undo(self.st(), n - i),
                tr_undo_steps(o.st(), n as int) == i + tr_undo_steps(self.st(), n - i),
            decreases n - i,
        {
            if self.undo.pos == 0 {
                proof {
                    assert(tr_undo(self.st(), n - i) == self.st());
                    assert(tr_undo_steps(self.st(), n - i) == 0);
                }
                return n - i;
            }
            let ghost pre = self.st();
            let target = self.undo.pos - 1;
            let a = self.undo.history[target].clone();
            self.undo.pos = self.undo.history.len();
            let ghost mid = self.st();
            proof {
                assert(mid == HState { pos: pre.hist.len() as int, ..pre });
                assert(a@ == pre.hist[target as int]);
            }
            self.apply(a);
            proof {
                lemma_tr_apply_grows(mid, a@);
                assert(self.undo.pos == self.undo.history@.len());
                assert(target <= self.undo.history@.len());
            }
            self.undo.pos = target;
            proof {
                assert(self.st() == tr_undo1(pre));
            }
            i += 1;
        }
        proof {
            assert(tr_undo(self.st(), 0) == self.st());
            assert(tr_undo_steps(self.st(), 0) == 0);
        }
        0
    }

    /// Replays up to `n` redo records (the newest history entries, recorded
    /// by the undos being redone) with tracking suppressed, consuming each
    /// record and moving the cursor up one per step.  Returns how many steps
    /// were unavailable.
    #[verifier::loop_isolation(false)]
    pub fn redo(&mut self, n: usize) -> (ignored: usize)
        requires
            old(self).wf(),
        ensures
            final(self).wf(),
            final(self).st() == tr_redo(old(self).st(), n as int),
            ignored == n - tr_redo_count(
                HState { pause: true, ..old(self).st() },
                n as int,
            ),
    {
        let ghost o = *old(self);
        self.undo.pause = true;
        let ghost s0 = self.st();
        let mut i: usize = 0;
        let mut early: usize = 0;
        while i < n
            invariant
                i <= n,
                early == 0,
                self.wf(),
                self.undo.pause,
                tr_redo_steps(s0, n as int) == tr_redo_steps(self.st(), n - i),
                tr_redo_count(s0, n as int) == i + tr_redo_count(self.st(), n - i),
            decreases n - i,
        {
            let len = self.undo.history.len();
            if len < 1 || self.undo.pos >= len - 1 {
                proof {
                    assert(!(self.st().pos + 1 < self.st().hist.len()));
                    assert(tr_redo_steps(self.st(), n - i) == self.st());
                    assert(tr_redo_count(self.st(), n - i) == 0);
                }
                early = n - i;
                break ;
            }
            let ghost pre = self.st();
            let p = self.undo.pos;
            let a = match self.undo.history.pop() {
                Some(a) => a,
                None => unreached(),
            };
            let ghost mid = self.st();
            proof {
                assert(mid.hist =~= pre.hist.drop_last());
                assert(mid == HState { hist: pre.hist.drop_last(), ..pre });
                assert(a@ == pre.hist.last());
            }
            self.apply(a);
            proof {
                lemma_tr_apply_paused(mid, a@);
                assert(self.st().pos == mid.pos);
                assert(p + 1 <= self.undo.history@.len());
            }
            self.undo.pos = p + 1;
            proof {
                assert(self.st() == tr_redo1(pre));
            }
            i += 1;
        }
        proof {
            if early == 0 {
                assert(tr_redo_steps(self.st(), 0) == self.st());
                assert(tr_redo_count(self.st(), 0) == 0);
            }
        }
        self.undo.pause = false;
        proof {
            assert(final(self).st() == tr_redo(o.st(), n as int));
        }
        if early > 0 {
            early
        } else {
            n - i
        }
    }

    /// Undoes the whole history, then — when that emptied the hive, as a
    /// sound history must — drops the history and the arenas themselves.
    /// Says whether the teardown found the hive empty; a `false` reports an
    /// inverse action that failed to restore the empty state.
    pub fn clear(&mut self) -> (r: bool)
        requires
            old(self).wf(),
        ensures
            final(self).wf(),
            final(self).st() == tr_clear(old(self).st()),
            ({
                let s1 = tr_undo(old(self).st(), old(self).st().pos);
                r == (s1.names =~= Map::<Seq<char>, NodeIndex>::empty() && s1.live =~= Set::<
                    NodeIndex,
                >::empty() && s1.edges =~= Map::<EdgeIndex, EdgeInfo<()>>::empty())
            }),
            r ==> final(self).graph.nodes@.len() == 0 && final(self).graph.edges@.len() == 0
                && final(self).nodes@.len() == 0 && final(self).undo.history@.len() == 0
                && final(self).undo.pos == 0,
    {
        let ghost o = *old(self);
        let p = self.undo.position();
        self.undo(p);
        let ghost s1 = self.st();
        let empty_graph = self.graph.no_live();
        let empty_names = self.nodes.is_empty();
        proof {
            lemma_names_of(self.nodes@);
            assert(empty_names ==> self.names() =~= Map::<Seq<char>, NodeIndex>::empty());
            if !empty_names {
                assert(self.nodes@.len() > 0);
                assert(self.names().contains_key(self.nodes@[0].0@)) by {
                    assert(self.nodes@[0].0@ == self.nodes@[0].0@);
                }
            }
            assert(empty_graph ==> s1.live =~= Set::<NodeIndex>::empty() && s1.edges =~= Map::<
                EdgeIndex,
                EdgeInfo<()>,
            >::empty());
            if !empty_graph {
                if exists|v: NodeIndex| self.graph.node_live(v) {
                    let v = choose|v: NodeIndex| self.graph.node_live(v);
                    assert(s1.live.contains(v));
                } else {
                    let e = choose|e: EdgeIndex| self.graph.edge_live(e);
                    assert(s1.edges.contains_key(e));
                }
            }
        }
        if empty_graph && empty_names {
            self.graph.clear();
            self.undo.history.clear();
            self.undo.pos = 0;
            proof {
                let s = *self;
                assert(s.st().live =~= s1.live);
                assert(s.st().edges =~= s1.edges);
                assert(s.st().hist =~= Seq::<ActionV>::empty());
                assert(s.st() == tr_clear(o.st()));
            }
            true
        } else {
            proof {
                assert(final(self).st() == tr_clear(o.st()));
            }
            false
        }
    }
}

/// An abstract state whose edges only ever touch live nodes, as every state
/// of a sound hive does.
pub open spec fn edges_grounded(s: HState) -> bool {
    forall|e: EdgeIndex|
        #[trigger] s.edges.contains_key(e) ==> s.live.contains(s.edges[e].src)
            && s.live.contains(s.edges[e].dst)
}

/// Inverse law for a creation: making a node under a fresh name and then
/// replaying the tracked inverse (removing that name) leaves the name map,
/// the live nodes and the edges exactly as they were.  The fresh node has
/// no incident edges, so nothing else is dragged along.
pub proof fn lemma_add_node_inverse(s: HState, name: Seq<char>)
    requires
        !s.names.contains_key(name),
        edges_grounded(s),
        exists|w: NodeIndex| !(#[trigger] s.live.contains(w)),
    ensures
        ({
            let s2 = tr_remove_node(tr_add_node(s, name), name);
            &&& s2.names == s.names
            &&& s2.live == s.live
            &&& s2.edges == s.edges
        }),
{
    let r = ff_node(s.live);
    let s1 = tr_add_node(s, name);
    assert(s1.names.contains_key(name) && s1.names[name] == r);
    assert(!s.live.contains(r)) by {
        let w = choose|w: NodeIndex| !(#[trigger] s.live.contains(w));
        lemma_ff_from_bound(s.live, w.0);
        assert(is_ff_node(s.live, ff_node(s.live)));
    }
    assert(incident_set(s1.edges, r) =~= Set::<EdgeIndex>::empty()) by {
        assert forall|e: EdgeIndex| !(#[trigger] incident_set(s1.edges, r).contains(e)) by {
            if incident_set(s1.edges, r).contains(e) {
                assert(s.edges.contains_key(e));
                assert(s.live.contains(s.edges[e].src) && s.live.contains(s.edges[e].dst));
            }
        }
    }
    assert(is_desc_of(Seq::empty(), incident_set(s1.edges, r)));
    lemma_desc_of(incident_set(s1.edges, r), Seq::empty());
    assert(tr_remove_edges(s1, Seq::empty()) == s1);
    let s2 = tr_remove_node(s1, name);
    assert(s2.names =~= s.names);
    assert(s2.live =~= s.live);
}

/// Below any dead handle there is a least dead handle.
pub proof fn lemma_ff_from_bound(live: Set<NodeIndex>, w: usize)
    requires
        !live.contains(NodeIndex(w)),
    ensures
        exists|r: NodeIndex| is_ff_node(live, r),
    decreases w,
{
    if forall|j: usize| j < w ==> #[trigger] live.contains(NodeIndex(j)) {
        assert(is_ff_node(live, NodeIndex(w)));
    } else {
        let j = choose|j: usize| j < w && !(#[trigger] live.contains(NodeIndex(j)));
        lemma_ff_from_bound(live, j);
    }
}

/// Inverse law for a new edge: adding an edge and then replaying the
/// tracked inverse (removing it by its handle) leaves the edge map, the
/// live nodes and the names exactly as they were; and the edge carried
/// exactly the endpoints it was created with.
pub proof fn lemma_add_edge_inverse(s: HState, a: NodeIndex, b: NodeIndex)
    requires
        exists|r: EdgeIndex| is_ff_edge(s.edges, r),
    ensures
        ({
            let e = ff_edge(s.edges);
            let s1 = tr_add_edge(s, a, b);
            let s2 = tr_remove_edge(s1, e);
            &&& s1.edges[e] == EdgeInfo { src: a, dst: b, data: () }
            &&& s2.edges == s.edges
            &&& s2.names == s.names
            &&& s2.live == s.live
        }),
{
    let e = ff_edge(s.edges);
    assert(is_ff_edge(s.edges, e));
    let s1 = tr_add_edge(s, a, b);
    let s2 = tr_remove_edge(s1, e);
    assert(s2.edges =~= s.edges);
}

/// Below any dead edge handle there is a least dead handle.
pub proof fn lemma_ff_edge_from_bound(edges: Map<EdgeIndex, EdgeInfo<()>>, w: usize)
    requires
        !edges.contains_key(EdgeIndex(w)),
    ensures
        exists|r: EdgeIndex| is_ff_edge(edges, r),
    decreases w,
{
    if forall|j: usize| j < w ==> #[trigger] edges.contains_key(EdgeIndex(j)) {
        assert(is_ff_edge(edges, EdgeIndex(w)));
    } else {
        let j = choose|j: usize| j < w && !(#[trigger] edges.contains_key(EdgeIndex(j)));
        lemma_ff_edge_from_bound(edges, j);
    }
}

/// Every name of an abstract state binds a live node.
pub open spec fn names_grounded(s: HState) -> bool {
    forall|n: Seq<char>| #[trigger] s.names.contains_key(n) ==> s.live.contains(s.names[n])
}

/// A sound hive's abstract state is grounded: its edges touch only live
/// nodes and its names bind live nodes.
pub proof fn lemma_wf_grounded(h: Hive)
    requires
        h.wf(),
    ensures
        edges_grounded(h.st()),
        names_grounded(h.st()),
{
    let s = h.st();
    assert forall|e: EdgeIndex| #[trigger] s.edges.contains_key(e) implies s.live.contains(
        s.edges[e].src,
    ) && s.live.contains(s.edges[e].dst) by {
        assert(h.graph.edge_live(e));
        assert(s.edges[e].src == h.graph.src(e) && s.edges[e].dst == h.graph.dst(e));
        assert(h.graph.node_live(h.graph.src(e)) && h.graph.node_live(h.graph.dst(e)));
    }
    assert forall|n: Seq<char>| #[trigger] s.names.contains_key(n) implies s.live.contains(
        s.names[n],
    ) by {
        lemma_names_of(h.nodes@);
        let i = choose|i: int| 0 <= i < h.nodes@.len() && (#[trigger] h.nodes@[i]).0@ == n;
        assert(s.names[h.nodes@[i].0@] == h.nodes@[i].1);
        assert(h.graph.node_live(h.nodes@[i].1));
    }
}

/// The inverse law's premises hold of what the operations themselves
/// record: a `pipe` from a grounded state with the cursor at the end leaves
/// its newest entry — removing the edge it just added, which went to the
/// least free slot — undoable.  With `lemma_undo_redo_law`, one undo
/// followed by one redo after any `pipe` is the exact identity.
pub proof fn lemma_pipe_entry_undoable(s: HState, src: Seq<char>, dst: Seq<char>)
    requires
        !s.pause,
        s.pos == s.hist.len(),
        edges_grounded(s),
        names_grounded(s),
        exists|r: EdgeIndex| is_ff_edge(s.edges, r),
    ensures
        ({
            let s1 = tr_pipe(s, src, dst);
            &&& s1.pos == s1.hist.len()
            &&& s1.pos >= 1
            &&& !s1.pause
            &&& undoable_entry(s1, s1.hist[s1.pos - 1])
            &&& undoable_stack(s1, 1)
        }),
{
    let a = node_idx_for(s, src);
    let sa = tr_add_node(s, src);
    let b = node_idx_for(sa, dst);
    let sb = tr_add_node(sa, dst);
    let e = ff_edge(sb.edges);
    let s1 = tr_pipe(s, src, dst);
    assert(sb.edges == s.edges);
    assert(is_ff_edge(s.edges, e)) by {
        let w = choose|r: EdgeIndex| is_ff_edge(s.edges, r);
        lemma_ff_edge(s.edges, w);
    }
    assert(s1.hist[s1.pos - 1] == ActionV::RemoveEdge(e));
    assert(s1.edges == sb.edges.insert(e, EdgeInfo { src: a, dst: b, data: () }));
    // the entry's conditions: the edge is there, in the least free slot,
    // and every edge still touches live nodes
    assert(s1.edges.contains_key(e));
    assert forall|j: usize| j < e.0 implies #[trigger] s1.edges.contains_key(
        EdgeIndex(j),
    ) by {
        assert(s.edges.contains_key(EdgeIndex(j)));
    }
    assert(edges_grounded(s1)) by {
        assert(s.live.subset_of(s1.live)) by {
            assert forall|v: NodeIndex| s.live.contains(v) implies s1.live.contains(v) by {}
        }
        assert(s1.live.contains(a)) by {
            if s.names.contains_key(src) {
                assert(s.live.contains(s.names[src]));
            }
        }
        assert(s1.live.contains(b)) by {
            if sa.names.contains_key(dst) {
                if s.names.contains_key(dst) {
                    assert(s.live.contains(s.names[dst]));
                }
            }
        }
        assert forall|f: EdgeIndex| #[trigger] s1.edges.contains_key(f) implies s1.live.contains(
            s1.edges[f].src,
        ) && s1.live.contains(s1.edges[f].dst) by {
            if f != e {
                assert(s.edges.contains_key(f));
                assert(s.live.contains(s.edges[f].src) && s.live.contains(s.edges[f].dst));
            }
        }
    }
    assert(undoable_stack(tr_undo1(s1), 0));
}

/// As `lemma_pipe_entry_undoable`, for an edge removal: deleting a live
/// edge from a grounded state with the cursor at the end records re-adding
/// it between its (still live) endpoints, and that entry is undoable.
pub proof fn lemma_delete_edge_entry_undoable(s: HState, e: EdgeIndex)
    requires
        !s.pause,
        s.pos == s.hist.len(),
        edges_grounded(s),
        s.edges.contains_key(e),
    ensures
        ({
            let s1 = tr_remove_edge(s, e);
            &&& s1.pos == s1.hist.len()
            &&& s1.pos >= 1
            &&& !s1.pause
            &&& undoable_entry(s1, s1.hist[s1.pos - 1])
            &&& undoable_stack(s1, 1)
        }),
{
    let s1 = tr_remove_edge(s, e);
    assert(s1.hist[s1.pos - 1] == ActionV::AddEdge(s.edges[e].src, s.edges[e].dst));
    assert(s1.live.contains(s.edges[e].src) && s1.live.contains(s.edges[e].dst));
    assert(!s1.edges.contains_key(e));
    lemma_ff_edge_from_bound(s1.edges, e.0);
    assert(undoable_stack(tr_undo1(s1), 0));
}

/// As `lemma_pipe_entry_undoable`, for a node removal: removing a named
/// node from a grounded state with the cursor at the end records re-adding
/// the name, and that entry is undoable.  (The finite incident set must
/// admit its decreasing listing, as any arena-backed state's does.)
pub proof fn lemma_remove_node_entry_undoable(s: HState, name: Seq<char>)
    requires
        !s.pause,
        s.pos == s.hist.len(),
        edges_grounded(s),
        s.names.contains_key(name),
        exists|q: Seq<EdgeIndex>| is_desc_of(q, incident_set(s.edges, s.names[name])),
    ensures
        ({
            let s1 = tr_remove_node(s, name);
            &&& s1.pos == s1.hist.len()
            &&& s1.pos >= 1
            &&& !s1.pause
            &&& undoable_entry(s1, s1.hist[s1.pos - 1])
            &&& undoable_stack(s1, 1)
        }),
{
    let v = s.names[name];
    let q0 = choose|q: Seq<EdgeIndex>| is_desc_of(q, incident_set(s.edges, v));
    lemma_desc_of(incident_set(s.edges, v), q0);
    let q = desc_of(incident_set(s.edges, v));
    assert(q.no_duplicates()) by {
        assert forall|a: int, b: int| 0 <= a < b < q.len() implies q[a] != q[b] by {
            assert(q[a].0 > q[b].0);
        }
    }
    assert forall|k: int| 0 <= k < q.len() implies s.edges.contains_key(#[trigger] q[k]) by {
        assert(incident_set(s.edges, v).contains(q[k]));
    }
    lemma_tr_remove_edges_effect(s, q);
    let sq = tr_remove_edges(s, q);
    assert(sq.edges == s.edges.remove_keys(q.to_set()));
    let s1 = tr_remove_node(s, name);
    // the replay of the removals keeps the cursor at the end and the names
    lemma_tr_remove_edges_keeps_end(s, q);
    assert(s1.hist[s1.pos - 1] == ActionV::AddNode(name));
    assert(!s1.names.contains_key(name));
    // the survivors still touch only live nodes: nothing incident is left
    assert(edges_grounded(s1)) by {
        assert forall|f: EdgeIndex| #[trigger] s1.edges.contains_key(f) implies s1.live.contains(
            s1.edges[f].src,
        ) && s1.live.contains(s1.edges[f].dst) by {
            assert(s.edges.contains_key(f));
            assert(s.live.contains(s.edges[f].src) && s.live.contains(s.edges[f].dst));
            assert(!q.to_set().contains(f));
            assert(!incident_set(s.edges, v).contains(f)) by {
                if incident_set(s.edges, v).contains(f) {
                    assert(q.contains(f));
                }
            }
            assert(s.edges[f].src != v && s.edges[f].dst != v);
        }
    }
    assert(!s1.live.contains(v));
    assert(exists|w: NodeIndex| !(#[trigger] s1.live.contains(w)));
    assert(undoable_stack(tr_undo1(s1), 0));
}

/// Removing edges with the cursor at the end of the history keeps it at the
/// end, appends one entry per removed edge, and never touches the names.
pub proof fn lemma_tr_remove_edges_keeps_end(s: HState, q: Seq<EdgeIndex>)
    requires
        !s.pause,
        s.pos == s.hist.len(),
    ensures
        tr_remove_edges(s, q).pos == tr_remove_edges(s, q).hist.len(),
        tr_remove_edges(s, q).pos >= s.pos,
        tr_remove_edges(s, q).pause == s.pause,
        tr_remove_edges(s, q).names == s.names,
        tr_remove_edges(s, q).live == s.live,
    decreases q.len(),
{
    if q.len() > 0 {
        let s1 = tr_remove_edge(s, q[0]);
        lemma_tr_remove_edges_keeps_end(s1, q.subrange(1, q.len() as int));
    }
}

/// Inverse law for an edge removal: deleting a live edge in the least
/// freeable position (no free slot below it, as holds of the newest edge)
/// and then undoing once puts the name map, the live nodes and the edges
/// back exactly; the re-added edge lands in the very slot it left.
pub proof fn lemma_delete_edge_inverse(s: HState, e: EdgeIndex)
    requires
        !s.pause,
        s.pos == s.hist.len(),
        edges_grounded(s),
        s.edges.contains_key(e),
        forall|j: usize| j < e.0 ==> #[trigger] s.edges.contains_key(EdgeIndex(j)),
    ensures
        ({
            let u = tr_undo1(tr_remove_edge(s, e));
            &&& u.names == s.names
            &&& u.live == s.live
            &&& u.edges == s.edges
        }),
{
    let s1 = tr_remove_edge(s, e);
    let a = s.edges[e].src;
    let b = s.edges[e].dst;
    assert(s1.hist[s1.pos - 1] == ActionV::AddEdge(a, b));
    let mid = HState { pos: s1.hist.len() as int, ..s1 };
    assert(mid.live.contains(a) && mid.live.contains(b));
    assert(is_ff_edge(mid.edges, e)) by {
        assert(!s1.edges.contains_key(e));
        assert forall|j: usize| j < e.0 implies #[trigger] s1.edges.contains_key(
            EdgeIndex(j),
        ) by {
            assert(s.edges.contains_key(EdgeIndex(j)));
        }
    }
    lemma_ff_edge(mid.edges, e);
    let u = tr_undo1(s1);
    assert(u.edges =~= s.edges) by {
        assert(s.edges[e] == EdgeInfo { src: a, dst: b, data: () }) by {
            assert(s.edges[e].data == ());
        }
    }
}

/// Inverse law for a node removal: removing an edgeless named node in the
/// least freeable slot (no free slot below it, as holds of the newest
/// node) and then undoing once puts the name map, the live nodes and the
/// edges back exactly; the re-added node lands in the very slot it left.
pub proof fn lemma_remove_node_inverse(s: HState, name: Seq<char>)
    requires
        !s.pause,
        s.pos == s.hist.len(),
        edges_grounded(s),
        s.names.contains_key(name),
        incident_set(s.edges, s.names[name]) =~= Set::<EdgeIndex>::empty(),
        forall|j: usize| j < s.names[name].0 ==> #[trigger] s.live.contains(NodeIndex(j)),
        s.live.contains(s.names[name]),
    ensures
        ({
            let u = tr_undo1(tr_remove_node(s, name));
            &&& u.names == s.names
            &&& u.live == s.live
            &&& u.edges == s.edges
        }),
{
    let v = s.names[name];
    assert(is_desc_of(Seq::empty(), incident_set(s.edges, v)));
    lemma_desc_of(incident_set(s.edges, v), Seq::empty());
    assert(tr_remove_edges(s, Seq::empty()) == s);
    let s1 = tr_remove_node(s, name);
    assert(s1.hist[s1.pos - 1] == ActionV::AddNode(name));
    assert(!s1.names.contains_key(name));
    assert(is_ff_node(s1.live, v)) by {
        assert(!s1.live.contains(v));
        assert forall|j: usize| j < v.0 implies #[trigger] s1.live.contains(NodeIndex(j)) by {
            assert(s.live.contains(NodeIndex(j)));
            assert(NodeIndex(j) != v);
        }
    }
    lemma_ff_node(s1.live, v);
    let u = tr_undo1(s1);
    assert(u.names =~= s.names) by {
        assert(s.names.remove(name).insert(name, v) =~= s.names);
    }
    assert(u.live =~= s.live) by {
        assert(s.live.remove(v).insert(v) =~= s.live);
    }
}

/// The newest history entry can be undone and redone cleanly: it is one of
/// the four simple records, its structural expectation holds, and the slot
/// it re-creates or frees is the least free one, as it is when the entry was
/// recorded last.
pub open spec fn undoable_entry(s: HState, a: ActionV) -> bool {
    match a {
        ActionV::AddNode(name) => {
            &&& !s.names.contains_key(name)
            &&& edges_grounded(s)
            &&& exists|w: NodeIndex| !(#[trigger] s.live.contains(w))
        },
        ActionV::RemoveNode(name) => {
            &&& s.names.contains_key(name)
            &&& incident_set(s.edges, s.names[name]) =~= Set::<EdgeIndex>::empty()
            &&& forall|j: usize|
                j < s.names[name].0 ==> #[trigger] s.live.contains(NodeIndex(j))
            &&& s.live.contains(s.names[name])
        },
        ActionV::AddEdge(x, y) => {
            &&& s.live.contains(x)
            &&& s.live.contains(y)
            &&& exists|r: EdgeIndex| is_ff_edge(s.edges, r)
        },
        ActionV::RemoveEdge(e) => {
            &&& s.edges.contains_key(e)
            &&& forall|j: usize| j < e.0 ==> #[trigger] s.edges.contains_key(EdgeIndex(j))
            &&& edges_grounded(s)
        },
        ActionV::Composite(_) => false,
    }
}

/// A run of `k` history entries that can be undone in turn: at every stage
/// the entry at the cursor is a clean simple record (`undoable_entry`), as
/// the log of a sound session has them.
pub open spec fn undoable_stack(s: HState, k: int) -> bool
    decreases k,
{
    k <= 0 || {
        &&& !s.pause
        &&& 1 <= s.pos <= s.hist.len()
        &&& undoable_entry(s, s.hist[s.pos - 1])
        &&& undoable_stack(tr_undo1(s), k - 1)
    }
}

/// Peeling an undoable run from the deep end: the state before its last
/// step still has one undoable entry at the cursor, and undoing the whole
/// run is undoing all but the last step and then one more.
pub proof fn lemma_stack_shift(s: HState, k: int)
    requires
        undoable_stack(s, k),
        k >= 1,
    ensures
        ({
            let sp = tr_undo(s, k - 1);
            &&& !sp.pause
            &&& 1 <= sp.pos <= sp.hist.len()
            &&& undoable_entry(sp, sp.hist[sp.pos - 1])
            &&& tr_undo(s, k) == tr_undo1(sp)
        }),
    decreases k,
{
    if k == 1 {
        assert(tr_undo(s, 0) == s);
        assert(tr_undo(tr_undo1(s), 0) == tr_undo1(s));
        assert(tr_undo(s, 1) == tr_undo1(s));
    } else {
        let u1 = tr_undo1(s);
        lemma_stack_shift(u1, k - 1);
        assert(tr_undo(s, k - 1) == tr_undo(u1, k - 2));
        assert(tr_undo(s, k) == tr_undo(u1, k - 1));
    }
}

/// The heart of the undo/redo inverse law: after undoing an undoable run of
/// `k` entries, `k` suppressed redo steps walk the recorded inverses back
/// and restore the state exactly.
pub proof fn lemma_undo_redo_many(s: HState, k: int)
    requires
        undoable_stack(s, k),
        k >= 0,
        !s.pause,
    ensures
        tr_redo_steps(HState { pause: true, ..tr_undo(s, k) }, k) == (HState {
            pause: true,
            ..s
        }),
    decreases k,
{
    if k == 0 {
        assert(tr_undo(s, 0) == s);
        assert(tr_redo_steps(HState { pause: true, ..s }, 0) == HState { pause: true, ..s });
    } else {
        lemma_stack_shift(s, k);
        let sp = tr_undo(s, k - 1);
        lemma_step_restores(sp);
        let y = HState { pause: true, ..tr_undo(s, k) };
        assert(y == HState { pause: true, ..tr_undo1(sp) });
        // the first suppressed redo reverts the deepest undo
        assert(y.pos + 1 < y.hist.len()) by {
            assert(tr_undo1(sp).pos == sp.pos - 1);
            assert(tr_undo1(sp).hist.len() == sp.hist.len() + 1);
        }
        assert(tr_redo1(y) == HState { pause: true, ..sp });
        assert(tr_redo_steps(y, k) == tr_redo_steps(tr_redo1(y), k - 1));
        // the remaining ones revert the rest
        assert(undoable_stack(s, k - 1)) by {
            lemma_stack_mono(s, k, k - 1);
        }
        lemma_undo_redo_many(s, k - 1);
        assert(tr_redo_steps(HState { pause: true, ..sp }, k - 1) == HState {
            pause: true,
            ..s
        });
    }
}

/// An undoable run stays undoable when shortened.
pub proof fn lemma_stack_mono(s: HState, k: int, j: int)
    requires
        undoable_stack(s, k),
        0 <= j <= k,
    ensures
        undoable_stack(s, j),
    decreases k,
{
    if j >= 1 && k >= 1 {
        lemma_stack_mono(tr_undo1(s), k - 1, j - 1);
    }
}

/// Undo/redo inverse law: undoing an undoable run of `k` entries and then
/// redoing `k` steps restores the hive state exactly — names, live nodes,
/// edges, history and cursor all as before.
pub proof fn lemma_undo_redo_law(s: HState, k: int)
    requires
        !s.pause,
        k >= 0,
        undoable_stack(s, k),
    ensures
        tr_redo(tr_undo(s, k), k) == s,
{
    lemma_undo_redo_many(s, k);
    let y = HState { pause: true, ..tr_undo(s, k) };
    assert(tr_redo(tr_undo(s, k), k) == HState {
        pause: false,
        ..tr_redo_steps(y, k)
    });
    assert(HState { pause: false, ..HState { pause: true, ..s } } == s);
}

/// One undo step inverted by one later redo step: undoing a clean simple
/// entry appends exactly one redo record behind the history, and replaying
/// that record (with tracking suppressed) puts every part of the state back.
/// The cursor may sit anywhere at or before the end of the history.
pub proof fn lemma_step_restores(s: HState)
    requires
        !s.pause,
        1 <= s.pos <= s.hist.len(),
        undoable_entry(s, s.hist[s.pos - 1]),
    ensures
        tr_undo1(s).pos == s.pos - 1,
        tr_undo1(s).hist.len() == s.hist.len() + 1,
        tr_undo1(s).pause == s.pause,
        tr_redo1(HState { pause: true, ..tr_undo1(s) }) == (HState { pause: true, ..s }),
{
    let a = s.hist[s.pos - 1];
    let mid = HState { pos: s.hist.len() as int, ..s };
    let u1 = tr_apply(mid, a);
    let u = HState { pos: s.pos - 1, ..u1 };
    assert(tr_undo1(s) == u);
    assert(mid.hist.take(mid.pos) =~= s.hist);
    // what the single replay did and recorded, by entry kind
    match a {
        ActionV::AddNode(name) => {
            let r0 = ff_node(s.live);
            assert(!s.live.contains(r0)) by {
                let w = choose|w: NodeIndex| !(#[trigger] s.live.contains(w));
                lemma_ff_from_bound(s.live, w.0);
                assert(is_ff_node(s.live, ff_node(s.live)));
            }
            assert(u1.names == s.names.insert(name, r0));
            assert(u1.live == s.live.insert(r0));
            assert(u1.hist == s.hist.push(ActionV::RemoveNode(name)));
            assert(u1.pos == s.hist.len() + 1);
            assert(u1.edges == s.edges && u1.pause == s.pause);
            // the redo replays the freshly recorded removal
            let rp = HState { pause: true, ..u };
            assert(rp.pos + 1 < rp.hist.len());
            let b = rp.hist.last();
            assert(b == ActionV::RemoveNode(name));
            let rm = HState { hist: rp.hist.drop_last(), ..rp };
            assert(rm.hist =~= s.hist);
            let r1 = tr_apply(rm, b);
            assert(rm.names[name] == r0);
            assert(incident_set(rm.edges, r0) =~= Set::<EdgeIndex>::empty()) by {
                assert forall|e: EdgeIndex|
                    !(#[trigger] incident_set(rm.edges, r0).contains(e)) by {
                    if incident_set(rm.edges, r0).contains(e) {
                        assert(s.edges.contains_key(e));
                        assert(s.live.contains(s.edges[e].src) && s.live.contains(
                            s.edges[e].dst,
                        ));
                    }
                }
            }
            assert(is_desc_of(Seq::empty(), incident_set(rm.edges, r0)));
            lemma_desc_of(incident_set(rm.edges, r0), Seq::empty());
            assert(tr_remove_edges(rm, Seq::empty()) == rm);
            assert(r1.names =~= s.names);
            assert(r1.live =~= s.live);
            assert(r1.hist == s.hist && r1.pos == rm.pos);
            assert(tr_redo1(rp) == HState { pos: rp.pos + 1, ..r1 });
            let r = tr_redo1(rp);
            assert(r.names == s.names && r.live =~= s.live && r.edges == s.edges);
            assert(r.hist =~= s.hist);
            assert(r.pos == s.pos && r.pause);
            assert(r == HState { pause: true, ..s });
        },
        ActionV::RemoveNode(name) => {
            let v = s.names[name];
            assert(incident_set(s.edges, v) =~= Set::<EdgeIndex>::empty());
            assert(is_desc_of(Seq::empty(), incident_set(s.edges, v)));
            lemma_desc_of(incident_set(s.edges, v), Seq::empty());
            assert(tr_remove_edges(s, Seq::empty()) == s);
            assert(u1.names == s.names.remove(name));
            assert(u1.live == s.live.remove(v));
            assert(u1.hist == s.hist.push(ActionV::AddNode(name)));
            assert(u1.pos == s.hist.len() + 1);
            assert(u1.edges == s.edges && u1.pause == s.pause);
            let rp = HState { pause: true, ..u };
            assert(rp.pos + 1 < rp.hist.len());
            let b = rp.hist.last();
            assert(b == ActionV::AddNode(name));
            let rm = HState { hist: rp.hist.drop_last(), ..rp };
            assert(rm.hist =~= s.hist);
            assert(!rm.names.contains_key(name));
            assert(is_ff_node(rm.live, v)) by {
                assert(!rm.live.contains(v));
                assert forall|j: usize| j < v.0 implies #[trigger] rm.live.contains(
                    NodeIndex(j),
                ) by {
                    assert(s.live.contains(NodeIndex(j)));
                    assert(NodeIndex(j) != v);
                }
            }
            lemma_ff_node(rm.live, v);
            let r1 = tr_apply(rm, b);
            assert(r1.names =~= s.names) by {
                assert(s.names.remove(name).insert(name, v) =~= s.names);
            }
            assert(r1.live =~= s.live) by {
                assert(s.live.remove(v).insert(v) =~= s.live);
            }
            assert(tr_redo1(rp) == HState { pos: rp.pos + 1, ..r1 });
            let r = tr_redo1(rp);
            assert(r.names =~= s.names);
            assert(r.live =~= s.live);
            assert(r.hist =~= s.hist);
            assert(r.edges == s.edges && r.pos == s.pos && r.pause);
            assert(r == HState { pause: true, ..s });
        },
        ActionV::AddEdge(x, y) => {
            let e = ff_edge(s.edges);
            assert(is_ff_edge(s.edges, e)) by {
                let w = choose|r: EdgeIndex| is_ff_edge(s.edges, r);
                lemma_ff_edge(s.edges, w);
            }
            assert(u1.edges == s.edges.insert(e, EdgeInfo { src: x, dst: y, data: () }));
            assert(u1.hist == s.hist.push(ActionV::RemoveEdge(e)));
            assert(u1.pos == s.hist.len() + 1);
            assert(u1.names == s.names && u1.live == s.live && u1.pause == s.pause);
            let rp = HState { pause: true, ..u };
            assert(rp.pos + 1 < rp.hist.len());
            let b = rp.hist.last();
            assert(b == ActionV::RemoveEdge(e));
            let rm = HState { hist: rp.hist.drop_last(), ..rp };
            assert(rm.hist =~= s.hist);
            assert(rm.edges.contains_key(e));
            let r1 = tr_apply(rm, b);
            assert(r1.edges =~= s.edges) by {
                assert(s.edges.insert(e, EdgeInfo { src: x, dst: y, data: () }).remove(e)
                    =~= s.edges);
            }
            assert(tr_redo1(rp) == HState { pos: rp.pos + 1, ..r1 });
            let r = tr_redo1(rp);
            assert(r.edges =~= s.edges);
            assert(r.hist =~= s.hist);
            assert(r.names == s.names && r.live == s.live && r.pos == s.pos && r.pause);
            assert(r == HState { pause: true, ..s });
        },
        ActionV::RemoveEdge(e) => {
            let info = s.edges[e];
            assert(u1.edges == s.edges.remove(e));
            assert(u1.hist == s.hist.push(ActionV::AddEdge(info.src, info.dst)));
            assert(u1.pos == s.hist.len() + 1);
            assert(u1.names == s.names && u1.live == s.live && u1.pause == s.pause);
            let rp = HState { pause: true, ..u };
            assert(rp.pos + 1 < rp.hist.len());
            let b = rp.hist.last();
            assert(b == ActionV::AddEdge(info.src, info.dst));
            let rm = HState { hist: rp.hist.drop_last(), ..rp };
            assert(rm.hist =~= s.hist);
            assert(is_ff_edge(rm.edges, e)) by {
                assert(!rm.edges.contains_key(e));
                assert forall|j: usize| j < e.0 implies #[trigger] rm.edges.contains_key(
                    EdgeIndex(j),
                ) by {
                    assert(s.edges.contains_key(EdgeIndex(j)));
                    assert(EdgeIndex(j) != e);
                }
            }
            lemma_ff_edge(rm.edges, e);
            let r1 = tr_apply(rm, b);
            assert(r1.edges =~= s.edges) by {
                assert(info.data == ());
                assert(info == EdgeInfo { src: info.src, dst: info.dst, data: () });
                assert(s.edges.remove(e).insert(e, info) =~= s.edges);
            }
            assert(tr_redo1(rp) == HState { pos: rp.pos + 1, ..r1 });
            let r = tr_redo1(rp);
            assert(r.edges =~= s.edges);
            assert(r.hist =~= s.hist);
            assert(r.names == s.names && r.live == s.live && r.pos == s.pos && r.pause);
            assert(r == HState { pause: true, ..s });
        },
        ActionV::Composite(_) => {},
    }
}

/// Undo/redo inverse law, one step: with the cursor at the end of a history
/// whose newest entry is a clean simple record, undoing once and then
/// redoing once restores the hive exactly — same names, same live nodes,
/// same edges, same history, and the cursor back where it was.
pub proof fn lemma_undo_redo_single(s: HState)
    requires
        !s.pause,
        s.pos == s.hist.len(),
        s.pos >= 1,
        undoable_entry(s, s.hist[s.pos - 1]),
    ensures
        ({
            let r = tr_redo(tr_undo(s, 1), 1);
            &&& r.names == s.names
            &&& r.live == s.live
            &&& r.edges == s.edges
            &&& r.hist == s.hist
            &&& r.pos == s.pos
            &&& r.pause == s.pause
        }),
{
    assert(undoable_stack(tr_undo1(s), 0));
    assert(undoable_stack(s, 1));
    lemma_undo_redo_law(s, 1);
}

impl Default for Hive {
    /// An empty hive: no nodes, no names, no history.
    fn default() -> (r: Self)
        ensures
            r.wf(),
            r.st().names == Map::<Seq<char>, NodeIndex>::empty(),
            r.st().live == Set::<NodeIndex>::empty(),
            r.st().edges == Map::<EdgeIndex, EdgeInfo<()>>::empty(),
            r.st().hist == Seq::<ActionV>::empty(),
            r.st().pos == 0,
            r.st().pause == false,
    {
        let r = Hive {
            graph: Graph::default(),
            nodes: Vec::new(),
            undo: Undo { history: Vec::new(), pos: 0, pause: false },
        };
        proof {
            assert(r.st().live =~= Set::<NodeIndex>::empty());
            assert(r.st().hist =~= Seq::<ActionV>::empty());
            assert(r.names() =~= Map::<Seq<char>, NodeIndex>::empty());
        }
        r
    }
}

} // verus!
