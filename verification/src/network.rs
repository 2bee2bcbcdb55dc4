//! A labelled multigraph over caller-chosen node identities.
//!
//! `Network<N, E>` keeps unique node identities, preserves parallel edges
//! for the same ordered pair, and fixes directed or undirected semantics at
//! construction.  In undirected mode every edge insertion also stores a
//! mirrored reverse record carrying the same payload, so the raw internal
//! record count is double the logical edge count.
//!
//! At the specification level a network is a [`NetworkModel`]: a
//! directedness flag, the sequence of node identities in insertion order,
//! and the sequence of internal `(from, to, payload)` records in insertion
//! order.

use crate::graph_store::graph_add_edge;
use crate::graph_store::graph_add_node;
use crate::graph_store::graph_edge_count;
use crate::graph_store::graph_edges;
use crate::graph_store::graph_neighbors;
use crate::graph_store::graph_new;
use crate::graph_store::graph_node_count;
use crate::graph_store::graph_nodes;
use crate::graph_store::out_targets;
use crate::text::str_eq_chars;
use petgraph::graph::Graph;
use vstd::prelude::*;

verus! {

/// A node identity: a cheaply duplicable value with a mathematical key
/// that decidable equality agrees with.
pub trait NetworkNode: Copy + Sized {
    /// The mathematical identity of the node.
    type Key;

    /// The key of this value.
    spec fn key(self) -> Self::Key;

    /// Decide equality of two node identities.
    fn eq_node(&self, other: &Self) -> (r: bool)
        ensures
            r == (self.key() == other.key()),
    ;
}

impl NetworkNode for usize {
    type Key = usize;

    open spec fn key(self) -> usize {
        self
    }

    fn eq_node(&self, other: &usize) -> (r: bool) {
        *self == *other
    }
}

impl<'a> NetworkNode for &'a str {
    type Key = Seq<char>;

    open spec fn key(self) -> Seq<char> {
        self@
    }

    fn eq_node(&self, other: &&'a str) -> (r: bool) {
        str_eq_chars(self, other)
    }
}

/// The mathematical state of a network: node identities in insertion
/// order and internal directed records in insertion order.
pub struct NetworkModel<K, E> {
    pub directed: bool,
    pub nodes: Seq<K>,
    pub records: Seq<(K, K, E)>,
}

/// Payloads of the `a -> b` records of `records`, newest first.
pub open spec fn weights_of<K, E>(records: Seq<(K, K, E)>, a: K, b: K) -> Seq<E>
    decreases records.len(),
{
    if records.len() == 0 {
        Seq::empty()
    } else {
        (if records.last().0 == a && records.last().1 == b {
            seq![records.last().2]
        } else {
            Seq::empty()
        }) + weights_of(records.drop_last(), a, b)
    }
}

/// Targets of the records leaving `a`, newest first.
pub open spec fn targets_of<K, E>(records: Seq<(K, K, E)>, a: K) -> Seq<K>
    decreases records.len(),
{
    if records.len() == 0 {
        Seq::empty()
    } else {
        (if records.last().0 == a {
            seq![records.last().1]
        } else {
            Seq::empty()
        }) + targets_of(records.drop_last(), a)
    }
}

/// Prepending a record appends its contribution to the newest-first
/// payload listing.
proof fn lemma_weights_cons<K, E>(r: (K, K, E), s: Seq<(K, K, E)>, a: K, b: K)
    ensures
        weights_of(seq![r] + s, a, b) == weights_of(s, a, b) + (if r.0 == a && r.1 == b {
            seq![r.2]
        } else {
            Seq::empty()
        }),
    decreases s.len(),
{
    let head: Seq<E> = if r.0 == a && r.1 == b {
        seq![r.2]
    } else {
        Seq::empty()
    };
    if s.len() == 0 {
        assert(s =~= Seq::<(K, K, E)>::empty());
        assert(seq![r] + s =~= seq![r]);
        assert((seq![r]).drop_last() =~= Seq::<(K, K, E)>::empty());
        assert(weights_of(Seq::<(K, K, E)>::empty(), a, b) == Seq::<E>::empty());
        assert(weights_of(seq![r] + s, a, b) =~= weights_of(s, a, b) + head);
    } else {
        let t = seq![r] + s;
        assert(t.last() == s.last());
        assert(t.drop_last() =~= seq![r] + s.drop_last());
        lemma_weights_cons(r, s.drop_last(), a, b);
        assert(weights_of(t, a, b) == (if t.last().0 == a && t.last().1 == b {
            seq![t.last().2]
        } else {
            Seq::empty()
        }) + weights_of(t.drop_last(), a, b));
        assert(weights_of(s, a, b) == (if s.last().0 == a && s.last().1 == b {
            seq![s.last().2]
        } else {
            Seq::empty()
        }) + weights_of(s.drop_last(), a, b));
        assert(weights_of(t, a, b) =~= weights_of(s, a, b) + head);
    }
}

/// Prepending a record appends its contribution to the newest-first
/// target listing.
proof fn lemma_targets_cons<K, E>(r: (K, K, E), s: Seq<(K, K, E)>, a: K)
    ensures
        targets_of(seq![r] + s, a) == targets_of(s, a) + (if r.0 == a {
            seq![r.1]
        } else {
            Seq::empty()
        }),
    decreases s.len(),
{
    let head: Seq<K> = if r.0 == a {
        seq![r.1]
    } else {
        Seq::empty()
    };
    if s.len() == 0 {
        assert(s =~= Seq::<(K, K, E)>::empty());
        assert(seq![r] + s =~= seq![r]);
        assert((seq![r]).drop_last() =~= Seq::<(K, K, E)>::empty());
        assert(targets_of(Seq::<(K, K, E)>::empty(), a) == Seq::<K>::empty());
        assert(targets_of(seq![r] + s, a) =~= targets_of(s, a) + head);
    } else {
        let t = seq![r] + s;
        assert(t.last() == s.last());
        assert(t.drop_last() =~= seq![r] + s.drop_last());
        lemma_targets_cons(r, s.drop_last(), a);
        assert(targets_of(t, a) == (if t.last().0 == a {
            seq![t.last().1]
        } else {
            Seq::empty()
        }) + targets_of(t.drop_last(), a));
        assert(targets_of(s, a) == (if s.last().0 == a {
            seq![s.last().1]
        } else {
            Seq::empty()
        }) + targets_of(s.drop_last(), a));
        assert(targets_of(t, a) =~= targets_of(s, a) + head);
    }
}

impl<K, E> NetworkModel<K, E> {
    /// The empty network.
    pub open spec fn empty(directed: bool) -> Self {
        NetworkModel { directed, nodes: Seq::empty(), records: Seq::empty() }
    }

    /// Insertion of a node identity; idempotent.
    pub open spec fn add_node(self, k: K) -> Self {
        if self.nodes.contains(k) {
            self
        } else {
            NetworkModel { directed: self.directed, nodes: self.nodes.push(k), records: self.records }
        }
    }

    /// One internal record `a -> b`, inserting missing endpoints first.
    pub open spec fn add_record(self, a: K, b: K, w: E) -> Self {
        let s = self.add_node(a).add_node(b);
        NetworkModel { directed: s.directed, nodes: s.nodes, records: s.records.push((a, b, w)) }
    }

    /// Edge insertion: one record if directed, a mirrored pair if not.
    pub open spec fn add_edge(self, a: K, b: K, w: E) -> Self {
        if self.directed {
            self.add_record(a, b, w)
        } else {
            self.add_record(a, b, w).add_record(b, a, w)
        }
    }

    /// Payloads stored for the ordered pair `(a, b)`, newest first.
    pub open spec fn weights_between(self, a: K, b: K) -> Seq<E> {
        weights_of(self.records, a, b)
    }

    /// Targets of the records leaving `a`, newest first.
    pub open spec fn out_neighbours(self, a: K) -> Seq<K> {
        targets_of(self.records, a)
    }

    /// The logical edge count: raw records if directed, half of them if
    /// not, every undirected insertion having stored a mirrored pair.
    pub open spec fn num_edges(self) -> int {
        if self.directed {
            self.records.len() as int
        } else {
            self.records.len() as int / 2
        }
    }

    /// Well-formedness: distinct identities and record endpoints present.
    pub open spec fn wf(self) -> bool {
        &&& (forall|i: int, j: int|
            0 <= i < j < self.nodes.len() ==> self.nodes[i] != self.nodes[j])
        &&& (forall|j: int|
            0 <= j < self.records.len() ==> self.nodes.contains(#[trigger] self.records[j].0)
                && self.nodes.contains(self.records[j].1))
    }

    /// In undirected mode the records stand in mirrored pairs, each edge
    /// insertion having stored the forward and the reverse record.
    pub open spec fn mirrored(self) -> bool {
        !self.directed ==> self.records.len() % 2 == 0 && (forall|j: int|
            0 <= j < self.records.len() && j % 2 == 0 ==> #[trigger] self.records[j + 1] == (
            self.records[j].1,
            self.records[j].0,
            self.records[j].2,
        ))
    }
}

/// The ordered key pairs of a record sequence.
pub open spec fn record_pairs<K, E>(recs: Seq<(K, K, E)>) -> Seq<(K, K)> {
    Seq::new(recs.len(), |p: int| (recs[p].0, recs[p].1))
}

/// The key pairs of a listing of identity pairs.
pub open spec fn out_pairs<N: NetworkNode>(out: Seq<(N, N)>) -> Seq<(N::Key, N::Key)> {
    Seq::new(out.len(), |k: int| (out[k].0.key(), out[k].1.key()))
}

/// The petgraph edge records that mirror `records`.
spec fn gedges<E>(records: Seq<(usize, usize, E)>) -> Seq<(u64, u64, u64)> {
    Seq::new(records.len(), |j: int| (records[j].0 as u64, records[j].1 as u64, j as u64))
}

/// The model records over `ids` that mirror `records`.
spec fn model_records<N: NetworkNode, E>(ids: Seq<N>, records: Seq<(usize, usize, E)>) -> Seq<
    (N::Key, N::Key, E),
> {
    Seq::new(
        records.len(),
        |j: int|
            (ids[records[j].0 as int].key(), ids[records[j].1 as int].key(), records[j].2),
    )
}

/// A node identity that is not in the network has no outgoing records.
proof fn lemma_targets_absent<K, E>(m: NetworkModel<K, E>, a: K)
    requires
        m.wf(),
        !m.nodes.contains(a),
    ensures
        m.out_neighbours(a).len() == 0,
    decreases m.records.len(),
{
    if m.records.len() > 0 {
        let prev = NetworkModel {
            directed: m.directed,
            nodes: m.nodes,
            records: m.records.drop_last(),
        };
        assert(m.nodes.contains(m.records[m.records.len() - 1].0));
        assert(m.records.last().0 != a);
        lemma_targets_absent(prev, a);
    }
}

/// Node insertion is idempotent: inserting an identity that a second
/// insertion finds already present leaves the network, and with it the
/// node count, unchanged.
pub proof fn lemma_add_node_idempotent<K, E>(m: NetworkModel<K, E>, k: K)
    ensures
        m.add_node(k).add_node(k) == m.add_node(k),
        m.add_node(k).add_node(k).nodes.len() == m.add_node(k).nodes.len(),
{
    let m1 = m.add_node(k);
    if !m.nodes.contains(k) {
        assert(m1.nodes[m.nodes.len() as int] == k);
        assert(m1.nodes.contains(k));
    }
}

/// Edge insertion grows the node listing by at most the two endpoints
/// and the record listing by at most the mirrored pair.
pub proof fn lemma_add_edge_growth<K, E>(m: NetworkModel<K, E>, a: K, b: K, w: E)
    ensures
        m.add_edge(a, b, w).nodes.len() <= m.nodes.len() + 2,
        m.add_edge(a, b, w).records.len() <= m.records.len() + 2,
        m.add_edge(a, b, w).directed == m.directed,
{
    let s1 = m.add_node(a);
    if !m.nodes.contains(a) {
        assert(s1.nodes[m.nodes.len() as int] == a);
        assert(s1.nodes.contains(a));
    }
    let s2 = s1.add_node(b);
    if !s1.nodes.contains(b) {
        assert(s2.nodes[s1.nodes.len() as int] == b);
        assert(s2.nodes.contains(b));
    }
    if s1.nodes.contains(a) {
        let i = choose|i: int| 0 <= i < s1.nodes.len() && s1.nodes[i] == a;
        assert(s2.nodes[i] == a);
        assert(s2.nodes.contains(a));
    }
    let r1 = m.add_record(a, b, w);
    assert(r1.nodes == s2.nodes);
    if !m.directed {
        assert(r1.nodes.contains(b) && r1.nodes.contains(a));
        assert(r1.add_node(b) == r1);
        assert(r1.add_node(b).add_node(a) == r1);
    }
}

/// Undirected symmetry: after `add_edge(a, b, w)` on an undirected
/// network, both `(a, b)` and `(b, a)` list the payload `w`, and the
/// logical edge count is exactly half the internal record count.
pub proof fn lemma_undirected_edge_symmetry<K, E>(m: NetworkModel<K, E>, a: K, b: K, w: E)
    requires
        !m.directed,
        m.mirrored(),
    ensures
        m.add_edge(a, b, w).weights_between(a, b).contains(w),
        m.add_edge(a, b, w).weights_between(b, a).contains(w),
        m.add_edge(a, b, w).num_edges() * 2 == m.add_edge(a, b, w).records.len(),
{
    let m2 = m.add_edge(a, b, w);
    assert(m2.records =~= m.records.push((a, b, w)).push((b, a, w)));
    let fwd = m.records.push((a, b, w));
    assert(m2.records.drop_last() =~= fwd);
    let wab = m2.weights_between(a, b);
    assert(wab == (if b == a && a == b {
        seq![w]
    } else {
        Seq::<E>::empty()
    }) + weights_of(fwd, a, b));
    assert(fwd.drop_last() =~= m.records);
    assert(fwd.last() == (a, b, w));
    assert(weights_of(fwd, a, b) == seq![w] + weights_of(m.records, a, b));
    assert(wab[wab.len() - 1 - weights_of(m.records, a, b).len()] == w);
    assert(wab.contains(w));
    let wba = m2.weights_between(b, a);
    assert(wba == seq![w] + weights_of(fwd, b, a));
    assert(wba[0] == w);
    assert(wba.contains(w));
    assert(m.records.len() % 2 == 0);
    assert(m2.records.len() == m.records.len() + 2);
}

/// Directed asymmetry: after only `add_edge(a, b, w)` on a directed
/// network, with `a` and `b` distinct, the reverse pair `(b, a)` lists
/// no payload and `b` has no outgoing neighbours.
pub proof fn lemma_directed_edge_asymmetry<K, E>(a: K, b: K, w: E)
    requires
        a != b,
    ensures
        NetworkModel::<K, E>::empty(true).add_edge(a, b, w).weights_between(b, a).len() == 0,
        NetworkModel::<K, E>::empty(true).add_edge(a, b, w).out_neighbours(b).len() == 0,
{
    let m = NetworkModel::<K, E>::empty(true).add_edge(a, b, w);
    assert(m.records =~= seq![(a, b, w)]);
    assert(m.records.drop_last() =~= Seq::<(K, K, E)>::empty());
    assert(weights_of(Seq::<(K, K, E)>::empty(), b, a) == Seq::<E>::empty());
    assert(m.weights_between(b, a) =~= Seq::<E>::empty());
    assert(targets_of(Seq::<(K, K, E)>::empty(), b) == Seq::<K>::empty());
    assert(m.out_neighbours(b) =~= Seq::<K>::empty());
}

/// The petgraph neighbour listing of a node position agrees, position by
/// position, with the model's newest-first target listing of its key.
proof fn lemma_targets_align<N: NetworkNode, E>(
    ids: Seq<N>,
    records: Seq<(usize, usize, E)>,
    i: int,
)
    requires
        forall|j: int|
            0 <= j < records.len() ==> (#[trigger] records[j]).0 < ids.len() && records[j].1
                < ids.len(),
        forall|p: int, q: int| 0 <= p < q < ids.len() ==> ids[p].key() != ids[q].key(),
        0 <= i < ids.len(),
        ids.len() < 0xffff_ffff,
    ensures
        ({
            let gt = out_targets(gedges(records), i as u64);
            let mt = targets_of(model_records(ids, records), ids[i].key());
            &&& gt.len() == mt.len()
            &&& forall|k: int|
                0 <= k < gt.len() ==> (#[trigger] gt[k]) < ids.len() && ids[gt[k] as int].key()
                    == mt[k]
        }),
    decreases records.len(),
{
    let gt = out_targets(gedges(records), i as u64);
    let mt = targets_of(model_records(ids, records), ids[i].key());
    if records.len() == 0 {
        assert(gedges(records) =~= Seq::<(u64, u64, u64)>::empty());
        assert(model_records(ids, records) =~= Seq::<(N::Key, N::Key, E)>::empty());
        assert(gt =~= Seq::<u64>::empty());
        assert(mt =~= Seq::<N::Key>::empty());
    } else {
        let rest = records.drop_last();
        assert(gedges(rest) =~= gedges(records).drop_last());
        assert(model_records(ids, rest) =~= model_records(ids, records).drop_last());
        lemma_targets_align::<N, E>(ids, rest, i);
        let gr = out_targets(gedges(rest), i as u64);
        let mr = targets_of(model_records(ids, rest), ids[i].key());
        let r = records.last();
        assert(r == records[records.len() - 1]);
        assert(gedges(records).last() == (r.0 as u64, r.1 as u64, (records.len() - 1) as u64));
        assert(model_records(ids, records).last() == (
            ids[r.0 as int].key(),
            ids[r.1 as int].key(),
            r.2,
        ));
        if r.0 == i {
            assert(gt =~= seq![r.1 as u64] + gr);
            assert(mt =~= seq![ids[r.1 as int].key()] + mr);
            assert forall|k: int|
                0 <= k < gt.len() implies (#[trigger] gt[k]) < ids.len() && ids[gt[k] as int].key()
                    == mt[k] by {
                if k > 0 {
                    assert(gt[k] == gr[k - 1]);
                    assert(mt[k] == mr[k - 1]);
                }
            }
        } else {
            if ids[r.0 as int].key() == ids[i].key() {
                if r.0 < i {
                    assert(ids[r.0 as int].key() != ids[i].key());
                } else {
                    assert(ids[i].key() != ids[r.0 as int].key());
                }
            }
            assert(r.0 < 0xffff_ffff && 0 <= i < 0xffff_ffff);
            assert((r.0 as u64) as int == r.0 as int);
            assert((i as u64) as int == i);
            assert(gedges(records).last().0 != i as u64);
            assert(model_records(ids, records).last().0 != ids[i].key());
            assert(gt =~= gr);
            assert(mt =~= mr);
        }
    }
}

/// A multigraph with unique node identities, parallel edges preserved
/// per ordered pair, and directedness fixed at construction.
#[derive(Debug)]
pub struct Network<N: NetworkNode, E: Copy> {
    directed: bool,
    graph: Graph<u64, u64>,
    node_ids: Vec<N>,
    records: Vec<(usize, usize, E)>,
}

impl<N: NetworkNode, E: Copy> View for Network<N, E> {
    type V = NetworkModel<N::Key, E>;

    closed spec fn view(&self) -> NetworkModel<N::Key, E> {
        NetworkModel {
            directed: self.directed,
            nodes: Seq::new(self.node_ids@.len(), |i: int| self.node_ids@[i].key()),
            records: model_records(self.node_ids@, self.records@),
        }
    }
}

impl<N: NetworkNode, E: Copy> Network<N, E> {
    /// The concrete state agrees with its model: the model is well
    /// formed, index bounds hold, and the petgraph topology mirrors the
    /// records.  Mid-insertion states satisfy this while an undirected
    /// mirror record is still owed.
    closed spec fn sync(self) -> bool {
        &&& self@.wf()
        &&& self.node_ids@.len() < 0xffff_ffff
        &&& self.records@.len() < 0xffff_ffff
        &&& (forall|j: int|
            0 <= j < self.records@.len() ==> (#[trigger] self.records@[j]).0
                < self.node_ids@.len() && self.records@[j].1 < self.node_ids@.len())
        &&& graph_nodes(self.graph) == Seq::new(self.node_ids@.len(), |i: int| i as u64)
        &&& graph_edges(self.graph) == gedges(self.records@)
    }

    /// Well-formedness of a network as its operations keep it.
    pub closed spec fn wf(self) -> bool {
        self.sync() && self@.mirrored()
    }

    /// A well-formed network has a well-formed, mirrored model:
    /// identities distinct, record endpoints present, and, in
    /// undirected mode, records in mirrored pairs.
    pub proof fn lemma_model_invariant(&self)
        requires
            self.wf(),
        ensures
            self@.wf(),
            self@.mirrored(),
    {
    }

    /// An empty network, directed or undirected as asked.
    pub fn new(directed: bool) -> (net: Network<N, E>)
        ensures
            net.wf(),
            net@ == NetworkModel::<N::Key, E>::empty(directed),
    {
        let net = Network {
            directed,
            graph: graph_new(),
            node_ids: Vec::new(),
            records: Vec::new(),
        };
        proof {
            assert(net@.nodes =~= Seq::<N::Key>::empty());
            assert(net@.records =~= Seq::<(N::Key, N::Key, E)>::empty());
            assert(graph_nodes(net.graph) =~= Seq::new(net.node_ids@.len(), |i: int| i as u64));
            assert(graph_edges(net.graph) =~= Seq::new(
                net.records@.len(),
                |j: int| (net.records@[j].0 as u64, net.records@[j].1 as u64, j as u64),
            ));
        }
        net
    }

    /// The position of `node` among the stored identities, if present.
    fn find_node(&self, node: &N) -> (r: Option<usize>)
        requires
            self.sync(),
        ensures
            match r {
                Some(i) => i < self@.nodes.len() && self@.nodes[i as int] == node.key(),
                None => !self@.nodes.contains(node.key()),
            },
    {
        let mut i: usize = 0;
        while i < self.node_ids.len()
            invariant
                self.sync(),
                i <= self.node_ids@.len(),
                forall|j: int| 0 <= j < i ==> self@.nodes[j] != node.key(),
            decreases self.node_ids@.len() - i,
        {
            if self.node_ids[i].eq_node(node) {
                return Some(i);
            }
            i += 1;
        }
        None
    }

    /// Insert a node identity, keeping the records untouched.
    fn ensure_node(&mut self, node: N) -> (ix: usize)
        requires
            old(self).sync(),
            old(self)@.nodes.len() + 1 < 0xffff_ffff,
        ensures
            final(self).sync(),
            final(self)@ == old(self)@.add_node(node.key()),
            ix < final(self)@.nodes.len(),
            final(self)@.nodes[ix as int] == node.key(),
    {
        match self.find_node(&node) {
            Some(i) => i,
            None => {
                let ix = graph_add_node(&mut self.graph, self.node_ids.len() as u64);
                self.node_ids.push(node);
                proof {
                    assert(self@.nodes =~= old(self)@.nodes.push(node.key()));
                    assert(self@.records =~= old(self)@.records);
                    assert forall|i: int, j: int|
                        0 <= i < j < self@.nodes.len() implies self@.nodes[i]
                        != self@.nodes[j] by {
                        if j == self@.nodes.len() - 1 {
                            if old(self)@.nodes[i] == node.key() {
                                assert(old(self)@.nodes.contains(node.key()));
                            }
                        }
                    }
                    assert forall|j: int|
                        0 <= j < self@.records.len() implies self@.nodes.contains(
                        #[trigger] self@.records[j].0,
                    ) && self@.nodes.contains(self@.records[j].1) by {
                        let n0 = choose|i: int|
                            0 <= i < old(self)@.nodes.len() && old(self)@.nodes[i]
                                == old(self)@.records[j].0;
                        assert(self@.nodes[n0] == self@.records[j].0);
                        let n1 = choose|i: int|
                            0 <= i < old(self)@.nodes.len() && old(self)@.nodes[i]
                                == old(self)@.records[j].1;
                        assert(self@.nodes[n1] == self@.records[j].1);
                    }
                    assert(graph_nodes(self.graph) =~= Seq::new(
                        self.node_ids@.len(),
                        |i: int| i as u64,
                    ));
                    assert(graph_edges(self.graph) =~= Seq::new(
                        self.records@.len(),
                        |j: int|
                            (self.records@[j].0 as u64, self.records@[j].1 as u64, j as u64),
                    ));
                }
                ix
            },
        }
    }

    /// Insert a node identity and return its handle; if the identity is
    /// already present, the network is unchanged and the existing handle
    /// comes back.
    pub fn add_node(&mut self, node: N) -> (ix: usize)
        requires
            old(self).wf(),
            old(self)@.nodes.len() + 1 < 0xffff_ffff,
        ensures
            final(self).wf(),
            final(self)@ == old(self)@.add_node(node.key()),
            ix < final(self)@.nodes.len(),
            final(self)@.nodes[ix as int] == node.key(),
    {
        self.ensure_node(node)
    }

    /// Insert one internal record `from -> to`, auto-inserting missing
    /// endpoints, and return its handle.
    fn _add_edge(&mut self, from: N, to: N, edge_data: E) -> (ix: usize)
        requires
            old(self).sync(),
            old(self)@.nodes.len() + 2 < 0xffff_ffff,
            old(self)@.records.len() + 1 < 0xffff_ffff,
        ensures
            final(self).sync(),
            final(self)@ == old(self)@.add_record(from.key(), to.key(), edge_data),
            ix == old(self)@.records.len(),
    {
        let fi = self.ensure_node(from);
        let ghost s1 = self@;
        let ti = self.ensure_node(to);
        let ghost mid = self@;
        proof {
            assert(mid.nodes == s1.nodes || mid.nodes == s1.nodes.push(to.key()));
            assert(mid.nodes[fi as int] == from.key());
            assert(mid.nodes[ti as int] == to.key());
        }
        let ex = graph_add_edge(&mut self.graph, fi, ti, self.records.len() as u64);
        self.records.push((fi, ti, edge_data));
        proof {
            assert(self@.nodes =~= mid.nodes);
            assert(self@.records[mid.records.len() as int] == (
                from.key(),
                to.key(),
                edge_data,
            ));
            assert(self@.records =~= mid.records.push((from.key(), to.key(), edge_data)));
            assert(graph_nodes(self.graph) =~= Seq::new(
                self.node_ids@.len(),
                |i: int| i as u64,
            ));
            assert(graph_edges(self.graph) =~= Seq::new(
                self.records@.len(),
                |j: int| (self.records@[j].0 as u64, self.records@[j].1 as u64, j as u64),
            ));
            assert forall|j: int|
                0 <= j < self@.records.len() implies self@.nodes.contains(
                #[trigger] self@.records[j].0,
            ) && self@.nodes.contains(self@.records[j].1) by {
                if j < self@.records.len() - 1 {
                    assert(mid.nodes.contains(mid.records[j].0));
                    assert(mid.nodes.contains(mid.records[j].1));
                } else {
                    assert(self@.nodes[fi as int] == from.key());
                    assert(self@.nodes[ti as int] == to.key());
                }
            }
        }
        ex
    }

    /// Insert an edge `from -> to` carrying `edge_data`, auto-inserting
    /// missing endpoints; in undirected mode the mirror record `to ->
    /// from` is stored as well, with the identical payload.  Parallel
    /// edges are never merged: a repeated insertion appends another
    /// record.
    pub fn add_edge(&mut self, from: N, to: N, edge_data: E) -> (ix: usize)
        requires
            old(self).wf(),
            old(self)@.nodes.len() + 4 < 0xffff_ffff,
            old(self)@.records.len() + 2 < 0xffff_ffff,
        ensures
            final(self).wf(),
            final(self)@ == old(self)@.add_edge(from.key(), to.key(), edge_data),
            ix == old(self)@.records.len(),
    {
        let ex = self._add_edge(from, to, edge_data);

        if !self.directed {
            self._add_edge(to, from, edge_data);
            proof {
                let r = self@.records;
                assert forall|j: int|
                    0 <= j < r.len() && j % 2 == 0 implies #[trigger] r[j + 1] == (
                    r[j].1,
                    r[j].0,
                    r[j].2,
                ) by {
                    if j < old(self)@.records.len() {
                        assert(old(self)@.records[j + 1] == (
                            old(self)@.records[j].1,
                            old(self)@.records[j].0,
                            old(self)@.records[j].2,
                        ));
                    }
                }
            }
        }

        ex
    }

    /// The number of distinct node identities.
    pub fn num_nodes(&self) -> (n: usize)
        requires
            self.wf(),
        ensures
            n == self@.nodes.len(),
    {
        graph_node_count(&self.graph)
    }

    /// The number of logical edges: the raw internal record count if
    /// directed, half of it if undirected.
    pub fn num_edges(&self) -> (n: usize)
        requires
            self.wf(),
        ensures
            n == self@.num_edges(),
    {
        let mut n = graph_edge_count(&self.graph);
        if !self.directed {
            n = n / 2;
        }
        n
    }

    /// All payloads stored for the ordered pair `(from, to)`, newest
    /// insertion first, or `None` if no edge exists for that pair.
    pub fn edge_data(&self, from: N, to: N) -> (r: Option<Vec<E>>)
        requires
            self.wf(),
        ensures
            match r {
                None => self@.weights_between(from.key(), to.key()).len() == 0,
                Some(v) => v@ == self@.weights_between(from.key(), to.key()) && v@.len() > 0,
            },
    {
        let mut out: Vec<E> = Vec::new();
        let mut i = self.records.len();
        proof {
            assert(self@.records.skip(i as int) =~= Seq::<(N::Key, N::Key, E)>::empty());
        }
        while i > 0
            invariant
                self.wf(),
                i <= self.records@.len(),
                out@ == weights_of(self@.records.skip(i as int), from.key(), to.key()),
            decreases i,
        {
            i -= 1;
            let rec = self.records[i];
            proof {
                assert(self@.records.skip(i as int) =~= seq![self@.records[i as int]]
                    + self@.records.skip(i as int + 1));
                lemma_weights_cons(
                    self@.records[i as int],
                    self@.records.skip(i as int + 1),
                    from.key(),
                    to.key(),
                );
                assert(self@.records[i as int] == (
                    self.node_ids@[rec.0 as int].key(),
                    self.node_ids@[rec.1 as int].key(),
                    rec.2,
                ));
            }
            if self.node_ids[rec.0].eq_node(&from) && self.node_ids[rec.1].eq_node(&to) {
                out.push(rec.2);
            }
        }
        proof {
            assert(self@.records.skip(0) =~= self@.records);
        }
        if out.len() == 0 {
            None
        } else {
            Some(out)
        }
    }

    /// The identities with an edge starting from `node`: the targets of
    /// its outgoing records (incident records in undirected mode, their
    /// mirrors standing in), most recently inserted first; `None` if
    /// there are none.
    pub fn neighbours_of(&self, node: N) -> (r: Option<Vec<N>>)
        requires
            self.wf(),
        ensures
            match r {
                None => self@.out_neighbours(node.key()).len() == 0,
                Some(v) => v@.len() == self@.out_neighbours(node.key()).len() && v@.len() > 0
                    && (forall|k: int|
                    0 <= k < v@.len() ==> (#[trigger] v@[k]).key() == self@.out_neighbours(
                        node.key(),
                    )[k]),
            },
    {
        let i = match self.find_node(&node) {
            None => {
                proof {
                    lemma_targets_absent(self@, node.key());
                }
                return None;
            },
            Some(i) => i,
        };
        let raw = graph_neighbors(&self.graph, i);
        proof {
            assert forall|p: int, q: int|
                0 <= p < q < self.node_ids@.len() implies self.node_ids@[p].key()
                != self.node_ids@[q].key() by {
                assert(self@.nodes[p] != self@.nodes[q]);
            }
            lemma_targets_align::<N, E>(self.node_ids@, self.records@, i as int);
        }
        let ghost mt = self@.out_neighbours(node.key());
        let ghost gt = out_targets(gedges(self.records@), i as u64);
        proof {
            assert(raw@.map_values(|x: usize| x as u64) == gt);
            assert(raw@.len() == gt.len());
        }
        if raw.len() == 0 {
            return None;
        }
        let mut out: Vec<N> = Vec::new();
        let mut k: usize = 0;
        while k < raw.len()
            invariant
                self.wf(),
                k <= raw@.len(),
                raw@.len() == gt.len(),
                gt.len() == mt.len(),
                gt == out_targets(gedges(self.records@), i as u64),
                mt == self@.out_neighbours(node.key()),
                raw@.map_values(|x: usize| x as u64) == gt,
                forall|p: int|
                    0 <= p < gt.len() ==> (#[trigger] gt[p]) < self.node_ids@.len()
                        && self.node_ids@[gt[p] as int].key() == mt[p],
                out@.len() == k,
                forall|p: int| 0 <= p < k ==> (#[trigger] out@[p]).key() == mt[p],
            decreases raw@.len() - k,
        {
            proof {
                assert(raw@.map_values(|x: usize| x as u64)[k as int] == raw@[k as int] as u64);
            }
            let ix = raw[k];
            out.push(self.node_ids[ix]);
            k += 1;
        }
        Some(out)
    }

    /// A snapshot of the node identities, in insertion order.
    pub fn nodes(&self) -> (r: Vec<N>)
        requires
            self.wf(),
        ensures
            r@.len() == self@.nodes.len(),
            forall|i: int| 0 <= i < r@.len() ==> (#[trigger] r@[i]).key() == self@.nodes[i],
    {
        let mut out: Vec<N> = Vec::new();
        let mut i: usize = 0;
        while i < self.node_ids.len()
            invariant
                self.wf(),
                i <= self.node_ids@.len(),
                out@.len() == i,
                forall|p: int| 0 <= p < i ==> (#[trigger] out@[p]).key() == self@.nodes[p],
            decreases self.node_ids@.len() - i,
        {
            out.push(self.node_ids[i]);
            i += 1;
        }
        out
    }

    /// Whether `out` already lists a pair with the given identities.
    fn pair_listed(out: &Vec<(N, N)>, a: &N, b: &N) -> (r: bool)
        ensures
            r == out_pairs(out@).contains((a.key(), b.key())),
    {
        let mut k: usize = 0;
        while k < out.len()
            invariant
                k <= out@.len(),
                forall|p: int| 0 <= p < k ==> out_pairs(out@)[p] != (a.key(), b.key()),
            decreases out@.len() - k,
        {
            let pair = &out[k];
            if pair.0.eq_node(a) && pair.1.eq_node(b) {
                proof {
                    assert(out_pairs(out@)[k as int] == (a.key(), b.key()));
                }
                return true;
            }
            k += 1;
        }
        proof {
            if out_pairs(out@).contains((a.key(), b.key())) {
                let p = choose|p: int|
                    0 <= p < out_pairs(out@).len() && out_pairs(out@)[p] == (a.key(), b.key());
                assert(out_pairs(out@)[p] != (a.key(), b.key()));
            }
        }
        false
    }

    /// A snapshot of the ordered pairs that have at least one edge
    /// record, each pair listed once, in order of first insertion.
    pub fn edges(&self) -> (r: Vec<(N, N)>)
        requires
            self.wf(),
        ensures
            forall|k: int|
                0 <= k < r@.len() ==> record_pairs(self@.records).contains(
                    #[trigger] out_pairs(r@)[k],
                ),
            forall|p: int|
                0 <= p < self@.records.len() ==> out_pairs(r@).contains(
                    #[trigger] record_pairs(self@.records)[p],
                ),
            forall|k1: int, k2: int|
                0 <= k1 < k2 < r@.len() ==> out_pairs(r@)[k1] != out_pairs(r@)[k2],
    {
        let ghost kp = record_pairs(self@.records);
        let mut out: Vec<(N, N)> = Vec::new();
        let mut j: usize = 0;
        while j < self.records.len()
            invariant
                self.wf(),
                j <= self.records@.len(),
                kp == record_pairs(self@.records),
                forall|k: int|
                    0 <= k < out@.len() ==> kp.subrange(0, j as int).contains(
                        #[trigger] out_pairs(out@)[k],
                    ),
                forall|p: int| 0 <= p < j ==> out_pairs(out@).contains(#[trigger] kp[p]),
                forall|k1: int, k2: int|
                    0 <= k1 < k2 < out@.len() ==> out_pairs(out@)[k1] != out_pairs(out@)[k2],
            decreases self.records@.len() - j,
        {
            let rec = self.records[j];
            let a = self.node_ids[rec.0];
            let b = self.node_ids[rec.1];
            proof {
                assert(self@.records[j as int] == (
                    self.node_ids@[rec.0 as int].key(),
                    self.node_ids@[rec.1 as int].key(),
                    rec.2,
                ));
                assert(kp[j as int] == (a.key(), b.key()));
            }
            let ghost prev = out@;
            let listed = Self::pair_listed(&out, &a, &b);
            if !listed {
                out.push((a, b));
            }
            proof {
                if !listed {
                    assert(out_pairs(out@) =~= out_pairs(prev).push((a.key(), b.key())));
                } else {
                    assert(out@ == prev);
                }
                assert forall|k: int|
                    0 <= k < out@.len() implies kp.subrange(0, j + 1).contains(
                    #[trigger] out_pairs(out@)[k],
                ) by {
                    if k < prev.len() {
                        assert(out_pairs(out@)[k] == out_pairs(prev)[k]);
                        let p = choose|p: int|
                            0 <= p < j && kp.subrange(0, j as int)[p] == out_pairs(prev)[k];
                        assert(kp.subrange(0, j + 1)[p] == out_pairs(out@)[k]);
                    } else {
                        assert(out_pairs(out@)[k] == (a.key(), b.key()));
                        assert(kp.subrange(0, j + 1)[j as int] == (a.key(), b.key()));
                    }
                }
                assert forall|p: int|
                    0 <= p < j + 1 implies out_pairs(out@).contains(#[trigger] kp[p]) by {
                    if p < j {
                        let k = choose|k: int|
                            0 <= k < out_pairs(prev).len() && out_pairs(prev)[k] == kp[p];
                        assert(out_pairs(out@)[k] == kp[p]);
                    } else {
                        if listed {
                            let k = choose|k: int|
                                0 <= k < out_pairs(prev).len() && out_pairs(prev)[k] == (
                                a.key(),
                                b.key(),
                            );
                            assert(out_pairs(out@)[k] == kp[p]);
                        } else {
                            assert(out_pairs(out@)[prev.len() as int] == kp[p]);
                        }
                    }
                }
                assert forall|k1: int, k2: int|
                    0 <= k1 < k2 < out@.len() implies out_pairs(out@)[k1] != out_pairs(
                    out@,
                )[k2] by {
                    if k2 < prev.len() {
                        assert(out_pairs(out@)[k1] == out_pairs(prev)[k1]);
                        assert(out_pairs(out@)[k2] == out_pairs(prev)[k2]);
                    } else if k2 == prev.len() {
                        assert(!listed);
                        assert(out_pairs(out@)[k1] == out_pairs(prev)[k1]);
                        assert(out_pairs(out@)[k2] == (a.key(), b.key()));
                        if out_pairs(prev)[k1] == (a.key(), b.key()) {
                            assert(out_pairs(prev).contains((a.key(), b.key())));
                        }
                    }
                }
            }
            j += 1;
        }
        proof {
            assert(kp.subrange(0, self.records@.len() as int) =~= kp);
        }
        out
    }
}

} // verus!
