//! A directed graph stored as vectors of nodes and edges: each node heads a
//! linked list of its outgoing edges, newest first.

use vstd::prelude::*;

verus! {

pub type NodeIndex = usize;

pub type EdgeIndex = usize;

pub struct NodeData<T> {
    first_outgoing_edge: Option<EdgeIndex>,
    value: T,
}

pub struct EdgeData {
    target: NodeIndex,
    next_outgoing_edge: Option<EdgeIndex>,
}

pub struct Graph<T> {
    nodes: Vec<NodeData<T>>,
    edges: Vec<EdgeData>,
}

impl<T> Graph<T> {
    /// The number of nodes.
    pub closed spec fn node_count(&self) -> nat {
        self.nodes@.len()
    }

    /// The number of edges.
    pub closed spec fn edge_count(&self) -> nat {
        self.edges@.len()
    }

    /// The value of node `u`.
    pub closed spec fn value_of(&self, u: int) -> T {
        self.nodes@[u].value
    }

    /// The outgoing edges in the list that starts at edge `k`, as
    /// `(target, edge)` pairs.
    pub closed spec fn chain_from(&self, k: int) -> Seq<(NodeIndex, EdgeIndex)>
        decreases k,
    {
        if 0 <= k < self.edges@.len() {
            let e = self.edges@[k];
            let rest = match e.next_outgoing_edge {
                Some(j) => if j < k {
                    self.chain_from(j as int)
                } else {
                    Seq::empty()
                },
                None => Seq::empty(),
            };
            seq![(e.target, k as usize)] + rest
        } else {
            Seq::empty()
        }
    }

    /// The list that starts at `first`.
    pub closed spec fn chain(&self, first: Option<EdgeIndex>) -> Seq<(NodeIndex, EdgeIndex)> {
        match first {
            Some(k) => self.chain_from(k as int),
            None => Seq::empty(),
        }
    }

    /// The outgoing edges of node `u`, newest first, as `(target, edge)` pairs.
    pub closed spec fn succs(&self, u: int) -> Seq<(NodeIndex, EdgeIndex)> {
        self.chain(self.nodes@[u].first_outgoing_edge)
    }

    /// Every edge names an existing node and points to an older edge.
    pub closed spec fn wf(&self) -> bool {
        &&& forall|u: int|
            0 <= u < self.nodes@.len() ==> match (#[trigger] self.nodes@[u]).first_outgoing_edge {
                Some(k) => k < self.edges@.len(),
                None => true,
            }
        &&& forall|k: int|
            0 <= k < self.edges@.len() ==> {
                &&& (#[trigger] self.edges@[k]).target < self.nodes@.len()
                &&& match self.edges@[k].next_outgoing_edge {
                    Some(j) => j < k,
                    None => true,
                }
            }
    }

    proof fn lemma_chain_targets(&self, k: int)
        requires
            self.wf(),
        ensures
            forall|i: int|
                0 <= i < self.chain_from(k).len() ==> (#[trigger] self.chain_from(k)[i]).0 < self.nodes@.len()
                    && self.chain_from(k)[i].1 < self.edges@.len(),
        decreases k,
    {
        if 0 <= k < self.edges@.len() {
            let e = self.edges@[k];
            let c = self.chain_from(k);
            let rest = match e.next_outgoing_edge {
                Some(j) => if j < k {
                    self.chain_from(j as int)
                } else {
                    Seq::empty()
                },
                None => Seq::empty(),
            };
            match e.next_outgoing_edge {
                Some(j) => if j < k {
                    self.lemma_chain_targets(j as int);
                },
                None => {},
            }
            assert(c == seq![(e.target, k as usize)] + rest);
            assert forall|i: int| 0 <= i < c.len() implies (#[trigger] c[i]).0 < self.nodes@.len() && c[i].1
                < self.edges@.len() by {
                if i > 0 {
                    assert(c[i] == rest[i - 1]);
                }
            }
        }
    }

    /// The targets of the outgoing edges of `u` are nodes of the graph.
    pub proof fn lemma_succs_in_range(&self, u: int)
        requires
            self.wf(),
            0 <= u < self.node_count(),
        ensures
            forall|i: int|
                0 <= i < self.succs(u).len() ==> (#[trigger] self.succs(u)[i]).0 < self.node_count()
                    && self.succs(u)[i].1 < self.edge_count(),
    {
        match self.nodes@[u].first_outgoing_edge {
            Some(k) => self.lemma_chain_targets(k as int),
            None => {},
        }
    }

    /// Adding an edge leaves the lists that start at older edges as they were.
    proof fn lemma_chain_stable(old_g: &Self, new_g: &Self, k: int)
        requires
            old_g.edges@.len() <= new_g.edges@.len(),
            forall|j: int| 0 <= j < old_g.edges@.len() ==> new_g.edges@[j] == old_g.edges@[j],
            k < old_g.edges@.len(),
        ensures
            new_g.chain_from(k) == old_g.chain_from(k),
        decreases k,
    {
        if 0 <= k {
            match old_g.edges@[k].next_outgoing_edge {
                Some(j) => if j < k {
                    Self::lemma_chain_stable(old_g, new_g, j as int);
                },
                None => {},
            }
        }
    }

    /// An empty graph.
    pub fn new() -> (r: Self)
        ensures
            r.wf(),
            r.node_count() == 0,
            r.edge_count() == 0,
    {
        Graph { nodes: Vec::new(), edges: Vec::new() }
    }

    /// Adds a node holding `value`, with no edges, and returns its index.
    pub fn add_node(&mut self, value: T) -> (r: NodeIndex)
        requires
            old(self).wf(),
        ensures
            final(self).wf(),
            r == old(self).node_count(),
            final(self).node_count() == old(self).node_count() + 1,
            final(self).edge_count() == old(self).edge_count(),
            final(self).value_of(r as int) == value,
            forall|u: int| 0 <= u < old(self).node_count() ==> final(self).value_of(u) == old(self).value_of(u)
                && final(self).succs(u) == old(self).succs(u),
            final(self).succs(r as int) == Seq::<(NodeIndex, EdgeIndex)>::empty(),
    {
        let index = self.nodes.len();
        self.nodes.push(NodeData { first_outgoing_edge: None, value });
        proof {
            assert forall|k: int| 0 <= k < self.edges@.len() implies (#[trigger] self.edges@[k]).target < self.nodes@.len() by {
                assert(old(self).edges@[k].target < old(self).nodes@.len());
            }
            assert forall|u: int| 0 <= u < old(self).node_count() implies self.succs(u) == old(self).succs(u) by {
                assert(self.nodes@[u] == old(self).nodes@[u]);
                match old(self).nodes@[u].first_outgoing_edge {
                    Some(k) => Self::lemma_chain_stable(old(self), self, k as int),
                    None => {},
                }
            }
        }
        index
    }

    /// Adds an edge from `source` to `target`; it becomes the first in the
    /// list of `source`.
    pub fn add_edge(&mut self, source: NodeIndex, target: NodeIndex)
        requires
            old(self).wf(),
            source < old(self).node_count(),
            target < old(self).node_count(),
        ensures
            final(self).wf(),
            final(self).node_count() == old(self).node_count(),
            final(self).edge_count() == old(self).edge_count() + 1,
            final(self).succs(source as int) == seq![(target, old(self).edge_count() as usize)] + old(self).succs(
                source as int,
            ),
            forall|u: int|
                0 <= u < old(self).node_count() && u != source ==> final(self).succs(u) == old(self).succs(u),
            forall|u: int| 0 <= u < old(self).node_count() ==> final(self).value_of(u) == old(self).value_of(u),
    {
        let edge_index = self.edges.len();
        let first = self.nodes[source].first_outgoing_edge;
        self.edges.push(EdgeData { target, next_outgoing_edge: first });
        let value_node = self.nodes.remove(source);
        self.nodes.insert(source, NodeData { first_outgoing_edge: Some(edge_index), value: value_node.value });
        proof {
            let og = old(self);
            assert(forall|j: int| 0 <= j < og.edges@.len() ==> self.edges@[j] == og.edges@[j]);
            assert forall|u: int| 0 <= u < og.node_count() && u != source implies self.succs(u) == og.succs(u) by {
                assert(self.nodes@[u] == og.nodes@[u]);
                match og.nodes@[u].first_outgoing_edge {
                    Some(k) => Self::lemma_chain_stable(og, self, k as int),
                    None => {},
                }
            }
            match first {
                Some(k) => Self::lemma_chain_stable(og, self, k as int),
                None => {},
            }
            assert(self.chain_from(edge_index as int) =~= seq![(target, edge_index)] + og.succs(source as int));
            assert forall|k: int| 0 <= k < self.edges@.len() implies {
                &&& (#[trigger] self.edges@[k]).target < self.nodes@.len()
                &&& match self.edges@[k].next_outgoing_edge {
                    Some(j) => j < k,
                    None => true,
                }
            } by {
                if k < og.edges@.len() {
                    assert(og.edges@[k] == self.edges@[k]);
                }
            }
            assert forall|u: int| 0 <= u < self.nodes@.len() implies match (#[trigger] self.nodes@[u]).first_outgoing_edge {
                Some(k) => k < self.edges@.len(),
                None => true,
            } by {
                if u != source {
                    assert(self.nodes@[u] == og.nodes@[u]);
                }
            }
        }
    }

    /// Adds an edge each way between `source` and `target`.
    pub fn add_undirected_edge(&mut self, source: NodeIndex, target: NodeIndex)
        requires
            old(self).wf(),
            source < old(self).node_count(),
            target < old(self).node_count(),
        ensures
            final(self).wf(),
            final(self).node_count() == old(self).node_count(),
            final(self).edge_count() == old(self).edge_count() + 2,
            source != target ==> final(self).succs(source as int) == seq![
                (target, old(self).edge_count() as usize),
            ] + old(self).succs(source as int),
            source != target ==> final(self).succs(target as int) == seq![
                (source, (old(self).edge_count() + 1) as usize),
            ] + old(self).succs(target as int),
            source == target ==> final(self).succs(source as int) == seq![
                (source, (old(self).edge_count() + 1) as usize),
                (source, old(self).edge_count() as usize),
            ] + old(self).succs(source as int),
            forall|u: int|
                0 <= u < old(self).node_count() && u != source && u != target ==> final(self).succs(u)
                    == old(self).succs(u),
            forall|u: int| 0 <= u < old(self).node_count() ==> final(self).value_of(u) == old(self).value_of(u),
    {
        self.add_edge(source, target);
        self.add_edge(target, source);
        proof {
            if source == target {
                assert(self.succs(source as int) =~= seq![
                    (source, (old(self).edge_count() + 1) as usize),
                    (source, old(self).edge_count() as usize),
                ] + old(self).succs(source as int));
            }
        }
    }

    /// The value of node `node_index`.
    pub fn get_value(&self, node_index: NodeIndex) -> (r: &T)
        requires
            node_index < self.node_count(),
        ensures
            *r == self.value_of(node_index as int),
    {
        &self.nodes[node_index].value
    }

    /// The outgoing edges of `source`, newest first.
    pub fn successors(&self, source: NodeIndex) -> (r: Successors<'_, T>)
        requires
            source < self.node_count(),
        ensures
            r.graph() == self,
            r.remaining() == self.succs(source as int),
    {
        let first_outgoing_edge = self.nodes[source].first_outgoing_edge;
        Successors { graph: self, current_edge_index: first_outgoing_edge }
    }
}

/// The number of `false` entries.
pub open spec fn count_unseen(s: Seq<bool>) -> nat
    decreases s.len(),
{
    if s.len() == 0 {
        0
    } else {
        count_unseen(s.drop_last()) + if s.last() {
            0nat
        } else {
            1nat
        }
    }
}

proof fn lemma_mark_seen(s: Seq<bool>, i: int)
    requires
        0 <= i < s.len(),
        !s[i],
    ensures
        count_unseen(s.update(i, true)) + 1 == count_unseen(s),
    decreases s.len(),
{
    if i == s.len() - 1 {
        assert(s.update(i, true).drop_last() =~= s.drop_last());
    } else {
        assert(s.update(i, true).drop_last() =~= s.drop_last().update(i, true));
        lemma_mark_seen(s.drop_last(), i);
    }
}

impl<T> Graph<T> {
    /// Node `v` is the target of an outgoing edge of node `u`.
    #[verifier::opaque]
    pub open spec fn has_edge(&self, u: int, v: NodeIndex) -> bool {
        exists|k: int| 0 <= k < self.succs(u).len() && (#[trigger] self.succs(u)[k]).0 == v
    }

    /// Node `order[i]` is the target of an edge from a node listed before it.
    pub open spec fn reached_before(&self, order: Seq<NodeIndex>, i: int) -> bool {
        exists|j: int| 0 <= j < i && #[trigger] self.has_edge(order[j] as int, order[i])
    }

    /// The targets of the outgoing edges of `u`, newest edge first.
    pub fn successor_targets(&self, u: NodeIndex) -> (r: Vec<NodeIndex>)
        requires
            self.wf(),
            u < self.node_count(),
        ensures
            r@.len() == self.succs(u as int).len(),
            forall|k: int| 0 <= k < r@.len() ==> #[trigger] r@[k] == self.succs(u as int)[k].0,
            forall|k: int| 0 <= k < r@.len() ==> #[trigger] r@[k] < self.node_count(),
    {
        proof {
            self.lemma_succs_in_range(u as int);
        }
        let mut out: Vec<NodeIndex> = Vec::new();
        let mut it = self.successors(u);
        let ghost all = self.succs(u as int);
        let mut more = true;
        while more
            invariant
                !more ==> it.remaining().len() == 0,
                it.graph() == self,
                self.wf(),
                out@.len() + it.remaining().len() == all.len(),
                it.remaining() == all.subrange(out@.len() as int, all.len() as int),
                forall|k: int| 0 <= k < out@.len() ==> #[trigger] out@[k] == all[k].0,
                forall|k: int| 0 <= k < all.len() ==> (#[trigger] all[k]).0 < self.node_count(),
            decreases it.remaining().len() + if more {
                1int
            } else {
                0int
            },
        {
            match it.next() {
                Some((m, _e)) => {
                    assert(all[out@.len() as int].0 == m);
                    out.push(m);
                    assert(it.remaining() =~= all.subrange(out@.len() as int, all.len() as int));
                },
                None => {
                    more = false;
                },
            }
        }
        assert(out@.len() == all.len());
        proof {
            assert forall|k: int| 0 <= k < out@.len() implies #[trigger] out@[k] < self.node_count() by {
                assert(out@[k] == all[k].0);
            }
        }
        out
    }
}

impl<T> Graph<T> {
    /// The state of a depth-first walk from `start`: the nodes visited so far
    /// (`order`, flagged in `seen`) and those still to try (`stack`). Each
    /// node on the stack was pushed by the visited node `order[from[t]]`, and
    /// each visited node but the first was reached from `order[via[i]]`.
    spec fn walk_inv(
        &self,
        start: NodeIndex,
        seen: Seq<bool>,
        order: Seq<NodeIndex>,
        stack: Seq<NodeIndex>,
        from: Seq<int>,
        via: Seq<int>,
    ) -> bool {
        let n = self.node_count();
        &&& self.wf()
        &&& n <= usize::MAX
        &&& start < n
        &&& seen.len() == n
        &&& order.len() == 0 ==> stack == seq![start]
        &&& order.len() > 0 ==> order[0] == start
        &&& order.no_duplicates()
        &&& forall|i: int| 0 <= i < order.len() ==> #[trigger] order[i] < n
        &&& forall|v: int| 0 <= v < n ==> (#[trigger] seen[v] <==> order.contains(v as NodeIndex))
        &&& forall|t: int| 0 <= t < stack.len() ==> #[trigger] stack[t] < n
        &&& forall|i: int, v: NodeIndex|
            0 <= i < order.len() && #[trigger] self.has_edge(order[i] as int, v) ==> order.contains(v)
                || stack.contains(v)
        &&& from.len() == stack.len()
        &&& order.len() > 0 ==> forall|t: int|
            0 <= t < stack.len() ==> 0 <= #[trigger] from[t] < order.len() && self.has_edge(
                order[from[t]] as int,
                stack[t],
            )
        &&& via.len() == order.len()
        &&& forall|i: int|
            0 < i < order.len() ==> 0 <= #[trigger] via[i] < i && self.has_edge(order[via[i]] as int, order[i])
    }

    proof fn lemma_walk_skip(
        &self,
        start: NodeIndex,
        seen: Seq<bool>,
        order: Seq<NodeIndex>,
        rest: Seq<NodeIndex>,
        pos: int,
        node: NodeIndex,
        from: Seq<int>,
        via: Seq<int>,
    )
        requires
            0 <= pos <= rest.len(),
            self.walk_inv(start, seen, order, rest.insert(pos, node), from, via),
            order.contains(node),
        ensures
            self.walk_inv(start, seen, order, rest, from.remove(pos), via),
    {
        let pre = rest.insert(pos, node);
        let fr = from.remove(pos);
        assert forall|t: int| 0 <= t < rest.len() implies #[trigger] rest[t] < self.node_count() by {
            let t2 = if t < pos { t } else { t + 1 };
            assert(rest[t] == pre[t2]);
        }
        assert forall|i: int, v: NodeIndex|
            0 <= i < order.len() && #[trigger] self.has_edge(order[i] as int, v) implies order.contains(v)
                || rest.contains(v) by {
            if pre.contains(v) && v != node {
                let q = choose|q: int| 0 <= q < pre.len() && pre[q] == v;
                let q2 = if q < pos { q } else { q - 1 };
                assert(rest[q2] == v);
            }
        }
        if order.len() > 0 {
            assert forall|t: int| 0 <= t < rest.len() implies 0 <= #[trigger] fr[t] < order.len() && self.has_edge(
                order[fr[t]] as int,
                rest[t],
            ) by {
                let t2 = if t < pos { t } else { t + 1 };
                assert(rest[t] == pre[t2]);
                assert(fr[t] == from[t2]);
            }
        }
        if order.len() == 0 {
            assert(pre == seq![start]);
            assert(pre[pos] == node);
        }
    }

    proof fn lemma_walk_visit(
        &self,
        start: NodeIndex,
        seen: Seq<bool>,
        order: Seq<NodeIndex>,
        rest: Seq<NodeIndex>,
        pos: int,
        node: NodeIndex,
        targets: Seq<NodeIndex>,
        rev: bool,
        from: Seq<int>,
        via: Seq<int>,
    )
        requires
            0 <= pos <= rest.len(),
            self.walk_inv(start, seen, order, rest.insert(pos, node), from, via),
            !seen[node as int],
            targets.len() == self.succs(node as int).len(),
            forall|k: int|
                0 <= k < targets.len() ==> #[trigger] targets[k] == self.succs(node as int)[if rev {
                    targets.len() - 1 - k
                } else {
                    k
                }].0,
        ensures
            self.walk_inv(
                start,
                seen.update(node as int, true),
                order.push(node),
                rest + targets,
                from.remove(pos) + Seq::new(targets.len(), |k: int| order.len() as int),
                via.push(from[pos]),
            ),
    {
        let n = self.node_count();
        let pre = rest.insert(pos, node);
        let ord = order.push(node);
        let seen2 = seen.update(node as int, true);
        let st = rest + targets;
        let fr = from.remove(pos) + Seq::new(targets.len(), |k: int| order.len() as int);
        let vi = via.push(from[pos]);
        reveal(Graph::has_edge);
        assert(forall|t: int| 0 <= t < pre.len() ==> #[trigger] pre[t] < n);
        assert(pre[pos] == node);
        assert(node < n);
        assert(!order.contains(node));
        self.lemma_succs_in_range(node as int);
        assert forall|i: int| 0 <= i < ord.len() implies #[trigger] ord[i] < n by {
            if i < order.len() {
                assert(ord[i] == order[i]);
            }
        }
        assert forall|v: int| 0 <= v < n implies (#[trigger] seen2[v] <==> ord.contains(v as NodeIndex)) by {
            let w = v as NodeIndex;
            if w != node {
                assert(seen2[v] == seen[v]);
                assert(seen[v] <==> order.contains(w));
                if ord.contains(w) {
                    let q = choose|q: int| 0 <= q < ord.len() && ord[q] == w;
                    assert(q != ord.len() - 1);
                    assert(order[q] == w);
                }
                if order.contains(w) {
                    let q = choose|q: int| 0 <= q < order.len() && order[q] == w;
                    assert(ord[q] == w);
                }
            } else {
                assert(ord[ord.len() - 1] == node);
            }
        }
        assert forall|t: int| 0 <= t < st.len() implies #[trigger] st[t] < n by {
            if t >= rest.len() {
                assert(st[t] == targets[t - rest.len()]);
            } else {
                let t2 = if t < pos { t } else { t + 1 };
                assert(st[t] == pre[t2]);
            }
        }
        assert forall|i: int, v: NodeIndex|
            0 <= i < ord.len() && #[trigger] self.has_edge(ord[i] as int, v) implies ord.contains(v)
                || st.contains(v) by {
            if i == ord.len() - 1 {
                let q = choose|q: int|
                    0 <= q < self.succs(node as int).len() && (#[trigger] self.succs(node as int)[q]).0 == v;
                let k = if rev { targets.len() - 1 - q } else { q };
                assert(targets[k] == v);
                assert(st[rest.len() + k] == v);
            } else {
                assert(ord[i] == order[i]);
                assert(self.has_edge(order[i] as int, v));
                if order.contains(v) {
                    let q = choose|q: int| 0 <= q < order.len() && order[q] == v;
                    assert(ord[q] == v);
                } else if v == node {
                    assert(ord[ord.len() - 1] == v);
                } else {
                    let q = choose|q: int| 0 <= q < pre.len() && pre[q] == v;
                    let q2 = if q < pos { q } else { q - 1 };
                    assert(st[q2] == v);
                }
            }
        }
        assert forall|t: int| 0 <= t < st.len() implies 0 <= #[trigger] fr[t] < ord.len() && self.has_edge(
            ord[fr[t]] as int,
            st[t],
        ) by {
            if t >= rest.len() {
                let k = t - rest.len();
                let q = if rev { targets.len() - 1 - k } else { k };
                assert(fr[t] == order.len());
                assert(ord[order.len() as int] == node);
                assert(targets[k] == st[t]);
                assert(self.succs(node as int)[q].0 == st[t]);
            } else {
                let t2 = if t < pos { t } else { t + 1 };
                assert(st[t] == pre[t2]);
                assert(fr[t] == from[t2]);
                if order.len() == 0 {
                    assert(pre == seq![start]);
                    assert(pre[pos] == node);
                }
                assert(ord[from[t2]] == order[from[t2]]);
            }
        }
        assert forall|i: int| 0 < i < ord.len() implies 0 <= #[trigger] vi[i] < i && self.has_edge(
            ord[vi[i]] as int,
            ord[i],
        ) by {
            if i == ord.len() - 1 {
                assert(vi[i] == from[pos]);
                assert(ord[from[pos]] == order[from[pos]]);
            } else {
                assert(ord[i] == order[i]);
                assert(vi[i] == via[i]);
                assert(ord[via[i]] == order[via[i]]);
            }
        }
        if order.len() == 0 {
            assert(pre == seq![start]);
        }
    }

    /// The targets of the outgoing edges of `u`, newest edge first.
    pub open spec fn targets(&self, u: int) -> Seq<NodeIndex> {
        self.succs(u).map_values(|p: (NodeIndex, EdgeIndex)| p.0)
    }

    /// One step of the depth-first walk on (stack, visited nodes): the top of
    /// the stack is popped, and if not yet visited it is visited and the
    /// targets of its edges are pushed, newest edge first, so that the oldest
    /// edge is followed next.
    pub open spec fn dfs_step(&self, st: (Seq<NodeIndex>, Seq<NodeIndex>)) -> (Seq<NodeIndex>, Seq<NodeIndex>) {
        let (stack, order) = st;
        if stack.len() == 0 {
            st
        } else if order.contains(stack.last()) {
            (stack.drop_last(), order)
        } else {
            (stack.drop_last() + self.targets(stack.last() as int), order.push(stack.last()))
        }
    }

    /// The state of the depth-first walk from `start` after `k` steps.
    pub open spec fn dfs_run(&self, start: NodeIndex, k: nat) -> (Seq<NodeIndex>, Seq<NodeIndex>)
        decreases k,
    {
        if k == 0 {
            (seq![start], Seq::empty())
        } else {
            self.dfs_step(self.dfs_run(start, (k - 1) as nat))
        }
    }

    /// One step of the breadth-first walk on (queue, visited nodes): the
    /// front of the queue is taken, and if not yet visited it is visited and
    /// the targets of its edges are queued, oldest edge first.
    pub open spec fn bfs_step(&self, st: (Seq<NodeIndex>, Seq<NodeIndex>)) -> (Seq<NodeIndex>, Seq<NodeIndex>) {
        let (queue, order) = st;
        if queue.len() == 0 {
            st
        } else if order.contains(queue[0]) {
            (queue.drop_first(), order)
        } else {
            (queue.drop_first() + self.targets(queue[0] as int).reverse(), order.push(queue[0]))
        }
    }

    /// The state of the breadth-first walk from `start` after `k` steps.
    pub open spec fn bfs_run(&self, start: NodeIndex, k: nat) -> (Seq<NodeIndex>, Seq<NodeIndex>)
        decreases k,
    {
        if k == 0 {
            (seq![start], Seq::empty())
        } else {
            self.bfs_step(self.bfs_run(start, (k - 1) as nat))
        }
    }

    /// The nodes reachable from `start_node`, in depth-first order: the most
    /// recently added edge of a node is followed last.
    pub fn dfs_order(&self, start_node: NodeIndex) -> (r: Vec<NodeIndex>)
        requires
            self.wf(),
            start_node < self.node_count(),
        ensures
            r@.len() >= 1,
            r@[0] == start_node,
            r@.no_duplicates(),
            forall|i: int| 0 <= i < r@.len() ==> #[trigger] r@[i] < self.node_count(),
            forall|i: int, v: NodeIndex|
                0 <= i < r@.len() && #[trigger] self.has_edge(r@[i] as int, v) ==> r@.contains(v),
            forall|i: int| 0 < i < r@.len() ==> #[trigger] self.reached_before(r@, i),
            exists|k: nat| #[trigger] self.dfs_run(start_node, k) == (Seq::<NodeIndex>::empty(), r@),
    {
        let n = self.nodes.len();
        let mut seen: Vec<bool> = Vec::new();
        while seen.len() < n
            invariant
                seen@.len() <= n,
                n == self.node_count(),
                forall|k: int| 0 <= k < seen@.len() ==> !(#[trigger] seen@[k]),
            decreases n - seen@.len(),
        {
            seen.push(false);
        }
        let ghost mut steps: nat = 0;
        let mut order: Vec<NodeIndex> = Vec::new();
        let mut stack: Vec<NodeIndex> = Vec::new();
        stack.push(start_node);
        let ghost mut from: Seq<int> = seq![0];
        let ghost mut via: Seq<int> = Seq::empty();
        while stack.len() > 0
            invariant
                n == self.node_count(),
                self.walk_inv(start_node, seen@, order@, stack@, from, via),
                self.dfs_run(start_node, steps) == (stack@, order@),
            decreases count_unseen(seen@), stack@.len(),
        {
            let ghost pre = stack@;
            let ghost ord0 = order@;
            let node = stack.pop().unwrap();
            let ghost rest = stack@;
            proof {
                assert(pre =~= rest.insert(rest.len() as int, node));
            }
            proof {
                assert(pre.last() == node);
                assert(pre.drop_last() == rest);
                assert(seen@[node as int] <==> ord0.contains(node));
            }
            if !seen[node] {
                let ghost old_order = order@;
                let ghost old_seen = seen@;
                proof {
                    lemma_mark_seen(seen@, node as int);
                }
                order.push(node);
                seen.set(node, true);
                let targets = self.successor_targets(node);
                let mut k: usize = 0;
                while k < targets.len()
                    invariant
                        k <= targets@.len(),
                        stack@ == rest + targets@.subrange(0, k as int),
                    decreases targets@.len() - k,
                {
                    stack.push(targets[k]);
                    k = k + 1;
                    assert(stack@ =~= rest + targets@.subrange(0, k as int));
                }
                proof {
                    assert(targets@.subrange(0, k as int) =~= targets@);
                    assert(self.targets(node as int) =~= targets@);
                    self.lemma_walk_visit(start_node, old_seen, old_order, rest, rest.len() as int, node, targets@, false, from, via);
                    via = via.push(from[rest.len() as int]);
                    from = from.remove(rest.len() as int) + Seq::new(targets@.len(), |q: int| old_order.len() as int);
                }
            } else {
                proof {
                    self.lemma_walk_skip(start_node, seen@, order@, rest, rest.len() as int, node, from, via);
                    from = from.remove(rest.len() as int);
                }
            }
            proof {
                steps = steps + 1;
            }
        }
        proof {
            assert(self.dfs_run(start_node, steps) == (Seq::<NodeIndex>::empty(), order@));
            assert forall|i: int| 0 < i < order@.len() implies #[trigger] self.reached_before(order@, i) by {
                assert(0 <= via[i] < i && self.has_edge(order@[via[i]] as int, order@[i]));
            }
        }
        order
    }

    /// The nodes reachable from `start_node`, in breadth-first order: the
    /// oldest edge of a node is followed first.
    pub fn bfs_order(&self, start_node: NodeIndex) -> (r: Vec<NodeIndex>)
        requires
            self.wf(),
            start_node < self.node_count(),
        ensures
            r@.len() >= 1,
            r@[0] == start_node,
            r@.no_duplicates(),
            forall|i: int| 0 <= i < r@.len() ==> #[trigger] r@[i] < self.node_count(),
            forall|i: int, v: NodeIndex|
                0 <= i < r@.len() && #[trigger] self.has_edge(r@[i] as int, v) ==> r@.contains(v),
            forall|i: int| 0 < i < r@.len() ==> #[trigger] self.reached_before(r@, i),
            exists|k: nat| #[trigger] self.bfs_run(start_node, k) == (Seq::<NodeIndex>::empty(), r@),
    {
        let n = self.nodes.len();
        let mut seen: Vec<bool> = Vec::new();
        while seen.len() < n
            invariant
                seen@.len() <= n,
                n == self.node_count(),
                forall|k: int| 0 <= k < seen@.len() ==> !(#[trigger] seen@[k]),
            decreases n - seen@.len(),
        {
            seen.push(false);
        }
        let mut order: Vec<NodeIndex> = Vec::new();
        let mut queue: Vec<NodeIndex> = Vec::new();
        let mut head: usize = 0;
        queue.push(start_node);
        let ghost mut from: Seq<int> = seq![0];
        let ghost mut via: Seq<int> = Seq::empty();
        let ghost mut steps: nat = 0;
        proof {
            assert(queue@.subrange(0, 1) =~= seq![start_node]);
        }
        while head < queue.len()
            invariant
                n == self.node_count(),
                head <= queue@.len(),
                self.walk_inv(start_node, seen@, order@, queue@.subrange(head as int, queue@.len() as int), from, via),
                self.bfs_run(start_node, steps) == (queue@.subrange(head as int, queue@.len() as int), order@),
            decreases count_unseen(seen@), queue@.len() - head,
        {
            let ghost pre = queue@.subrange(head as int, queue@.len() as int);
            let ghost ord0 = order@;
            let node = queue[head];
            head = head + 1;
            let ghost rest = queue@.subrange(head as int, queue@.len() as int);
            proof {
                assert(pre =~= rest.insert(0, node));
                assert(pre[0] == node);
                assert(node < n);
                assert(pre.drop_first() =~= rest);
                assert(seen@[node as int] <==> ord0.contains(node));
            }
            if !seen[node] {
                let ghost old_order = order@;
                let ghost old_seen = seen@;
                proof {
                    lemma_mark_seen(seen@, node as int);
                }
                order.push(node);
                seen.set(node, true);
                let targets = self.successor_targets(node);
                let mut k: usize = targets.len();
                let ghost base = queue@;
                while k > 0
                    invariant
                        k <= targets@.len(),
                        queue@.len() == base.len() + (targets@.len() - k),
                        forall|q: int| 0 <= q < base.len() ==> #[trigger] queue@[q] == base[q],
                        forall|q: int|
                            0 <= q < targets@.len() - k ==> #[trigger] queue@[base.len() + q] == targets@[targets@.len() - 1 - q],
                    decreases k,
                {
                    k = k - 1;
                    queue.push(targets[k]);
                }
                proof {
                    let rt = Seq::new(targets@.len(), |q: int| targets@[targets@.len() - 1 - q]);
                    assert(rest =~= base.subrange(head as int, base.len() as int));
                    assert forall|q: int| head <= q < queue@.len() implies queue@[q] == (rest + rt)[q - head] by {
                        if q < base.len() {
                            assert(queue@[q] == base[q]);
                        } else {
                            assert(queue@[base.len() + (q - base.len())] == targets@[targets@.len() - 1 - (q - base.len())]);
                        }
                    }
                    assert(queue@.subrange(head as int, queue@.len() as int) =~= rest + rt);
                    assert(rt =~= self.targets(node as int).reverse());
                    assert forall|q: int| 0 <= q < rt.len() implies #[trigger] rt[q] == self.succs(node as int)[if true {
                        rt.len() - 1 - q
                    } else {
                        q
                    }].0 by {
                    }
                    self.lemma_walk_visit(start_node, old_seen, old_order, rest, 0, node, rt, true, from, via);
                    via = via.push(from[0]);
                    from = from.remove(0) + Seq::new(rt.len(), |q: int| old_order.len() as int);
                }
            } else {
                proof {
                    self.lemma_walk_skip(start_node, seen@, order@, rest, 0, node, from, via);
                    from = from.remove(0);
                }
            }
            proof {
                steps = steps + 1;
            }
        }
        proof {
            assert(queue@.subrange(head as int, queue@.len() as int) =~= Seq::<NodeIndex>::empty());
            assert(self.bfs_run(start_node, steps) == (Seq::<NodeIndex>::empty(), order@));
        }
        proof {
            assert forall|i: int| 0 < i < order@.len() implies #[trigger] self.reached_before(order@, i) by {
                assert(0 <= via[i] < i && self.has_edge(order@[via[i]] as int, order@[i]));
            }
        }
        order
    }

    /// Calls `f` on the value of each node reachable from `start_node`, in
    /// breadth-first order.
    pub fn bfs<F>(&self, start_node: NodeIndex, f: &mut F)
        where
            F: FnMut(&T),
        requires
            self.wf(),
            start_node < self.node_count(),
            forall|v: &T| #[trigger] call_requires(*old(f), (v,)),
    {
        let order = self.bfs_order(start_node);
        let mut i: usize = 0;
        while i < order.len()
            invariant
                forall|v: &T| #[trigger] call_requires(*f, (v,)),
                forall|q: int| 0 <= q < order@.len() ==> #[trigger] order@[q] < self.node_count(),
            decreases order@.len() - i,
        {
            f(self.get_value(order[i]));
            i = i + 1;
        }
    }

    /// Calls `f` on the value of each node reachable from `start_node`, in
    /// depth-first order.
    pub fn dfs<F>(&self, start_node: NodeIndex, f: &mut F)
        where
            F: FnMut(&T),
        requires
            self.wf(),
            start_node < self.node_count(),
            forall|v: &T| #[trigger] call_requires(*old(f), (v,)),
    {
        let order = self.dfs_order(start_node);
        let mut i: usize = 0;
        while i < order.len()
            invariant
                forall|v: &T| #[trigger] call_requires(*f, (v,)),
                forall|q: int| 0 <= q < order@.len() ==> #[trigger] order@[q] < self.node_count(),
            decreases order@.len() - i,
        {
            f(self.get_value(order[i]));
            i = i + 1;
        }
    }
}

/// The sum of `s`.
pub open spec fn sum_of(s: Seq<u64>) -> int
    decreases s.len(),
{
    if s.len() == 0 {
        0
    } else {
        sum_of(s.drop_last()) + s.last()
    }
}

proof fn lemma_sum_update(s: Seq<u64>, i: int, x: u64)
    requires
        0 <= i < s.len(),
    ensures
        sum_of(s.update(i, x)) == sum_of(s) - s[i] + x,
    decreases s.len(),
{
    if i == s.len() - 1 {
        assert(s.update(i, x).drop_last() =~= s.drop_last());
    } else {
        assert(s.update(i, x).drop_last() =~= s.drop_last().update(i, x));
        lemma_sum_update(s.drop_last(), i, x);
    }
}

proof fn lemma_sum_nonneg(s: Seq<u64>)
    ensures
        sum_of(s) >= 0,
    decreases s.len(),
{
    if s.len() > 0 {
        lemma_sum_nonneg(s.drop_last());
    }
}

/// The total weight of the edges `es` under the weights `ws`.
pub open spec fn weight_of(ws: Seq<u64>, es: Seq<EdgeIndex>) -> int
    decreases es.len(),
{
    if es.len() == 0 {
        0
    } else {
        weight_of(ws, es.drop_last()) + ws[es.last() as int]
    }
}

proof fn lemma_weight_nonneg(ws: Seq<u64>, es: Seq<EdgeIndex>)
    ensures
        weight_of(ws, es) >= 0,
    decreases es.len(),
{
    if es.len() > 0 {
        lemma_weight_nonneg(ws, es.drop_last());
    }
}

/// While the search runs, a target with a finite distance has an entry in
/// the queue.
pub open spec fn target_tracked(
    target: Option<NodeIndex>,
    dist: Seq<u64>,
    queue: Seq<(u64, NodeIndex)>,
) -> bool {
    match target {
        Some(tg) => tg < dist.len() && dist[tg as int] < u64::MAX ==> exists|t: int|
            0 <= t < queue.len() && (#[trigger] queue[t]).1 == tg,
        None => true,
    }
}

proof fn lemma_weight_prepend(ws: Seq<u64>, e: EdgeIndex, es: Seq<EdgeIndex>)
    ensures
        weight_of(ws, seq![e] + es) == ws[e as int] + weight_of(ws, es),
    decreases es.len(),
{
    if es.len() == 0 {
        assert((seq![e] + es).drop_last() =~= Seq::<EdgeIndex>::empty());
        assert((seq![e] + es).last() == e);
        assert(weight_of(ws, Seq::<EdgeIndex>::empty()) == 0);
    } else {
        assert((seq![e] + es).drop_last() =~= seq![e] + es.drop_last());
        assert((seq![e] + es).last() == es.last());
        lemma_weight_prepend(ws, e, es.drop_last());
    }
}

/// The index of an entry with the least distance; among those, the one with
/// the greatest node.
fn min_entry(queue: &Vec<(u64, NodeIndex)>) -> (r: usize)
    requires
        queue@.len() > 0,
    ensures
        r < queue@.len(),
        forall|t: int| 0 <= t < queue@.len() ==> queue@[r as int].0 <= (#[trigger] queue@[t]).0,
{
    let mut best: usize = 0;
    let mut t: usize = 1;
    while t < queue.len()
        invariant
            best < t <= queue@.len(),
            forall|q: int| 0 <= q < t ==> queue@[best as int].0 <= (#[trigger] queue@[q]).0,
        decreases queue@.len() - t,
    {
        let (d, v) = queue[t];
        let (bd, bv) = queue[best];
        if d < bd || (d == bd && v > bv) {
            best = t;
        }
        t = t + 1;
    }
    best
}

impl<T> Graph<T> {
    /// Edge `e` leads from node `u` to node `v`.
    pub open spec fn edge_from(&self, u: int, v: NodeIndex, e: EdgeIndex) -> bool {
        self.succs(u).contains((v, e))
    }

    /// `ns` and `es` describe a walk: `es[k]` leads from `ns[k]` to `ns[k + 1]`.
    pub open spec fn is_walk(&self, ns: Seq<NodeIndex>, es: Seq<EdgeIndex>) -> bool {
        &&& ns.len() == es.len() + 1
        &&& forall|k: int| 0 <= k < es.len() ==> #[trigger] self.edge_from(ns[k] as int, ns[k + 1], es[k])
    }

    /// Some walk from `source` to `v` weighs exactly `d` under `ws`.
    pub open spec fn walk_weighs(&self, ws: Seq<u64>, source: NodeIndex, v: NodeIndex, d: int) -> bool {
        exists|ns: Seq<NodeIndex>, es: Seq<EdgeIndex>|
            #[trigger] self.is_walk(ns, es) && ns[0] == source && ns.last() == v && weight_of(ws, es) == d
    }

    /// No edge out of `u` leads to a node whose distance exceeds that of `u`
    /// plus the weight of the edge (where that sum fits in `u64`).
    pub open spec fn relaxed(&self, ws: Seq<u64>, dist: Seq<u64>, u: int) -> bool {
        forall|k: int|
            0 <= k < self.succs(u).len() && dist[u] + ws[self.succs(u)[k].1 as int] <= u64::MAX ==> dist[(
            #[trigger] self.succs(u)[k]).0 as int] <= dist[u] + ws[self.succs(u)[k].1 as int]
    }

    /// Where every node with a distance below `bound` is relaxed, no walk
    /// from the source lighter than `bound` ends at a node whose distance
    /// exceeds the walk's weight.
    proof fn lemma_frontier(
        &self,
        ws: Seq<u64>,
        source: NodeIndex,
        dist: Seq<u64>,
        bound: int,
        ns: Seq<NodeIndex>,
        es: Seq<EdgeIndex>,
    )
        requires
            self.wf(),
            ws.len() >= self.edge_count(),
            dist.len() == self.node_count(),
            source < self.node_count(),
            dist[source as int] == 0,
            forall|u: int|
                0 <= u < self.node_count() && dist[u] < u64::MAX && dist[u] < bound ==> #[trigger] self.relaxed(ws, dist, u),
            self.is_walk(ns, es),
            ns[0] == source,
            weight_of(ws, es) <= u64::MAX,
            weight_of(ws, es) < bound,
        ensures
            dist[ns.last() as int] <= weight_of(ws, es),
        decreases es.len(),
    {
        if es.len() > 0 {
            let ns0 = ns.drop_last();
            let es0 = es.drop_last();
            let k = es.len() - 1;
            assert(self.edge_from(ns[k] as int, ns[k + 1], es[k]));
            assert(self.is_walk(ns0, es0)) by {
                assert forall|q: int| 0 <= q < es0.len() implies #[trigger] self.edge_from(ns0[q] as int, ns0[q + 1], es0[q]) by {
                    assert(self.edge_from(ns[q] as int, ns[q + 1], es[q]));
                }
            }
            let u = ns[k];
            let v = ns.last();
            self.lemma_walk_nodes_in_range(ns, es);
            let j = choose|j: int| 0 <= j < self.succs(u as int).len() && self.succs(u as int)[j] == (v, es[k]);
            self.lemma_succs_in_range(u as int);
            lemma_weight_nonneg(ws, es0);
            assert(weight_of(ws, es) == weight_of(ws, es0) + ws[es[k] as int]);
            self.lemma_frontier(ws, source, dist, bound, ns0, es0);
            assert(ns0.last() == u);
            if dist[u as int] < u64::MAX {
                assert(self.relaxed(ws, dist, u as int));
                assert(self.succs(u as int)[j].0 == v);
            }
        }
    }

    /// Distances with the source at 0 and every finite node relaxed are no
    /// greater than the weight of any walk from the source (of weight up to
    /// `u64::MAX`): together with a walk of that weight, they are shortest.
    pub proof fn lemma_relaxed_is_shortest(
        &self,
        ws: Seq<u64>,
        source: NodeIndex,
        dist: Seq<u64>,
        ns: Seq<NodeIndex>,
        es: Seq<EdgeIndex>,
    )
        requires
            self.wf(),
            ws.len() >= self.edge_count(),
            dist.len() == self.node_count(),
            source < self.node_count(),
            dist[source as int] == 0,
            forall|u: int| 0 <= u < self.node_count() && dist[u] < u64::MAX ==> #[trigger] self.relaxed(ws, dist, u),
            self.is_walk(ns, es),
            ns[0] == source,
            weight_of(ws, es) <= u64::MAX,
        ensures
            dist[ns.last() as int] <= weight_of(ws, es),
    {
        self.lemma_frontier(ws, source, dist, u64::MAX + 1, ns, es);
    }

    /// Every node on a walk that starts at a node of the graph is a node of
    /// the graph.
    proof fn lemma_walk_nodes_in_range(&self, ns: Seq<NodeIndex>, es: Seq<EdgeIndex>)
        requires
            self.wf(),
            self.is_walk(ns, es),
            ns[0] < self.node_count(),
        ensures
            forall|q: int| 0 <= q < ns.len() ==> #[trigger] ns[q] < self.node_count(),
        decreases es.len(),
    {
        if es.len() > 0 {
            let ns0 = ns.drop_last();
            let es0 = es.drop_last();
            let k = es.len() - 1;
            assert(self.is_walk(ns0, es0)) by {
                assert forall|q: int| 0 <= q < es0.len() implies #[trigger] self.edge_from(ns0[q] as int, ns0[q + 1], es0[q]) by {
                    assert(self.edge_from(ns[q] as int, ns[q + 1], es[q]));
                }
            }
            self.lemma_walk_nodes_in_range(ns0, es0);
            assert(ns[k] == ns0[k]);
            assert(self.edge_from(ns[k] as int, ns[k + 1], es[k]));
            self.lemma_succs_in_range(ns[k] as int);
            let j = choose|j: int|
                0 <= j < self.succs(ns[k] as int).len() && self.succs(ns[k] as int)[j] == (ns[k + 1], es[k]);
            assert(self.succs(ns[k] as int)[j].0 < self.node_count());
            assert forall|q: int| 0 <= q < ns.len() implies #[trigger] ns[q] < self.node_count() by {
                if q < ns.len() - 1 {
                    assert(ns[q] == ns0[q]);
                }
            }
        }
    }

    /// Every node but the source with a finite distance records a parent: a
    /// node with a finite distance and an edge `pedge[v]` to it, no heavier
    /// than the difference of their distances, that comes earlier in the
    /// order of (distance, time of the last update).
    pub open spec fn parents_ok(
        &self,
        ws: Seq<u64>,
        source: NodeIndex,
        dist: Seq<u64>,
        parent: Seq<Option<NodeIndex>>,
        pedge: Seq<EdgeIndex>,
        time: Seq<nat>,
    ) -> bool {
        &&& dist.len() == self.node_count()
        &&& parent.len() == dist.len()
        &&& pedge.len() == dist.len()
        &&& time.len() == dist.len()
        &&& forall|v: int|
            0 <= v < dist.len() ==> match #[trigger] parent[v] {
                Some(u) => {
                    &&& u < dist.len()
                    &&& dist[u as int] < u64::MAX
                    &&& self.edge_from(u as int, v as NodeIndex, pedge[v])
                    &&& dist[u as int] + ws[pedge[v] as int] <= dist[v]
                    &&& (dist[u as int] < dist[v] || (dist[u as int] == dist[v] && time[u as int] < time[v]))
                },
                None => v == source || dist[v] == u64::MAX,
            }
    }

    /// No walk from `source` to `target` of weight up to `u64::MAX` weighs
    /// less than `w`.
    pub open spec fn no_lighter_walk(&self, ws: Seq<u64>, source: NodeIndex, target: NodeIndex, w: int) -> bool {
        forall|ns: Seq<NodeIndex>, es: Seq<EdgeIndex>|
            #[trigger] self.is_walk(ns, es) && ns[0] == source && ns.last() == target && weight_of(ws, es)
                <= u64::MAX ==> w <= weight_of(ws, es)
    }

    /// Dijkstra's search from `source_node`, stopping when an entry of
    /// `target` leaves the queue: the distances, the parents, and whether the
    /// search stopped there.
    fn shortest_search(
        &self,
        source_node: NodeIndex,
        target: Option<NodeIndex>,
        edge_weights: &[u64],
    ) -> (r: (Vec<u64>, Vec<Option<NodeIndex>>, bool, Ghost<Seq<EdgeIndex>>, Ghost<Seq<nat>>))
        requires
            self.wf(),
            source_node < self.node_count(),
            edge_weights@.len() >= self.edge_count(),
        ensures
            r.0@.len() == self.node_count(),
            r.0@[source_node as int] == 0,
            forall|v: int|
                0 <= v < self.node_count() && r.0@[v] < u64::MAX ==> #[trigger] self.walk_weighs(
                    edge_weights@,
                    source_node,
                    v as NodeIndex,
                    r.0@[v] as int,
                ),
            !r.2 ==> forall|u: int|
                0 <= u < self.node_count() && r.0@[u] < u64::MAX ==> #[trigger] self.relaxed(edge_weights@, r.0@, u),
            !r.2 ==> match target {
                Some(t) => t < self.node_count() ==> r.0@[t as int] == u64::MAX,
                None => true,
            },
            r.2 ==> match target {
                Some(t) => t < self.node_count() && r.0@[t as int] < u64::MAX,
                None => false,
            },
            self.parents_ok(edge_weights@, source_node, r.0@, r.1@, r.3@, r.4@),
            r.2 ==> match target {
                Some(t) => self.no_lighter_walk(edge_weights@, source_node, t, r.0@[t as int] as int),
                None => true,
            },
    {
        let ghost ws = edge_weights@;
        let n = self.nodes.len();
        let mut dist: Vec<u64> = Vec::new();
        while dist.len() < n
            invariant
                dist@.len() <= n,
                forall|k: int| 0 <= k < dist@.len() ==> #[trigger] dist@[k] == u64::MAX,
            decreases n - dist@.len(),
        {
            dist.push(u64::MAX);
        }
        dist.set(source_node, 0);
        let mut parent: Vec<Option<NodeIndex>> = Vec::new();
        while parent.len() < n
            invariant
                parent@.len() <= n,
                forall|k: int| 0 <= k < parent@.len() ==> #[trigger] parent@[k] is None,
            decreases n - parent@.len(),
        {
            parent.push(None);
        }
        let ghost mut time: Seq<nat> = Seq::new(n as nat, |v: int| 0nat);
        let ghost mut pedge: Seq<EdgeIndex> = Seq::new(n as nat, |v: int| 0usize);
        let ghost mut clock: nat = 1;
        let ghost mut walks: Seq<(Seq<NodeIndex>, Seq<EdgeIndex>)> = Seq::new(
            n as nat,
            |v: int| (seq![source_node], Seq::<EdgeIndex>::empty()),
        );
        let mut queue: Vec<(u64, NodeIndex)> = Vec::new();
        queue.push((0, source_node));
        proof {
            assert(self.is_walk(seq![source_node], Seq::<EdgeIndex>::empty()));
            assert(queue@.contains((0u64, source_node)) ) by {
                assert(queue@[0] == (0u64, source_node));
            }
        }
        while queue.len() > 0
            invariant
                self.wf(),
                n == self.node_count(),
                ws == edge_weights@,
                ws.len() >= self.edge_count(),
                source_node < n,
                dist@.len() == n,
                dist@[source_node as int] == 0,
                walks.len() == n,
                self.parents_ok(ws, source_node, dist@, parent@, pedge, time),
                forall|v: int| 0 <= v < n ==> #[trigger] time[v] < clock,
                forall|t: int|
                    0 <= t < queue@.len() ==> (#[trigger] queue@[t]).1 < n && queue@[t].0 < u64::MAX
                        && dist@[queue@[t].1 as int] <= queue@[t].0,
                target_tracked(target, dist@, queue@),
                forall|v: int|
                    0 <= v < n && dist@[v] < u64::MAX ==> queue@.contains((dist@[v], v as NodeIndex))
                        || #[trigger] self.relaxed(ws, dist@, v),
                forall|v: int|
                    0 <= v < n && #[trigger] dist@[v] < u64::MAX ==> {
                        &&& self.is_walk(walks[v].0, walks[v].1)
                        &&& walks[v].0[0] == source_node
                        &&& walks[v].0.last() == v as NodeIndex
                        &&& weight_of(ws, walks[v].1) == dist@[v]
                    },
            decreases sum_of(dist@), queue@.len(),
        {
            let idx = min_entry(&queue);
            let ghost before = queue@;
            let (d, u) = queue.remove(idx);
            proof {
                assert(before[idx as int] == (d, u));
                assert forall|v: int|
                    0 <= v < n && dist@[v] < u64::MAX && (v != u || dist@[v] != d) && before.contains((dist@[v], v as NodeIndex))
                        implies queue@.contains((dist@[v], v as NodeIndex)) by {
                    let q = choose|q: int| 0 <= q < before.len() && before[q] == (dist@[v], v as NodeIndex);
                    if q < idx {
                        assert(queue@[q] == before[q]);
                    } else {
                        assert(q != idx);
                        assert(queue@[q - 1] == before[q]);
                    }
                }
                assert forall|t: int| 0 <= t < queue@.len() implies (#[trigger] queue@[t]).1 < n && queue@[t].0
                    < u64::MAX && dist@[queue@[t].1 as int] <= queue@[t].0 by {
                    if t < idx {
                        assert(queue@[t] == before[t]);
                    } else {
                        assert(queue@[t] == before[t + 1]);
                    }
                }
                assert(d < u64::MAX && dist@[u as int] <= d);
            }
            if let Some(tg) = target {
                if u == tg {
                    proof {
                        assert(self.parents_ok(ws, source_node, dist@, parent@, pedge, time));
                        assert forall|ns: Seq<NodeIndex>, es: Seq<EdgeIndex>|
                            #[trigger] self.is_walk(ns, es) && ns[0] == source_node && ns.last() == tg && weight_of(ws, es)
                                <= u64::MAX implies dist@[tg as int] <= weight_of(ws, es) by {
                            if weight_of(ws, es) < d {
                                assert forall|v: int|
                                    0 <= v < n && dist@[v] < u64::MAX && dist@[v] < d implies #[trigger] self.relaxed(
                                        ws,
                                        dist@,
                                        v,
                                    ) by {
                                    if before.contains((dist@[v], v as NodeIndex)) {
                                        let q = choose|q: int| 0 <= q < before.len() && before[q] == (dist@[v], v as NodeIndex);
                                        assert(before[idx as int].0 <= before[q].0);
                                    }
                                }
                                self.lemma_frontier(ws, source_node, dist@, d as int, ns, es);
                            }
                        }
                    }
                    return (dist, parent, true, Ghost(pedge), Ghost(time));
                }
            }
            proof {
                match target {
                    Some(tg) => {
                        if tg < n && dist@[tg as int] < u64::MAX {
                            let t0 = choose|t: int| 0 <= t < before.len() && (#[trigger] before[t]).1 == tg;
                            assert(t0 != idx);
                            if t0 < idx {
                                assert(queue@[t0] == before[t0]);
                            } else {
                                assert(queue@[t0 - 1] == before[t0]);
                            }
                        }
                    },
                    None => {},
                }
            }
            if dist[u] == d {
                proof {
                    self.lemma_succs_in_range(u as int);
                }
                let ghost all = self.succs(u as int);
                let ghost sum0 = sum_of(dist@);
                let ghost len0 = queue@.len();
                let mut it = self.successors(u);
                let ghost mut k: int = 0;
                let mut more = true;
                while more
                    invariant
                        self.wf(),
                        n == self.node_count(),
                        ws == edge_weights@,
                        ws.len() >= self.edge_count(),
                        source_node < n,
                        u < n,
                        dist@.len() == n,
                        dist@[source_node as int] == 0,
                        dist@[u as int] == d,
                        walks.len() == n,
                        d < u64::MAX,
                        self.parents_ok(ws, source_node, dist@, parent@, pedge, time),
                        forall|v: int| 0 <= v < n ==> #[trigger] time[v] < clock,
                        target_tracked(target, dist@, queue@),
                        it.graph() == self,
                        all == self.succs(u as int),
                        0 <= k <= all.len(),
                        it.remaining() == all.subrange(k, all.len() as int),
                        !more ==> k == all.len(),
                        forall|q: int| 0 <= q < all.len() ==> (#[trigger] all[q]).0 < n && all[q].1 < self.edge_count(),
                        forall|t: int|
                            0 <= t < queue@.len() ==> (#[trigger] queue@[t]).1 < n && queue@[t].0 < u64::MAX
                                && dist@[queue@[t].1 as int] <= queue@[t].0,
                        forall|q: int|
                            0 <= q < k && d + ws[all[q].1 as int] <= u64::MAX ==> dist@[(#[trigger] all[q]).0 as int]
                                <= d + ws[all[q].1 as int],
                        forall|v: int|
                            0 <= v < n && v != u && dist@[v] < u64::MAX ==> queue@.contains((dist@[v], v as NodeIndex))
                                || #[trigger] self.relaxed(ws, dist@, v),
                        forall|v: int|
                            0 <= v < n && #[trigger] dist@[v] < u64::MAX ==> {
                                &&& self.is_walk(walks[v].0, walks[v].1)
                                &&& walks[v].0[0] == source_node
                                &&& walks[v].0.last() == v as NodeIndex
                                &&& weight_of(ws, walks[v].1) == dist@[v]
                            },
                        sum_of(dist@) < sum0 || queue@.len() == len0,
                        sum_of(dist@) <= sum0,
                    decreases all.len() - k + if more {
                        1int
                    } else {
                        0int
                    },
                {
                    match it.next() {
                        Some((x, e)) => {
                            proof {
                                assert(all.subrange(k, all.len() as int)[0] == all[k]);
                            }
                            let w = edge_weights[e];
                            match d.checked_add(w) {
                                Some(tent) => {
                                    if tent < dist[x] {
                                        let ghost old_dist = dist@;
                                        let ghost old_queue = queue@;
                                        proof {
                                            lemma_sum_update(dist@, x as int, tent);
                                        }
                                        let ghost old_parent = parent@;
                                        let ghost old_time = time;
                                        let ghost old_pedge = pedge;
                                        dist.set(x, tent);
                                        queue.push((tent, x));
                                        parent.set(x, Some(u));
                                        proof {
                                            time = time.update(x as int, clock);
                                            pedge = pedge.update(x as int, e);
                                            clock = clock + 1;
                                            assert(x != u);
                                            assert(self.edge_from(u as int, x, e)) by {
                                                assert(self.succs(u as int)[k] == (x, e));
                                            }
                                            assert forall|v: int| 0 <= v < n implies match #[trigger] parent@[v] {
                                                Some(y) => {
                                                    &&& y < dist@.len()
                                                    &&& dist@[y as int] < u64::MAX
                                                    &&& self.edge_from(y as int, v as NodeIndex, pedge[v])
                                                    &&& dist@[y as int] + ws[pedge[v] as int] <= dist@[v]
                                                    &&& (dist@[y as int] < dist@[v] || (dist@[y as int] == dist@[v] && time[y as int]
                                                        < time[v]))
                                                },
                                                None => v == source_node || dist@[v] == u64::MAX,
                                            } by {
                                                if v != x {
                                                    assert(parent@[v] == old_parent[v]);
                                                    assert(dist@[v] == old_dist[v]);
                                                    assert(time[v] == old_time[v]);
                                                    assert(pedge[v] == old_pedge[v]);
                                                    match old_parent[v] {
                                                        Some(y) => {
                                                            if y != x {
                                                                assert(dist@[y as int] == old_dist[y as int]);
                                                                assert(time[y as int] == old_time[y as int]);
                                                            }
                                                        },
                                                        None => {},
                                                    }
                                                }
                                            }
                                            assert(self.parents_ok(ws, source_node, dist@, parent@, pedge, time));
                                            assert forall|t: int| 0 <= t < queue@.len() implies (#[trigger] queue@[t]).1 < n
                                                && queue@[t].0 < u64::MAX && dist@[queue@[t].1 as int] <= queue@[t].0 by {
                                                if t < old_queue.len() {
                                                    assert(queue@[t] == old_queue[t]);
                                                    if queue@[t].1 != x {
                                                        assert(dist@[queue@[t].1 as int] == old_dist[queue@[t].1 as int]);
                                                    }
                                                }
                                            }
                                            match target {
                                                Some(tg) => {
                                                    if tg < n && dist@[tg as int] < u64::MAX {
                                                        if tg == x {
                                                            assert(queue@[old_queue.len() as int].1 == tg);
                                                        } else {
                                                            assert(old_dist[tg as int] == dist@[tg as int]);
                                                            let t0 = choose|t: int|
                                                                0 <= t < old_queue.len() && (#[trigger] old_queue[t]).1 == tg;
                                                            assert(queue@[t0] == old_queue[t0]);
                                                        }
                                                    }
                                                },
                                                None => {},
                                            }
                                        }
                                        proof {
                                            let wu = walks[u as int];
                                            let nw = (wu.0.push(x), wu.1.push(e));
                                            assert(all.contains((x, e))) by {
                                                assert(all[k] == (x, e));
                                            }
                                            assert(nw.1.drop_last() =~= wu.1);
                                            assert(self.is_walk(nw.0, nw.1)) by {
                                                assert forall|q: int| 0 <= q < nw.1.len() implies #[trigger] self.edge_from(
                                                    nw.0[q] as int,
                                                    nw.0[q + 1],
                                                    nw.1[q],
                                                ) by {
                                                    if q < wu.1.len() {
                                                        assert(nw.0[q] == wu.0[q]);
                                                        assert(nw.0[q + 1] == wu.0[q + 1]);
                                                        assert(self.edge_from(wu.0[q] as int, wu.0[q + 1], wu.1[q]));
                                                    } else {
                                                        assert(nw.0[q] == wu.0.last());
                                                    }
                                                }
                                            }
                                            walks = walks.update(x as int, nw);
                                            assert(queue@[queue@.len() - 1] == (tent, x));
                                            assert forall|v: int|
                                                0 <= v < n && v != u && dist@[v] < u64::MAX implies queue@.contains(
                                                    (dist@[v], v as NodeIndex),
                                                ) || #[trigger] self.relaxed(ws, dist@, v) by {
                                                if v != x {
                                                    assert(dist@[v] == old_dist[v]);
                                                    if old_queue.contains((dist@[v], v as NodeIndex)) {
                                                        let q = choose|q: int|
                                                            0 <= q < old_queue.len() && old_queue[q] == (dist@[v], v as NodeIndex);
                                                        assert(queue@[q] == old_queue[q]);
                                                    } else {
                                                        assert(self.relaxed(ws, old_dist, v));
                                                        self.lemma_succs_in_range(v);
                                                        assert forall|q: int|
                                                            0 <= q < self.succs(v).len() && dist@[v] + ws[self.succs(v)[q].1 as int]
                                                                <= u64::MAX implies dist@[(#[trigger] self.succs(v)[q]).0 as int]
                                                                <= dist@[v] + ws[self.succs(v)[q].1 as int] by {
                                                            let y = self.succs(v)[q].0 as int;
                                                            assert(old_dist[y] <= old_dist[v] + ws[self.succs(v)[q].1 as int]);
                                                            assert(dist@ == old_dist.update(x as int, tent));
                                                            if y != x as int {
                                                                assert(dist@[y] == old_dist[y]);
                                                            }
                                                        }
                                                    }
                                                } else {
                                                    assert(queue@[queue@.len() - 1] == (dist@[v], v as NodeIndex));
                                                }
                                            }
                                        }
                                    }
                                },
                                None => {},
                            }
                            proof {
                                k = k + 1;
                                assert(it.remaining() =~= all.subrange(k, all.len() as int));
                            }
                        },
                        None => {
                            more = false;
                        },
                    }
                }
                proof {
                    assert(self.relaxed(ws, dist@, u as int));
                    lemma_sum_nonneg(dist@);
                }
            } else {
                proof {
                    lemma_sum_nonneg(dist@);
                }
            }
        }
        proof {
            assert(self.parents_ok(ws, source_node, dist@, parent@, pedge, time));
        }
        (dist, parent, false, Ghost(pedge), Ghost(time))
    }

    /// Consecutive nodes of `path` are joined by edges.
    pub open spec fn is_path(&self, path: Seq<NodeIndex>) -> bool {
        forall|i: int| 0 <= i < path.len() - 1 ==> #[trigger] self.has_edge(path[i] as int, path[i + 1])
    }

    /// The nodes from the root of the parent links to `target_node`, with the
    /// edges between them, which weigh no more than the distance of
    /// `target_node`.
    fn reverse_path(
        &self,
        parent: &[Option<NodeIndex>],
        target_node: NodeIndex,
        Ghost(ws): Ghost<Seq<u64>>,
        Ghost(source): Ghost<NodeIndex>,
        Ghost(dist): Ghost<Seq<u64>>,
        Ghost(pedge): Ghost<Seq<EdgeIndex>>,
        Ghost(time): Ghost<Seq<nat>>,
    ) -> (r: (Vec<NodeIndex>, Ghost<Seq<EdgeIndex>>))
        requires
            self.parents_ok(ws, source, dist, parent@, pedge, time),
            target_node < dist.len(),
            dist[target_node as int] < u64::MAX,
        ensures
            r.0@.len() >= 1,
            r.0@[0] == source,
            r.0@.last() == target_node,
            self.is_walk(r.0@, r.1@),
            weight_of(ws, r.1@) <= dist[target_node as int],
    {
        let mut path: Vec<NodeIndex> = Vec::new();
        path.push(target_node);
        let mut cur = target_node;
        let mut more = true;
        let ghost mut fwd: Seq<NodeIndex> = seq![target_node];
        let ghost mut es: Seq<EdgeIndex> = Seq::empty();
        while more
            invariant
                self.parents_ok(ws, source, dist, parent@, pedge, time),
                cur < dist.len(),
                dist[cur as int] < u64::MAX,
                path@.len() >= 1,
                path@.len() == fwd.len(),
                forall|q: int| 0 <= q < fwd.len() ==> #[trigger] fwd[q] == path@[path@.len() - 1 - q],
                fwd[0] == cur,
                fwd.last() == target_node,
                self.is_walk(fwd, es),
                weight_of(ws, es) + dist[cur as int] <= dist[target_node as int],
                !more ==> cur == source,
            decreases dist[cur as int], time[cur as int], if more {
                1int
            } else {
                0int
            },
        {
            match parent[cur] {
                Some(p) => {
                    let ghost before = path@;
                    path.push(p);
                    proof {
                        let e = pedge[cur as int];
                        let nfwd = seq![p] + fwd;
                        let nes = seq![e] + es;
                        lemma_weight_prepend(ws, e, es);
                        assert(self.is_walk(nfwd, nes)) by {
                            assert forall|q: int| 0 <= q < nes.len() implies #[trigger] self.edge_from(
                                nfwd[q] as int,
                                nfwd[q + 1],
                                nes[q],
                            ) by {
                                if q > 0 {
                                    assert(nfwd[q] == fwd[q - 1] && nfwd[q + 1] == fwd[q] && nes[q] == es[q - 1]);
                                    assert(self.edge_from(fwd[q - 1] as int, fwd[q - 1 + 1], es[q - 1]));
                                }
                            }
                        }
                        assert forall|q: int| 0 <= q < nfwd.len() implies #[trigger] nfwd[q] == path@[path@.len() - 1 - q] by {
                            if q > 0 {
                                assert(nfwd[q] == fwd[q - 1]);
                            }
                        }
                        fwd = nfwd;
                        es = nes;
                    }
                    cur = p;
                },
                None => {
                    more = false;
                },
            }
        }
        let mut out: Vec<NodeIndex> = Vec::new();
        let mut k: usize = path.len();
        while k > 0
            invariant
                k <= path@.len(),
                out@.len() == path@.len() - k,
                forall|q: int| 0 <= q < out@.len() ==> #[trigger] out@[q] == path@[path@.len() - 1 - q],
            decreases k,
        {
            k = k - 1;
            out.push(path[k]);
        }
        proof {
            assert(out@ =~= fwd);
        }
        (out, Ghost(es))
    }

    /// A walk's edges join consecutive nodes, so its nodes form a path.
    proof fn lemma_walk_is_path(&self, ns: Seq<NodeIndex>, es: Seq<EdgeIndex>)
        requires
            self.is_walk(ns, es),
        ensures
            self.is_path(ns),
    {
        reveal(Graph::has_edge);
        assert forall|i: int| 0 <= i < ns.len() - 1 implies #[trigger] self.has_edge(ns[i] as int, ns[i + 1]) by {
            assert(self.edge_from(ns[i] as int, ns[i + 1], es[i]));
            let j = choose|j: int| 0 <= j < self.succs(ns[i] as int).len() && self.succs(ns[i] as int)[j] == (ns[i + 1], es[i]);
            assert(self.succs(ns[i] as int)[j].0 == ns[i + 1]);
        }
    }

    /// A shortest path from `source_node` to `target_node` found by Dijkstra's
    /// search, or `None` where every walk between them weighs `u64::MAX` or
    /// more.
    pub fn dijkstra_with_path(
        &self,
        source_node: NodeIndex,
        target_node: NodeIndex,
        edge_weights: &[u64],
    ) -> (r: Option<Vec<NodeIndex>>)
        requires
            self.wf(),
            source_node < self.node_count(),
            target_node < self.node_count(),
            edge_weights@.len() >= self.edge_count(),
        ensures
            match r {
                Some(path) => {
                    &&& path@.len() >= 1
                    &&& path@[0] == source_node
                    &&& path@.last() == target_node
                    &&& self.is_path(path@)
                    &&& exists|es: Seq<EdgeIndex>|
                        #[trigger] self.is_walk(path@, es) && self.no_lighter_walk(
                            edge_weights@,
                            source_node,
                            target_node,
                            weight_of(edge_weights@, es),
                        )
                },
                None => forall|ns: Seq<NodeIndex>, es: Seq<EdgeIndex>|
                    #[trigger] self.is_walk(ns, es) && ns[0] == source_node && ns.last() == target_node
                        ==> weight_of(edge_weights@, es) >= u64::MAX,
            },
    {
        let (dist, parent, found, pedge, time) = self.shortest_search(source_node, Some(target_node), edge_weights);
        if found {
            let (path, es) = self.reverse_path(
                parent.as_slice(),
                target_node,
                Ghost(edge_weights@),
                Ghost(source_node),
                Ghost(dist@),
                pedge,
                time,
            );
            proof {
                self.lemma_walk_is_path(path@, es@);
                let w = weight_of(edge_weights@, es@);
                assert(self.no_lighter_walk(edge_weights@, source_node, target_node, w)) by {
                    assert forall|ns: Seq<NodeIndex>, es2: Seq<EdgeIndex>|
                        #[trigger] self.is_walk(ns, es2) && ns[0] == source_node && ns.last() == target_node
                            && weight_of(edge_weights@, es2) <= u64::MAX implies w <= weight_of(edge_weights@, es2) by {
                        assert(self.no_lighter_walk(edge_weights@, source_node, target_node, dist@[target_node as int] as int));
                    }
                }
                assert(self.is_walk(path@, es@));
            }
            Some(path)
        } else {
            proof {
                assert forall|ns: Seq<NodeIndex>, es: Seq<EdgeIndex>|
                    #[trigger] self.is_walk(ns, es) && ns[0] == source_node && ns.last() == target_node
                        implies weight_of(edge_weights@, es) >= u64::MAX by {
                    if weight_of(edge_weights@, es) < u64::MAX {
                        self.lemma_relaxed_is_shortest(edge_weights@, source_node, dist@, ns, es);
                    }
                }
            }
            None
        }
    }

    /// The distances from `source_node` to every node, where `edge_weights[e]`
    /// is the weight of edge `e`; `u64::MAX` marks a node that no walk of
    /// weight below `u64::MAX` reaches.
    pub fn dijkstra(&self, source_node: NodeIndex, edge_weights: &[u64]) -> (r: Vec<u64>)
        requires
            self.wf(),
            source_node < self.node_count(),
            edge_weights@.len() >= self.edge_count(),
        ensures
            r@.len() == self.node_count(),
            r@[source_node as int] == 0,
            forall|u: int| 0 <= u < self.node_count() && r@[u] < u64::MAX ==> #[trigger] self.relaxed(edge_weights@, r@, u),
            forall|v: int|
                0 <= v < self.node_count() && r@[v] < u64::MAX ==> #[trigger] self.walk_weighs(
                    edge_weights@,
                    source_node,
                    v as NodeIndex,
                    r@[v] as int,
                ),
    {
        let (dist, _parent, _found, _pedge, _time) = self.shortest_search(source_node, None, edge_weights);
        dist
    }
}

/// A walk along the list of outgoing edges of one node.
pub struct Successors<'a, T> {
    graph: &'a Graph<T>,
    current_edge_index: Option<EdgeIndex>,
}

impl<'a, T> Successors<'a, T> {
    pub closed spec fn graph(&self) -> &'a Graph<T> {
        self.graph
    }

    /// The `(target, edge)` pairs not yet handed out.
    pub closed spec fn remaining(&self) -> Seq<(NodeIndex, EdgeIndex)> {
        self.graph.chain(self.current_edge_index)
    }

    /// Hands out the next outgoing edge as `(target, edge)`.
    pub fn next(&mut self) -> (r: Option<(NodeIndex, EdgeIndex)>)
        requires
            old(self).graph().wf(),
        ensures
            final(self).graph() == old(self).graph(),
            match r {
                Some(p) => old(self).remaining().len() > 0 && p == old(self).remaining()[0]
                    && final(self).remaining() == old(self).remaining().drop_first(),
                None => old(self).remaining().len() == 0 && final(self).remaining() == old(self).remaining(),
            },
    {
        match self.current_edge_index {
            Some(edge_num) => {
                if edge_num >= self.graph.edges.len() {
                    return None;
                }
                let edge = &self.graph.edges[edge_num];
                self.current_edge_index = edge.next_outgoing_edge;
                proof {
                    assert(old(self).remaining().drop_first() =~= self.remaining());
                }
                Some((edge.target, edge_num))
            },
            None => None,
        }
    }
}

impl<T> Default for Graph<T> {
    fn default() -> (r: Self)
        ensures
            r.wf(),
            r.node_count() == 0,
            r.edge_count() == 0,
    {
        Graph::new()
    }
}

} // verus!
