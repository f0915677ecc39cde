//! Nodes and graphs: a dense array of nodes, each holding its row of
//! adjacency flags indexed by node id.

use vstd::prelude::*;
use crate::model::{
    both, common_count, count_true, degree, fits, is_adjacency, is_regular,
    lemma_count_true_bound, lemma_count_true_prefix, motif_count, pair_seq, set_edge,
};
use crate::outside::{all_pairs, count_motif_pairs};

verus! {

/// A node: its id and one flag per node id telling whether they are connected.
pub struct Node {
    pub id: usize,
    pub connections: Vec<bool>,
}

impl Node {
    /// A node with no connections, in a graph of `node_count` nodes.
    pub fn new(id: usize, node_count: usize) -> (r: Node)
        ensures
            r.id == id,
            r.connections@ == Seq::new(node_count as nat, |k: int| false),
    {
        let mut connections: Vec<bool> = Vec::new();
        let mut k: usize = 0;
        while k < node_count
            invariant
                k <= node_count,
                connections@ == Seq::new(k as nat, |t: int| false),
            decreases node_count - k,
        {
            connections.push(false);
            k = k + 1;
            assert(connections@ =~= Seq::new(k as nat, |t: int| false));
        }
        Node { id, connections }
    }

    pub fn add_connection(&mut self, node_id: usize)
        requires
            node_id < old(self).connections.len(),
        ensures
            final(self).id == old(self).id,
            final(self).connections@ == old(self).connections@.update(node_id as int, true),
    {
        self.connections.set(node_id, true);
    }

    pub fn remove_connection(&mut self, node_id: usize)
        requires
            node_id < old(self).connections.len(),
        ensures
            final(self).id == old(self).id,
            final(self).connections@ == old(self).connections@.update(node_id as int, false),
    {
        self.connections.set(node_id, false);
    }

    /// Drops every connection.
    pub fn reset(&mut self)
        ensures
            final(self).id == old(self).id,
            final(self).connections@ == Seq::new(old(self).connections@.len(), |k: int| false),
    {
        let n = self.connections.len();
        let mut k: usize = 0;
        while k < n
            invariant
                k <= n,
                self.id == old(self).id,
                self.connections@.len() == n,
                forall|t: int| 0 <= t < k ==> !#[trigger] self.connections@[t],
            decreases n - k,
        {
            self.connections.set(k, false);
            k = k + 1;
        }
        assert(self.connections@ =~= Seq::new(n as nat, |t: int| false));
    }

    /// Number of connections.
    pub fn degree(&self) -> (r: usize)
        ensures
            r == count_true(self.connections@),
    {
        let ghost s = self.connections@;
        let mut count: usize = 0;
        let mut k: usize = 0;
        while k < self.connections.len()
            invariant
                k <= s.len(),
                s == self.connections@,
                count == count_true(s.take(k as int)),
            decreases s.len() - k,
        {
            proof {
                lemma_count_true_prefix(s, k as int);
                lemma_count_true_bound(s.take(k as int + 1));
            }
            if self.connections[k] {
                count = count + 1;
            }
            k = k + 1;
        }
        assert(s.take(k as int) =~= s);
        count
    }
}

/// An undirected simple graph on the node ids `0..n`, with the list of all
/// unordered node pairs.
pub struct Graph {
    pub nodes: Vec<Node>,
    pub node_ids: Vec<usize>,
    pub node_pairs: Vec<(usize, usize)>,
}

impl Graph {
    /// The adjacency table: row `i` holds the connections of node `i`.
    pub open spec fn adj(&self) -> Seq<Seq<bool>> {
        Seq::new(self.nodes@.len(), |i: int| self.nodes@[i].connections@)
    }

    pub open spec fn size(&self) -> nat {
        self.nodes@.len()
    }

    /// Node `i` stands at index `i`, the ids are `0..n` in order, the pair
    /// list holds every unordered pair once, and adjacency is symmetric
    /// without self-loops.
    pub open spec fn wf(&self) -> bool {
        &&& forall|i: int| 0 <= i < self.nodes@.len() ==> #[trigger] self.nodes@[i].id == i
        &&& self.node_ids@ == Seq::new(self.nodes@.len(), |i: int| i as usize)
        &&& self.node_pairs@ == pair_seq(self.nodes@.len())
        &&& is_adjacency(self.adj())
    }

    /// A graph of `node_count` nodes and no edges.
    pub fn new(node_count: usize) -> (r: Graph)
        ensures
            r.wf(),
            r.size() == node_count,
            forall|i: int, j: int|
                0 <= i < node_count && 0 <= j < node_count ==> !#[trigger] r.adj()[i][j],
    {
        let mut nodes: Vec<Node> = Vec::new();
        let mut node_ids: Vec<usize> = Vec::new();
        let mut k: usize = 0;
        while k < node_count
            invariant
                k <= node_count,
                nodes@.len() == k,
                node_ids@ == Seq::new(k as nat, |i: int| i as usize),
                forall|i: int| 0 <= i < k ==> #[trigger] nodes@[i].id == i,
                forall|i: int| 0 <= i < k ==> #[trigger] nodes@[i].connections@ == Seq::new(
                    node_count as nat,
                    |t: int| false,
                ),
            decreases node_count - k,
        {
            nodes.push(Node::new(k, node_count));
            node_ids.push(k);
            k = k + 1;
            assert(node_ids@ =~= Seq::new(k as nat, |i: int| i as usize));
        }
        let node_pairs = all_pairs(node_count);
        let r = Graph { nodes, node_ids, node_pairs };
        assert forall|i: int| 0 <= i < node_count implies #[trigger] r.adj()[i] == Seq::new(
            node_count as nat,
            |t: int| false,
        ) by {}
        r
    }

    pub fn node_count(&self) -> (r: usize)
        ensures
            r == self.size(),
    {
        self.nodes.len()
    }

    pub fn is_connected(&self, i: usize, j: usize) -> (r: bool)
        requires
            self.wf(),
            i < self.size(),
            j < self.size(),
        ensures
            r == self.adj()[i as int][j as int],
    {
        assert(self.adj()[i as int].len() == self.size());
        self.nodes[i].connections[j]
    }

    pub fn degree(&self, i: usize) -> (r: usize)
        requires
            i < self.size(),
        ensures
            r == degree(self.adj(), i as int),
    {
        self.nodes[i].degree()
    }

    /// Sets the edge between `i` and `j` to `v`, on both nodes.
    fn set_edge(&mut self, i: usize, j: usize, v: bool)
        requires
            old(self).wf(),
            i < old(self).size(),
            j < old(self).size(),
            i != j,
        ensures
            final(self).wf(),
            final(self).size() == old(self).size(),
            final(self).adj() == set_edge(old(self).adj(), i as int, j as int, v),
    {
        let ghost a0 = self.adj();
        assert(a0[i as int].len() == a0.len());
        assert(a0[j as int].len() == a0.len());
        if v {
            self.nodes[i].add_connection(j);
            self.nodes[j].add_connection(i);
        } else {
            self.nodes[i].remove_connection(j);
            self.nodes[j].remove_connection(i);
        }
        assert(self.adj() =~= set_edge(a0, i as int, j as int, v));
        proof {
            lemma_set_edge_adjacency(a0, i as int, j as int, v);
        }
    }

    /// Connects `i` and `j`.
    pub fn add_edge(&mut self, i: usize, j: usize)
        requires
            old(self).wf(),
            i < old(self).size(),
            j < old(self).size(),
            i != j,
        ensures
            final(self).wf(),
            final(self).size() == old(self).size(),
            final(self).adj() == set_edge(old(self).adj(), i as int, j as int, true),
    {
        self.set_edge(i, j, true);
    }

    /// Disconnects `i` and `j`.
    pub fn remove_edge(&mut self, i: usize, j: usize)
        requires
            old(self).wf(),
            i < old(self).size(),
            j < old(self).size(),
            i != j,
        ensures
            final(self).wf(),
            final(self).size() == old(self).size(),
            final(self).adj() == set_edge(old(self).adj(), i as int, j as int, false),
    {
        self.set_edge(i, j, false);
    }

    /// Removes every edge, keeping the nodes.
    pub fn clear_edges(&mut self)
        requires
            old(self).wf(),
        ensures
            final(self).wf(),
            final(self).size() == old(self).size(),
            forall|i: int, j: int|
                0 <= i < final(self).size() && 0 <= j < final(self).size()
                    ==> !#[trigger] final(self).adj()[i][j],
    {
        let n = self.nodes.len();
        assert forall|i: int| 0 <= i < n implies #[trigger] self.nodes@[i].connections@.len()
            == n by {
            assert(self.adj()[i].len() == n);
        }
        let mut k: usize = 0;
        while k < n
            invariant
                k <= n,
                n == self.nodes@.len(),
                self.node_ids@ == old(self).node_ids@,
                self.node_pairs@ == old(self).node_pairs@,
                forall|i: int| 0 <= i < n ==> #[trigger] self.nodes@[i].id == i,
                forall|i: int| 0 <= i < n ==> #[trigger] self.nodes@[i].connections@.len() == n,
                forall|i: int, j: int|
                    0 <= i < k && 0 <= j < n ==> !#[trigger] self.nodes@[i].connections@[j],
            decreases n - k,
        {
            self.nodes[k].reset();
            k = k + 1;
        }
    }

    /// Number of common neighbours of `i` and `j`.
    pub fn common_neighbour_count(&self, i: usize, j: usize) -> (r: usize)
        requires
            self.wf(),
            i < self.size(),
            j < self.size(),
        ensures
            r == common_count(self.adj()[i as int], self.adj()[j as int]),
    {
        let ghost a = self.adj()[i as int];
        let ghost b = self.adj()[j as int];
        let ghost s = both(a, b);
        assert(a.len() == self.size() && b.len() == self.size());
        let row_i = &self.nodes[i].connections;
        let row_j = &self.nodes[j].connections;
        let n = self.nodes.len();
        let mut count: usize = 0;
        let mut k: usize = 0;
        while k < n
            invariant
                k <= n,
                n == s.len(),
                a == row_i@,
                b == row_j@,
                a.len() == n,
                b.len() == n,
                s == both(a, b),
                count == count_true(s.take(k as int)),
            decreases n - k,
        {
            proof {
                lemma_count_true_prefix(s, k as int);
                lemma_count_true_bound(s.take(k as int + 1));
            }
            if row_i[k] && row_j[k] {
                count = count + 1;
            }
            k = k + 1;
        }
        assert(s.take(k as int) =~= s);
        count
    }

    /// Whether the pair `{i, j}` forms a triangle or a square motif.
    pub fn neighbour_count_fits(&self, i: usize, j: usize) -> (r: bool)
        requires
            self.wf(),
            i < self.size(),
            j < self.size(),
        ensures
            r == fits(self.adj(), i as int, j as int),
    {
        let count = self.common_neighbour_count(i, j);
        if count == 1 {
            return self.is_connected(i, j);
        }
        count == 2 && !self.is_connected(i, j)
    }

    /// Number of node pairs that form a motif, over the whole pair list.
    pub fn motif_pair_count(&self) -> (r: usize)
        requires
            self.wf(),
        ensures
            r == motif_count(self.adj(), pair_seq(self.size())),
    {
        count_motif_pairs(self)
    }

    /// Whether every node has exactly `k` neighbours.
    pub fn check_num_edges(&self, k: usize) -> (r: bool)
        requires
            self.wf(),
        ensures
            r == is_regular(self.adj(), k as nat),
    {
        let n = self.nodes.len();
        let mut i: usize = 0;
        while i < n
            invariant
                i <= n,
                n == self.size(),
                forall|t: int| 0 <= t < i ==> #[trigger] degree(self.adj(), t) == k,
            decreases n - i,
        {
            if self.degree(i) != k {
                return false;
            }
            i = i + 1;
        }
        true
    }

    /// An independent copy with the same nodes, ids and pairs.
    pub fn snapshot(&self) -> (r: Graph)
        requires
            self.wf(),
        ensures
            r.wf(),
            r.adj() == self.adj(),
    {
        let n = self.nodes.len();
        let mut nodes: Vec<Node> = Vec::new();
        let mut i: usize = 0;
        while i < n
            invariant
                i <= n,
                n == self.size(),
                nodes@.len() == i,
                forall|t: int| 0 <= t < i ==> #[trigger] nodes@[t].id == t,
                forall|t: int| 0 <= t < i ==> #[trigger] nodes@[t].connections@ == self.adj()[t],
            decreases n - i,
        {
            let row = &self.nodes[i].connections;
            let mut copy: Vec<bool> = Vec::new();
            let mut j: usize = 0;
            while j < row.len()
                invariant
                    j <= row@.len(),
                    copy@ == row@.take(j as int),
                decreases row@.len() - j,
            {
                copy.push(row[j]);
                j = j + 1;
                assert(copy@ =~= row@.take(j as int));
            }
            assert(copy@ =~= row@);
            nodes.push(Node { id: i, connections: copy });
            i = i + 1;
        }
        let mut node_ids: Vec<usize> = Vec::new();
        let mut node_pairs: Vec<(usize, usize)> = Vec::new();
        let mut j: usize = 0;
        while j < n
            invariant
                j <= n,
                n == self.node_ids@.len(),
                node_ids@ == self.node_ids@.take(j as int),
            decreases n - j,
        {
            node_ids.push(self.node_ids[j]);
            j = j + 1;
            assert(node_ids@ =~= self.node_ids@.take(j as int));
        }
        let m = self.node_pairs.len();
        j = 0;
        while j < m
            invariant
                j <= m,
                m == self.node_pairs@.len(),
                node_pairs@ == self.node_pairs@.take(j as int),
            decreases m - j,
        {
            node_pairs.push(self.node_pairs[j]);
            j = j + 1;
            assert(node_pairs@ =~= self.node_pairs@.take(j as int));
        }
        assert(node_ids@ =~= self.node_ids@);
        assert(node_pairs@ =~= self.node_pairs@);
        let r = Graph { nodes, node_ids, node_pairs };
        assert(r.adj() =~= self.adj());
        r
    }
}

/// Setting one edge of a simple graph, between two distinct nodes, keeps it simple.
pub proof fn lemma_set_edge_adjacency(adj: Seq<Seq<bool>>, i: int, j: int, v: bool)
    requires
        is_adjacency(adj),
        0 <= i < adj.len(),
        0 <= j < adj.len(),
        i != j,
    ensures
        is_adjacency(set_edge(adj, i, j, v)),
        set_edge(adj, i, j, v).len() == adj.len(),
{
    let b = set_edge(adj, i, j, v);
    assert forall|x: int| 0 <= x < b.len() implies #[trigger] b[x].len() == b.len() by {
        assert(adj[x].len() == adj.len());
    }
    assert forall|x: int| 0 <= x < b.len() implies !#[trigger] b[x][x] by {
        assert(!adj[x][x]);
    }
    assert forall|x: int, y: int| 0 <= x < b.len() && 0 <= y < b.len() implies #[trigger] b[x][y]
        == b[y][x] by {
        assert(adj[x][y] == adj[y][x]);
        assert(adj[x].len() == adj.len());
        assert(adj[y].len() == adj.len());
    }
}

} // verus!
