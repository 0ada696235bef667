//! Labeled set elements bucketed by cardinality into ordered levels.

use vstd::prelude::*;
use crate::bitset::BitSet;
use core::ops::Range;

verus! {

/// Abstract value of one element: its label and its set of indices.
pub ghost struct NodeV {
    pub name: Seq<char>,
    pub set: Set<int>,
}

/// A labeled set: identifier plus bit vector (the cardinality is cached
/// inside the bit vector). An element's identity is its identifier: two
/// elements with equal bit content under different identifiers are
/// distinct entities.
pub struct Node {
    pub name: String,
    pub s: BitSet,
}

impl View for Node {
    type V = NodeV;

    open spec fn view(&self) -> NodeV {
        NodeV { name: self.name@, set: self.s@ }
    }
}

impl Node {
    pub open spec fn wf(&self) -> bool {
        self.s.wf()
    }

    pub fn new(name: String, s: BitSet) -> (r: Node)
        ensures
            r@.name == name@,
            r@.set == s@,
            s.wf() ==> r.wf(),
    {
        Node { name, s }
    }

    /// True iff this element's set is contained in `other`'s.
    pub fn is_subset(&self, other: &Node) -> (r: bool)
        ensures
            r == self@.set.subset_of(other@.set),
    {
        self.s.is_subset(&other.s)
    }

    /// Cardinality of the element's set.
    pub fn count(&self) -> (r: usize)
        requires
            self.wf(),
        ensures
            r == self@.set.len(),
    {
        proof {
            self.s.lemma_view_bounds();
        }
        self.s.count()
    }
}

/// The level buckets: `nodes[k]` holds, in insertion order, the elements of
/// cardinality `k`.
pub struct GraphData {
    pub nodes: Vec<Vec<Node>>,
}

impl GraphData {
    pub fn new() -> (r: GraphData)
        ensures
            r.nodes@.len() == 0,
    {
        GraphData { nodes: Vec::new() }
    }
}

/// Every bucket holds well-formed elements whose cardinality equals the
/// bucket's index, and every set in it is finite.
pub open spec fn levels_wf(g: Seq<Seq<NodeV>>) -> bool {
    forall|l: int, p: int|
        0 <= l < g.len() && 0 <= p < g[l].len() ==> (#[trigger] g[l][p]).set.finite() && g[l][p].set.len() == l
}

/// The level index over a family of elements.
pub struct Graph {
    pub data: GraphData,
    pub level_count: usize,
}

impl Graph {
    /// The abstract levels: one sequence of element values per cardinality.
    pub open spec fn levels(&self) -> Seq<Seq<NodeV>> {
        self.data.nodes@.map_values(|v: Vec<Node>| v@.map_values(|n: Node| n@))
    }

    pub open spec fn wf(&self) -> bool {
        &&& self.level_count == self.data.nodes@.len()
        &&& forall|l: int, p: int|
            0 <= l < self.data.nodes@.len() && 0 <= p < self.data.nodes@[l]@.len() ==> (
            #[trigger] self.data.nodes@[l]@[p]).wf() && self.data.nodes@[l]@[p]@.set.len() == l
    }

    pub proof fn lemma_wf_levels(&self)
        requires
            self.wf(),
        ensures
            levels_wf(self.levels()),
            self.levels().len() == self.level_count,
    {
        assert forall|l: int, p: int|
            0 <= l < self.levels().len() && 0 <= p
                < self.levels()[l].len() implies (#[trigger] self.levels()[l][p]).set.finite()
            && self.levels()[l][p].set.len() == l by {
            let n = self.data.nodes@[l]@[p];
            n.s.lemma_view_bounds();
            assert(self.levels()[l][p] == n@);
        }
    }

    pub fn new(data: GraphData) -> (r: Graph)
        ensures
            r.wf(),
            r.levels().len() == 0,
    {
        let mut data = data;
        data.nodes.clear();
        Graph { data, level_count: 0 }
    }

    /// Place an element into the bucket matching its cardinality, creating
    /// empty buckets up to that cardinality if needed.
    pub fn insert_node(&mut self, node: Node)
        requires
            old(self).wf(),
            node.wf(),
            node@.set.len() < usize::MAX,
        ensures
            final(self).wf(),
            final(self).levels() == insert_level(old(self).levels(), node@),
    {
        let c = node.count();
        if c >= self.level_count {
            while self.level_count < c + 1
                invariant
                    self.level_count == self.data.nodes@.len(),
                    self.level_count <= c + 1,
                    c < usize::MAX,
                    self.data.nodes@.len() >= old(self).data.nodes@.len(),
                    self.data.nodes@.subrange(0, old(self).data.nodes@.len() as int) == old(
                        self,
                    ).data.nodes@,
                    forall|l: int|
                        old(self).data.nodes@.len() <= l < self.data.nodes@.len() ==> (
                        #[trigger] self.data.nodes@[l])@.len() == 0,
                decreases c + 1 - self.level_count,
            {
                self.data.nodes.push(Vec::new());
                self.level_count = self.level_count + 1;
            }
        }
        let ghost mid = self.data.nodes@;
        let bucket = &mut self.data.nodes[c];
        bucket.push(node);
        proof {
            assert(self.data.nodes@.len() == mid.len());
            assert(self.data.nodes@[c as int]@ == mid[c as int]@.push(node));
            assert(forall|l: int| 0 <= l < mid.len() && l != c ==> self.data.nodes@[l] == mid[l]);
            assert forall|l: int, p: int|
                0 <= l < self.data.nodes@.len() && 0 <= p
                    < self.data.nodes@[l]@.len() implies (#[trigger] self.data.nodes@[l]@[p]).wf()
                && self.data.nodes@[l]@[p]@.set.len() == l by {
                if l < old(self).data.nodes@.len() {
                    assert(old(self).data.nodes@[l] == old(self).data.nodes@.subrange(
                        0,
                        old(self).data.nodes@.len() as int,
                    )[l]);
                }
            }
            assert(final(self).levels() =~= insert_level(old(self).levels(), node@)) by {
                let lv = final(self).levels();
                let ins = insert_level(old(self).levels(), node@);
                assert(lv.len() == ins.len());
                assert forall|l: int| 0 <= l < lv.len() implies lv[l] =~= ins[l] by {
                    if l < old(self).data.nodes@.len() {
                        assert(old(self).data.nodes@[l] == old(self).data.nodes@.subrange(
                            0,
                            old(self).data.nodes@.len() as int,
                        )[l]);
                    }
                }
            }
        }
    }

    /// The level indices, lowest first.
    pub fn levels_iter(&self) -> (r: Range<usize>)
        ensures
            r.start == 0,
            r.end == self.level_count,
    {
        0..self.level_count
    }

    /// The level indices strictly above `level`, nearest first; empty when
    /// `level` is at or beyond the top.
    pub fn levels_above(&self, level: usize) -> (r: Range<usize>)
        requires
            level < usize::MAX,
        ensures
            r.start == level + 1,
            r.end == self.level_count,
    {
        level + 1..self.level_count
    }

    /// The elements of one bucket, in insertion order.
    pub fn level(&self, level: usize) -> (r: &Vec<Node>)
        requires
            self.wf(),
            level < self.level_count,
        ensures
            r@.map_values(|n: Node| n@) == self.levels()[level as int],
    {
        &self.data.nodes[level]
    }
}

/// Bucket insertion at the abstract level: extend with empty buckets so that
/// index `n.set.len()` exists, then append `n` there.
pub open spec fn insert_level(g: Seq<Seq<NodeV>>, n: NodeV) -> Seq<Seq<NodeV>> {
    let c = n.set.len() as int;
    let ext = if c < g.len() {
        g
    } else {
        g + Seq::new((c + 1 - g.len()) as nat, |k: int| Seq::<NodeV>::empty())
    };
    ext.update(c, ext[c].push(n))
}

} // verus!
