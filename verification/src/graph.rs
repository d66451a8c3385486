//! The graph store: vertices kept in label order, each with its successors
//! in the order in which they were first added.

use vstd::prelude::*;
use crate::label::{label_less, label_lt, lemma_lt_irreflexive, lemma_lt_total, lemma_lt_transitive};
use crate::model::{
    build, insert_edge, lemma_insert_edge_valid, strictly_sorted, valid_adjacency, Adjacency, Label,
};

verus! {

/// A directed edge between two labelled vertices.
pub struct Edge {
    pub src: String,
    pub dest: String,
}

impl Edge {
    /// The edge from `src` to `dest`.
    pub fn new(src: &str, dest: &str) -> (e: Edge)
        ensures
            e.src@ == src@,
            e.dest@ == dest@,
    {
        Edge { src: src.to_owned(), dest: dest.to_owned() }
    }
}

/// The labels of a list of strings.
pub open spec fn labels_of(v: Seq<String>) -> Seq<Label> {
    Seq::new(v.len(), |i: int| v[i]@)
}

/// A list of edges as pairs of labels.
pub open spec fn edges_of(v: Seq<Edge>) -> Seq<(Label, Label)> {
    Seq::new(v.len(), |i: int| (v[i].src@, v[i].dest@))
}

/// A vertex as the store holds it: its label and its successors in the
/// order in which they were added.
pub(crate) struct Vertex {
    pub(crate) label: String,
    pub(crate) neighbors: Vec<String>,
}

/// A directed graph without parallel edges or self-loops. Its vertices are
/// the labels that some edge has named; no vertex or edge is ever removed.
pub struct Graph {
    pub(crate) n: usize,
    pub(crate) adj_list: Vec<Vertex>,
}

impl View for Graph {
    type V = Adjacency;

    /// The adjacency map: each vertex label with its successors in insertion
    /// order.
    closed spec fn view(&self) -> Adjacency {
        Map::new(
            |l: Label| self.labels().contains(l),
            |l: Label| self.successors(self.labels().index_of(l)),
        )
    }
}

impl Graph {
    /// The vertex labels in ascending order.
    pub open(crate) spec fn labels(&self) -> Seq<Label> {
        Seq::new(self.adj_list@.len(), |i: int| self.adj_list@[i].label@)
    }

    /// The successors of the vertex at position `i` of `labels()`.
    pub(crate) open spec fn successors(&self, i: int) -> Seq<Label> {
        labels_of(self.adj_list@[i].neighbors@)
    }

    /// Builds the graph that results from adding `edges` in order to the
    /// empty graph.
    pub fn new(edges: Vec<Edge>) -> (g: Graph)
        ensures
            g.wf(),
            g@ == build(edges_of(edges@)),
    {
        let mut g = Graph { n: 0, adj_list: Vec::new() };
        let ghost all = edges_of(edges@);
        proof {
            assert(g@ =~= Map::<Label, Seq<Label>>::empty());
            g.lemma_dom();
        }
        let mut k: usize = 0;
        while k < edges.len()
            invariant
                k <= edges.len(),
                all == edges_of(edges@),
                g.wf(),
                g@ == build(all.take(k as int)),
            decreases edges.len() - k,
        {
            g.add_edge(edges[k].src.as_str(), edges[k].dest.as_str());
            proof {
                assert(all.take(k + 1).drop_last() =~= all.take(k as int));
                assert(all.take(k + 1).last() == all[k as int]);
            }
            k += 1;
        }
        proof {
            assert(all.take(k as int) =~= all);
        }
        g
    }

    /// Adds the edge from `src` to `dest`, creating either vertex if it is
    /// new. A self-loop or an edge already present adds no successor.
    pub fn add_edge(&mut self, src: &str, dest: &str)
        requires
            old(self).wf(),
        ensures
            final(self).wf(),
            final(self)@ == insert_edge(old(self)@, src@, dest@),
    {
        let ghost before = *self;
        let Edge { src: s, dest: d } = Edge::new(src, dest);
        let same = d == s;
        let (i, found) = self.find(src);
        if !found {
            let mut first: Vec<String> = Vec::new();
            if !same {
                first.push(d.clone());
            }
            proof {
                if same {
                    assert(labels_of(first@) =~= Seq::<Label>::empty());
                } else {
                    assert(labels_of(first@) =~= seq![dest@]);
                }
            }
            self.insert_vertex(i, s, first);
        } else {
            proof {
                self.lemma_view_at(i as int);
            }
            if !same && !self.has_neighbor(i, &d) {
                self.push_neighbor(i, d.clone());
            }
        }
        let (j, found_dest) = self.find(dest);
        proof {
            self.lemma_dom();
        }
        if !found_dest {
            let none: Vec<String> = Vec::new();
            proof {
                assert(labels_of(none@) =~= Seq::<Label>::empty());
            }
            self.insert_vertex(j, d, none);
        }
        self.n = self.adj_list.len();
        proof {
            lemma_insert_edge_valid(before@, src@, dest@);
            self.lemma_dom();
        }
    }

    /// The number of vertices.
    pub fn vertex_count(&self) -> (r: usize)
        requires
            self.wf(),
        ensures
            r == self@.dom().len(),
            r == self.labels().len(),
    {
        proof {
            self.lemma_labels_distinct();
            self.labels().unique_seq_to_set();
        }
        self.n
    }

    /// The vertex labels in ascending order.
    pub fn vertex_labels(&self) -> (r: Vec<String>)
        requires
            self.wf(),
        ensures
            labels_of(r@) == self.labels(),
            strictly_sorted(labels_of(r@)),
            labels_of(r@).to_set() == self@.dom(),
    {
        let mut out: Vec<String> = Vec::new();
        let mut k: usize = 0;
        while k < self.adj_list.len()
            invariant
                k <= self.adj_list.len(),
                out@.len() == k,
                forall|j: int| 0 <= j < k ==> (#[trigger] out@[j])@ == self.labels()[j],
            decreases self.adj_list.len() - k,
        {
            out.push(self.adj_list[k].label.clone());
            k += 1;
        }
        proof {
            assert(labels_of(out@) =~= self.labels());
        }
        out
    }

    /// The successors of `label` in the order in which they were added, or
    /// `None` if the graph has no such vertex.
    pub fn neighbors(&self, label: &str) -> (r: Option<Vec<String>>)
        requires
            self.wf(),
        ensures
            r is Some <==> self@.dom().contains(label@),
            r is Some ==> labels_of(r->0@) == self@[label@],
    {
        let (i, found) = self.find(label);
        if !found {
            return None;
        }
        proof {
            self.lemma_view_at(i as int);
        }
        let list = &self.adj_list[i].neighbors;
        let mut out: Vec<String> = Vec::new();
        let mut k: usize = 0;
        while k < list.len()
            invariant
                k <= list.len(),
                out@.len() == k,
                forall|j: int| 0 <= j < k ==> (#[trigger] out@[j])@ == list@[j]@,
            decreases list.len() - k,
        {
            out.push(list[k].clone());
            k += 1;
        }
        proof {
            assert(labels_of(out@) =~= labels_of(list@));
        }
        Some(out)
    }

    /// Sorted labels are pairwise distinct.
    pub(crate) proof fn lemma_labels_distinct(&self)
        requires
            strictly_sorted(self.labels()),
        ensures
            self.labels().no_duplicates(),
    {
        let labels = self.labels();
        assert forall|i: int, j: int| 0 <= i < labels.len() && 0 <= j < labels.len() && i != j implies labels[i] != labels[j] by {
            lemma_lt_irreflexive(labels[i]);
            if i < j {
                assert(label_lt(labels[i], labels[j]));
            } else {
                assert(label_lt(labels[j], labels[i]));
            }
        }
    }

    /// The stored vertex count agrees with the vertices held.
    pub closed spec fn counted(&self) -> bool {
        self.n == self.adj_list@.len()
    }

    /// The invariant of a graph: its labels are in strictly ascending order
    /// and are exactly the vertices of its adjacency map, which satisfies
    /// the data invariants.
    pub open spec fn wf(&self) -> bool {
        &&& self.counted()
        &&& strictly_sorted(self.labels())
        &&& self.labels().to_set() == self@.dom()
        &&& valid_adjacency(self@)
    }

    /// The vertices of the adjacency map are the labels held.
    pub(crate) proof fn lemma_dom(&self)
        ensures
            self.labels().to_set() == self@.dom(),
    {
        assert(self.labels().to_set() =~= self@.dom());
    }

    /// Under sorted labels, the adjacency map sends the label at position
    /// `i` to the successors held at that position.
    pub(crate) proof fn lemma_view_at(&self, i: int)
        requires
            strictly_sorted(self.labels()),
            0 <= i < self.labels().len(),
        ensures
            self@.dom().contains(self.labels()[i]),
            self@[self.labels()[i]] == self.successors(i),
    {
        let labels = self.labels();
        let l = labels[i];
        assert(labels.contains(l));
        let k = labels.index_of(l);
        lemma_lt_irreflexive(l);
        if k < i {
            assert(label_lt(labels[k], labels[i]));
        } else if i < k {
            assert(label_lt(labels[i], labels[k]));
        }
    }

    /// Whether `d` is among the successors at position `i`.
    pub(crate) fn has_neighbor(&self, i: usize, d: &String) -> (r: bool)
        requires
            i < self.labels().len(),
        ensures
            r == self.successors(i as int).contains(d@),
    {
        let list = &self.adj_list[i].neighbors;
        let mut k: usize = 0;
        while k < list.len()
            invariant
                k <= list.len(),
                list == &self.adj_list@[i as int].neighbors,
                forall|j: int| 0 <= j < k ==> self.successors(i as int)[j] != d@,
            decreases list.len() - k,
        {
            if list[k] == *d {
                assert(self.successors(i as int)[k as int] == d@);
                return true;
            }
            k += 1;
        }
        false
    }

    /// Appends `d` to the successors at position `i`.
    pub(crate) fn push_neighbor(&mut self, i: usize, d: String)
        requires
            i < old(self).labels().len(),
            strictly_sorted(old(self).labels()),
        ensures
            final(self).labels() == old(self).labels(),
            final(self).n == old(self).n,
            final(self)@ == old(self)@.insert(
                old(self).labels()[i as int],
                old(self)@[old(self).labels()[i as int]].push(d@),
            ),
    {
        let ghost before = *self;
        self.adj_list[i].neighbors.push(d);
        proof {
            assert(self.labels() =~= before.labels());
            assert(self.successors(i as int) =~= before.successors(i as int).push(d@));
            before.lemma_view_at(i as int);
            let target = before@.insert(before.labels()[i as int], before@[before.labels()[i as int]].push(d@));
            assert forall|l: Label| self@.dom().contains(l) implies #[trigger] self@[l] == target[l] by {
                assert(self.labels().contains(l));
                let k = self.labels().index_of(l);
                self.lemma_view_at(k);
                self.lemma_view_at(i as int);
                before.lemma_view_at(k);
                if k != i {
                    assert(self.successors(k) =~= before.successors(k));
                }
            }
            assert(self@ =~= target);
        }
    }

    /// Inserts a new vertex at position `pos`, where its label belongs.
    pub(crate) fn insert_vertex(&mut self, pos: usize, label: String, neighbors: Vec<String>)
        requires
            strictly_sorted(old(self).labels()),
            pos <= old(self).labels().len(),
            forall|j: int| 0 <= j < pos ==> label_lt(#[trigger] old(self).labels()[j], label@),
            forall|j: int|
                pos <= j < old(self).labels().len() ==> !label_lt(
                    #[trigger] old(self).labels()[j],
                    label@,
                ),
            !old(self).labels().contains(label@),
        ensures
            strictly_sorted(final(self).labels()),
            final(self).n == old(self).n,
            final(self).labels() == old(self).labels().insert(pos as int, label@),
            final(self)@ == old(self)@.insert(label@, labels_of(neighbors@)),
    {
        let ghost before = *self;
        let ghost lv = label@;
        let ghost nb = labels_of(neighbors@);
        self.adj_list.insert(pos, Vertex { label, neighbors });
        proof {
            let a = before.labels();
            let b = self.labels();
            assert(b =~= a.insert(pos as int, lv));
            assert forall|i: int, j: int| 0 <= i < j < b.len() implies label_lt(
                #[trigger] b[i],
                #[trigger] b[j],
            ) by {
                if j == pos {
                    assert(b[i] == a[i]);
                } else if i == pos {
                    assert(b[j] == a[j - 1]);
                    assert(a.contains(a[j - 1]));
                    lemma_lt_total(lv, a[j - 1]);
                } else {
                    let i0 = if i < pos { i } else { i - 1 };
                    let j0 = if j < pos { j } else { j - 1 };
                    assert(b[i] == a[i0] && b[j] == a[j0]);
                }
            }
            let target = before@.insert(lv, nb);
            assert forall|l: Label| self@.dom().contains(l) <==> target.dom().contains(l) by {
                if self@.dom().contains(l) {
                    let k = b.index_of(l);
                    if k < pos {
                        assert(a[k] == l);
                    } else if k > pos {
                        assert(a[k - 1] == l);
                    }
                }
                if target.dom().contains(l) && l != lv {
                    let k = a.index_of(l);
                    let k1 = if k < pos { k } else { k + 1 };
                    assert(b[k1] == l);
                }
                if l == lv {
                    assert(b[pos as int] == l);
                }
            }
            assert forall|l: Label| self@.dom().contains(l) implies #[trigger] self@[l] == target[l] by {
                let k = b.index_of(l);
                self.lemma_view_at(k);
                if k < pos {
                    before.lemma_view_at(k);
                    assert(self.successors(k) == before.successors(k));
                } else if k > pos {
                    before.lemma_view_at(k - 1);
                    assert(self.successors(k) == before.successors(k - 1));
                } else {
                    assert(self.successors(k) == nb);
                }
            }
            assert(self@ =~= target);
        }
    }

    /// Locates `label` among the vertices: the position at which it stands
    /// or would have to be inserted, and whether it stands there.
    pub(crate) fn find(&self, label: &str) -> (r: (usize, bool))
        requires
            strictly_sorted(self.labels()),
        ensures
            r.0 <= self.labels().len(),
            forall|j: int| 0 <= j < r.0 ==> label_lt(#[trigger] self.labels()[j], label@),
            forall|j: int|
                r.0 <= j < self.labels().len() ==> !label_lt(#[trigger] self.labels()[j], label@),
            r.1 == (r.0 < self.labels().len() && self.labels()[r.0 as int] == label@),
            r.1 == self.labels().contains(label@),
    {
        let ghost labels = self.labels();
        let mut lo: usize = 0;
        let mut hi: usize = self.adj_list.len();
        while lo < hi
            invariant
                labels == self.labels(),
                strictly_sorted(labels),
                lo <= hi <= self.adj_list.len(),
                forall|j: int| 0 <= j < lo ==> label_lt(#[trigger] labels[j], label@),
                forall|j: int| hi <= j < labels.len() ==> !label_lt(#[trigger] labels[j], label@),
            decreases hi - lo,
        {
            let mid: usize = lo + (hi - lo) / 2;
            if label_less(self.adj_list[mid].label.as_str(), label) {
                proof {
                    assert forall|j: int| 0 <= j < mid + 1 implies label_lt(
                        #[trigger] labels[j],
                        label@,
                    ) by {
                        if j < mid {
                            lemma_lt_transitive(labels[j], labels[mid as int], label@);
                        }
                    }
                }
                lo = mid + 1;
            } else {
                proof {
                    assert forall|j: int| mid <= j < labels.len() implies !label_lt(
                        #[trigger] labels[j],
                        label@,
                    ) by {
                        if j > mid && label_lt(labels[j], label@) {
                            lemma_lt_transitive(labels[mid as int], labels[j], label@);
                        }
                    }
                }
                hi = mid;
            }
        }
        let found = lo < self.adj_list.len() && !label_less(
            label,
            self.adj_list[lo].label.as_str(),
        );
        proof {
            lemma_lt_irreflexive(label@);
            if lo < labels.len() {
                lemma_lt_total(label@, labels[lo as int]);
            }
            if labels.contains(label@) {
                let j = labels.index_of(label@);
                if j > lo {
                    assert(label_lt(labels[lo as int], labels[j]));
                }
            }
        }
        (lo, found)
    }
}

} // verus!
