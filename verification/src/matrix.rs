//! The two square tables over all ordered pairs of vertices: direct
//! adjacency and reachability.

use vstd::prelude::*;
use crate::graph::Graph;
use crate::model::{Adjacency, Label};
use crate::reach::{
    cleared, lemma_cleared_marks_nothing, lemma_reachable_reflexive, lemma_reachable_transitive,
    lemma_reaches_step, reachable,
};

verus! {

/// One row of a matrix: a flag for each column label, in label order.
pub type Row = Vec<(String, bool)>;

/// A square table of flags: one row for each vertex label, in label order.
pub type Matrix = Vec<(String, Row)>;

/// `b` is `a` itself or a direct successor of `a`.
pub open spec fn adjacent(adj: Adjacency, a: Label, b: Label) -> bool {
    a == b || (adj.dom().contains(a) && adj[a].contains(b))
}

/// The rows and the columns of `m` carry exactly `labels`, in that order.
pub open spec fn labelled_by(m: Seq<(String, Row)>, labels: Seq<Label>) -> bool {
    &&& m.len() == labels.len()
    &&& forall|i: int|
        0 <= i < m.len() ==> (#[trigger] m[i]).0@ == labels[i] && m[i].1@.len() == labels.len()
    &&& forall|i: int, j: int|
        0 <= i < m.len() && 0 <= j < labels.len() ==> (#[trigger] m[i].1@[j]).0@ == labels[j]
}

/// The flag of `m` in row `i` and column `j`.
pub open spec fn cell(m: Seq<(String, Row)>, i: int, j: int) -> bool {
    m[i].1@[j].1
}

/// `m` is the direct-adjacency matrix of `adj` over `labels`.
pub open spec fn is_adjacency_matrix(m: Seq<(String, Row)>, adj: Adjacency, labels: Seq<Label>) -> bool {
    &&& labelled_by(m, labels)
    &&& forall|i: int, j: int|
        0 <= i < m.len() && 0 <= j < m.len() ==> #[trigger] cell(m, i, j) == adjacent(
            adj,
            labels[i],
            labels[j],
        )
}

/// `m` is the reachability matrix of `adj` over `labels`.
pub open spec fn is_reachability_matrix(
    m: Seq<(String, Row)>,
    adj: Adjacency,
    labels: Seq<Label>,
) -> bool {
    &&& labelled_by(m, labels)
    &&& forall|i: int, j: int|
        0 <= i < m.len() && 0 <= j < m.len() ==> #[trigger] cell(m, i, j) == reachable(
            adj,
            labels[i],
            labels[j],
        )
}

/// The diagonal of an adjacency matrix is set: every vertex counts as
/// adjacent to itself.
pub proof fn lemma_adjacency_diagonal(m: Seq<(String, Row)>, adj: Adjacency, labels: Seq<Label>, i: int)
    requires
        is_adjacency_matrix(m, adj, labels),
        0 <= i < m.len(),
    ensures
        cell(m, i, i),
{
}

/// The diagonal of a reachability matrix is set: every vertex reaches
/// itself by the walk of no steps.
pub proof fn lemma_reachability_diagonal(
    m: Seq<(String, Row)>,
    adj: Adjacency,
    labels: Seq<Label>,
    i: int,
)
    requires
        is_reachability_matrix(m, adj, labels),
        0 <= i < m.len(),
    ensures
        cell(m, i, i),
{
    lemma_reachable_reflexive(adj, labels[i]);
}

/// A reachability matrix is transitive: where row `a` has column `b` set
/// and row `b` has column `c` set, row `a` has column `c` set.
pub proof fn lemma_reachability_matrix_transitive(
    m: Seq<(String, Row)>,
    adj: Adjacency,
    labels: Seq<Label>,
    a: int,
    b: int,
    c: int,
)
    requires
        is_reachability_matrix(m, adj, labels),
        0 <= a < m.len(),
        0 <= b < m.len(),
        0 <= c < m.len(),
        cell(m, a, b),
        cell(m, b, c),
    ensures
        cell(m, a, c),
{
    lemma_reachable_transitive(adj, labels[a], labels[b], labels[c]);
}

/// A direct successor is reachable, so an adjacency matrix is set nowhere
/// that the reachability matrix of the same graph is not.
pub proof fn lemma_adjacent_is_reachable(adj: Adjacency, a: Label, b: Label)
    requires
        adjacent(adj, a, b),
    ensures
        reachable(adj, a, b),
{
    lemma_reachable_reflexive(adj, a);
    if a != b {
        lemma_reaches_step(adj, Set::empty(), a, a, b);
    }
}

impl Graph {
    /// Pairs each label with its flag, in label order.
    fn labelled_row(&self, flags: &Vec<bool>) -> (row: Row)
        requires
            flags@.len() == self.labels().len(),
        ensures
            row@.len() == self.labels().len(),
            forall|j: int|
                0 <= j < row@.len() ==> (#[trigger] row@[j]).0@ == self.labels()[j] && row@[j].1
                    == flags@[j],
    {
        let mut row: Row = Vec::new();
        let mut j: usize = 0;
        while j < self.adj_list.len()
            invariant
                j <= self.adj_list.len(),
                flags@.len() == self.labels().len(),
                row@.len() == j,
                forall|x: int|
                    0 <= x < j ==> (#[trigger] row@[x]).0@ == self.labels()[x] && row@[x].1
                        == flags@[x],
            decreases self.adj_list.len() - j,
        {
            row.push((self.adj_list[j].label.clone(), flags[j]));
            j += 1;
        }
        row
    }

    /// The direct-adjacency matrix: the flag for row `a` and column `b`
    /// says whether `b` is `a` itself or a direct successor of `a`.
    pub fn get_adj_matrix(&self) -> (m: Matrix)
        requires
            self.wf(),
        ensures
            is_adjacency_matrix(m@, self@, self.labels()),
            forall|i: int| 0 <= i < m@.len() ==> cell(m@, i, i),
    {
        let ghost labels = self.labels();
        let n = self.adj_list.len();
        let mut m: Matrix = Vec::new();
        let mut i: usize = 0;
        proof {
            self.lemma_labels_distinct();
        }
        while i < n
            invariant
                self.wf(),
                labels == self.labels(),
                labels.no_duplicates(),
                n == labels.len(),
                i <= n,
                m@.len() == i,
                forall|x: int|
                    0 <= x < i ==> (#[trigger] m@[x]).0@ == labels[x] && m@[x].1@.len() == n,
                forall|x: int, y: int|
                    0 <= x < i && 0 <= y < n ==> (#[trigger] m@[x].1@[y]).0@ == labels[y],
                forall|x: int, y: int|
                    0 <= x < i && 0 <= y < n ==> #[trigger] cell(m@, x, y) == adjacent(
                        self@,
                        labels[x],
                        labels[y],
                    ),
            decreases n - i,
        {
            let mut flags: Vec<bool> = cleared(n);
            flags[i] = true;
            let count = self.adj_list[i].neighbors.len();
            let mut k: usize = 0;
            proof {
                self.lemma_view_at(i as int);
            }
            while k < count
                invariant
                    self.wf(),
                    labels == self.labels(),
                    labels.no_duplicates(),
                    n == labels.len(),
                    i < n,
                    k <= count,
                    count == self.successors(i as int).len(),
                    self@[labels[i as int]] == self.successors(i as int),
                    self@.dom().contains(labels[i as int]),
                    flags@.len() == n,
                    forall|y: int|
                        0 <= y < n ==> (#[trigger] flags@[y] == (y == i || exists|x: int|
                            0 <= x < k && #[trigger] self.successors(i as int)[x] == labels[y])),
                decreases count - k,
            {
                let ghost prior = flags@;
                let ghost next = self.successors(i as int)[k as int];
                let (w, _) = self.find(self.adj_list[i].neighbors[k].as_str());
                proof {
                    assert(self@.dom().contains(self@[labels[i as int]][k as int]));
                    self.lemma_dom();
                    assert(labels.contains(next));
                    assert(labels[w as int] == next);
                }
                flags[w] = true;
                proof {
                    assert forall|y: int| 0 <= y < n implies (#[trigger] flags@[y] == (y == i
                        || exists|x: int|
                        0 <= x < k + 1 && #[trigger] self.successors(i as int)[x] == labels[y])) by {
                        if y == w {
                            assert(self.successors(i as int)[k as int] == labels[y]);
                        } else if prior[y] && y != i {
                            let x = choose|x: int|
                                0 <= x < k && #[trigger] self.successors(i as int)[x] == labels[y];
                            assert(0 <= x < k + 1 && self.successors(i as int)[x] == labels[y]);
                        } else if exists|x: int|
                            0 <= x < k + 1 && #[trigger] self.successors(i as int)[x] == labels[y] {
                            let x = choose|x: int|
                                0 <= x < k + 1 && #[trigger] self.successors(i as int)[x]
                                    == labels[y];
                            assert(x < k);
                        }
                    }
                }
                k += 1;
            }
            let row = self.labelled_row(&flags);
            let ghost prior_rows = m@;
            m.push((self.adj_list[i].label.clone(), row));
            proof {
                assert forall|y: int| 0 <= y < n implies #[trigger] cell(m@, i as int, y) == adjacent(
                    self@,
                    labels[i as int],
                    labels[y],
                ) by {
                    assert(cell(m@, i as int, y) == flags@[y]);
                    let list = self.successors(i as int);
                    if list.contains(labels[y]) {
                        let x = list.index_of(labels[y]);
                        assert(0 <= x < k && list[x] == labels[y]);
                    }
                }
                assert forall|x: int, y: int| 0 <= x < i + 1 && 0 <= y < n implies #[trigger] cell(
                    m@,
                    x,
                    y,
                ) == adjacent(self@, labels[x], labels[y]) by {
                    if x < i {
                        assert(m@[x] == prior_rows[x]);
                        assert(cell(prior_rows, x, y) == adjacent(self@, labels[x], labels[y]));
                    }
                }
                assert forall|x: int, y: int| 0 <= x < i + 1 && 0 <= y < n implies (#[trigger] m@[x].1@[y]).0@
                    == labels[y] by {
                    if x < i {
                        assert(m@[x] == prior_rows[x]);
                    }
                }
            }
            i += 1;
        }
        m
    }

    /// The reachability matrix: the flag for row `a` and column `b` says
    /// whether some walk of zero or more edges leads from `a` to `b`.
    pub fn get_path_matrix(&self) -> (m: Matrix)
        requires
            self.wf(),
        ensures
            is_reachability_matrix(m@, self@, self.labels()),
            forall|i: int| 0 <= i < m@.len() ==> cell(m@, i, i),
    {
        let ghost labels = self.labels();
        let n = self.adj_list.len();
        let mut m: Matrix = Vec::new();
        let mut i: usize = 0;
        while i < n
            invariant
                self.wf(),
                labels == self.labels(),
                n == labels.len(),
                i <= n,
                m@.len() == i,
                forall|x: int|
                    0 <= x < i ==> (#[trigger] m@[x]).0@ == labels[x] && m@[x].1@.len() == n,
                forall|x: int, y: int|
                    0 <= x < i && 0 <= y < n ==> (#[trigger] m@[x].1@[y]).0@ == labels[y],
                forall|x: int, y: int|
                    0 <= x < i && 0 <= y < n ==> #[trigger] cell(m@, x, y) == reachable(
                        self@,
                        labels[x],
                        labels[y],
                    ),
            decreases n - i,
        {
            let mut path_found: bool = false;
            let mut visited: Vec<bool> = cleared(n);
            proof {
                lemma_cleared_marks_nothing(labels, visited@);
                self.lemma_view_at(i as int);
            }
            let src = self.adj_list[i].label.clone();
            let dest = self.adj_list[i].label.clone();
            self.DFS(src, dest, &mut path_found, &mut visited);
            let row = self.labelled_row(&visited);
            let ghost prior_rows = m@;
            m.push((self.adj_list[i].label.clone(), row));
            proof {
                assert forall|x: int, y: int| 0 <= x < i + 1 && 0 <= y < n implies #[trigger] cell(
                    m@,
                    x,
                    y,
                ) == reachable(self@, labels[x], labels[y]) by {
                    if x < i {
                        assert(m@[x] == prior_rows[x]);
                        assert(cell(prior_rows, x, y) == reachable(self@, labels[x], labels[y]));
                    } else {
                        assert(cell(m@, x, y) == visited@[y]);
                    }
                }
                assert forall|x: int, y: int| 0 <= x < i + 1 && 0 <= y < n implies (#[trigger] m@[x].1@[y]).0@
                    == labels[y] by {
                    if x < i {
                        assert(m@[x] == prior_rows[x]);
                    }
                }
            }
            i += 1;
        }
        proof {
            assert forall|x: int| 0 <= x < m@.len() implies cell(m@, x, x) by {
                lemma_reachable_reflexive(self@, labels[x]);
            }
        }
        m
    }
}

} // verus!
