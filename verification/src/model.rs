//! The mathematical model of a graph: a map from each vertex label to the
//! sequence of its direct successors, and the rules by which edges enter it.

use vstd::prelude::*;
use crate::label::label_lt;

verus! {

/// A vertex label as contracts see it.
pub type Label = Seq<char>;

/// The adjacency relation as contracts see it.
pub type Adjacency = Map<Seq<char>, Seq<Seq<char>>>;

/// The data invariants of an adjacency map: finitely many vertices, every
/// successor is itself a vertex, no successor list repeats a label, and no
/// vertex is its own successor.
pub open spec fn valid_adjacency(adj: Adjacency) -> bool {
    &&& adj.dom().finite()
    &&& forall|l: Label| #[trigger]
        adj.dom().contains(l) ==> {
            &&& adj[l].no_duplicates()
            &&& !adj[l].contains(l)
            &&& forall|j: int| 0 <= j < adj[l].len() ==> adj.dom().contains(#[trigger] adj[l][j])
        }
}

/// The adjacency map after the edge from `s` to `d` has been added.
///
/// A new source starts with `d` as its only successor, or with none when
/// the edge is a self-loop. A known source gains `d` at the end of its list
/// unless `d` is already there or the edge is a self-loop. In every case `d`
/// is a vertex afterwards, with no successors if it was not one before.
pub open spec fn insert_edge(adj: Adjacency, s: Label, d: Label) -> Adjacency {
    let with_src = if !adj.dom().contains(s) {
        adj.insert(
            s,
            if d == s {
                Seq::<Label>::empty()
            } else {
                seq![d]
            },
        )
    } else if !adj[s].contains(d) && d != s {
        adj.insert(s, adj[s].push(d))
    } else {
        adj
    };
    if with_src.dom().contains(d) {
        with_src
    } else {
        with_src.insert(d, Seq::<Label>::empty())
    }
}

/// The adjacency map after `edges` have been added to `adj` in order.
pub open spec fn insert_edges(adj: Adjacency, edges: Seq<(Label, Label)>) -> Adjacency
    decreases edges.len(),
{
    if edges.len() == 0 {
        adj
    } else {
        insert_edge(insert_edges(adj, edges.drop_last()), edges.last().0, edges.last().1)
    }
}

/// The adjacency map built from a list of edges taken in order, starting
/// from the empty graph.
pub open spec fn build(edges: Seq<(Label, Label)>) -> Adjacency {
    insert_edges(Map::empty(), edges)
}

/// Every element strictly precedes each later one in label order.
pub open spec fn strictly_sorted(labels: Seq<Label>) -> bool {
    forall|i: int, j: int| 0 <= i < j < labels.len() ==> label_lt(#[trigger] labels[i], #[trigger] labels[j])
}

/// Adding an edge keeps the data invariants.
pub proof fn lemma_insert_edge_valid(adj: Adjacency, s: Label, d: Label)
    requires
        valid_adjacency(adj),
    ensures
        valid_adjacency(insert_edge(adj, s, d)),
{
    let r = insert_edge(adj, s, d);
    assert forall|l: Label| #[trigger] r.dom().contains(l) implies {
        &&& r[l].no_duplicates()
        &&& !r[l].contains(l)
        &&& forall|j: int| 0 <= j < r[l].len() ==> r.dom().contains(#[trigger] r[l][j])
    } by {
        if l == s && adj.dom().contains(s) && !adj[s].contains(d) && d != s {
            let old_list = adj[s];
            assert(r[l] == old_list.push(d));
            assert forall|i: int, j: int| 0 <= i < r[l].len() && 0 <= j < r[l].len() && i != j implies r[l][i] != r[l][j] by {
                if i == old_list.len() {
                    assert(old_list[j] != d);
                } else if j == old_list.len() {
                    assert(old_list[i] != d);
                }
            }
            assert forall|j: int| 0 <= j < r[l].len() implies r.dom().contains(#[trigger] r[l][j]) by {
                if j < old_list.len() {
                    assert(adj.dom().contains(old_list[j]));
                }
            }
        } else if adj.dom().contains(l) {
            assert(r[l] == adj[l]);
            assert forall|j: int| 0 <= j < r[l].len() implies r.dom().contains(#[trigger] r[l][j]) by {
                assert(adj.dom().contains(adj[l][j]));
            }
        } else if l == s && d != s {
            assert(r[l] == seq![d]);
        } else {
            assert(r[l] == Seq::<Label>::empty());
        }
    }
}

/// Both ends of an added edge are vertices afterwards, the source is not
/// its own successor, and unless the edge is a self-loop its destination is
/// a successor of its source.
pub proof fn lemma_insert_edge_effect(adj: Adjacency, s: Label, d: Label)
    requires
        valid_adjacency(adj),
    ensures
        insert_edge(adj, s, d).dom().contains(s),
        insert_edge(adj, s, d).dom().contains(d),
        !insert_edge(adj, s, d)[s].contains(s),
        s != d ==> insert_edge(adj, s, d)[s].contains(d),
{
    let r = insert_edge(adj, s, d);
    lemma_insert_edge_valid(adj, s, d);
    if s != d {
        if !adj.dom().contains(s) {
            assert(r[s] == seq![d]);
            assert(r[s][0] == d);
        } else if !adj[s].contains(d) {
            assert(r[s] == adj[s].push(d));
            assert(r[s][adj[s].len() as int] == d);
        }
    }
}

/// A self-loop adds its vertex if it is new and changes no successor list
/// of a vertex already there.
pub proof fn lemma_insert_self_loop(adj: Adjacency, l: Label)
    requires
        valid_adjacency(adj),
    ensures
        insert_edge(adj, l, l).dom() == adj.dom().insert(l),
        !insert_edge(adj, l, l)[l].contains(l),
        adj.dom().contains(l) ==> insert_edge(adj, l, l) == adj,
        !adj.dom().contains(l) ==> insert_edge(adj, l, l) == adj.insert(l, Seq::<Label>::empty()),
{
    let r = insert_edge(adj, l, l);
    if adj.dom().contains(l) {
        assert(r =~= adj);
        assert(adj.dom().insert(l) =~= adj.dom());
    } else {
        assert(r =~= adj.insert(l, Seq::<Label>::empty()));
    }
}

/// Adding an edge removes nothing: every vertex stays, and every successor
/// stays where it was in its list.
pub proof fn lemma_insert_edge_keeps(adj: Adjacency, s: Label, d: Label, l: Label)
    requires
        adj.dom().contains(l),
    ensures
        insert_edge(adj, s, d).dom().contains(l),
        adj[l].is_prefix_of(insert_edge(adj, s, d)[l]),
{
    let r = insert_edge(adj, s, d);
    if l == s && !adj[s].contains(d) && d != s {
        assert(r[l] == adj[l].push(d));
        assert(r[l].subrange(0, adj[l].len() as int) =~= adj[l]);
    } else {
        assert(r[l] == adj[l]);
        assert(r[l].subrange(0, adj[l].len() as int) =~= adj[l]);
    }
}

/// Adding an edge that the graph already has changes nothing.
pub proof fn lemma_insert_present_edge(adj: Adjacency, s: Label, d: Label)
    requires
        valid_adjacency(adj),
        adj.dom().contains(s),
        adj[s].contains(d),
    ensures
        insert_edge(adj, s, d) == adj,
{
    let j = adj[s].index_of(d);
    assert(adj.dom().contains(adj[s][j]));
    assert(insert_edge(adj, s, d) =~= adj);
}

/// Adding edges in order keeps the data invariants.
pub proof fn lemma_insert_edges_valid(adj: Adjacency, edges: Seq<(Label, Label)>)
    requires
        valid_adjacency(adj),
    ensures
        valid_adjacency(insert_edges(adj, edges)),
    decreases edges.len(),
{
    if edges.len() > 0 {
        lemma_insert_edges_valid(adj, edges.drop_last());
        lemma_insert_edge_valid(
            insert_edges(adj, edges.drop_last()),
            edges.last().0,
            edges.last().1,
        );
    }
}

/// A graph built from edges satisfies the data invariants.
pub proof fn lemma_build_valid(edges: Seq<(Label, Label)>)
    ensures
        valid_adjacency(build(edges)),
{
    assert(valid_adjacency(Map::<Label, Seq<Label>>::empty()));
    lemma_insert_edges_valid(Map::empty(), edges);
}

/// Every edge given to `build` has both ends among the vertices of the
/// result, and unless it is a self-loop its destination among the successors
/// of its source.
pub proof fn lemma_build_complete(edges: Seq<(Label, Label)>, i: int)
    requires
        0 <= i < edges.len(),
    ensures
        build(edges).dom().contains(edges[i].0),
        build(edges).dom().contains(edges[i].1),
        edges[i].0 != edges[i].1 ==> build(edges)[edges[i].0].contains(edges[i].1),
    decreases edges.len(),
{
    let rest = edges.drop_last();
    let last = edges.last();
    lemma_build_valid(rest);
    if i == edges.len() - 1 {
        lemma_insert_edge_effect(build(rest), last.0, last.1);
    } else {
        lemma_build_complete(rest, i);
        assert(rest[i] == edges[i]);
        let (s, d) = edges[i];
        lemma_insert_edge_keeps(build(rest), last.0, last.1, s);
        lemma_insert_edge_keeps(build(rest), last.0, last.1, d);
        if s != d {
            let j = build(rest)[s].index_of(d);
            assert(build(edges)[s][j] == d);
        }
    }
}

/// After `build`, adding again an edge that the graph has leaves the
/// adjacency map, and with it the number of vertices, unchanged.
pub proof fn lemma_build_then_present_edge(edges: Seq<(Label, Label)>, s: Label, d: Label)
    requires
        build(edges).dom().contains(s),
        build(edges)[s].contains(d),
    ensures
        insert_edge(build(edges), s, d) == build(edges),
        insert_edge(build(edges), s, d).dom().len() == build(edges).dom().len(),
{
    lemma_build_valid(edges);
    lemma_insert_present_edge(build(edges), s, d);
}

/// After `build`, adding again any edge of the input leaves the adjacency
/// map unchanged.
pub proof fn lemma_build_then_listed_edge(edges: Seq<(Label, Label)>, i: int)
    requires
        0 <= i < edges.len(),
    ensures
        insert_edge(build(edges), edges[i].0, edges[i].1) == build(edges),
{
    lemma_build_valid(edges);
    lemma_build_complete(edges, i);
    let (s, d) = edges[i];
    if s != d {
        lemma_insert_present_edge(build(edges), s, d);
    } else {
        lemma_insert_self_loop(build(edges), s);
    }
}

} // verus!
