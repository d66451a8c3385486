//! Paths and reachability, and the traversal that decides them.

use vstd::prelude::*;
use crate::graph::Graph;
use crate::model::{Adjacency, Label};

verus! {

/// `p` is a walk through `adj`: it has at least one vertex, and every step
/// leads from a vertex of the graph to one of its successors.
pub open spec fn is_path(adj: Adjacency, p: Seq<Label>) -> bool {
    &&& p.len() > 0
    &&& forall|i: int|
        0 <= i < p.len() - 1 ==> adj.dom().contains(#[trigger] p[i]) && adj[p[i]].contains(
            p[i + 1],
        )
}

/// No vertex of `p` after the first lies in `blocked`.
pub open spec fn avoids(p: Seq<Label>, blocked: Set<Label>) -> bool {
    forall|i: int| 1 <= i < p.len() ==> !blocked.contains(#[trigger] p[i])
}

/// Some walk leads from `a` to `b` without entering `blocked` after its
/// first vertex.
pub open spec fn reaches_avoiding(adj: Adjacency, blocked: Set<Label>, a: Label, b: Label) -> bool {
    exists|p: Seq<Label>| #[trigger]
        is_path(adj, p) && p[0] == a && p.last() == b && avoids(p, blocked)
}

/// Some walk of zero or more steps leads from `a` to `b`.
pub open spec fn reachable(adj: Adjacency, a: Label, b: Label) -> bool {
    reaches_avoiding(adj, Set::empty(), a, b)
}

/// The labels whose position in `labels` is flagged in `flags`.
pub open spec fn marked(labels: Seq<Label>, flags: Seq<bool>) -> Set<Label> {
    Set::new(|l: Label| is_marked(labels, flags, l))
}

/// Whether `l` stands at a flagged position of `labels`.
pub open spec fn is_marked(labels: Seq<Label>, flags: Seq<bool>, l: Label) -> bool {
    exists|i: int| 0 <= i < labels.len() && 0 <= i < flags.len() && #[trigger] flags[i] && labels[i] == l
}

/// Every vertex reaches itself, by the walk of no steps.
pub proof fn lemma_reaches_self(adj: Adjacency, blocked: Set<Label>, a: Label)
    ensures
        reaches_avoiding(adj, blocked, a, a),
{
    let p = seq![a];
    assert(is_path(adj, p) && p[0] == a && p.last() == a && avoids(p, blocked));
}

/// A walk can be extended by one edge to a vertex outside `blocked`.
pub proof fn lemma_reaches_step(adj: Adjacency, blocked: Set<Label>, a: Label, b: Label, c: Label)
    requires
        reaches_avoiding(adj, blocked, a, b),
        adj.dom().contains(b),
        adj[b].contains(c),
        !blocked.contains(c),
    ensures
        reaches_avoiding(adj, blocked, a, c),
{
    let p = choose|p: Seq<Label>| #[trigger]
        is_path(adj, p) && p[0] == a && p.last() == b && avoids(p, blocked);
    let q = p.push(c);
    assert forall|i: int| 0 <= i < q.len() - 1 implies adj.dom().contains(#[trigger] q[i])
        && adj[q[i]].contains(q[i + 1]) by {
        if i < p.len() - 1 {
            assert(q[i] == p[i]);
            assert(q[i + 1] == p[i + 1]);
        }
    }
    assert forall|i: int| 1 <= i < q.len() implies !blocked.contains(#[trigger] q[i]) by {
        if i < p.len() {
            assert(q[i] == p[i]);
        }
    }
    assert(is_path(adj, q) && q[0] == a && q.last() == c && avoids(q, blocked));
}

/// Reachability is transitive: a walk from `a` to `b` followed by one from
/// `b` to `c` is a walk from `a` to `c`.
pub proof fn lemma_reachable_transitive(adj: Adjacency, a: Label, b: Label, c: Label)
    requires
        reachable(adj, a, b),
        reachable(adj, b, c),
    ensures
        reachable(adj, a, c),
{
    let none = Set::<Label>::empty();
    let p = choose|p: Seq<Label>| #[trigger]
        is_path(adj, p) && p[0] == a && p.last() == b && avoids(p, none);
    let q = choose|q: Seq<Label>| #[trigger]
        is_path(adj, q) && q[0] == b && q.last() == c && avoids(q, none);
    let r = p + q.drop_first();
    assert forall|i: int| 0 <= i < r.len() - 1 implies adj.dom().contains(#[trigger] r[i])
        && adj[r[i]].contains(r[i + 1]) by {
        if i < p.len() - 1 {
            assert(r[i] == p[i] && r[i + 1] == p[i + 1]);
        } else {
            let k = i - (p.len() - 1);
            assert(r[i] == q[k]);
            assert(r[i + 1] == q[k + 1]);
        }
    }
    assert(is_path(adj, r) && r[0] == a && r.last() == c && avoids(r, none));
}

/// Reachability of every vertex from itself.
pub proof fn lemma_reachable_reflexive(adj: Adjacency, a: Label)
    ensures
        reachable(adj, a, a),
{
    lemma_reaches_self(adj, Set::empty(), a);
}

/// How many positions of `flags` are not yet set.
pub open spec fn unset_count(flags: Seq<bool>) -> nat
    decreases flags.len(),
{
    if flags.len() == 0 {
        0
    } else {
        unset_count(flags.drop_last()) + if flags.last() {
            0nat
        } else {
            1nat
        }
    }
}

/// Setting a position that was not set lowers the count by one.
proof fn lemma_unset_count_update(flags: Seq<bool>, i: int)
    requires
        0 <= i < flags.len(),
        !flags[i],
    ensures
        unset_count(flags.update(i, true)) + 1 == unset_count(flags),
    decreases flags.len(),
{
    let after = flags.update(i, true);
    if i == flags.len() - 1 {
        assert(after.drop_last() =~= flags.drop_last());
    } else {
        assert(after.drop_last() =~= flags.drop_last().update(i, true));
        lemma_unset_count_update(flags.drop_last(), i);
    }
}

/// Position `i` was set by the traversal that started at `start` from the
/// flags `before`.
spec fn fresh(before: Seq<bool>, now: Seq<bool>, start: int, i: int) -> bool {
    now[i] && (!before[i] || i == start)
}

/// Position `i` is waiting on the stack.
spec fn on_stack(stack: Seq<usize>, i: int) -> bool {
    exists|k: int| 0 <= k < stack.len() && #[trigger] stack[k] == i
}

/// Every successor of the vertex at position `i` is flagged.
spec fn closed_at(g: &Graph, now: Seq<bool>, i: int) -> bool {
    forall|j: int|
        0 <= j < g.successors(i).len() ==> is_marked(g.labels(), now, #[trigger] g.successors(i)[j])
}

/// What holds of a traversal between two steps.
spec fn traversal_inv(
    g: &Graph,
    before: Seq<bool>,
    now: Seq<bool>,
    stack: Seq<usize>,
    start: int,
) -> bool {
    let labels = g.labels();
    let blocked = marked(labels, before);
    &&& before.len() == labels.len()
    &&& now.len() == labels.len()
    &&& 0 <= start < labels.len()
    &&& now[start]
    &&& forall|i: int| 0 <= i < labels.len() && before[i] ==> #[trigger] now[i]
    &&& forall|i: int|
        0 <= i < labels.len() && #[trigger] fresh(before, now, start, i) ==> reaches_avoiding(
            g@,
            blocked,
            labels[start],
            labels[i],
        )
    &&& forall|k: int|
        0 <= k < stack.len() ==> 0 <= #[trigger] stack[k] < labels.len() && fresh(
            before,
            now,
            start,
            stack[k] as int,
        )
}

/// The successors of every freshly set vertex that is not waiting, other
/// than the one at `current`, are all flagged.
spec fn settled(
    g: &Graph,
    before: Seq<bool>,
    now: Seq<bool>,
    stack: Seq<usize>,
    start: int,
    current: int,
) -> bool {
    forall|i: int|
        0 <= i < g.labels().len() && fresh(before, now, start, i) && !on_stack(stack, i) && i
            != current ==> #[trigger] closed_at(g, now, i)
}

/// Once nothing waits, every vertex on a walk from the start that avoids the
/// vertices flagged beforehand has been freshly set.
proof fn lemma_walk_is_fresh(
    g: &Graph,
    before: Seq<bool>,
    now: Seq<bool>,
    start: int,
    p: Seq<Label>,
    k: int,
) -> (x: int)
    requires
        g.wf(),
        traversal_inv(g, before, now, Seq::<usize>::empty(), start),
        settled(g, before, now, Seq::<usize>::empty(), start, -1),
        is_path(g@, p),
        p[0] == g.labels()[start],
        avoids(p, marked(g.labels(), before)),
        0 <= k < p.len(),
    ensures
        0 <= x < g.labels().len(),
        fresh(before, now, start, x),
        g.labels()[x] == p[k],
    decreases k,
{
    if k == 0 {
        start
    } else {
        let labels = g.labels();
        let y = lemma_walk_is_fresh(g, before, now, start, p, k - 1);
        g.lemma_view_at(y);
        assert(!on_stack(Seq::<usize>::empty(), y));
        assert(closed_at(g, now, y));
        assert(g@[p[k - 1]].contains(p[k - 1 + 1]));
        let j = g.successors(y).index_of(p[k]);
        assert(is_marked(labels, now, g.successors(y)[j]));
        let x = choose|x: int| 0 <= x < labels.len() && 0 <= x < now.len() && #[trigger] now[x] && labels[x] == p[k];
        if before[x] {
            assert(is_marked(labels, before, p[k]));
            assert(marked(labels, before).contains(p[k]));
        }
        x
    }
}

/// Why a query cannot be answered.
#[derive(Debug, Clone, Copy, PartialEq, Eq, Structural)]
pub enum GraphError {
    /// A label of the query is not a vertex of the graph.
    UnknownVertex,
}

impl Graph {
    /// Traverses the graph from `val`, flagging in `visited` every vertex it
    /// enters, and never entering a vertex that was flagged on entry (other
    /// than `val` itself). `visited` has one flag per vertex, in the order
    /// of `labels()`. `path_found` is set if the traversal enters `dest`.
    #[allow(non_snake_case)]
    pub fn DFS(&self, val: String, dest: String, path_found: &mut bool, visited: &mut Vec<bool>)
        requires
            self.wf(),
            self@.dom().contains(val@),
            old(visited)@.len() == self.labels().len(),
        ensures
            final(visited)@.len() == old(visited)@.len(),
            forall|i: int|
                0 <= i < self.labels().len() ==> (#[trigger] final(visited)@[i] == (old(
                    visited,
                )@[i] || reaches_avoiding(
                    self@,
                    marked(self.labels(), old(visited)@),
                    val@,
                    self.labels()[i],
                ))),
            *final(path_found) == (*old(path_found) || reaches_avoiding(
                self@,
                marked(self.labels(), old(visited)@),
                val@,
                dest@,
            )),
    {
        let ghost before = visited@;
        let ghost found_before = *path_found;
        let ghost labels = self.labels();
        let ghost blocked = marked(labels, before);
        let (start, _) = self.find(val.as_str());
        let (target, has_target) = self.find(dest.as_str());
        proof {
            self.lemma_dom();
            self.lemma_labels_distinct();
            lemma_reaches_self(self@, blocked, val@);
        }
        visited[start] = true;
        if has_target && target == start {
            *path_found = true;
        }
        let mut stack: Vec<usize> = Vec::new();
        stack.push(start);
        proof {
            assert(on_stack(stack@, start as int)) by {
                assert(stack@[0] == start);
            }
        }
        while stack.len() > 0
            invariant
                self.wf(),
                labels == self.labels(),
                labels.no_duplicates(),
                blocked == marked(labels, before),
                labels[start as int] == val@,
                has_target == labels.contains(dest@),
                has_target ==> target < labels.len() && labels[target as int] == dest@,
                traversal_inv(self, before, visited@, stack@, start as int),
                settled(self, before, visited@, stack@, start as int, -1),
                *path_found == (found_before || (has_target && fresh(
                    before,
                    visited@,
                    start as int,
                    target as int,
                ))),
            decreases 2 * unset_count(visited@) + stack.len(),
        {
            let ghost stack_before = stack@;
            let ghost measure = 2 * unset_count(visited@) + stack.len();
            let v = stack.pop().unwrap();
            let count = self.adj_list[v].neighbors.len();
            proof {
                assert(stack_before[stack_before.len() - 1] == v);
                assert forall|i: int|
                    0 <= i < labels.len() && fresh(before, visited@, start as int, i) && !on_stack(
                        stack@,
                        i,
                    ) && i != v implies #[trigger] closed_at(self, visited@, i) by {
                    if on_stack(stack_before, i) {
                        let k = choose|k: int|
                            0 <= k < stack_before.len() && #[trigger] stack_before[k] == i;
                        assert(stack@[k] == i);
                    }
                }
                self.lemma_view_at(v as int);
            }
            let mut k: usize = 0;
            while k < count
                invariant
                    self.wf(),
                    labels == self.labels(),
                    labels.no_duplicates(),
                    blocked == marked(labels, before),
                    labels[start as int] == val@,
                    has_target == labels.contains(dest@),
                    has_target ==> target < labels.len() && labels[target as int] == dest@,
                    v < labels.len(),
                    count == self.successors(v as int).len(),
                    k <= count,
                    self@[labels[v as int]] == self.successors(v as int),
                    fresh(before, visited@, start as int, v as int),
                    traversal_inv(self, before, visited@, stack@, start as int),
                    settled(self, before, visited@, stack@, start as int, v as int),
                    forall|j: int|
                        0 <= j < k ==> is_marked(
                            labels,
                            visited@,
                            #[trigger] self.successors(v as int)[j],
                        ),
                    *path_found == (found_before || (has_target && fresh(
                        before,
                        visited@,
                        start as int,
                        target as int,
                    ))),
                    2 * unset_count(visited@) + stack.len() < measure,
                decreases count - k,
            {
                let ghost next = self.successors(v as int)[k as int];
                let (w, _) = self.find(self.adj_list[v].neighbors[k].as_str());
                proof {
                    assert(self@.dom().contains(labels[v as int]));
                    assert(self@.dom().contains(self@[labels[v as int]][k as int]));
                    assert(labels.contains(next));
                    assert(labels[w as int] == next);
                }
                if !visited[w] {
                    let ghost now = visited@;
                    let ghost stack_now = stack@;
                    visited[w] = true;
                    if has_target && w == target {
                        *path_found = true;
                    }
                    stack.push(w);
                    proof {
                        lemma_unset_count_update(now, w as int);
                        assert(!blocked.contains(next)) by {
                            if is_marked(labels, before, next) {
                                let i = choose|i: int|
                                    0 <= i < labels.len() && 0 <= i < before.len()
                                        && #[trigger] before[i] && labels[i] == next;
                                assert(i == w);
                                assert(now[i]);
                            }
                        }
                        assert(self@[labels[v as int]].contains(next));
                        lemma_reaches_step(self@, blocked, val@, labels[v as int], next);
                        assert(on_stack(stack@, w as int)) by {
                            assert(stack@[stack_now.len() as int] == w);
                        }
                        assert forall|i: int|
                            0 <= i < labels.len() && fresh(before, visited@, start as int, i)
                                && !on_stack(stack@, i) && i != v implies #[trigger] closed_at(
                            self,
                            visited@,
                            i,
                        ) by {
                            assert(i != w);
                            assert(fresh(before, now, start as int, i));
                            if on_stack(stack_now, i) {
                                let x = choose|x: int|
                                    0 <= x < stack_now.len() && #[trigger] stack_now[x] == i;
                                assert(stack@[x] == i);
                            }
                            assert(closed_at(self, now, i));
                            lemma_closed_at_grows(self, now, visited@, i);
                        }
                        assert forall|j: int| 0 <= j < k + 1 implies is_marked(
                            labels,
                            visited@,
                            #[trigger] self.successors(v as int)[j],
                        ) by {
                            if j < k {
                                lemma_is_marked_grows(
                                    labels,
                                    now,
                                    visited@,
                                    self.successors(v as int)[j],
                                );
                            } else {
                                assert(visited@[w as int] && labels[w as int] == next);
                            }
                        }
                        assert forall|x: int| 0 <= x < stack@.len() implies 0 <= #[trigger] stack@[x]
                            < labels.len() && fresh(before, visited@, start as int, stack@[x] as int) by {
                            if x < stack_now.len() {
                                assert(stack@[x] == stack_now[x]);
                            }
                        }
                        assert forall|i: int|
                            0 <= i < labels.len() && #[trigger] fresh(
                                before,
                                visited@,
                                start as int,
                                i,
                            ) implies reaches_avoiding(self@, blocked, labels[start as int], labels[i]) by {
                            if i != w {
                                assert(fresh(before, now, start as int, i));
                            }
                        }
                    }
                } else {
                    proof {
                        assert(visited@[w as int] && labels[w as int] == next);
                    }
                }
                k += 1;
            }
            proof {
                assert(closed_at(self, visited@, v as int));
            }
        }
        proof {
            assert(stack@ =~= Seq::<usize>::empty());
            assert forall|i: int| 0 <= i < labels.len() implies (#[trigger] visited@[i] == (before[i]
                || reaches_avoiding(self@, blocked, val@, labels[i]))) by {
                if reaches_avoiding(self@, blocked, val@, labels[i]) {
                    let p = choose|p: Seq<Label>| #[trigger]
                        is_path(self@, p) && p[0] == val@ && p.last() == labels[i] && avoids(
                            p,
                            blocked,
                        );
                    let x = lemma_walk_is_fresh(self, before, visited@, start as int, p, p.len() - 1);
                    assert(x == i);
                }
                if visited@[i] && !before[i] {
                    assert(fresh(before, visited@, start as int, i));
                }
            }
            if reaches_avoiding(self@, blocked, val@, dest@) {
                let p = choose|p: Seq<Label>| #[trigger]
                    is_path(self@, p) && p[0] == val@ && p.last() == dest@ && avoids(p, blocked);
                let x = lemma_walk_is_fresh(self, before, visited@, start as int, p, p.len() - 1);
                assert(labels.contains(dest@));
                assert(x == target);
            }
        }
    }
}

/// A list of `n` flags, none of them set.
pub(crate) fn cleared(n: usize) -> (flags: Vec<bool>)
    ensures
        flags@.len() == n,
        forall|i: int| 0 <= i < n ==> !#[trigger] flags@[i],
{
    let mut flags: Vec<bool> = Vec::new();
    while flags.len() < n
        invariant
            flags@.len() <= n,
            forall|i: int| 0 <= i < flags@.len() ==> !#[trigger] flags@[i],
        decreases n - flags@.len(),
    {
        flags.push(false);
    }
    flags
}

/// Where no flag is set, no label is marked.
pub(crate) proof fn lemma_cleared_marks_nothing(labels: Seq<Label>, flags: Seq<bool>)
    requires
        forall|i: int| 0 <= i < flags.len() ==> !#[trigger] flags[i],
    ensures
        marked(labels, flags) == Set::<Label>::empty(),
{
    assert(marked(labels, flags) =~= Set::<Label>::empty());
}

impl Graph {
    /// Whether some walk of zero or more edges leads from `src` to `dest`.
    /// Both must be vertices of the graph.
    pub fn has_path(&self, src: String, dest: String) -> (r: Result<bool, GraphError>)
        requires
            self.wf(),
        ensures
            r is Ok <==> self@.dom().contains(src@) && self@.dom().contains(dest@),
            r is Ok ==> r->Ok_0 == reachable(self@, src@, dest@),
            r is Err ==> r->Err_0 == GraphError::UnknownVertex,
    {
        let (_, has_src) = self.find(src.as_str());
        let (_, has_dest) = self.find(dest.as_str());
        proof {
            self.lemma_dom();
        }
        if !has_src || !has_dest {
            return Err(GraphError::UnknownVertex);
        }
        if src == dest {
            proof {
                lemma_reachable_reflexive(self@, src@);
            }
            return Ok(true);
        }
        let mut path_found: bool = false;
        let mut visited: Vec<bool> = cleared(self.adj_list.len());
        proof {
            lemma_cleared_marks_nothing(self.labels(), visited@);
        }
        self.DFS(src, dest, &mut path_found, &mut visited);
        Ok(path_found)
    }
}

/// Flagging more positions keeps a flagged label flagged.
proof fn lemma_is_marked_grows(labels: Seq<Label>, a: Seq<bool>, b: Seq<bool>, l: Label)
    requires
        a.len() == b.len(),
        forall|i: int| 0 <= i < a.len() && a[i] ==> #[trigger] b[i],
        is_marked(labels, a, l),
    ensures
        is_marked(labels, b, l),
{
    let i = choose|i: int| 0 <= i < labels.len() && 0 <= i < a.len() && #[trigger] a[i] && labels[i] == l;
    assert(b[i]);
}

/// Flagging more positions keeps a vertex's successors all flagged.
proof fn lemma_closed_at_grows(g: &Graph, a: Seq<bool>, b: Seq<bool>, i: int)
    requires
        a.len() == b.len(),
        forall|x: int| 0 <= x < a.len() && a[x] ==> #[trigger] b[x],
        closed_at(g, a, i),
    ensures
        closed_at(g, b, i),
{
    assert forall|j: int| 0 <= j < g.successors(i).len() implies is_marked(
        g.labels(),
        b,
        #[trigger] g.successors(i)[j],
    ) by {
        lemma_is_marked_grows(g.labels(), a, b, g.successors(i)[j]);
    }
}

} // verus!
