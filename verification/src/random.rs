//! Random graphs over the first letters of the alphabet.

use rand::Rng;
use vstd::prelude::*;
use crate::graph::Graph;
use crate::model::{insert_edge, insert_edges, Label};

verus! {

/// `l` is a single capital letter among the first `n` of the alphabet.
pub open spec fn is_letter_label(l: Label, n: int) -> bool {
    l.len() == 1 && 'A' as int <= l[0] as int && (l[0] as int) < 'A' as int + n
}

/// Draws a character from the half-open range `low..high` with
/// `rand::Rng::gen_range` on the generator that `rand::thread_rng` returns.
/// Trusted: the call panics on an empty range, which the precondition
/// excludes, and returns a value of the range it was given. Nothing is
/// claimed about which value is drawn, and two calls may differ. The
/// generator is seeded by the system on a thread's first use.
#[verifier::external_body]
fn random_char(low: char, high: char) -> (c: char)
    requires
        (low as int) < high as int,
    ensures
        low as int <= c as int,
        (c as int) < high as int,
{
    rand::thread_rng().gen_range(low..high)
}

/// Makes the one-character string of `c` with `char::to_string`.
/// Trusted: the string holds `c` and nothing else.
#[verifier::external_body]
fn letter_label(c: char) -> (s: String)
    ensures
        s@ == seq![c],
{
    c.to_string()
}

impl Graph {
    /// Adds the edge between the vertices named by the single characters
    /// `src` and `dest`.
    pub fn add_letter_edge(&mut self, src: char, dest: char)
        requires
            old(self).wf(),
        ensures
            final(self).wf(),
            final(self)@ == insert_edge(old(self)@, seq![src], seq![dest]),
    {
        let s = letter_label(src);
        let d = letter_label(dest);
        self.add_edge(s.as_str(), d.as_str());
    }

    /// Adds `num_nodes` edges whose ends are drawn at random from the first
    /// `num_alphas` capital letters, at most 26 of them. With edges to add,
    /// there must be at least one letter to draw from.
    pub fn gen_rand_nodes(&mut self, num_nodes: usize, num_alphas: usize)
        requires
            old(self).wf(),
            num_nodes == 0 || num_alphas >= 1,
        ensures
            final(self).wf(),
            exists|edges: Seq<(Label, Label)>|
                {
                    &&& edges.len() == num_nodes
                    &&& forall|i: int|
                        0 <= i < edges.len() ==> is_letter_label(
                            (#[trigger] edges[i]).0,
                            letter_count(num_alphas),
                        ) && is_letter_label(edges[i].1, letter_count(num_alphas))
                    &&& final(self)@ == insert_edges(old(self)@, edges)
                },
    {
        let n: u8 = if num_alphas > 26 {
            26
        } else {
            num_alphas as u8
        };
        let low: char = 'A';
        let high: char = (65u8 + n) as char;
        let ghost before = self@;
        let ghost drawn: Seq<(Label, Label)> = Seq::empty();
        let mut k: usize = 0;
        while k < num_nodes
            invariant
                self.wf(),
                k <= num_nodes,
                n as int == letter_count(num_alphas),
                num_nodes == 0 || n >= 1,
                low == 'A',
                high as int == 'A' as int + n,
                drawn.len() == k,
                forall|i: int|
                    0 <= i < drawn.len() ==> is_letter_label((#[trigger] drawn[i]).0, n as int)
                        && is_letter_label(drawn[i].1, n as int),
                self@ == insert_edges(before, drawn),
            decreases num_nodes - k,
        {
            let src = random_char(low, high);
            let dest = random_char(low, high);
            self.add_letter_edge(src, dest);
            proof {
                let extended = drawn.push((seq![src], seq![dest]));
                assert(extended.drop_last() =~= drawn);
                drawn = extended;
            }
            k += 1;
        }
        proof {
            assert(drawn.len() == num_nodes && self@ == insert_edges(before, drawn));
        }
    }
}

/// The number of letters that labels are drawn from when `num_alphas` are
/// asked for.
pub open spec fn letter_count(num_alphas: usize) -> int {
    if num_alphas > 26 {
        26
    } else {
        num_alphas as int
    }
}

} // verus!
