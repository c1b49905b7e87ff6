//! What the backtracking search for a Hamiltonian cycle holds on to: the
//! trail that it has walked, and the trails that it has shown to lead
//! nowhere.

use vstd::prelude::*;
use vstd::set_lib::{lemma_len_subset, lemma_subset_equality};
use crate::graph::{has_edge, is_hamiltonian_cycle, lemma_cycle_length, successor};

verus! {

/// Whether `p` lists distinct nodes of `g`, each of which may give to the
/// next one.
#[verifier::opaque]
pub open spec fn is_trail(g: Map<u128, Set<u128>>, p: Seq<u128>) -> bool {
    &&& p.no_duplicates()
    &&& forall|i: int| 0 <= i < p.len() ==> g.contains_key(#[trigger] p[i])
    &&& forall|i: int, j: int|
        0 <= i && j == i + 1 && j < p.len() ==> has_edge(g, #[trigger] p[i], #[trigger] p[j])
}

/// Whether `c` begins with the elements of `p`, in their order.
pub open spec fn starts_with(c: Seq<u128>, p: Seq<u128>) -> bool {
    &&& p.len() <= c.len()
    &&& forall|i: int| 0 <= i < p.len() ==> c[i] == #[trigger] p[i]
}

/// Whether no Hamiltonian cycle of `g` begins with `p`.
#[verifier::opaque]
pub open spec fn no_cycle_through(g: Map<u128, Set<u128>>, p: Seq<u128>) -> bool {
    forall|c: Seq<u128>| #[trigger] is_hamiltonian_cycle(g, c) ==> !starts_with(c, p)
}

/// A trail has at most as many elements as the graph has nodes, and one of
/// that many elements visits every node.
pub proof fn lemma_trail_fits(g: Map<u128, Set<u128>>, p: Seq<u128>)
    requires
        g.dom().finite(),
        is_trail(g, p),
    ensures
        p.len() <= g.dom().len(),
        p.len() == g.dom().len() ==> p.to_set() == g.dom(),
{
    reveal(is_trail);
    p.unique_seq_to_set();
    assert(p.to_set().subset_of(g.dom()));
    lemma_len_subset(p.to_set(), g.dom());
    if p.len() == g.dom().len() {
        lemma_subset_equality(p.to_set(), g.dom());
    }
}

/// What begins with a sequence and one more element begins with the sequence.
pub proof fn lemma_starts_with_shorter(c: Seq<u128>, p: Seq<u128>, x: u128)
    requires
        starts_with(c, p.push(x)),
    ensures
        starts_with(c, p),
        c[p.len() as int] == x,
{
    assert forall|i: int| 0 <= i < p.len() implies c[i] == #[trigger] p[i] by {
        assert(p.push(x)[i] == p[i]);
    }
    assert(p.push(x)[p.len() as int] == x);
}

/// A trail that is extended along an edge by a new node of the graph is a
/// trail.
pub proof fn lemma_trail_push(g: Map<u128, Set<u128>>, p: Seq<u128>, x: u128)
    requires
        is_trail(g, p),
        g.contains_key(x),
        !p.contains(x),
        p.len() > 0 ==> has_edge(g, p.last(), x),
    ensures
        is_trail(g, p.push(x)),
        p.push(x).to_set() == p.to_set().insert(x),
{
    reveal(is_trail);
    let q = p.push(x);
    assert forall|i: int, j: int| 0 <= i < q.len() && 0 <= j < q.len() && i != j implies q[i]
        != q[j] by {
        if i < p.len() {
            assert(p[i] == q[i]);
        }
        if j < p.len() {
            assert(p[j] == q[j]);
        }
    }
    assert forall|i: int| 0 <= i < q.len() implies g.contains_key(#[trigger] q[i]) by {
        if i < p.len() {
            assert(p[i] == q[i]);
        }
    }
    assert forall|i: int, j: int| 0 <= i && j == i + 1 && j < q.len() implies has_edge(
        g,
        #[trigger] q[i],
        #[trigger] q[j],
    ) by {
        if j < p.len() {
            assert(has_edge(g, p[i], p[j]));
        }
    }
    assert(q.to_set() =~= p.to_set().insert(x)) by {
        assert forall|y: u128| q.to_set().contains(y) implies p.to_set().insert(x).contains(y) by {
            let i = choose|i: int| 0 <= i < q.len() && q[i] == y;
            if i < p.len() {
                assert(p[i] == y);
            }
        }
        assert forall|y: u128| p.to_set().insert(x).contains(y) implies q.to_set().contains(y) by {
            if y == x {
                assert(q[p.len() as int] == y);
            } else {
                let i = choose|i: int| 0 <= i < p.len() && p[i] == y;
                assert(q[i] == y);
            }
        }
    }
}

/// No Hamiltonian cycle holds a node that the graph does not hold.
pub proof fn lemma_stranger_blocks(g: Map<u128, Set<u128>>, p: Seq<u128>, x: u128)
    requires
        !g.contains_key(x),
    ensures
        no_cycle_through(g, p.push(x)),
{
    reveal(no_cycle_through);
    assert forall|c: Seq<u128>| #[trigger] is_hamiltonian_cycle(g, c) implies !starts_with(
        c,
        p.push(x),
    ) by {
        if starts_with(c, p.push(x)) {
            lemma_starts_with_shorter(c, p, x);
            assert(c.to_set().contains(c[p.len() as int]));
        }
    }
}

/// No Hamiltonian cycle holds a node twice.
pub proof fn lemma_repeat_blocks(g: Map<u128, Set<u128>>, p: Seq<u128>, x: u128)
    requires
        p.contains(x),
    ensures
        no_cycle_through(g, p.push(x)),
{
    reveal(no_cycle_through);
    assert forall|c: Seq<u128>| #[trigger] is_hamiltonian_cycle(g, c) implies !starts_with(
        c,
        p.push(x),
    ) by {
        if starts_with(c, p.push(x)) {
            lemma_starts_with_shorter(c, p, x);
            let i = choose|i: int| 0 <= i < p.len() && p[i] == x;
            assert(c[i] == p[i]);
        }
    }
}

/// A trail over all nodes whose last node may give to its first is a
/// Hamiltonian cycle; where it may not, no Hamiltonian cycle begins with the
/// trail.
pub proof fn lemma_full_trail(g: Map<u128, Set<u128>>, p: Seq<u128>)
    requires
        g.dom().finite(),
        is_trail(g, p),
        p.len() > 0,
        p.len() == g.dom().len(),
    ensures
        has_edge(g, p.last(), p[0]) ==> is_hamiltonian_cycle(g, p),
        !has_edge(g, p.last(), p[0]) ==> no_cycle_through(g, p),
{
    reveal(no_cycle_through);
    reveal(is_trail);
    lemma_trail_fits(g, p);
    if has_edge(g, p.last(), p[0]) {
        assert forall|i: int| 0 <= i < p.len() implies has_edge(
            g,
            p[i],
            #[trigger] successor(p, i),
        ) by {
            if i + 1 < p.len() {
                assert(has_edge(g, p[i], p[i + 1]));
            }
        }
    } else {
        assert forall|c: Seq<u128>| #[trigger] is_hamiltonian_cycle(g, c) implies !starts_with(
            c,
            p,
        ) by {
            if starts_with(c, p) {
                lemma_cycle_length(g, c);
                let last = p.len() - 1;
                assert(c[last] == p[last]);
                assert(c[0] == p[0]);
                assert(has_edge(g, c[last], successor(c, last)));
            }
        }
    }
}

/// Where no Hamiltonian cycle begins with a trail and any one node that its
/// last node may give to, none begins with the trail, unless the trail is one
/// already.
pub proof fn lemma_dead_end(g: Map<u128, Set<u128>>, p: Seq<u128>)
    requires
        g.dom().finite(),
        0 < p.len() < g.dom().len(),
        forall|x: u128| has_edge(g, p.last(), x) ==> #[trigger] no_cycle_through(g, p.push(x)),
    ensures
        no_cycle_through(g, p),
{
    reveal(no_cycle_through);
    assert forall|c: Seq<u128>| #[trigger] is_hamiltonian_cycle(g, c) implies !starts_with(
        c,
        p,
    ) by {
        if starts_with(c, p) {
            lemma_cycle_length(g, c);
            let last = p.len() - 1;
            assert(c[last] == p[last]);
            assert(has_edge(g, c[last], successor(c, last)));
            let step = c[last + 1];
            assert(no_cycle_through(g, p.push(step)));
            assert(starts_with(c, p.push(step))) by {
                assert forall|i: int| 0 <= i < p.push(step).len() implies c[i]
                    == #[trigger] p.push(step)[i] by {
                    if i < p.len() {
                        assert(c[i] == p[i]);
                    }
                }
            }
        }
    }
}

} // verus!
