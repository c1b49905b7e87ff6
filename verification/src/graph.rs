//! Compatibility graphs and assignments, as mathematical objects.
//!
//! A graph is a map from each participant to the set of participants that it
//! may give to. An assignment is a map from giver to receiver.

use vstd::prelude::*;

verus! {

/// Whether `g` lets `a` give to `b`.
pub open spec fn has_edge(g: Map<u128, Set<u128>>, a: u128, b: u128) -> bool {
    g.contains_key(a) && g[a].contains(b)
}

/// The element that follows position `i` on the cyclic ordering `c`: the next
/// one, and the first one after the last.
pub open spec fn successor(c: Seq<u128>, i: int) -> u128 {
    if i + 1 < c.len() {
        c[i + 1]
    } else {
        c[0]
    }
}

/// Whether `c` lists every node of `g` exactly once such that each node may
/// give to the one that follows it, the last one to the first.
pub open spec fn is_hamiltonian_cycle(g: Map<u128, Set<u128>>, c: Seq<u128>) -> bool {
    &&& c.len() > 0
    &&& c.no_duplicates()
    &&& c.to_set() == g.dom()
    &&& forall|i: int| 0 <= i < c.len() ==> has_edge(g, c[i], #[trigger] successor(c, i))
}

/// Whether `g` has a Hamiltonian cycle at all.
pub open spec fn has_hamiltonian_cycle(g: Map<u128, Set<u128>>) -> bool {
    exists|c: Seq<u128>| is_hamiltonian_cycle(g, c)
}

/// Whether `m` maps each element of `c` to the one that follows it on `c`,
/// and nothing else.
pub open spec fn follows_cycle(m: Map<u128, u128>, c: Seq<u128>) -> bool {
    &&& m.dom() == c.to_set()
    &&& forall|i: int| 0 <= i < c.len() ==> m[c[i]] == #[trigger] successor(c, i)
}

/// Whether `m` is the assignment along some Hamiltonian cycle of `g` that
/// begins with `start`.
pub open spec fn is_cycle_assignment_from(
    g: Map<u128, Set<u128>>,
    m: Map<u128, u128>,
    start: u128,
) -> bool {
    exists|c: Seq<u128>| is_hamiltonian_cycle(g, c) && follows_cycle(m, c) && c[0] == start
}

/// Whether `m` is the assignment along some Hamiltonian cycle of `g`.
pub open spec fn is_cycle_assignment(g: Map<u128, Set<u128>>, m: Map<u128, u128>) -> bool {
    exists|c: Seq<u128>| is_hamiltonian_cycle(g, c) && follows_cycle(m, c)
}

/// Whether `m` maps `nodes` one-to-one onto itself: everybody gives once and
/// receives once.
pub open spec fn is_permutation_of(m: Map<u128, u128>, nodes: Set<u128>) -> bool {
    &&& m.dom() == nodes
    &&& m.values() == nodes
    &&& m.is_injective()
}

/// Whether nobody gives to itself under `m`.
pub open spec fn has_no_fixed_point(m: Map<u128, u128>) -> bool {
    forall|k: u128| #[trigger] m.contains_key(k) ==> m[k] != k
}

/// Whether every gift of `m` goes along an edge of `g`.
pub open spec fn goes_along(g: Map<u128, Set<u128>>, m: Map<u128, u128>) -> bool {
    forall|k: u128| #[trigger] m.contains_key(k) ==> has_edge(g, k, m[k])
}

/// Whether the gifts of `m` form one cycle through all of `nodes`: there is
/// a cyclic ordering of `nodes`, each listed once, on which everybody gives
/// to the one that follows.
pub open spec fn is_single_cycle(m: Map<u128, u128>, nodes: Set<u128>) -> bool {
    exists|c: Seq<u128>|
        c.no_duplicates() && c.to_set() == nodes && c.len() == nodes.len() && follows_cycle(m, c)
}

/// Whether `x` gives or receives under `m`.
pub open spec fn takes_part(m: Map<u128, u128>, x: u128) -> bool {
    m.contains_key(x) || m.contains_value(x)
}

/// Whether every element of `nodes` gives or receives under `m`.
pub open spec fn covers_all(nodes: Set<u128>, m: Map<u128, u128>) -> bool {
    forall|x: u128| nodes.contains(x) ==> takes_part(m, x)
}

/// Whether of any two distinct elements of `nodes` that may give to each
/// other under `g`, at least one gives or receives under `m`.
pub open spec fn covers_mutual_pairs(
    g: Map<u128, Set<u128>>,
    nodes: Set<u128>,
    m: Map<u128, u128>,
) -> bool {
    forall|x: u128, y: u128|
        nodes.contains(x) && nodes.contains(y) && x != y && #[trigger] has_edge(g, x, y)
            && #[trigger] has_edge(g, y, x) ==> takes_part(m, x) || takes_part(m, y)
}

/// Whether `nodes` has two distinct elements that may give to each other
/// under `g`.
pub open spec fn has_mutual_pair(g: Map<u128, Set<u128>>, nodes: Set<u128>) -> bool {
    exists|x: u128, y: u128|
        nodes.contains(x) && nodes.contains(y) && x != y && #[trigger] has_edge(g, x, y)
            && #[trigger] has_edge(g, y, x)
}

/// Whether under `g` whoever may give to somebody may also receive from it.
pub open spec fn is_symmetric(g: Map<u128, Set<u128>>) -> bool {
    forall|a: u128, b: u128| #[trigger] has_edge(g, a, b) ==> has_edge(g, b, a)
}

/// Whether `g` lets nobody give to itself.
pub open spec fn is_irreflexive(g: Map<u128, Set<u128>>) -> bool {
    forall|a: u128| !#[trigger] has_edge(g, a, a)
}

/// Whether `g` connects every ordered pair of distinct elements of `nodes`.
pub open spec fn is_complete_on(g: Map<u128, Set<u128>>, nodes: Set<u128>) -> bool {
    forall|a: u128, b: u128|
        nodes.contains(a) && nodes.contains(b) && a != b ==> #[trigger] has_edge(g, a, b)
}

/// Whether `m` is a set of gifts among `nodes` that `g` allows: every giver
/// and every receiver is in `nodes`, every gift goes along an edge of `g`, and
/// nobody receives twice.
pub open spec fn is_partial_assignment(
    g: Map<u128, Set<u128>>,
    nodes: Set<u128>,
    m: Map<u128, u128>,
) -> bool {
    &&& forall|k: u128| #[trigger]
        m.contains_key(k) ==> nodes.contains(k) && nodes.contains(m[k]) && has_edge(g, k, m[k])
    &&& m.is_injective()
}

/// A Hamiltonian cycle has as many elements as the graph has nodes.
pub proof fn lemma_cycle_length(g: Map<u128, Set<u128>>, c: Seq<u128>)
    requires
        is_hamiltonian_cycle(g, c),
    ensures
        g.dom().finite(),
        c.len() == g.dom().len(),
{
    c.unique_seq_to_set();
}

/// The cyclic ordering `c`, begun at position `k`.
pub open spec fn rotated(c: Seq<u128>, k: int) -> Seq<u128> {
    c.subrange(k, c.len() as int) + c.subrange(0, k)
}

/// A Hamiltonian cycle may be begun at any of its positions.
pub proof fn lemma_rotated_cycle(g: Map<u128, Set<u128>>, c: Seq<u128>, k: int)
    requires
        is_hamiltonian_cycle(g, c),
        0 <= k < c.len(),
    ensures
        is_hamiltonian_cycle(g, rotated(c, k)),
        rotated(c, k)[0] == c[k],
{
    let n = c.len() as int;
    let r = rotated(c, k);
    assert(r.len() == n);
    assert forall|i: int| 0 <= i < n implies r[i] == (if k + i < n {
        c[k + i]
    } else {
        c[k + i - n]
    }) by {}
    assert(r.no_duplicates());
    assert(r.to_set() =~= c.to_set()) by {
        assert forall|x: u128| c.to_set().contains(x) implies r.to_set().contains(x) by {
            let j = choose|j: int| 0 <= j < n && c[j] == x;
            if j >= k {
                assert(r[j - k] == x);
            } else {
                assert(r[j - k + n] == x);
            }
        }
        assert forall|x: u128| r.to_set().contains(x) implies c.to_set().contains(x) by {
            let i = choose|i: int| 0 <= i < n && r[i] == x;
            if k + i < n {
                assert(c[k + i] == x);
            } else {
                assert(c[k + i - n] == x);
            }
        }
    }
    assert forall|i: int| 0 <= i < n implies has_edge(g, r[i], #[trigger] successor(r, i)) by {
        let at = if k + i < n {
            k + i
        } else {
            k + i - n
        };
        assert(r[i] == c[at]);
        assert(has_edge(g, c[at], successor(c, at)));
        if i + 1 < n {
            assert(r[i + 1] == (if k + i + 1 < n {
                c[k + i + 1]
            } else {
                c[k + i + 1 - n]
            }));
        }
        assert(successor(r, i) == successor(c, at));
    }
}

/// Where a graph has a Hamiltonian cycle, it has one that begins with any
/// given node.
pub proof fn lemma_cycle_from_any_node(g: Map<u128, Set<u128>>, start: u128)
    requires
        has_hamiltonian_cycle(g),
        g.contains_key(start),
    ensures
        exists|c: Seq<u128>| is_hamiltonian_cycle(g, c) && c[0] == start,
{
    let c = choose|c: Seq<u128>| is_hamiltonian_cycle(g, c);
    assert(c.to_set().contains(start));
    let k = choose|k: int| 0 <= k < c.len() && c[k] == start;
    lemma_rotated_cycle(g, c, k);
    assert(is_hamiltonian_cycle(g, rotated(c, k)) && rotated(c, k)[0] == start);
}

/// The elements of a finite set, each listed once.
pub proof fn lemma_set_listing(s: Set<u128>) -> (c: Seq<u128>)
    requires
        s.finite(),
    ensures
        c.no_duplicates(),
        c.to_set() == s,
        c.len() == s.len(),
    decreases s.len(),
{
    if s.len() == 0 {
        let c = Seq::<u128>::empty();
        assert(c.to_set() =~= s);
        c
    } else {
        let x = s.choose();
        let rest = lemma_set_listing(s.remove(x));
        let c = rest.push(x);
        assert(c.no_duplicates()) by {
            assert forall|i: int, j: int|
                0 <= i < c.len() && 0 <= j < c.len() && i != j implies c[i] != c[j] by {
                if i < rest.len() {
                    assert(rest.to_set().contains(rest[i]));
                }
                if j < rest.len() {
                    assert(rest.to_set().contains(rest[j]));
                }
            }
        }
        assert(c.to_set() =~= s) by {
            assert forall|y: u128| s.contains(y) implies c.to_set().contains(y) by {
                if y == x {
                    assert(c[rest.len() as int] == y);
                } else {
                    assert(rest.to_set().contains(y));
                    let i = choose|i: int| 0 <= i < rest.len() && rest[i] == y;
                    assert(c[i] == y);
                }
            }
            assert forall|y: u128| c.to_set().contains(y) implies s.contains(y) by {
                let i = choose|i: int| 0 <= i < c.len() && c[i] == y;
                if i < rest.len() {
                    assert(rest.to_set().contains(rest[i]));
                }
            }
        }
        c
    }
}

/// A graph that connects every ordered pair of its two or more nodes has a
/// Hamiltonian cycle.
pub proof fn lemma_complete_has_cycle(g: Map<u128, Set<u128>>)
    requires
        g.dom().finite(),
        g.dom().len() >= 2,
        is_complete_on(g, g.dom()),
    ensures
        has_hamiltonian_cycle(g),
{
    let c = lemma_set_listing(g.dom());
    assert forall|i: int| 0 <= i < c.len() implies has_edge(
        g,
        c[i],
        #[trigger] successor(c, i),
    ) by {
        assert(c.to_set().contains(c[i]));
        if i + 1 < c.len() {
            assert(c.to_set().contains(c[i + 1]));
        } else {
            assert(c.to_set().contains(c[0]));
        }
    }
    assert(is_hamiltonian_cycle(g, c));
}

/// A Hamiltonian cycle of a graph in which nobody may give to itself has two
/// elements or more.
pub proof fn lemma_cycle_needs_two(g: Map<u128, Set<u128>>)
    requires
        is_irreflexive(g),
        has_hamiltonian_cycle(g),
    ensures
        g.dom().finite(),
        g.dom().len() >= 2,
{
    let c = choose|c: Seq<u128>| is_hamiltonian_cycle(g, c);
    lemma_cycle_length(g, c);
    if c.len() == 1 {
        assert(has_edge(g, c[0], successor(c, 0)));
    }
}

/// Gifts that a graph allows in which nobody may give to itself, if there is
/// one at all, take two participants or more.
pub proof fn lemma_gift_needs_two(g: Map<u128, Set<u128>>, nodes: Set<u128>, m: Map<u128, u128>)
    requires
        nodes.finite(),
        is_irreflexive(g),
        is_partial_assignment(g, nodes, m),
        exists|k: u128| m.contains_key(k),
    ensures
        nodes.len() >= 2,
{
    let k = choose|k: u128| m.contains_key(k);
    assert(has_edge(g, k, m[k]));
    assert(nodes.remove(k).contains(m[k]));
    assert(nodes.remove(k).len() >= 1) by {
        if nodes.remove(k).len() == 0 {
            assert(nodes.remove(k) =~= Set::<u128>::empty());
        }
    }
}

/// The position before `i` on a cyclic ordering of `n` elements.
pub open spec fn position_before(n: int, i: int) -> int {
    if i == 0 {
        n - 1
    } else {
        i - 1
    }
}

/// Where on the cyclic ordering `c` the giver `k` of `m` stands.
pub proof fn lemma_giver_position(m: Map<u128, u128>, c: Seq<u128>, k: u128) -> (i: int)
    requires
        follows_cycle(m, c),
        m.contains_key(k),
    ensures
        0 <= i < c.len(),
        c[i] == k,
        m[k] == successor(c, i),
{
    assert(c.to_set().contains(k));
    let i = choose|i: int| 0 <= i < c.len() && c[i] == k;
    assert(m[c[i]] == successor(c, i));
    i
}

/// Under the assignment along a cyclic ordering, those who receive are those
/// on the ordering.
pub proof fn lemma_cycle_receivers(m: Map<u128, u128>, c: Seq<u128>)
    requires
        follows_cycle(m, c),
    ensures
        m.values() == c.to_set(),
{
    let n = c.len() as int;
    assert forall|y: u128| c.to_set().contains(y) implies m.values().contains(y) by {
        let j = choose|j: int| 0 <= j < n && c[j] == y;
        let i = position_before(n, j);
        assert(c.to_set().contains(c[i]));
        assert(m[c[i]] == successor(c, i));
        assert(m.contains_key(c[i]) && m[c[i]] == y);
    }
    assert forall|y: u128| m.values().contains(y) implies c.to_set().contains(y) by {
        let k = choose|k: u128| m.contains_key(k) && m[k] == y;
        let i = lemma_giver_position(m, c, k);
        if i + 1 < n {
            assert(c[i + 1] == y);
        } else {
            assert(c[0] == y);
        }
    }
    assert(m.values() =~= c.to_set());
}

/// Under the assignment along a cyclic ordering that lists nobody twice,
/// nobody receives twice.
pub proof fn lemma_cycle_is_injective(m: Map<u128, u128>, c: Seq<u128>)
    requires
        follows_cycle(m, c),
        c.no_duplicates(),
    ensures
        m.is_injective(),
{
    assert forall|x: u128, y: u128|
        x != y && m.dom().contains(x) && m.dom().contains(y) implies #[trigger] m[x]
        != #[trigger] m[y] by {
        let i = lemma_giver_position(m, c, x);
        let j = lemma_giver_position(m, c, y);
        assert(i != j);
    }
}

/// The assignment along a Hamiltonian cycle of a graph maps the nodes
/// one-to-one onto themselves, goes along edges of the graph only, and forms
/// one cycle through all the nodes. Where the graph lets nobody give to
/// itself, nobody does.
pub proof fn lemma_cycle_assignment_shape(g: Map<u128, Set<u128>>, m: Map<u128, u128>)
    requires
        is_cycle_assignment(g, m),
    ensures
        is_permutation_of(m, g.dom()),
        goes_along(g, m),
        is_single_cycle(m, g.dom()),
        is_irreflexive(g) ==> has_no_fixed_point(m),
{
    let c = choose|c: Seq<u128>| is_hamiltonian_cycle(g, c) && follows_cycle(m, c);
    lemma_cycle_length(g, c);
    lemma_cycle_receivers(m, c);
    lemma_cycle_is_injective(m, c);
    assert forall|k: u128| #[trigger] m.contains_key(k) implies has_edge(g, k, m[k]) by {
        let i = lemma_giver_position(m, c, k);
        assert(has_edge(g, c[i], successor(c, i)));
    }
    assert(c.no_duplicates() && c.to_set() == g.dom() && c.len() == g.dom().len() && follows_cycle(
        m,
        c,
    ));
}

} // verus!
