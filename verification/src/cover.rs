//! What the search for a cover by several chains holds on to while it
//! builds one chain after the other.

use vstd::prelude::*;
use crate::graph::{
    covers_all, follows_cycle, has_edge, is_complete_on, is_cycle_assignment,
    is_hamiltonian_cycle, is_partial_assignment, successor, takes_part,
};

verus! {

/// Whether every participant that was visited and left without giving could
/// not give any more: none of those it may give to is still in `rest`. The
/// participant `current`, where the chain has got to, is not yet left.
pub(crate) open spec fn all_settled(
    g: Map<u128, Set<u128>>,
    nodes: Set<u128>,
    rest: Set<u128>,
    m: Map<u128, u128>,
    current: Option<u128>,
) -> bool {
    forall|x: u128, y: u128|
        nodes.contains(x) && !rest.contains(x) && current != Some(x) && !m.contains_key(x)
            && #[trigger] has_edge(g, x, y) ==> !rest.contains(y)
}

/// Whether of any two visited participants that may give to each other at
/// least one takes part in `m`.
pub(crate) open spec fn pairs_covered(
    g: Map<u128, Set<u128>>,
    nodes: Set<u128>,
    rest: Set<u128>,
    m: Map<u128, u128>,
) -> bool {
    forall|x: u128, y: u128|
        nodes.contains(x) && nodes.contains(y) && !rest.contains(x) && !rest.contains(y) && x != y
            && #[trigger] has_edge(g, x, y) && #[trigger] has_edge(g, y, x) ==> takes_part(m, x)
            || takes_part(m, y)
}

/// Whether `m` holds gifts among the visited participants only.
pub(crate) open spec fn among_visited(rest: Set<u128>, m: Map<u128, u128>) -> bool {
    forall|k: u128| #[trigger] m.contains_key(k) ==> !rest.contains(k) && !rest.contains(m[k])
}

/// What holds of the cover while it is built: `rest` holds the participants
/// that were not visited yet, `m` the gifts that were made.
pub(crate) open spec fn is_cover_state(
    g: Map<u128, Set<u128>>,
    nodes: Set<u128>,
    rest: Set<u128>,
    m: Map<u128, u128>,
) -> bool {
    &&& nodes.finite()
    &&& rest.finite()
    &&& rest.subset_of(nodes)
    &&& is_partial_assignment(g, nodes, m)
    &&& among_visited(rest, m)
    &&& pairs_covered(g, nodes, rest, m)
}

/// What holds of the chain `walk` while it is built: it lists visited
/// participants, none twice, each of which but the last gives to the next
/// one, and nobody gives to its first one.
pub(crate) open spec fn is_chain(
    nodes: Set<u128>,
    rest: Set<u128>,
    m: Map<u128, u128>,
    walk: Seq<u128>,
) -> bool {
    &&& walk.len() > 0
    &&& walk.no_duplicates()
    &&& forall|i: int|
        0 <= i < walk.len() ==> nodes.contains(#[trigger] walk[i]) && !rest.contains(walk[i])
    &&& forall|i: int| 0 <= i < walk.len() - 1 ==> m.contains_key(#[trigger] walk[i])
    &&& forall|i: int| 0 <= i < walk.len() - 1 ==> m[walk[i]] == #[trigger] successor(walk, i)
    &&& !m.contains_key(walk.last())
    &&& forall|k: u128| #[trigger] m.contains_key(k) ==> m[k] != walk[0]
}

/// Whether the chain `walk` is the only one so far: all visited participants
/// are on it, and all gifts.
pub(crate) open spec fn is_only_chain(
    nodes: Set<u128>,
    rest: Set<u128>,
    m: Map<u128, u128>,
    walk: Seq<u128>,
) -> bool {
    &&& forall|x: u128| nodes.contains(x) && !rest.contains(x) ==> walk.contains(x)
    &&& forall|k: u128| #[trigger] m.contains_key(k) ==> walk.contains(k)
}

/// Whether everybody on the cyclic ordering `walk` gives to the one that
/// follows under `m`.
pub(crate) open spec fn follows_chain_around(m: Map<u128, u128>, walk: Seq<u128>) -> bool {
    &&& forall|i: int| 0 <= i < walk.len() ==> m.contains_key(#[trigger] walk[i])
    &&& forall|i: int| 0 <= i < walk.len() ==> m[walk[i]] == #[trigger] successor(walk, i)
}

/// A gift from somebody who did not give before leaves everybody taking
/// part who did, and makes its giver and its receiver take part.
pub(crate) proof fn lemma_insert_keeps_part(m: Map<u128, u128>, k: u128, v: u128)
    requires
        !m.contains_key(k),
    ensures
        forall|x: u128| takes_part(m, x) ==> takes_part(m.insert(k, v), x),
        takes_part(m.insert(k, v), k),
        takes_part(m.insert(k, v), v),
{
    assert forall|x: u128| takes_part(m, x) implies takes_part(m.insert(k, v), x) by {
        if !m.contains_key(x) {
            let giver = choose|giver: u128| m.contains_key(giver) && m[giver] == x;
            assert(m.insert(k, v).contains_key(giver) && m.insert(k, v)[giver] == x);
        }
    }
    assert(m.insert(k, v).contains_key(k) && m.insert(k, v)[k] == v);
}

/// A chain of one participant that was just picked from those not visited.
pub(crate) proof fn lemma_chain_begins(
    g: Map<u128, Set<u128>>,
    nodes: Set<u128>,
    rest: Set<u128>,
    m: Map<u128, u128>,
    start: u128,
)
    requires
        is_cover_state(g, nodes, rest, m),
        all_settled(g, nodes, rest, m, None),
        rest.contains(start),
    ensures
        is_cover_state(g, nodes, rest.remove(start), m),
        all_settled(g, nodes, rest.remove(start), m, Some(start)),
        is_chain(nodes, rest.remove(start), m, seq![start]),
        rest == nodes ==> is_only_chain(nodes, rest.remove(start), m, seq![start]),
        rest.remove(start).len() < rest.len(),
{
    let walk = seq![start];
    let left = rest.remove(start);
    assert forall|x: u128, y: u128|
        nodes.contains(x) && nodes.contains(y) && !left.contains(x) && !left.contains(y) && x != y
            && #[trigger] has_edge(g, x, y) && #[trigger] has_edge(g, y, x) implies takes_part(m, x)
        || takes_part(m, y) by {
        if x == start {
            assert(m.contains_key(y));
        } else if y == start {
            assert(m.contains_key(x));
        }
    }
    if rest == nodes {
        assert forall|x: u128| nodes.contains(x) && !left.contains(x) implies walk.contains(x) by {
            assert(walk[0] == x);
        }
    }
}

/// A chain that goes on from its last participant to `next`.
pub(crate) proof fn lemma_chain_goes_on(
    g: Map<u128, Set<u128>>,
    nodes: Set<u128>,
    rest: Set<u128>,
    m: Map<u128, u128>,
    walk: Seq<u128>,
    next: u128,
)
    requires
        is_cover_state(g, nodes, rest, m),
        all_settled(g, nodes, rest, m, Some(walk.last())),
        is_chain(nodes, rest, m, walk),
        rest.contains(next),
        has_edge(g, walk.last(), next),
    ensures
        is_cover_state(g, nodes, rest.remove(next), m.insert(walk.last(), next)),
        all_settled(g, nodes, rest.remove(next), m.insert(walk.last(), next), Some(next)),
        is_chain(nodes, rest.remove(next), m.insert(walk.last(), next), walk.push(next)),
        is_only_chain(nodes, rest, m, walk) ==> is_only_chain(
            nodes,
            rest.remove(next),
            m.insert(walk.last(), next),
            walk.push(next),
        ),
        rest.remove(next).len() < rest.len(),
{
    let current = walk.last();
    let left = rest.remove(next);
    let gifts = m.insert(current, next);
    let longer = walk.push(next);
    lemma_insert_keeps_part(m, current, next);
    assert(gifts.is_injective());
    assert(longer.no_duplicates()) by {
        assert forall|i: int, j: int|
            0 <= i < longer.len() && 0 <= j < longer.len() && i != j implies longer[i]
            != longer[j] by {
            if i < walk.len() {
                assert(longer[i] == walk[i]);
            }
            if j < walk.len() {
                assert(longer[j] == walk[j]);
            }
        }
    }
    assert forall|i: int| 0 <= i < longer.len() - 1 implies gifts.contains_key(
        #[trigger] longer[i],
    ) by {
        assert(longer[i] == walk[i]);
    }
    assert forall|i: int| 0 <= i < longer.len() - 1 implies gifts[longer[i]]
        == #[trigger] successor(longer, i) by {
        assert(longer[i] == walk[i]);
        if i < walk.len() - 1 {
            assert(m[walk[i]] == successor(walk, i));
            assert(longer[i + 1] == walk[i + 1]);
        }
    }
    assert forall|i: int| 0 <= i < longer.len() implies nodes.contains(#[trigger] longer[i])
        && !left.contains(longer[i]) by {
        if i < walk.len() {
            assert(longer[i] == walk[i]);
        }
    }
    assert(!gifts.contains_key(next));
    assert forall|k: u128| #[trigger] gifts.contains_key(k) implies gifts[k] != longer[0] by {
        assert(longer[0] == walk[0]);
    }
    assert(is_chain(nodes, left, gifts, longer));
    if is_only_chain(nodes, rest, m, walk) {
        assert forall|x: u128| nodes.contains(x) && !left.contains(x) implies longer.contains(
            x,
        ) by {
            if x == next {
                assert(longer[walk.len() as int] == x);
            } else {
                let i = choose|i: int| 0 <= i < walk.len() && walk[i] == x;
                assert(longer[i] == x);
            }
        }
        assert forall|k: u128| #[trigger] gifts.contains_key(k) implies longer.contains(k) by {
            if k == current {
                assert(longer[walk.len() - 1] == k);
            } else {
                let i = choose|i: int| 0 <= i < walk.len() && walk[i] == k;
                assert(longer[i] == k);
            }
        }
    }
}

/// A chain that cannot go on: its last participant is left.
pub(crate) proof fn lemma_chain_stops(
    g: Map<u128, Set<u128>>,
    nodes: Set<u128>,
    rest: Set<u128>,
    m: Map<u128, u128>,
    walk: Seq<u128>,
)
    requires
        is_cover_state(g, nodes, rest, m),
        all_settled(g, nodes, rest, m, Some(walk.last())),
        is_chain(nodes, rest, m, walk),
        forall|n: u128| has_edge(g, walk.last(), n) ==> !rest.contains(n),
    ensures
        all_settled(g, nodes, rest, m, None),
        is_complete_on(g, nodes) ==> rest == Set::<u128>::empty(),
{
    if is_complete_on(g, nodes) {
        assert forall|x: u128| !rest.contains(x) by {
            if rest.contains(x) {
                assert(has_edge(g, walk.last(), x));
            }
        }
        assert(rest =~= Set::<u128>::empty());
    }
}

/// A chain whose last participant gives to its first.
pub(crate) proof fn lemma_chain_closes(
    g: Map<u128, Set<u128>>,
    nodes: Set<u128>,
    rest: Set<u128>,
    m: Map<u128, u128>,
    walk: Seq<u128>,
)
    requires
        is_cover_state(g, nodes, rest, m),
        all_settled(g, nodes, rest, m, None),
        is_chain(nodes, rest, m, walk),
        walk.last() != walk[0],
        has_edge(g, walk.last(), walk[0]),
    ensures
        is_cover_state(g, nodes, rest, m.insert(walk.last(), walk[0])),
        all_settled(g, nodes, rest, m.insert(walk.last(), walk[0]), None),
        follows_chain_around(m.insert(walk.last(), walk[0]), walk),
        is_only_chain(nodes, rest, m, walk) ==> m.insert(walk.last(), walk[0]).dom()
            == walk.to_set(),
{
    let gifts = m.insert(walk.last(), walk[0]);
    lemma_insert_keeps_part(m, walk.last(), walk[0]);
    assert(gifts.is_injective());
    assert forall|i: int| 0 <= i < walk.len() implies gifts[walk[i]] == #[trigger] successor(
        walk,
        i,
    ) by {
        if i < walk.len() - 1 {
            assert(m[walk[i]] == successor(walk, i));
        }
    }
    if is_only_chain(nodes, rest, m, walk) {
        assert(gifts.dom() =~= walk.to_set()) by {
            assert forall|k: u128| walk.to_set().contains(k) implies gifts.contains_key(k) by {
                let i = choose|i: int| 0 <= i < walk.len() && walk[i] == k;
                assert(gifts[walk[i]] == successor(walk, i));
            }
        }
    }
}

/// The only chain, closed, with nobody left to visit, in a graph that
/// connects every pair: a cycle through everybody.
pub(crate) proof fn lemma_only_chain_is_cycle(
    g: Map<u128, Set<u128>>,
    nodes: Set<u128>,
    m: Map<u128, u128>,
    walk: Seq<u128>,
)
    requires
        walk.len() > 0,
        walk.no_duplicates(),
        forall|i: int| 0 <= i < walk.len() ==> nodes.contains(#[trigger] walk[i]),
        forall|x: u128| nodes.contains(x) ==> walk.contains(x),
        follows_chain_around(m, walk),
        m.dom() == walk.to_set(),
        is_complete_on(g, nodes),
        walk.last() != walk[0],
    ensures
        covers_all(nodes, m),
        follows_cycle(m, walk),
        g.dom() == nodes ==> is_hamiltonian_cycle(g, walk) && is_cycle_assignment(g, m),
{
    assert forall|x: u128| nodes.contains(x) implies takes_part(m, x) by {
        let i = choose|i: int| 0 <= i < walk.len() && walk[i] == x;
        assert(m[walk[i]] == successor(walk, i));
    }
    assert forall|i: int| 0 <= i < walk.len() implies m[walk[i]] == #[trigger] successor(
        walk,
        i,
    ) by {}
    if g.dom() == nodes {
        assert(walk.to_set() =~= nodes);
        assert forall|i: int| 0 <= i < walk.len() implies has_edge(
            g,
            walk[i],
            #[trigger] successor(walk, i),
        ) by {
            assert(m[walk[i]] == successor(walk, i));
            if i + 1 < walk.len() {
                assert(nodes.contains(walk[i + 1]) && walk[i] != walk[i + 1]);
            } else {
                assert(nodes.contains(walk[0]));
            }
        }
        assert(is_hamiltonian_cycle(g, walk) && follows_cycle(m, walk));
    }
}

} // verus!
