//! Who may give to whom.

use vstd::prelude::*;
use crate::graph::{has_edge, is_complete_on, is_irreflexive, is_symmetric};
use crate::group::Group;

verus! {

/// Whether `groups` holds a group under the number `g` that has `p` as a
/// member.
pub open spec fn in_group(groups: Map<u128, Group>, g: u128, p: u128) -> bool {
    groups.contains_key(g) && groups[g].people@.contains(p)
}

/// Whether `a` and `b` are members of one group.
pub open spec fn share_group(groups: Map<u128, Group>, a: u128, b: u128) -> bool {
    exists|g: u128| in_group(groups, g, a) && in_group(groups, g, b)
}

/// Whether `p` is a member of some group.
pub open spec fn has_any_group(groups: Map<u128, Group>, p: u128) -> bool {
    exists|g: u128| in_group(groups, g, p)
}

/// Whether `p` is a member of exactly one group.
pub open spec fn has_one_group(groups: Map<u128, Group>, p: u128) -> bool {
    &&& has_any_group(groups, p)
    &&& forall|g1: u128, g2: u128| in_group(groups, g1, p) && in_group(groups, g2, p) ==> g1 == g2
}

/// Whether the groups partition the participants: each one of `people` is a
/// member of exactly one group.
pub open spec fn is_partition(people: Set<u128>, groups: Map<u128, Group>) -> bool {
    forall|p: u128| people.contains(p) ==> has_one_group(groups, p)
}

/// Whether `a` may give to `b`: never to itself, and within its own group
/// only where `allow_intra_group` says so.
pub open spec fn may_give(
    groups: Map<u128, Group>,
    allow_intra_group: bool,
    a: u128,
    b: u128,
) -> bool {
    a != b && (allow_intra_group || !share_group(groups, a, b))
}

/// Those of `people` that `a` may give to.
pub open spec fn receivers_of(
    people: Set<u128>,
    groups: Map<u128, Group>,
    allow_intra_group: bool,
    a: u128,
) -> Set<u128> {
    Set::new(|b: u128| people.contains(b) && may_give(groups, allow_intra_group, a, b))
}

/// The compatibility graph over `people`: each participant with those it may
/// give to.
pub open spec fn compatibility_graph(
    people: Set<u128>,
    groups: Map<u128, Group>,
    allow_intra_group: bool,
) -> Map<u128, Set<u128>> {
    Map::new(
        |a: u128| people.contains(a),
        |a: u128| receivers_of(people, groups, allow_intra_group, a),
    )
}

/// Two participants with one group each share a group exactly where these
/// groups are the same.
pub proof fn lemma_share_group_by_holder(
    groups: Map<u128, Group>,
    a: u128,
    group_of_a: u128,
    b: u128,
    group_of_b: u128,
)
    requires
        has_one_group(groups, a),
        has_one_group(groups, b),
        in_group(groups, group_of_a, a),
        in_group(groups, group_of_b, b),
    ensures
        share_group(groups, a, b) <==> group_of_a == group_of_b,
{
    if share_group(groups, a, b) {
        let g = choose|g: u128| in_group(groups, g, a) && in_group(groups, g, b);
        assert(g == group_of_a);
        assert(g == group_of_b);
    }
}

/// Whether `g` connects no two participants that share a group.
pub open spec fn separates_groups(g: Map<u128, Set<u128>>, groups: Map<u128, Group>) -> bool {
    forall|a: u128, b: u128| share_group(groups, a, b) ==> !#[trigger] has_edge(g, a, b)
}

/// In a compatibility graph nobody may give to itself, and whoever may give
/// to somebody may receive from it; one that was built without gifts inside
/// a group connects no two members of one group; one that was built with
/// them connects every ordered pair of distinct participants.
pub proof fn lemma_compatibility_graph_shape(
    people: Set<u128>,
    groups: Map<u128, Group>,
    allow_intra_group: bool,
)
    ensures
        compatibility_graph(people, groups, allow_intra_group).dom() == people,
        is_irreflexive(compatibility_graph(people, groups, allow_intra_group)),
        is_symmetric(compatibility_graph(people, groups, allow_intra_group)),
        !allow_intra_group ==> separates_groups(
            compatibility_graph(people, groups, allow_intra_group),
            groups,
        ),
        allow_intra_group ==> is_complete_on(
            compatibility_graph(people, groups, allow_intra_group),
            people,
        ),
{
    let g = compatibility_graph(people, groups, allow_intra_group);
    assert(g.dom() =~= people);
    assert forall|a: u128, b: u128| #[trigger] has_edge(g, a, b) implies has_edge(g, b, a) by {
        if share_group(groups, b, a) {
            let shared = choose|shared: u128|
                in_group(groups, shared, b) && in_group(groups, shared, a);
            assert(in_group(groups, shared, a) && in_group(groups, shared, b));
        }
    }
}

} // verus!
