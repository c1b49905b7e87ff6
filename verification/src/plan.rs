//! What the layered search owes.

use vstd::prelude::*;
use std::collections::HashMap;
use crate::graph::{
    goes_along, has_edge, has_hamiltonian_cycle, has_no_fixed_point, is_cycle_assignment,
    is_permutation_of, is_single_cycle, lemma_cycle_assignment_shape, lemma_cycle_needs_two,
};
use crate::group::Group;
use crate::rules::{compatibility_graph, lemma_compatibility_graph_shape, share_group};

verus! {

/// What the layered search came back with.
pub enum Plan {
    /// One giving chain through all participants, across groups only.
    Strict(HashMap<u128, u128>),
    /// One giving chain through all participants that also gives inside
    /// groups, for want of a strict one.
    Relaxed(HashMap<u128, u128>),
    /// Several giving chains, for want of a single one.
    Subloops(HashMap<u128, u128>),
    /// No gift at all.
    Impossible,
}

/// The gifts that a search came back with: none where it came back with
/// nothing.
pub open spec fn gifts_of(result: Option<HashMap<u128, u128>>) -> Map<u128, u128> {
    match result {
        Some(m) => m@,
        None => Map::empty(),
    }
}

/// Whether `plan` is what the layered search owes for the participants
/// `people` in the groups `groups`: the assignment along a Hamiltonian cycle
/// of the strict graph where that graph has one; else one along a Hamiltonian
/// cycle of the relaxed graph, which has one as soon as there are two
/// participants; else nothing.
pub open spec fn is_plan_for(people: Set<u128>, groups: Map<u128, Group>, plan: Plan) -> bool {
    let strict = compatibility_graph(people, groups, false);
    let relaxed = compatibility_graph(people, groups, true);
    if has_hamiltonian_cycle(strict) {
        plan matches Plan::Strict(m) && is_cycle_assignment(strict, m@)
    } else if people.len() >= 2 {
        plan matches Plan::Relaxed(m) && is_cycle_assignment(relaxed, m@)
    } else {
        plan is Impossible
    }
}

/// Whether `m` holds the gifts that the layered search owes for the
/// participants `people` in the groups `groups`.
pub open spec fn is_plan_outcome(
    people: Set<u128>,
    groups: Map<u128, Group>,
    m: Map<u128, u128>,
) -> bool {
    let strict = compatibility_graph(people, groups, false);
    let relaxed = compatibility_graph(people, groups, true);
    if has_hamiltonian_cycle(strict) {
        is_cycle_assignment(strict, m)
    } else if people.len() >= 2 {
        is_cycle_assignment(relaxed, m)
    } else {
        m == Map::<u128, u128>::empty()
    }
}

/// Whether no gift of `m` stays inside a group.
pub open spec fn crosses_groups(groups: Map<u128, Group>, m: Map<u128, u128>) -> bool {
    forall|k: u128| #[trigger] m.contains_key(k) ==> !share_group(groups, k, m[k])
}

/// Where the strict search succeeds, everybody gives once and receives once,
/// nobody gives to itself, every gift goes along an edge of the strict graph
/// and so to another group, and the gifts form one cycle through all the
/// participants.
pub proof fn lemma_strict_plan_is_cross_group_cycle(
    people: Set<u128>,
    groups: Map<u128, Group>,
    plan: Plan,
)
    requires
        is_plan_for(people, groups, plan),
    ensures
        plan matches Plan::Strict(m) ==> {
            &&& is_permutation_of(m@, people)
            &&& has_no_fixed_point(m@)
            &&& goes_along(compatibility_graph(people, groups, false), m@)
            &&& crosses_groups(groups, m@)
            &&& is_single_cycle(m@, people)
        },
{
    if let Plan::Strict(m) = plan {
        let strict = compatibility_graph(people, groups, false);
        lemma_compatibility_graph_shape(people, groups, false);
        lemma_cycle_assignment_shape(strict, m@);
        assert forall|k: u128| #[trigger] m@.contains_key(k) implies !share_group(
            groups,
            k,
            m@[k],
        ) by {
            assert(has_edge(strict, k, m@[k]));
        }
    }
}

/// Where only the relaxed search succeeds, everybody gives once and receives
/// once, nobody gives to itself, and the gifts form one cycle through all the
/// participants; a gift may stay inside a group.
pub proof fn lemma_relaxed_plan_is_cycle(people: Set<u128>, groups: Map<u128, Group>, plan: Plan)
    requires
        is_plan_for(people, groups, plan),
    ensures
        plan matches Plan::Relaxed(m) ==> {
            &&& !has_hamiltonian_cycle(compatibility_graph(people, groups, false))
            &&& is_permutation_of(m@, people)
            &&& has_no_fixed_point(m@)
            &&& goes_along(compatibility_graph(people, groups, true), m@)
            &&& is_single_cycle(m@, people)
        },
{
    if let Plan::Relaxed(m) = plan {
        let relaxed = compatibility_graph(people, groups, true);
        lemma_compatibility_graph_shape(people, groups, true);
        lemma_cycle_assignment_shape(relaxed, m@);
    }
}

/// The layered search never has to settle for several chains: where there
/// are two participants or more, one of the first two searches succeeds, and
/// with fewer no gift can be made.
pub proof fn lemma_plan_is_one_cycle_or_nothing(
    people: Set<u128>,
    groups: Map<u128, Group>,
    plan: Plan,
)
    requires
        is_plan_for(people, groups, plan),
    ensures
        !(plan is Subloops),
        plan is Impossible <==> people.len() <= 1,
{
    let strict = compatibility_graph(people, groups, false);
    lemma_compatibility_graph_shape(people, groups, false);
    if has_hamiltonian_cycle(strict) {
        lemma_cycle_needs_two(strict);
    }
}

} // verus!
