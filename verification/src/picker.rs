//! The registries and the assignment engine.

use vstd::prelude::*;
use std::collections::{HashMap, HashSet};
use vstd::std_specs::iter::IteratorSpec;
use crate::chance::pick_one;
use crate::cover::{
    all_settled, is_chain, is_cover_state, is_only_chain, lemma_chain_begins, lemma_chain_closes,
    lemma_chain_goes_on, lemma_chain_stops, lemma_only_chain_is_cycle,
};
use crate::graph::{
    covers_all, covers_mutual_pairs, follows_cycle, has_edge, has_hamiltonian_cycle,
    has_mutual_pair, is_complete_on, is_cycle_assignment, is_cycle_assignment_from, is_hamiltonian_cycle,
    is_partial_assignment, lemma_complete_has_cycle, lemma_cycle_from_any_node,
    lemma_cycle_needs_two, lemma_gift_needs_two, successor, takes_part,
};
use crate::group::{Group, GroupId};
use crate::person::{Person, PersonId};
use crate::plan::{gifts_of, is_plan_for, is_plan_outcome, Plan};
use crate::rules::{
    compatibility_graph, has_any_group, has_one_group, in_group, is_partition,
    lemma_compatibility_graph_shape, lemma_share_group_by_holder, may_give, receivers_of,
    separates_groups,
};
use crate::sets::{
    first_common, first_of, key_list, key_set, lemma_entries_are_listed, lemma_keys_are_listed,
    lemma_set_is_listed, lists,
};
use crate::trail::{
    is_trail, lemma_dead_end, lemma_full_trail, lemma_repeat_blocks, lemma_starts_with_shorter,
    lemma_stranger_blocks, lemma_trail_fits, lemma_trail_push, no_cycle_through, starts_with,
};

verus! {

/// The registries of participants and groups, and the compatibility graph
/// that the engine last built from them.
pub struct Picker {
    groups: HashMap<u128, Group>,
    people: HashMap<u128, Person>,
    graph: HashMap<u128, HashSet<u128>>,
}

/// The graph that a map from each node to the hash set of its neighbours
/// holds.
pub open spec fn neighbor_sets(graph: Map<u128, HashSet<u128>>) -> Map<u128, Set<u128>> {
    Map::new(|k: u128| graph.contains_key(k), |k: u128| graph[k]@)
}

/// The assignment along the cyclic ordering `path`: each element gives to the
/// one that follows it, the last one to the first.
fn cycle_assignments(path: &Vec<u128>) -> (assignments: HashMap<u128, u128>)
    requires
        path@.len() > 0,
        path@.no_duplicates(),
    ensures
        follows_cycle(assignments@, path@),
{
    let mut assignments: HashMap<u128, u128> = HashMap::new();
    let last: usize = path.len() - 1;
    let mut i: usize = 0;
    while i < last
        invariant
            last == path@.len() - 1,
            i <= last,
            path@.no_duplicates(),
            forall|x: u128|
                assignments@.contains_key(x) <==> exists|j: int| 0 <= j < i && path@[j] == x,
            forall|j: int| 0 <= j < i ==> assignments@[path@[j]] == #[trigger] successor(path@, j),
        decreases last - i,
    {
        assignments.insert(path[i], path[i + 1]);
        proof {
            assert forall|x: u128| assignments@.contains_key(x) implies exists|j: int|
                0 <= j < i + 1 && path@[j] == x by {
                if x == path@[i as int] {
                    assert(path@[i as int] == x);
                } else {
                    let j = choose|j: int| 0 <= j < i && path@[j] == x;
                    assert(0 <= j < i + 1 && path@[j] == x);
                }
            }
        }
        i += 1;
    }
    assignments.insert(path[last], path[0]);
    proof {
        assert(assignments@.dom() =~= path@.to_set()) by {
            assert forall|x: u128| path@.to_set().contains(x) implies assignments@.contains_key(
                x,
            ) by {
                let j = choose|j: int| 0 <= j < path@.len() && path@[j] == x;
                if j < last {
                    assert(0 <= j < last && path@[j] == x);
                }
            }
            assert forall|x: u128| assignments@.contains_key(x) implies path@.to_set().contains(
                x,
            ) by {
                if x != path@[last as int] {
                    let j = choose|j: int| 0 <= j < last && path@[j] == x;
                    assert(path@[j] == x);
                } else {
                    assert(path@[last as int] == x);
                }
            }
        }
    }
    assignments
}

impl Picker {
    /// The registered participants, by the number of their identifier.
    pub closed spec fn people(&self) -> Map<u128, Person> {
        self.people@
    }

    /// The registered groups, by the number of their identifier.
    pub closed spec fn groups(&self) -> Map<u128, Group> {
        self.groups@
    }

    /// The compatibility graph that was last built.
    pub closed spec fn graph(&self) -> Map<u128, Set<u128>> {
        neighbor_sets(self.graph@)
    }

    /// Whether every participant and every group is filed under the number
    /// of its own identifier. This holds of a new picker, and adding to the
    /// registries keeps it.
    pub open spec fn is_filed_by_id(&self) -> bool {
        &&& forall|k: u128| #[trigger]
            self.people().contains_key(k) ==> self.people()[k].id.0 == k
        &&& forall|k: u128| #[trigger]
            self.groups().contains_key(k) ==> self.groups()[k].id.0 == k
    }

    /// A picker with no participant, no group and an empty graph.
    pub fn new() -> (picker: Picker)
        ensures
            picker.people() == Map::<u128, Person>::empty(),
            picker.groups() == Map::<u128, Group>::empty(),
            picker.graph() == Map::<u128, Set<u128>>::empty(),
            picker.is_filed_by_id(),
    {
        let picker = Picker {
            groups: HashMap::new(),
            people: HashMap::new(),
            graph: HashMap::new(),
        };
        assert(picker.graph() =~= Map::<u128, Set<u128>>::empty());
        picker
    }

    /// Files `group` under its identifier, in place of a group that was
    /// filed under it before.
    pub fn add_group(&mut self, group: Group)
        ensures
            final(self).groups() == old(self).groups().insert(group.id.0, group),
            final(self).people() == old(self).people(),
            final(self).graph() == old(self).graph(),
            old(self).is_filed_by_id() ==> final(self).is_filed_by_id(),
    {
        let ghost key = group.id.0;
        self.groups.insert(group.id.0, group);
        proof {
            if old(self).is_filed_by_id() {
                assert forall|k: u128| #[trigger]
                    self.groups().contains_key(k) implies self.groups()[k].id.0 == k by {
                    if k != key {
                        assert(old(self).groups().contains_key(k));
                    }
                }
                assert(self.people() == old(self).people());
                assert(self.is_filed_by_id());
            }
        }
    }

    /// Files `person` under its identifier, in place of a participant that
    /// was filed under it before.
    pub fn add_person(&mut self, person: Person)
        ensures
            final(self).people() == old(self).people().insert(person.id.0, person),
            final(self).groups() == old(self).groups(),
            final(self).graph() == old(self).graph(),
            old(self).is_filed_by_id() ==> final(self).is_filed_by_id(),
    {
        let ghost key = person.id.0;
        self.people.insert(person.id.0, person);
        proof {
            if old(self).is_filed_by_id() {
                assert forall|k: u128| #[trigger]
                    self.people().contains_key(k) implies self.people()[k].id.0 == k by {
                    if k != key {
                        assert(old(self).people().contains_key(k));
                    }
                }
                assert(self.groups() == old(self).groups());
                assert(self.is_filed_by_id());
            }
        }
    }

    /// The group filed under `group_id`, if there is one.
    pub fn lookup_group(&self, group_id: &GroupId) -> (found: Option<&Group>)
        ensures
            match found {
                Some(group) => self.groups().contains_key(group_id.0) && *group
                    == self.groups()[group_id.0],
                None => !self.groups().contains_key(group_id.0),
            },
            self.is_filed_by_id() ==> (found matches Some(group) ==> group.id == *group_id),
    {
        let found = self.groups.get(&group_id.0);
        proof {
            if self.is_filed_by_id() && self.groups().contains_key(group_id.0) {
                assert(self.groups()[group_id.0].id.0 == group_id.0);
            }
        }
        found
    }

    /// The participant filed under `person_id`, if there is one.
    pub fn lookup_person(&self, person_id: &PersonId) -> (found: Option<&Person>)
        ensures
            match found {
                Some(person) => self.people().contains_key(person_id.0) && *person
                    == self.people()[person_id.0],
                None => !self.people().contains_key(person_id.0),
            },
            self.is_filed_by_id() ==> (found matches Some(person) ==> person.id == *person_id),
    {
        let found = self.people.get(&person_id.0);
        proof {
            if self.is_filed_by_id() && self.people().contains_key(person_id.0) {
                assert(self.people()[person_id.0].id.0 == person_id.0);
            }
        }
        found
    }

    /// The compatibility graph that was last built: each participant with
    /// those it may give to.
    pub fn get_graph(&self) -> (graph: &HashMap<u128, HashSet<u128>>)
        ensures
            neighbor_sets(graph@) == self.graph(),
    {
        &self.graph
    }

    /// Some group that has `person_id` as a member, if there is one.
    pub fn find_group_by_person(&self, person_id: &PersonId) -> (found: Option<GroupId>)
        ensures
            match found {
                Some(group_id) => in_group(self.groups(), group_id.0, person_id.0),
                None => !has_any_group(self.groups(), person_id.0),
            },
    {
        proof {
            lemma_entries_are_listed(&self.groups);
        }
        for entry in it: self.groups.iter()
            invariant
                it.seq() == self.groups.iter().remaining(),
                forall|j: int|
                    0 <= j < it.index() ==> !(*(#[trigger] it.seq()[j]).1).people@.contains(
                        person_id.0,
                    ),
        {
            if entry.1.people.contains(&person_id.0) {
                return Some(GroupId(*entry.0));
            }
        }
        None
    }

    /// Whether `person` is a member of exactly one group.
    fn has_single_group(&self, person: u128) -> (single: bool)
        ensures
            single == has_one_group(self.groups(), person),
    {
        let member = PersonId(person);
        let holder = match self.find_group_by_person(&member) {
            Some(holder) => holder,
            None => {
                return false;
            },
        };
        proof {
            lemma_entries_are_listed(&self.groups);
        }
        for entry in it: self.groups.iter()
            invariant
                it.seq() == self.groups.iter().remaining(),
                in_group(self.groups(), holder.0, person),
                forall|j: int|
                    0 <= j < it.index() && (*(#[trigger] it.seq()[j]).1).people@.contains(person)
                        ==> *it.seq()[j].0 == holder.0,
        {
            if *entry.0 != holder.0 && entry.1.people.contains(&person) {
                assert(in_group(self.groups(), *entry.0, person));
                return false;
            }
        }
        true
    }

    /// Whether the groups partition the participants, as the graph builder
    /// asks: every participant is a member of exactly one group.
    pub fn is_partitioned(&self) -> (partitioned: bool)
        ensures
            partitioned == is_partition(self.people().dom(), self.groups()),
    {
        proof {
            lemma_keys_are_listed(&self.people);
        }
        for person in it: self.people.keys()
            invariant
                it.seq() == self.people.keys().remaining(),
                forall|j: int|
                    0 <= j < it.index() ==> has_one_group(self.groups(), *#[trigger] it.seq()[j]),
        {
            if !self.has_single_group(*person) {
                return false;
            }
        }
        true
    }

    /// Whether this picker is `before` with the compatibility graph built
    /// anew from its registries.
    pub open spec fn is_built_from(&self, before: Picker, allow_intra_group: bool) -> bool {
        &&& self.people() == before.people()
        &&& self.groups() == before.groups()
        &&& self.graph() == compatibility_graph(
            before.people().dom(),
            before.groups(),
            allow_intra_group,
        )
    }

    /// Builds the compatibility graph over the registered participants anew:
    /// each one with all the others, but those of its own group unless
    /// `allow_intra_group` is set.
    pub fn build_graph(&mut self, allow_intra_group: bool)
        requires
            is_partition(old(self).people().dom(), old(self).groups()),
        ensures
            final(self).is_built_from(*old(self), allow_intra_group),
            !allow_intra_group ==> separates_groups(final(self).graph(), old(self).groups()),
            allow_intra_group ==> is_complete_on(final(self).graph(), old(self).people().dom()),
    {
        let ghost people = self.people().dom();
        let ghost groups = self.groups();
        proof {
            lemma_keys_are_listed(&self.people);
        }
        self.graph.clear();
        for person_id in it: self.people.keys()
            invariant
                it.seq() == self.people.keys().remaining(),
                lists(it.seq(), people),
                self.people() == old(self).people(),
                self.groups() == old(self).groups(),
                groups == self.groups(),
                is_partition(people, groups),
                forall|k: u128|
                    self.graph@.contains_key(k) <==> exists|j: int|
                        0 <= j < it.index() && *#[trigger] it.seq()[j] == k,
                forall|k: u128| #[trigger]
                    self.graph@.contains_key(k) ==> self.graph@[k]@ == receivers_of(
                        people,
                        groups,
                        allow_intra_group,
                        k,
                    ),
        {
            let giver = PersonId(*person_id);
            assert(has_one_group(groups, giver.0));
            let giver_group = self.find_group_by_person(&giver).unwrap();
            let mut edges: HashSet<u128> = HashSet::new();
            for other_id in others: self.people.keys()
                invariant
                    others.seq() == it.seq(),
                    lists(it.seq(), people),
                    groups == self.groups(),
                    is_partition(people, groups),
                    giver.0 == *person_id,
                    in_group(groups, giver_group.0, giver.0),
                    has_one_group(groups, giver.0),
                    forall|x: u128|
                        edges@.contains(x) <==> may_give(groups, allow_intra_group, giver.0, x)
                            && exists|j: int|
                            0 <= j < others.index() && *#[trigger] others.seq()[j] == x,
            {
                if *person_id != *other_id {
                    let receiver = PersonId(*other_id);
                    assert(has_one_group(groups, receiver.0));
                    let receiver_group = self.find_group_by_person(&receiver).unwrap();
                    proof {
                        lemma_share_group_by_holder(
                            groups,
                            giver.0,
                            giver_group.0,
                            receiver.0,
                            receiver_group.0,
                        );
                    }
                    if allow_intra_group || giver_group.0 != receiver_group.0 {
                        edges.insert(*other_id);
                    }
                }
            }
            assert(edges@ =~= receivers_of(people, groups, allow_intra_group, giver.0));
            self.graph.insert(*person_id, edges);
        }
        proof {
            assert(self.graph() =~= compatibility_graph(people, groups, allow_intra_group));
            lemma_compatibility_graph_shape(people, groups, allow_intra_group);
        }
    }

    /// Some participant of `rest` that `current` may give to, if there is one.
    fn next_unassigned(&self, current: u128, rest: &HashSet<u128>) -> (next: Option<u128>)
        ensures
            match next {
                Some(n) => has_edge(self.graph(), current, n) && rest@.contains(n),
                None => forall|n: u128| has_edge(self.graph(), current, n) ==> !rest@.contains(n),
            },
    {
        match self.graph.get(&current) {
            Some(neighbors) => first_common(neighbors, rest),
            None => None,
        }
    }

    /// Whether the graph lets `from` give to `to`.
    fn allows(&self, from: u128, to: u128) -> (allowed: bool)
        ensures
            allowed == has_edge(self.graph(), from, to),
    {
        match self.graph.get(&from) {
            Some(neighbors) => neighbors.contains(&to),
            None => false,
        }
    }

    /// Extends the giving chain `path` by `current` and then, by backtracking,
    /// to a Hamiltonian cycle of the graph.
    ///
    /// `visited` holds the elements of `path`. Where the search succeeds,
    /// `path` is left as the cycle found. Where it fails, `path` and `visited`
    /// are left as they were, and no Hamiltonian cycle begins with `path`
    /// followed by `current`.
    fn find_hamiltonian_path(
        &self,
        current: u128,
        path: &mut Vec<u128>,
        visited: &mut HashSet<u128>,
    ) -> (found: bool)
        requires
            is_trail(self.graph(), old(path)@),
            old(visited)@ == old(path)@.to_set(),
            !old(visited)@.contains(current),
            old(path)@.len() > 0 ==> has_edge(self.graph(), old(path)@.last(), current),
        ensures
            found ==> is_hamiltonian_cycle(self.graph(), final(path)@) && starts_with(
                final(path)@,
                old(path)@.push(current),
            ),
            !found ==> final(path)@ == old(path)@ && final(visited)@ == old(visited)@,
            !found ==> no_cycle_through(self.graph(), old(path)@.push(current)),
        decreases self.graph().dom().len() - old(path)@.len(),
    {
        let ghost g = self.graph();
        let ghost before = path@;
        let ghost seen = visited@;
        assert(g.dom() =~= self.graph@.dom());
        let neighbors = match self.graph.get(&current) {
            Some(neighbors) => neighbors,
            None => {
                proof {
                    lemma_stranger_blocks(g, before, current);
                }
                return false;
            },
        };
        visited.insert(current);
        path.push(current);
        proof {
            lemma_trail_push(g, before, current);
            lemma_trail_fits(g, path@);
        }
        if path.len() == self.graph.len() {
            proof {
                lemma_full_trail(g, path@);
            }
            if neighbors.contains(&path[0]) {
                return true;
            }
        } else {
            proof {
                lemma_set_is_listed(neighbors);
            }
            for next in it: neighbors.iter()
                invariant
                    it.seq() == neighbors.iter().remaining(),
                    lists(it.seq(), g[current]),
                    g == self.graph(),
                    g.contains_key(current),
                    before == old(path)@,
                    path@ == before.push(current),
                    visited@ == path@.to_set(),
                    is_trail(g, path@),
                    0 < path@.len() < g.dom().len(),
                    forall|j: int|
                        0 <= j < it.index() ==> no_cycle_through(
                            g,
                            path@.push(*#[trigger] it.seq()[j]),
                        ),
            {
                if !visited.contains(next) {
                    if self.find_hamiltonian_path(*next, path, visited) {
                        proof {
                            lemma_starts_with_shorter(path@, before.push(current), *next);
                        }
                        return true;
                    }
                } else {
                    proof {
                        lemma_repeat_blocks(g, path@, *next);
                    }
                }
            }
            proof {
                lemma_dead_end(g, path@);
            }
        }
        visited.remove(&current);
        path.pop();
        proof {
            assert(path@ =~= before);
            assert(visited@ =~= seen);
        }
        false
    }

    /// Searches the graph for a Hamiltonian cycle that begins with `start`,
    /// and hands out the assignment along it.
    ///
    /// The search is exhaustive: it fails only where the graph has no
    /// Hamiltonian cycle, or does not hold `start`.
    pub fn search_from(&self, start: PersonId) -> (result: Option<HashMap<u128, u128>>)
        ensures
            result is Some <==> self.graph().contains_key(start.0) && has_hamiltonian_cycle(
                self.graph(),
            ),
            result matches Some(m) ==> is_cycle_assignment_from(self.graph(), m@, start.0),
    {
        let start = start.0;
        let mut path: Vec<u128> = Vec::new();
        let mut visited: HashSet<u128> = HashSet::new();
        proof {
            reveal(is_trail);
            reveal(no_cycle_through);
            assert(path@.to_set() =~= visited@);
        }
        if self.find_hamiltonian_path(start, &mut path, &mut visited) {
            let assignments = cycle_assignments(&path);
            proof {
                assert(seq![start][0] == start);
                assert(path@[0] == start);
                assert(path@.to_set().contains(path@[0]));
            }
            Some(assignments)
        } else {
            proof {
                if self.graph().contains_key(start) && has_hamiltonian_cycle(self.graph()) {
                    lemma_cycle_from_any_node(self.graph(), start);
                    let c = choose|c: Seq<u128>|
                        is_hamiltonian_cycle(self.graph(), c) && c[0] == start;
                    assert(starts_with(c, seq![start]));
                    assert(Seq::<u128>::empty().push(start) =~= seq![start]);
                }
            }
            None
        }
    }

    /// Searches the graph for a Hamiltonian cycle from a node picked at
    /// random, and hands out the assignment along it.
    ///
    /// Whatever node is picked, the search succeeds exactly where the graph
    /// has a Hamiltonian cycle.
    pub fn attempt_hamiltonian_path_search(&self) -> (result: Option<HashMap<u128, u128>>)
        ensures
            result is Some <==> has_hamiltonian_cycle(self.graph()),
            result matches Some(m) ==> is_cycle_assignment(self.graph(), m@),
    {
        let keys = key_list(&self.graph);
        assert(self.graph().dom() =~= self.graph@.dom());
        match pick_one(&keys) {
            Some(start) => {
                assert(keys@.to_set().contains(start));
                self.search_from(PersonId(start))
            },
            None => {
                proof {
                    if has_hamiltonian_cycle(self.graph()) {
                        let c = choose|c: Seq<u128>| is_hamiltonian_cycle(self.graph(), c);
                        assert(c.to_set().contains(c[0]));
                        assert(keys@.to_set().contains(c[0]));
                    }
                }
                None
            },
        }
    }

    /// Covers the participants with chains of gifts along the graph, each
    /// closed into a cycle where the graph allows it.
    ///
    /// Starting from any participant not yet visited, a chain goes on to any
    /// unvisited participant that the last one may give to, until there is
    /// none; then the last one gives to the first if the graph allows it.
    /// Where it may not, the chain stays open: its last participant gives to
    /// nobody, and its first one receives from nobody. A participant that
    /// cannot give to anybody unvisited when it is picked takes no part at
    /// all. Which participants are picked is not determined.
    ///
    /// Nothing comes back when no gift could be made. In a graph that
    /// connects every pair of the participants, the one chain goes through
    /// all of them and is closed.
    pub fn attempt_subloop_assignments(&self) -> (result: Option<HashMap<u128, u128>>)
        ensures
            result matches Some(m) ==> m@.len() > 0,
            has_mutual_pair(self.graph(), self.people().dom()) ==> result is Some,
            is_partial_assignment(self.graph(), self.people().dom(), gifts_of(result)),
            covers_mutual_pairs(self.graph(), self.people().dom(), gifts_of(result)),
            is_complete_on(self.graph(), self.people().dom()) && self.people().dom().len() >= 2
                ==> covers_all(self.people().dom(), gifts_of(result)),
            is_complete_on(self.graph(), self.people().dom()) && self.people().dom().len() >= 2
                && self.graph().dom() == self.people().dom() ==> is_cycle_assignment(
                self.graph(),
                gifts_of(result),
            ),
    {
        let ghost g = self.graph();
        let ghost nodes = self.people().dom();
        let mut assignments: HashMap<u128, u128> = HashMap::new();
        let mut to_assign = key_set(&self.people);
        loop
            invariant
                g == self.graph(),
                nodes == self.people().dom(),
                is_cover_state(g, nodes, to_assign@, assignments@),
                all_settled(g, nodes, to_assign@, assignments@, None),
                is_complete_on(g, nodes) && nodes.len() >= 2 ==> to_assign@ == nodes || {
                    &&& covers_all(nodes, assignments@)
                    &&& g.dom() == nodes ==> is_cycle_assignment(g, assignments@)
                },
            ensures
                to_assign@ == Set::<u128>::empty(),
            decreases to_assign@.len(),
        {
            let start = match first_of(&to_assign) {
                Some(start) => start,
                None => {
                    break;
                },
            };
            let ghost first_chain = to_assign@ == nodes;
            proof {
                lemma_chain_begins(g, nodes, to_assign@, assignments@, start);
            }
            to_assign.remove(&start);
            let ghost budget = to_assign@.len();
            let ghost mut walk = seq![start];
            let mut current = start;
            loop
                invariant
                    g == self.graph(),
                    to_assign@.len() <= budget,
                    walk[0] == start,
                    walk.last() == current,
                    is_cover_state(g, nodes, to_assign@, assignments@),
                    all_settled(g, nodes, to_assign@, assignments@, Some(current)),
                    is_chain(nodes, to_assign@, assignments@, walk),
                    first_chain ==> is_only_chain(nodes, to_assign@, assignments@, walk),
                ensures
                    to_assign@.len() <= budget,
                    walk[0] == start,
                    walk.last() == current,
                    is_cover_state(g, nodes, to_assign@, assignments@),
                    all_settled(g, nodes, to_assign@, assignments@, None),
                    is_chain(nodes, to_assign@, assignments@, walk),
                    first_chain ==> is_only_chain(nodes, to_assign@, assignments@, walk),
                    is_complete_on(g, nodes) ==> to_assign@ == Set::<u128>::empty(),
                decreases to_assign@.len(),
            {
                let next = match self.next_unassigned(current, &to_assign) {
                    Some(next) => next,
                    None => {
                        proof {
                            lemma_chain_stops(g, nodes, to_assign@, assignments@, walk);
                        }
                        break;
                    },
                };
                proof {
                    lemma_chain_goes_on(g, nodes, to_assign@, assignments@, walk, next);
                    walk = walk.push(next);
                }
                to_assign.remove(&next);
                assignments.insert(current, next);
                current = next;
            }
            if current != start && self.allows(current, start) {
                proof {
                    lemma_chain_closes(g, nodes, to_assign@, assignments@, walk);
                }
                assignments.insert(current, start);
            }
            proof {
                if is_complete_on(g, nodes) && nodes.len() >= 2 {
                    assert(first_chain);
                    assert(walk.contains(start));
                    if current == start {
                        let other = nodes.remove(start).choose();
                        assert(nodes.remove(start).len() > 0);
                        assert(nodes.remove(start).contains(other));
                        assert(walk.contains(other));
                    }
                    assert(has_edge(g, current, start));
                    lemma_only_chain_is_cycle(g, nodes, assignments@, walk);
                }
            }
        }
        proof {
            if has_mutual_pair(g, nodes) && assignments@.len() == 0 {
                let (x, y) = choose|x: u128, y: u128|
                    nodes.contains(x) && nodes.contains(y) && x != y && #[trigger] has_edge(g, x, y)
                        && #[trigger] has_edge(g, y, x);
                assert(takes_part(assignments@, x) || takes_part(assignments@, y));
                assert(assignments@.dom() =~= Set::<u128>::empty());
            }
        }
        if assignments.is_empty() {
            None
        } else {
            Some(assignments)
        }
    }

    /// Assigns every participant someone to give to, by the first of three
    /// searches that succeeds, and says which one it was.
    ///
    /// The first search looks for a single giving chain through all
    /// participants that never stays inside a group. The second allows gifts
    /// inside a group. The third settles for several chains.
    pub fn make_plan(&mut self) -> (plan: Plan)
        requires
            is_partition(old(self).people().dom(), old(self).groups()),
        ensures
            final(self).people() == old(self).people(),
            final(self).groups() == old(self).groups(),
            is_plan_for(old(self).people().dom(), old(self).groups(), plan),
            plan is Impossible <==> old(self).people().dom().len() <= 1,
            final(self).is_built_from(*old(self), !(plan is Strict)),
    {
        let ghost people = self.people().dom();
        let ghost groups = self.groups();
        proof {
            lemma_compatibility_graph_shape(people, groups, false);
            lemma_compatibility_graph_shape(people, groups, true);
            if has_hamiltonian_cycle(compatibility_graph(people, groups, false)) {
                lemma_cycle_needs_two(compatibility_graph(people, groups, false));
            }
        }
        self.build_graph(false);
        if let Some(assignments) = self.attempt_hamiltonian_path_search() {
            return Plan::Strict(assignments);
        }
        self.build_graph(true);
        if let Some(assignments) = self.attempt_hamiltonian_path_search() {
            proof {
                lemma_cycle_needs_two(self.graph());
            }
            return Plan::Relaxed(assignments);
        }
        proof {
            if people.len() >= 2 {
                lemma_complete_has_cycle(self.graph());
            }
        }
        match self.attempt_subloop_assignments() {
            Some(assignments) => {
                proof {
                    assert(assignments@.contains_key(assignments@.dom().choose()));
                    lemma_gift_needs_two(self.graph(), people, assignments@);
                }
                Plan::Subloops(assignments)
            },
            None => Plan::Impossible,
        }
    }

    /// Assigns every participant someone to give to, by the first of three
    /// searches that succeeds.
    pub fn make_assignments(&mut self) -> (result: Option<HashMap<u128, u128>>)
        requires
            is_partition(old(self).people().dom(), old(self).groups()),
        ensures
            final(self).people() == old(self).people(),
            final(self).groups() == old(self).groups(),
            is_plan_outcome(old(self).people().dom(), old(self).groups(), gifts_of(result)),
            result is Some <==> old(self).people().dom().len() >= 2,
    {
        match self.make_plan() {
            Plan::Strict(assignments) => Some(assignments),
            Plan::Relaxed(assignments) => Some(assignments),
            Plan::Subloops(assignments) => Some(assignments),
            Plan::Impossible => None,
        }
    }
}

/// Building the graph twice from the same participants and groups with the
/// same flag gives the same graph.
pub proof fn lemma_graph_is_rebuilt_alike(
    first: Picker,
    first_built: Picker,
    second: Picker,
    second_built: Picker,
    allow_intra_group: bool,
)
    requires
        first_built.is_built_from(first, allow_intra_group),
        second_built.is_built_from(second, allow_intra_group),
        first.people().dom() == second.people().dom(),
        first.groups() == second.groups(),
    ensures
        first_built.graph() == second_built.graph(),
{
}

} // verus!
