use std::collections::{HashMap, HashSet};

use secret_santa::group::{Group, GroupId};
use secret_santa::person::{Person, PersonId};
use secret_santa::picker::Picker;
use secret_santa::plan::Plan;

/// A picker with one group for each entry of `sizes`. The group at position
/// `g` has the identifier `100 + g`; its members have the identifiers
/// `10 * (g + 1) + 1`, `10 * (g + 1) + 2` and so on.
fn picker_with_groups(sizes: &[u128]) -> Picker {
    let mut picker = Picker::new();
    for (g, size) in sizes.iter().enumerate() {
        let g = g as u128;
        let mut group = Group::with_id(GroupId(100 + g), "group");
        for i in 1..=*size {
            let id = PersonId(10 * (g + 1) + i);
            group.add_person(id);
            picker.add_person(Person::with_id(id, "name", "email"));
        }
        picker.add_group(group);
    }
    picker
}

fn group_of(id: u128) -> u128 {
    id / 10
}

fn ids(sizes: &[u128]) -> HashSet<u128> {
    let mut all = HashSet::new();
    for (g, size) in sizes.iter().enumerate() {
        for i in 1..=*size {
            all.insert(10 * (g as u128 + 1) + i);
        }
    }
    all
}

/// Checks that `gifts` is one cycle through all of `people`.
fn assert_single_cycle(gifts: &HashMap<u128, u128>, people: &HashSet<u128>) {
    assert_eq!(gifts.len(), people.len());
    let givers: HashSet<u128> = gifts.keys().copied().collect();
    let receivers: HashSet<u128> = gifts.values().copied().collect();
    assert_eq!(&givers, people);
    assert_eq!(&receivers, people);
    for (giver, receiver) in gifts {
        assert_ne!(giver, receiver);
    }
    let start = *people.iter().next().expect("there is a participant");
    let mut seen = HashSet::new();
    let mut current = start;
    for _ in 0..people.len() {
        assert!(seen.insert(current));
        current = gifts[&current];
    }
    assert_eq!(current, start);
    assert_eq!(&seen, people);
}

fn assert_crosses_groups(gifts: &HashMap<u128, u128>) {
    for (giver, receiver) in gifts {
        assert_ne!(group_of(*giver), group_of(*receiver));
    }
}

#[test]
fn strict_graph_connects_other_groups_only() {
    let mut picker = picker_with_groups(&[2, 2]);
    picker.build_graph(false);
    let graph = picker.get_graph();
    assert_eq!(graph.len(), 4);
    assert_eq!(graph[&11], HashSet::from([21, 22]));
    assert_eq!(graph[&12], HashSet::from([21, 22]));
    assert_eq!(graph[&21], HashSet::from([11, 12]));
    assert_eq!(graph[&22], HashSet::from([11, 12]));
}

#[test]
fn relaxed_graph_connects_every_pair() {
    let mut picker = picker_with_groups(&[2, 2]);
    picker.build_graph(true);
    let graph = picker.get_graph();
    assert_eq!(graph.len(), 4);
    assert_eq!(graph[&11], HashSet::from([12, 21, 22]));
    assert_eq!(graph[&12], HashSet::from([11, 21, 22]));
    assert_eq!(graph[&21], HashSet::from([11, 12, 22]));
    assert_eq!(graph[&22], HashSet::from([11, 12, 21]));
}

#[test]
fn strict_graph_of_one_group_has_no_edge() {
    let mut picker = picker_with_groups(&[3]);
    picker.build_graph(false);
    let graph = picker.get_graph();
    assert_eq!(graph.len(), 3);
    for neighbors in graph.values() {
        assert!(neighbors.is_empty());
    }
}

#[test]
fn graph_of_nobody_is_empty() {
    let mut picker = picker_with_groups(&[]);
    picker.build_graph(false);
    assert!(picker.get_graph().is_empty());
    picker.build_graph(true);
    assert!(picker.get_graph().is_empty());
}

#[test]
fn graph_leaves_out_members_that_are_not_registered() {
    let mut picker = Picker::new();
    let mut group = Group::with_id(GroupId(100), "group");
    group.add_person(PersonId(1));
    group.add_person(PersonId(2));
    let mut other = Group::with_id(GroupId(101), "other");
    other.add_person(PersonId(3));
    other.add_person(PersonId(4));
    picker.add_group(group);
    picker.add_group(other);
    picker.add_person(Person::with_id(PersonId(1), "name", "email"));
    picker.add_person(Person::with_id(PersonId(3), "name", "email"));
    picker.build_graph(false);
    let graph = picker.get_graph();
    assert_eq!(graph.len(), 2);
    assert_eq!(graph[&1], HashSet::from([3]));
    assert_eq!(graph[&3], HashSet::from([1]));
}

#[test]
fn nobody_may_give_to_itself() {
    for allow in [false, true] {
        let mut picker = picker_with_groups(&[2, 3, 1]);
        picker.build_graph(allow);
        for (giver, neighbors) in picker.get_graph() {
            assert!(!neighbors.contains(giver));
        }
    }
}

#[test]
fn building_twice_gives_the_same_graph() {
    for allow in [false, true] {
        let mut picker = picker_with_groups(&[2, 3, 1]);
        picker.build_graph(allow);
        let first = picker.get_graph().clone();
        picker.build_graph(allow);
        assert_eq!(picker.get_graph(), &first);

        let mut other = picker_with_groups(&[2, 3, 1]);
        other.build_graph(allow);
        assert_eq!(other.get_graph(), &first);
    }
}

#[test]
fn rebuilding_replaces_the_graph() {
    let mut picker = picker_with_groups(&[2, 2]);
    picker.build_graph(true);
    picker.build_graph(false);
    assert_eq!(picker.get_graph()[&11], HashSet::from([21, 22]));
    picker.add_person(Person::with_id(PersonId(31), "name", "email"));
    let mut group = Group::with_id(GroupId(102), "group");
    group.add_person(PersonId(31));
    picker.add_group(group);
    picker.build_graph(false);
    assert_eq!(picker.get_graph().len(), 5);
    assert_eq!(picker.get_graph()[&11], HashSet::from([21, 22, 31]));
}

#[test]
fn two_groups_of_two_give_an_alternating_cycle() {
    for _ in 0..20 {
        let mut picker = picker_with_groups(&[2, 2]);
        match picker.make_plan() {
            Plan::Strict(gifts) => {
                assert_single_cycle(&gifts, &ids(&[2, 2]));
                assert_crosses_groups(&gifts);
            },
            _ => panic!("the strict search must succeed"),
        }
    }
}

#[test]
fn one_group_of_three_needs_the_relaxed_search() {
    for _ in 0..20 {
        let mut picker = picker_with_groups(&[3]);
        picker.build_graph(false);
        assert!(picker.attempt_hamiltonian_path_search().is_none());
        match picker.make_plan() {
            Plan::Relaxed(gifts) => assert_single_cycle(&gifts, &ids(&[3])),
            _ => panic!("only the relaxed search must succeed"),
        }
        let gifts = picker.make_assignments().expect("there is an assignment");
        assert_single_cycle(&gifts, &ids(&[3]));
    }
}

#[test]
fn nobody_gives_nothing() {
    let mut picker = picker_with_groups(&[]);
    assert!(matches!(picker.make_plan(), Plan::Impossible));
    assert!(picker.make_assignments().is_none());
}

#[test]
fn an_empty_group_gives_nothing() {
    let mut picker = picker_with_groups(&[0]);
    assert!(matches!(picker.make_plan(), Plan::Impossible));
    assert!(picker.make_assignments().is_none());
}

#[test]
fn one_participant_gives_nothing() {
    let mut picker = picker_with_groups(&[1]);
    assert!(matches!(picker.make_plan(), Plan::Impossible));
    assert!(picker.make_assignments().is_none());
}

#[test]
fn three_groups_of_one_give_a_strict_cycle() {
    for _ in 0..20 {
        let mut picker = picker_with_groups(&[1, 1, 1]);
        match picker.make_plan() {
            Plan::Strict(gifts) => {
                assert_single_cycle(&gifts, &ids(&[1, 1, 1]));
                assert_crosses_groups(&gifts);
            },
            _ => panic!("the strict search must succeed"),
        }
        let gifts = picker.make_assignments().expect("there is an assignment");
        assert_single_cycle(&gifts, &ids(&[1, 1, 1]));
        assert_crosses_groups(&gifts);
    }
}

#[test]
fn two_participants_give_to_each_other() {
    let mut picker = picker_with_groups(&[1, 1]);
    match picker.make_plan() {
        Plan::Strict(gifts) => {
            assert_eq!(gifts, HashMap::from([(11, 21), (21, 11)]));
        },
        _ => panic!("the strict search must succeed"),
    }
    let mut picker = picker_with_groups(&[2]);
    match picker.make_plan() {
        Plan::Relaxed(gifts) => {
            assert_eq!(gifts, HashMap::from([(11, 12), (12, 11)]));
        },
        _ => panic!("only the relaxed search must succeed"),
    }
}

#[test]
fn a_dominant_group_needs_the_relaxed_search() {
    for _ in 0..20 {
        let mut picker = picker_with_groups(&[3, 1]);
        match picker.make_plan() {
            Plan::Relaxed(gifts) => assert_single_cycle(&gifts, &ids(&[3, 1])),
            _ => panic!("only the relaxed search must succeed"),
        }
    }
}

#[test]
fn search_backs_out_of_chains_that_do_not_close() {
    for _ in 0..50 {
        let mut picker = picker_with_groups(&[2, 2, 1]);
        match picker.make_plan() {
            Plan::Strict(gifts) => {
                assert_single_cycle(&gifts, &ids(&[2, 2, 1]));
                assert_crosses_groups(&gifts);
            },
            _ => panic!("the strict search must succeed"),
        }
    }
}

#[test]
fn larger_groups_give_a_strict_cycle() {
    let sizes = [3, 3, 2, 1];
    let mut picker = picker_with_groups(&sizes);
    match picker.make_plan() {
        Plan::Strict(gifts) => {
            assert_single_cycle(&gifts, &ids(&sizes));
            assert_crosses_groups(&gifts);
        },
        _ => panic!("the strict search must succeed"),
    }
}

#[test]
fn plan_leaves_the_graph_it_searched() {
    let mut picker = picker_with_groups(&[2, 2]);
    assert!(matches!(picker.make_plan(), Plan::Strict(_)));
    assert_eq!(picker.get_graph()[&11], HashSet::from([21, 22]));

    let mut picker = picker_with_groups(&[3]);
    assert!(matches!(picker.make_plan(), Plan::Relaxed(_)));
    assert_eq!(picker.get_graph()[&11], HashSet::from([12, 13]));
}

#[test]
fn search_from_each_start_finds_a_cycle() {
    let sizes = [2, 2, 1];
    let mut picker = picker_with_groups(&sizes);
    picker.build_graph(false);
    for start in ids(&sizes) {
        let gifts = picker.search_from(PersonId(start)).expect("the graph has a Hamiltonian cycle");
        assert_single_cycle(&gifts, &ids(&sizes));
        assert_crosses_groups(&gifts);
    }
}

#[test]
fn search_from_a_stranger_finds_nothing() {
    let mut picker = picker_with_groups(&[2, 2]);
    picker.build_graph(false);
    assert!(picker.search_from(PersonId(99)).is_none());
}

#[test]
fn search_fails_from_each_start_without_a_cycle() {
    let sizes = [3, 1];
    let mut picker = picker_with_groups(&sizes);
    picker.build_graph(false);
    for start in ids(&sizes) {
        assert!(picker.search_from(PersonId(start)).is_none());
    }
    assert!(picker.attempt_hamiltonian_path_search().is_none());
}

#[test]
fn search_before_any_graph_was_built_finds_nothing() {
    let picker = picker_with_groups(&[2, 2]);
    assert!(picker.attempt_hamiltonian_path_search().is_none());
    assert!(picker.search_from(PersonId(11)).is_none());
    assert!(picker.attempt_subloop_assignments().is_none());
}

#[test]
fn random_start_search_succeeds_where_a_cycle_exists() {
    let sizes = [2, 2, 2];
    let mut picker = picker_with_groups(&sizes);
    picker.build_graph(false);
    for _ in 0..30 {
        let gifts = picker.attempt_hamiltonian_path_search().expect("there is a cycle");
        assert_single_cycle(&gifts, &ids(&sizes));
        assert_crosses_groups(&gifts);
    }
}

#[test]
fn subloops_on_the_relaxed_graph_cover_everybody() {
    for sizes in [vec![2u128], vec![3], vec![2, 2], vec![3, 1], vec![1, 1, 1, 1, 1]] {
        let mut picker = picker_with_groups(&sizes);
        picker.build_graph(true);
        let gifts = picker.attempt_subloop_assignments().expect("gifts can be made");
        let people = ids(&sizes);
        for person in &people {
            assert!(gifts.contains_key(person) || gifts.values().any(|r| r == person));
        }
        assert_single_cycle(&gifts, &people);
    }
}

#[test]
fn subloops_on_the_strict_graph_follow_its_edges() {
    for sizes in [vec![3u128, 1], vec![2, 2], vec![2, 2, 1], vec![4, 2, 1]] {
        for _ in 0..10 {
            let mut picker = picker_with_groups(&sizes);
            picker.build_graph(false);
            let gifts = picker.attempt_subloop_assignments().expect("gifts can be made");
            assert!(!gifts.is_empty());
            let people = ids(&sizes);
            let mut receivers = HashSet::new();
            for (giver, receiver) in &gifts {
                assert!(people.contains(giver));
                assert!(people.contains(receiver));
                assert!(picker.get_graph()[giver].contains(receiver));
                assert_ne!(giver, receiver);
                assert!(receivers.insert(*receiver));
            }
            for a in &people {
                for b in &picker.get_graph()[a] {
                    let a_takes_part = gifts.contains_key(a) || receivers.contains(a);
                    let b_takes_part = gifts.contains_key(b) || receivers.contains(b);
                    assert!(a_takes_part || b_takes_part);
                }
            }
        }
    }
}

#[test]
fn subloops_around_a_dominant_group_leave_some_out() {
    for _ in 0..20 {
        let mut picker = picker_with_groups(&[3, 1]);
        picker.build_graph(false);
        let gifts = picker.attempt_subloop_assignments().expect("gifts can be made");
        assert_eq!(gifts.len(), 2);
        assert!(gifts.contains_key(&21));
        assert!(gifts.values().any(|receiver| *receiver == 21));
        assert_ne!(group_of(gifts[&21]), 2);
    }
}

#[test]
fn subloops_between_two_give_to_each_other() {
    let mut picker = picker_with_groups(&[1, 1]);
    picker.build_graph(false);
    let gifts = picker.attempt_subloop_assignments().expect("gifts can be made");
    assert_eq!(gifts, HashMap::from([(11, 21), (21, 11)]));
}

#[test]
fn subloops_without_any_edge_give_nothing() {
    for sizes in [vec![], vec![1u128], vec![3]] {
        let mut picker = picker_with_groups(&sizes);
        picker.build_graph(false);
        assert!(picker.attempt_subloop_assignments().is_none());
    }
    let mut picker = picker_with_groups(&[1]);
    picker.build_graph(true);
    assert!(picker.attempt_subloop_assignments().is_none());
}

#[test]
fn assignments_name_registered_participants() {
    let mut picker = Picker::new();
    let mut names = HashMap::new();
    for (title, members) in [("red", vec!["r1", "r2"]), ("blue", vec!["b1", "b2", "b3"])] {
        let mut group = Group::new(title);
        for member in members {
            let person = Person::new(member, member);
            names.insert(person.id.0, member);
            group.add_person(person.id);
            picker.add_person(person);
        }
        picker.add_group(group);
    }
    assert!(picker.is_partitioned());
    let gifts = picker.make_assignments().expect("there is an assignment");
    assert_eq!(gifts.len(), 5);
    for (giver, receiver) in &gifts {
        let giver = picker.lookup_person(&PersonId(*giver)).expect("a giver is registered");
        let receiver =
            picker.lookup_person(&PersonId(*receiver)).expect("a receiver is registered");
        assert_eq!(names[&giver.id.0], giver.get_email());
        assert_eq!(names[&receiver.id.0], receiver.get_email());
        assert_ne!(giver.id, receiver.id);
    }
}
