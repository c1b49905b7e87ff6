use secret_santa::group::{Group, GroupId};
use secret_santa::person::{Person, PersonId};
use secret_santa::picker::Picker;
use secret_santa::token::{FORMAT_MASK, FORMAT_RANDOM};

#[test]
fn person_keeps_name_and_email() {
    let person = Person::new("Ada", "ada@example.org");
    assert_eq!(person.get_name(), "Ada");
    assert_eq!(person.get_email(), "ada@example.org");
}

#[test]
fn person_with_id_keeps_the_id() {
    let person = Person::with_id(PersonId(7), "Bob", "bob@example.org");
    assert_eq!(person.id, PersonId(7));
    assert_eq!(person.get_name(), "Bob");
    assert_eq!(person.get_email(), "bob@example.org");
}

#[test]
fn fresh_person_ids_have_the_random_format() {
    for _ in 0..64 {
        let person = Person::new("Ada", "ada@example.org");
        assert_eq!(person.id.0 & FORMAT_MASK, FORMAT_RANDOM);
        assert_eq!((person.id.0 >> 76) & 0xf, 4);
        assert_eq!((person.id.0 >> 62) & 0x3, 2);
    }
}

#[test]
fn fresh_group_ids_have_the_random_format() {
    for _ in 0..64 {
        let group = Group::new("Family");
        assert_eq!(group.id.0 & FORMAT_MASK, FORMAT_RANDOM);
    }
}

#[test]
fn fresh_ids_differ() {
    let first = Person::new("Ada", "ada@example.org");
    let second = Person::new("Ada", "ada@example.org");
    assert_ne!(first.id, second.id);
    let group = Group::new("Family");
    let other = Group::new("Family");
    assert_ne!(group.id, other.id);
}

#[test]
fn format_constants_have_their_values() {
    assert_eq!(FORMAT_MASK, 0xf000_c000_0000_0000_0000u128);
    assert_eq!(FORMAT_RANDOM, 0x4000_8000_0000_0000_0000u128);
}

#[test]
fn new_group_is_empty() {
    let group = Group::new("Family");
    assert_eq!(group.get_title(), "Family");
    assert!(group.get_people().is_empty());
}

#[test]
fn group_with_id_keeps_the_id() {
    let group = Group::with_id(GroupId(3), "Team");
    assert_eq!(group.id, GroupId(3));
    assert_eq!(group.get_title(), "Team");
    assert!(group.get_people().is_empty());
}

#[test]
fn group_collects_members_once() {
    let mut group = Group::with_id(GroupId(3), "Team");
    group.add_person(PersonId(1));
    group.add_person(PersonId(2));
    group.add_person(PersonId(1));
    assert_eq!(group.get_people().len(), 2);
    assert!(group.get_people().contains(&1));
    assert!(group.get_people().contains(&2));
    assert!(!group.get_people().contains(&3));
    assert_eq!(group.id, GroupId(3));
    assert_eq!(group.get_title(), "Team");
}

#[test]
fn new_picker_is_empty() {
    let picker = Picker::new();
    assert!(picker.lookup_person(&PersonId(1)).is_none());
    assert!(picker.lookup_group(&GroupId(1)).is_none());
    assert!(picker.get_graph().is_empty());
}

#[test]
fn lookup_finds_what_was_added() {
    let mut picker = Picker::new();
    let person = Person::new("Ada", "ada@example.org");
    let person_id = person.id;
    let mut group = Group::new("Family");
    let group_id = group.id;
    group.add_person(person_id);
    picker.add_person(person);
    picker.add_group(group);

    let found = picker.lookup_person(&person_id).expect("the person was added");
    assert_eq!(found.id, person_id);
    assert_eq!(found.get_name(), "Ada");
    assert_eq!(found.get_email(), "ada@example.org");

    let found = picker.lookup_group(&group_id).expect("the group was added");
    assert_eq!(found.id, group_id);
    assert_eq!(found.get_title(), "Family");
    assert!(found.get_people().contains(&person_id.0));
}

#[test]
fn lookup_of_an_unknown_id_finds_nothing() {
    let mut picker = Picker::new();
    picker.add_person(Person::with_id(PersonId(1), "Ada", "ada@example.org"));
    picker.add_group(Group::with_id(GroupId(10), "Family"));
    assert!(picker.lookup_person(&PersonId(2)).is_none());
    assert!(picker.lookup_group(&GroupId(1)).is_none());
    assert!(picker.lookup_person(&PersonId(10)).is_none());
}

#[test]
fn adding_under_a_used_id_overwrites() {
    let mut picker = Picker::new();
    picker.add_person(Person::with_id(PersonId(1), "Ada", "ada@example.org"));
    picker.add_person(Person::with_id(PersonId(1), "Bob", "bob@example.org"));
    let found = picker.lookup_person(&PersonId(1)).expect("the person was added");
    assert_eq!(found.get_name(), "Bob");
    assert_eq!(found.get_email(), "bob@example.org");

    picker.add_group(Group::with_id(GroupId(5), "Old"));
    picker.add_group(Group::with_id(GroupId(5), "New"));
    let found = picker.lookup_group(&GroupId(5)).expect("the group was added");
    assert_eq!(found.get_title(), "New");
}

#[test]
fn adding_to_the_registries_leaves_the_graph_alone() {
    let mut picker = Picker::new();
    let mut group = Group::with_id(GroupId(10), "Family");
    group.add_person(PersonId(1));
    group.add_person(PersonId(2));
    picker.add_person(Person::with_id(PersonId(1), "Ada", "ada@example.org"));
    picker.add_person(Person::with_id(PersonId(2), "Bob", "bob@example.org"));
    picker.add_group(group);
    picker.build_graph(true);
    let before = picker.get_graph().clone();
    picker.add_person(Person::with_id(PersonId(3), "Cy", "cy@example.org"));
    picker.add_group(Group::with_id(GroupId(11), "Team"));
    assert_eq!(picker.get_graph(), &before);
}

#[test]
fn find_group_by_person_finds_the_group() {
    let mut picker = Picker::new();
    let mut family = Group::with_id(GroupId(10), "Family");
    family.add_person(PersonId(1));
    let mut team = Group::with_id(GroupId(11), "Team");
    team.add_person(PersonId(2));
    picker.add_group(family);
    picker.add_group(team);
    assert_eq!(picker.find_group_by_person(&PersonId(1)), Some(GroupId(10)));
    assert_eq!(picker.find_group_by_person(&PersonId(2)), Some(GroupId(11)));
    assert_eq!(picker.find_group_by_person(&PersonId(3)), None);
}

#[test]
fn partition_check_accepts_one_group_each() {
    let mut picker = Picker::new();
    let mut family = Group::with_id(GroupId(10), "Family");
    family.add_person(PersonId(1));
    family.add_person(PersonId(2));
    let mut team = Group::with_id(GroupId(11), "Team");
    team.add_person(PersonId(3));
    team.add_person(PersonId(99));
    for id in 1..=3u128 {
        picker.add_person(Person::with_id(PersonId(id), "n", "e"));
    }
    picker.add_group(family);
    picker.add_group(team);
    assert!(picker.is_partitioned());
}

#[test]
fn partition_check_accepts_the_empty_picker() {
    assert!(Picker::new().is_partitioned());
}

#[test]
fn partition_check_refuses_a_person_without_group() {
    let mut picker = Picker::new();
    let mut family = Group::with_id(GroupId(10), "Family");
    family.add_person(PersonId(1));
    picker.add_person(Person::with_id(PersonId(1), "n", "e"));
    picker.add_person(Person::with_id(PersonId(2), "n", "e"));
    picker.add_group(family);
    assert!(!picker.is_partitioned());
}

#[test]
fn partition_check_refuses_a_person_in_two_groups() {
    let mut picker = Picker::new();
    let mut family = Group::with_id(GroupId(10), "Family");
    family.add_person(PersonId(1));
    let mut team = Group::with_id(GroupId(11), "Team");
    team.add_person(PersonId(1));
    picker.add_person(Person::with_id(PersonId(1), "n", "e"));
    picker.add_group(family);
    picker.add_group(team);
    assert!(!picker.is_partitioned());
}
