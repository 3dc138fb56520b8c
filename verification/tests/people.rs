use elevator_sim::people::{can_increment, drain_selected, selected_wait, People, Selection};
use elevator_sim::person::Person;

fn someone(floor_on: usize, floor_to: usize, wait_time: usize) -> Person {
    Person { floor_on, floor_to, is_leaving: false, riding: false, wait_time, p_out: 0 }
}

fn rider(floor_on: usize, floor_to: usize, wait_time: usize) -> Person {
    Person { floor_on, floor_to, is_leaving: false, riding: true, wait_time, p_out: 0 }
}

fn mixed_group() -> Vec<Person> {
    vec![someone(1, 3, 2), someone(1, 1, 0), someone(1, 0, 5), rider(1, 4, 7), someone(1, 3, 1)]
}

#[test]
fn group_lists_destinations_in_order_with_repeats() {
    assert_eq!(mixed_group().get_dest_floors(), vec![3, 1, 0, 4, 3]);
    assert_eq!(Vec::<Person>::new().get_dest_floors(), Vec::<usize>::new());
}

#[test]
fn group_counts_its_members_and_those_waiting() {
    let group = mixed_group();
    assert_eq!(group.get_num_people(), 5);
    assert_eq!(group.get_num_people_waiting(), 3);
    assert_eq!(Vec::<Person>::new().get_num_people_waiting(), 0);
}

#[test]
fn group_sums_wait_times() {
    assert_eq!(mixed_group().get_aggregate_wait_time(), 15);
    assert_eq!(Vec::<Person>::new().get_aggregate_wait_time(), 0);
}

#[test]
fn wait_time_sum_does_not_overflow_the_counter_width() {
    let group = vec![someone(0, 1, usize::MAX), someone(0, 1, usize::MAX)];
    assert_eq!(group.get_aggregate_wait_time(), 2 * (usize::MAX as u128));
}

#[test]
fn group_knows_who_goes_where() {
    let group = mixed_group();
    assert!(group.are_people_going_to_floor(4));
    assert!(group.are_people_going_to_floor(0));
    assert!(!group.are_people_going_to_floor(2));
    assert!(!Vec::<Person>::new().are_people_going_to_floor(0));
}

#[test]
fn group_knows_whether_anyone_waits() {
    assert!(mixed_group().are_people_waiting());
    assert!(!vec![someone(1, 1, 0), rider(1, 4, 7)].are_people_waiting());
    assert!(!Vec::<Person>::new().are_people_waiting());
}

#[test]
fn tick_advances_only_those_who_wait() {
    let mut group = mixed_group();
    group.increment_wait_times();
    let waits: Vec<usize> = group.iter().map(|person| person.wait_time).collect();
    assert_eq!(waits, vec![3, 0, 6, 7, 2]);
}

#[test]
fn reset_of_a_plain_list_clears_every_counter() {
    let mut group = vec![someone(1, 3, 2), someone(1, 1, 4), rider(1, 4, 7)];
    group.reset_wait_times();
    assert_eq!(group, vec![someone(1, 3, 0), someone(1, 1, 0), rider(1, 4, 0)]);
    assert_eq!(group.get_aggregate_wait_time(), 0);
    let mut nobody: Vec<Person> = Vec::new();
    nobody.reset_wait_times();
    assert!(nobody.is_empty());
}

#[test]
fn drain_splits_group_and_keeps_order() {
    let mut group = mixed_group();
    let taken = drain_selected(&mut group, Selection::Waiting);
    assert_eq!(taken, vec![someone(1, 3, 2), someone(1, 0, 5), someone(1, 3, 1)]);
    assert_eq!(group, vec![someone(1, 1, 0), rider(1, 4, 7)]);
}

#[test]
fn drain_by_arrival_and_by_leaving() {
    let mut group = mixed_group();
    let arrived = drain_selected(&mut group, Selection::Arrived);
    assert_eq!(arrived, vec![someone(1, 1, 0)]);
    assert_eq!(group.len(), 4);

    let mut leaver = someone(0, 0, 0);
    leaver.is_leaving = true;
    let mut ground = vec![someone(0, 0, 0), leaver, someone(0, 2, 1)];
    let gone = drain_selected(&mut ground, Selection::Leaving);
    assert_eq!(gone.len(), 1);
    assert!(gone[0].is_leaving);
    assert_eq!(ground, vec![someone(0, 0, 0), someone(0, 2, 1)]);
}

#[test]
fn second_drain_finds_nobody() {
    let mut group = mixed_group();
    let first = drain_selected(&mut group, Selection::Waiting);
    assert_eq!(first.len(), 3);
    let second = drain_selected(&mut group, Selection::Waiting);
    assert!(second.is_empty());
    assert_eq!(group.len(), 2);
}

#[test]
fn drain_of_everyone_and_of_nobody() {
    let mut all_wait = vec![someone(0, 1, 0), someone(0, 2, 0)];
    let taken = drain_selected(&mut all_wait, Selection::Waiting);
    assert_eq!(taken.len(), 2);
    assert!(all_wait.is_empty());

    let mut none_wait = vec![someone(1, 1, 0)];
    assert!(drain_selected(&mut none_wait, Selection::Waiting).is_empty());
    assert_eq!(none_wait.len(), 1);

    let mut empty: Vec<Person> = Vec::new();
    assert!(drain_selected(&mut empty, Selection::Leaving).is_empty());
}

#[test]
fn selection_tests_one_person() {
    assert!(Selection::Waiting.test(&someone(1, 2, 0)));
    assert!(!Selection::Waiting.test(&rider(1, 2, 0)));
    assert!(Selection::Arrived.test(&rider(2, 2, 0)));
    assert!(!Selection::Arrived.test(&rider(1, 2, 0)));
    assert!(!Selection::Leaving.test(&someone(1, 2, 0)));
}

#[test]
fn wait_of_a_selection() {
    let group = mixed_group();
    assert_eq!(selected_wait(&group, Selection::Waiting), (8, 3));
    assert_eq!(selected_wait(&group, Selection::Arrived), (0, 1));
    assert_eq!(selected_wait(&group, Selection::Leaving), (0, 0));
    assert!(can_increment(&group));
    assert!(!can_increment(&vec![someone(0, 1, usize::MAX)]));
    assert!(can_increment(&vec![someone(1, 1, usize::MAX), rider(0, 1, usize::MAX)]));
}
