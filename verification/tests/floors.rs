use elevator_sim::floor::Floor;
use elevator_sim::floors::Floors;
use elevator_sim::person::{Person, PROBABILITY_ONE};
use rand::rngs::StdRng;
use rand::SeedableRng;

fn on_floor(floor_on: usize, floor_to: usize, p_out: u32) -> Person {
    Person { floor_on, floor_to, is_leaving: false, riding: false, wait_time: 0, p_out }
}

/// Six floors; somebody waits on each of the listed ones.
fn floors_with_waiting(waiting: &[usize]) -> Vec<Floor> {
    let mut floors = Vec::new();
    for index in 0..6 {
        let mut floor = Floor::new(index);
        floor.extend(vec![on_floor(index, index, 0)]);
        if waiting.contains(&index) {
            floor.extend(vec![on_floor(index, (index + 1) % 6, 0)]);
        }
        floors.push(floor);
    }
    floors
}

#[test]
fn waiting_is_reported_per_floor() {
    let floors = floors_with_waiting(&[1, 4]);
    assert!(!floors.are_people_waiting_on_floor(0));
    assert!(floors.are_people_waiting_on_floor(1));
    assert!(floors.are_people_waiting_on_floor(4));
    assert!(!floors.are_people_waiting_on_floor(5));
}

#[test]
fn no_wait_floor_when_nobody_waits() {
    assert_eq!(floors_with_waiting(&[]).get_nearest_wait_floor(3), None);
    assert_eq!(Vec::<Floor>::new().get_nearest_wait_floor(0), None);
}

#[test]
fn nearest_wait_floor_minimises_distance() {
    let floors = floors_with_waiting(&[0, 4]);
    assert_eq!(floors.get_nearest_wait_floor(3), Some((4, 1)));
    assert_eq!(floors.get_nearest_wait_floor(1), Some((0, 1)));
    assert_eq!(floors.get_nearest_wait_floor(5), Some((4, 1)));
}

#[test]
fn equally_near_wait_floors_resolve_to_lower_floor() {
    let floors = floors_with_waiting(&[1, 5]);
    assert_eq!(floors.get_nearest_wait_floor(3), Some((1, 2)));
}

#[test]
fn wait_floor_may_be_the_current_floor() {
    let floors = floors_with_waiting(&[2, 3]);
    assert_eq!(floors.get_nearest_wait_floor(3), Some((3, 0)));
}

#[test]
fn destination_probabilities_are_listed_in_floor_order() {
    let mut floors = floors_with_waiting(&[]);
    floors[0].dest_prob = 150_000;
    floors[3].dest_prob = PROBABILITY_ONE as u64;
    assert_eq!(floors.get_dest_probabilities(), vec![150_000, 0, 0, 1_000_000, 0, 0]);
}

#[test]
fn leave_trials_reach_every_floor() {
    let mut rng = StdRng::seed_from_u64(21);
    let mut floors = Vec::new();
    for index in 0..3 {
        let mut floor = Floor::new(index);
        floor.extend(vec![on_floor(index, index, PROBABILITY_ONE), on_floor(index, index, 0)]);
        floors.push(floor);
    }
    floors.gen_people_leaving(&mut rng);
    for index in 0..3 {
        assert!(floors[index].people[0].is_leaving);
        assert_eq!(floors[index].people[0].floor_to, 0);
        assert!(!floors[index].people[1].is_leaving);
    }
}

#[test]
fn ground_floor_egress_spares_other_floors() {
    let mut floors = Vec::new();
    for index in 0..2 {
        let mut floor = Floor::new(index);
        let mut leaver = on_floor(index, 0, 0);
        leaver.is_leaving = true;
        floor.extend(vec![leaver, on_floor(index, index, 0)]);
        floors.push(floor);
    }
    floors.flush_first_floor();
    assert_eq!(floors[0].people, vec![on_floor(0, 0, 0)]);
    assert_eq!(floors[1].people.len(), 2);
    assert!(floors[1].people[0].is_leaving);
}

#[test]
fn tick_reaches_every_waiting_person() {
    let mut floors = floors_with_waiting(&[1, 4]);
    floors.increment_wait_times();
    floors.increment_wait_times();
    for index in 0..6 {
        assert_eq!(floors[index].people[0].wait_time, 0);
    }
    assert_eq!(floors[1].people[1].wait_time, 2);
    assert_eq!(floors[4].people[1].wait_time, 2);
}
