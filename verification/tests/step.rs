use elevator_sim::building::{Building, P_OUT};
use elevator_sim::controller::{ElevatorController, NearestController, RandomController};
use elevator_sim::person::{Person, PROBABILITY_ONE};
use elevator_sim::step::StepEnd;
use rand::rngs::StdRng;
use rand::SeedableRng;

fn on_floor(floor_on: usize, floor_to: usize, wait_time: usize) -> Person {
    Person { floor_on, floor_to, is_leaving: false, riding: false, wait_time, p_out: 0 }
}

fn rider(floor_on: usize, floor_to: usize, wait_time: usize) -> Person {
    Person { floor_on, floor_to, is_leaving: false, riding: true, wait_time, p_out: 0 }
}

fn building(num_floors: usize, num_elevators: usize) -> Building {
    let p_in = if num_elevators == 1 { 0 } else { 200_000 };
    match Building::from(num_floors, num_elevators, p_in, 5_000, 2_500, 500) {
        Ok(building) => building,
        Err(error) => panic!("configuration rejected: {:?}", error),
    }
}

#[test]
fn first_half_admits_asks_exchanges_and_lets_out() {
    let mut rng = StdRng::seed_from_u64(40);
    let mut made = building(4, 2);
    let mut certain = on_floor(0, 0, 0);
    certain.p_out = PROBABILITY_ONE;
    made.floors[0].extend(vec![certain, on_floor(0, 2, 1)]);
    made.elevators[1].extend(vec![rider(0, 0, 4)]);
    assert!(made.begin_step(3, &mut rng));
    // The one who was certain to leave is gone, the rider got off and
    // stays, and whoever waits at the ground floor is aboard the first car.
    assert!(made.floors[0].people.iter().all(|person| !person.is_leaving));
    assert!(made.floors[0].people.iter().all(|person| person.floor_to == 0));
    assert!(made.floors[0].people.contains(&on_floor(0, 0, 0)));
    assert_eq!(made.elevators[0].people[0], rider(0, 2, 1));
    assert!(made.elevators[0].people.iter().all(|person| person.floor_to != 0));
    assert!(made.elevators[1].people.is_empty());
    let inside = made.floors[0].people.len() + made.elevators[0].people.len();
    assert!(inside >= 2 && inside <= 5);
    for person in made.elevators[0].people.iter().skip(1) {
        let mut newcomer = Person::with_destination(P_OUT, person.floor_to);
        newcomer.riding = true;
        assert_eq!(*person, newcomer);
    }
    assert_eq!((made.avg_wait_time.total, made.avg_wait_time.count), (4, 1));
    assert!(made.is_wf());
}

#[test]
fn first_half_refuses_when_statistics_are_full() {
    let mut rng = StdRng::seed_from_u64(40);
    let untouched = StdRng::seed_from_u64(40);
    let mut made = building(4, 2);
    made.avg_wait_time.total = u128::MAX;
    made.elevators[1].extend(vec![rider(0, 0, 4)]);
    made.floors[0].extend(vec![on_floor(0, 2, 1)]);
    assert!(!made.begin_step(3, &mut rng));
    assert_eq!(made.floors[0].people, vec![on_floor(0, 2, 1)]);
    assert_eq!(made.elevators[1].people, vec![rider(0, 0, 4)]);
    assert!(made.elevators[0].people.is_empty());
    assert_eq!(made.avg_wait_time.count, 0);
    assert_eq!(rng, untouched);
}

#[test]
fn second_half_meters_ticks_and_refreshes() {
    let mut made = building(4, 2);
    made.floors[2].extend(vec![on_floor(2, 0, 1), on_floor(2, 2, 0)]);
    made.elevators[0].extend(vec![rider(0, 3, 5), rider(0, 1, 0)]);
    made.elevators[0].stopped = false;
    made.elevators[0].moving_up = true;
    assert!(made.end_step());
    assert_eq!((made.avg_energy.total, made.avg_energy.count), (6_000, 1));
    assert_eq!(made.floors[2].people, vec![on_floor(2, 0, 2), on_floor(2, 2, 0)]);
    assert_eq!(made.elevators[0].people, vec![rider(0, 3, 5), rider(0, 1, 0)]);
    let shown: Vec<u64> = made.floors.iter().map(|floor| floor.dest_prob).collect();
    assert_eq!(shown, vec![150_000, 1_000_000, 1_000_000, 1_000_000]);
    assert!(made.end_step());
    assert_eq!((made.avg_energy.total, made.avg_energy.count), (12_000, 2));
    assert_eq!(made.floors[2].people[0].wait_time, 3);
}

#[test]
fn second_half_refuses_when_a_counter_is_full() {
    let mut made = building(4, 2);
    made.floors[2].extend(vec![on_floor(2, 0, usize::MAX)]);
    assert!(!made.end_step());
    assert_eq!(made.avg_energy.count, 0);
    assert_eq!(made.floors[2].dest_prob, 0);

    let mut full = building(4, 2);
    full.avg_energy.total = u128::MAX;
    full.elevators[0].stopped = false;
    full.floors[1].extend(vec![on_floor(1, 0, 0)]);
    assert!(!full.end_step());
    assert_eq!(full.floors[1].people, vec![on_floor(1, 0, 0)]);
    full.elevators[0].stopped = true;
    assert!(full.end_step());
    assert_eq!((full.avg_energy.total, full.avg_energy.count), (u128::MAX, 1));
}

#[test]
fn steps_with_the_nearest_policy_serve_everyone() {
    let mut rng = StdRng::seed_from_u64(7);
    let mut controller = NearestController::from(building(6, 2));
    for step in 0..400 {
        let arrivals = if step < 200 { step % 2 } else { 0 };
        assert_eq!(controller.step(arrivals, &mut rng), StepEnd::Complete);
        assert!(controller.is_wf());
    }
    // Long after the last arrival nobody waits or rides any more.
    for floor in controller.building.floors.iter() {
        assert!(floor.people.iter().all(|person| person.floor_on == person.floor_to));
    }
    for car in controller.building.elevators.iter() {
        assert!(car.people.is_empty());
    }
    assert_eq!(controller.building.avg_energy.count, 400);
    assert!(controller.building.avg_wait_time.count > 0);
}

#[test]
fn steps_with_the_random_policy_keep_the_building_in_order() {
    let mut rng = StdRng::seed_from_u64(8);
    let mut controller =
        RandomController::from(building(5, 3), StdRng::seed_from_u64(9));
    for step in 0..300 {
        assert!(controller.building.begin_step(step % 3, &mut rng));
        controller.update_elevators();
        assert!(controller.building.end_step());
        assert!(controller.is_wf());
    }
    assert_eq!(controller.building.avg_energy.count, 300);
    assert!(controller.building.avg_energy.total > 0);
}

#[test]
fn same_seed_gives_the_same_run() {
    let mut totals = Vec::new();
    for _ in 0..2 {
        let mut rng = StdRng::seed_from_u64(123);
        let mut controller =
            RandomController::from(building(5, 2), StdRng::seed_from_u64(321));
        for step in 0..200 {
            assert_eq!(controller.step(step % 2, &mut rng), StepEnd::Complete);
        }
        totals.push((
            controller.building.avg_energy,
            controller.building.avg_wait_time,
            controller.building.snapshot().floors,
        ));
    }
    assert_eq!(totals[0], totals[1]);
}

#[test]
fn whole_step_is_its_three_parts_in_order() {
    let mut by_parts = NearestController::from(building(5, 2));
    let mut at_once = NearestController::from(building(5, 2));
    let mut rng_parts = StdRng::seed_from_u64(55);
    let mut rng_once = StdRng::seed_from_u64(55);
    for step in 0..150 {
        assert!(by_parts.building.begin_step(step % 3, &mut rng_parts));
        by_parts.update_elevators();
        assert!(by_parts.building.end_step());
        assert_eq!(at_once.step(step % 3, &mut rng_once), StepEnd::Complete);
        for index in 0..5 {
            assert_eq!(by_parts.building.floors[index].people, at_once.building.floors[index].people);
        }
        for c in 0..2 {
            assert_eq!(
                by_parts.building.elevators[c].people,
                at_once.building.elevators[c].people
            );
            assert_eq!(
                by_parts.building.elevators[c].floor_on,
                at_once.building.elevators[c].floor_on
            );
        }
        assert_eq!(by_parts.building.avg_energy, at_once.building.avg_energy);
        assert_eq!(by_parts.building.avg_wait_time, at_once.building.avg_wait_time);
    }
    assert_eq!(rng_parts, rng_once);
}

#[test]
fn step_stops_where_a_counter_has_no_room() {
    let mut rng = StdRng::seed_from_u64(1);
    let untouched = StdRng::seed_from_u64(1);
    let mut full = building(4, 1);
    full.avg_wait_time.total = u128::MAX;
    full.elevators[0].extend(vec![rider(0, 0, 2)]);
    let mut controller = NearestController::from(full);
    assert_eq!(controller.step(2, &mut rng), StepEnd::NotBegun);
    assert_eq!(controller.building.elevators[0].people, vec![rider(0, 0, 2)]);
    assert!(controller.building.floors[0].people.is_empty());
    assert_eq!(rng, untouched);

    let mut worn = building(4, 1);
    worn.floors[3].extend(vec![on_floor(3, 0, usize::MAX)]);
    let mut random = RandomController::from(worn, StdRng::seed_from_u64(2));
    assert_eq!(random.step(0, &mut rng), StepEnd::NotEnded);
    assert_eq!(random.building.avg_energy.count, 0);
    assert_eq!(random.building.floors[3].people, vec![on_floor(3, 0, usize::MAX)]);
}
