use elevator_sim::building::Building;
use elevator_sim::controller::{
    carry_out, ElevatorController, NearestController, RandomController,
};
use elevator_sim::elevator::Elevator;
use elevator_sim::floors::Floors;
use elevator_sim::nearest::Decision;
use elevator_sim::person::Person;
use rand::rngs::StdRng;
use rand::SeedableRng;

fn on_floor(floor_on: usize, floor_to: usize, wait_time: usize) -> Person {
    Person { floor_on, floor_to, is_leaving: false, riding: false, wait_time, p_out: 0 }
}

fn rider(floor_on: usize, floor_to: usize, wait_time: usize) -> Person {
    Person { floor_on, floor_to, is_leaving: false, riding: true, wait_time, p_out: 0 }
}

fn building(num_floors: usize, num_elevators: usize) -> Building {
    let p_in = if num_elevators == 1 { 0 } else { 200_000 };
    match Building::from(num_floors, num_elevators, p_in, 5_000, 2_500, 500) {
        Ok(building) => building,
        Err(error) => panic!("configuration rejected: {:?}", error),
    }
}

fn place(car: &mut Elevator, floor_on: usize, stopped: bool, moving_up: bool) {
    car.floor_on = floor_on;
    car.stopped = stopped;
    car.moving_up = moving_up;
}

#[test]
fn decision_is_committed_and_carried_out() {
    let mut car = Elevator::from(1, 1, 1);
    car.extend(vec![rider(0, 2, 0)]);
    carry_out(&mut car, Decision::Up);
    assert_eq!((car.floor_on, car.stopped, car.moving_up), (1, false, true));
    assert_eq!(car.people, vec![rider(1, 2, 0)]);
    carry_out(&mut car, Decision::Stop);
    assert_eq!((car.floor_on, car.stopped, car.moving_up), (1, true, true));
    carry_out(&mut car, Decision::Down);
    assert_eq!((car.floor_on, car.stopped, car.moving_up), (0, false, false));
    assert_eq!(car.people, vec![rider(0, 2, 0)]);
}

#[test]
fn idle_car_without_demand_stays() {
    let mut controller = NearestController::from(building(4, 2));
    assert_eq!(controller.decide(0), Decision::Stop);
    controller.update_elevators();
    assert_eq!(controller.building.elevators[0].floor_on, 0);
    assert!(controller.building.elevators[0].stopped);
}

#[test]
fn standing_car_prefers_its_riders_over_waiting_floors() {
    let mut made = building(6, 1);
    place(&mut made.elevators[0], 2, true, false);
    made.elevators[0].extend(vec![rider(2, 5, 0)]);
    made.floors[1].extend(vec![on_floor(1, 0, 0)]);
    let controller = NearestController::from(made);
    assert_eq!(controller.decide(0), Decision::Up);
}

#[test]
fn empty_standing_car_goes_to_nearest_waiting_floor() {
    let mut made = building(6, 1);
    place(&mut made.elevators[0], 3, true, true);
    made.floors[0].extend(vec![on_floor(0, 4, 0)]);
    made.floors[5].extend(vec![on_floor(5, 0, 0)]);
    let controller = NearestController::from(made);
    assert_eq!(controller.decide(0), Decision::Up);
}

#[test]
fn equally_near_waiting_floors_send_the_car_down() {
    let mut made = building(7, 1);
    place(&mut made.elevators[0], 3, true, true);
    made.floors[1].extend(vec![on_floor(1, 4, 0)]);
    made.floors[5].extend(vec![on_floor(5, 0, 0)]);
    let controller = NearestController::from(made);
    assert_eq!(controller.decide(0), Decision::Down);
}

#[test]
fn standing_car_stays_for_demand_at_its_own_floor() {
    let mut made = building(6, 1);
    place(&mut made.elevators[0], 3, true, true);
    made.floors[3].extend(vec![on_floor(3, 0, 0)]);
    made.floors[4].extend(vec![on_floor(4, 0, 0)]);
    assert_eq!(NearestController::from(made).decide(0), Decision::Stop);

    let mut other = building(6, 1);
    place(&mut other.elevators[0], 3, true, true);
    other.elevators[0].extend(vec![rider(3, 3, 0), rider(3, 5, 0)]);
    assert_eq!(NearestController::from(other).decide(0), Decision::Stop);
}

#[test]
fn moving_car_stops_at_top_floor_instead_of_leaving_the_building() {
    let mut made = building(4, 1);
    place(&mut made.elevators[0], 3, false, true);
    made.elevators[0].extend(vec![rider(3, 0, 0)]);
    let mut controller = NearestController::from(made);
    assert_eq!(controller.decide(0), Decision::Stop);
    controller.update_elevators();
    assert_eq!(controller.building.elevators[0].floor_on, 3);
    assert!(controller.building.elevators[0].stopped);
}

#[test]
fn moving_car_stops_at_bottom_floor() {
    let mut made = building(4, 1);
    place(&mut made.elevators[0], 0, false, false);
    let mut controller = NearestController::from(made);
    controller.update_elevators();
    assert_eq!(controller.building.elevators[0].floor_on, 0);
    assert!(controller.building.elevators[0].stopped);
}

#[test]
fn moving_car_stops_where_somebody_waits_or_gets_off() {
    let mut made = building(6, 2);
    place(&mut made.elevators[0], 2, false, true);
    place(&mut made.elevators[1], 4, false, false);
    made.floors[2].extend(vec![on_floor(2, 5, 0)]);
    made.elevators[1].extend(vec![rider(4, 4, 0), rider(4, 0, 0)]);
    let controller = NearestController::from(made);
    assert_eq!(controller.decide(0), Decision::Stop);
    assert_eq!(controller.decide(1), Decision::Stop);
}

#[test]
fn moving_car_keeps_going_otherwise() {
    let mut made = building(6, 2);
    place(&mut made.elevators[0], 2, false, true);
    place(&mut made.elevators[1], 4, false, false);
    made.elevators[1].extend(vec![rider(4, 0, 0)]);
    made.floors[5].extend(vec![on_floor(5, 0, 0)]);
    let mut controller = NearestController::from(made);
    assert_eq!(controller.decide(0), Decision::Up);
    assert_eq!(controller.decide(1), Decision::Down);
    controller.update_elevators();
    assert_eq!(controller.building.elevators[0].floor_on, 3);
    assert_eq!(controller.building.elevators[1].floor_on, 3);
    assert_eq!(controller.building.elevators[1].people, vec![rider(3, 0, 0)]);
}

#[test]
fn stopped_car_keeps_its_floor_from_step_to_step() {
    let mut made = building(5, 2);
    place(&mut made.elevators[1], 3, true, true);
    let mut controller = NearestController::from(made);
    for _ in 0..5 {
        controller.update_elevators();
        assert!(controller.building.elevators[1].stopped);
        assert_eq!(controller.building.elevators[1].floor_on, 3);
    }
}

#[test]
fn one_arrival_for_the_top_floor_is_delivered() {
    let mut made = building(4, 1);
    made.floors[0].extend(vec![Person::with_destination(0, 3)]);
    let mut controller = NearestController::from(made);

    // Boarding, then three advances of one floor each.
    controller.building.exchange_people_on_elevator();
    assert_eq!(controller.building.elevators[0].people, vec![rider(0, 3, 0)]);
    for floor in 1..4 {
        controller.update_elevators();
        controller.building.increment_wait_times();
        assert_eq!(controller.building.elevators[0].floor_on, floor);
        assert_eq!(controller.building.elevators[0].people, vec![rider(floor, 3, 0)]);
        controller.building.exchange_people_on_elevator();
    }
    // The car arrives moving; it stops at the top and lets its rider off.
    assert_eq!(controller.building.elevators[0].people.len(), 1);
    controller.update_elevators();
    assert!(controller.building.elevators[0].stopped);
    controller.building.exchange_people_on_elevator();
    assert!(controller.building.elevators[0].people.is_empty());
    assert_eq!(controller.building.floors[3].people, vec![on_floor(3, 3, 0)]);
    let person = &controller.building.floors[3].people[0];
    assert!(!person.riding);
    assert_eq!(person.floor_on, 3);
    assert_eq!(person.wait_time, 0);
    assert_eq!(controller.building.avg_wait_time.count, 1);
}

#[test]
fn car_with_the_passenger_moves_and_the_idle_car_holds() {
    let mut made = building(6, 2);
    place(&mut made.elevators[1], 5, true, false);
    made.floors[0].extend(vec![on_floor(0, 2, 0)]);
    made.exchange_people_on_elevator();
    let mut controller = NearestController::from(made);
    assert_eq!(controller.decide(0), Decision::Up);
    assert_eq!(controller.decide(1), Decision::Stop);
    controller.update_elevators();
    assert_eq!(controller.building.elevators[0].floor_on, 1);
    assert!(!controller.building.elevators[0].stopped);
    assert_eq!(controller.building.elevators[1].floor_on, 5);
    assert!(controller.building.elevators[1].stopped);
}

#[test]
fn decisions_are_taken_before_any_car_moves() {
    let mut made = building(6, 2);
    place(&mut made.elevators[0], 1, true, false);
    place(&mut made.elevators[1], 4, true, false);
    made.floors[2].extend(vec![on_floor(2, 0, 0)]);
    let mut controller = NearestController::from(made);
    controller.update_elevators();
    assert_eq!(controller.building.elevators[0].floor_on, 2);
    assert_eq!(controller.building.elevators[1].floor_on, 3);
    assert_eq!(controller.building.floors[2].people, vec![on_floor(2, 0, 0)]);
}

#[test]
fn random_controller_starts_without_targets() {
    let controller = RandomController::from(building(4, 3), StdRng::seed_from_u64(1));
    assert_eq!(controller.floors_to, vec![None, None, None]);
    assert_eq!(controller.building.elevators.len(), 3);
}

#[test]
fn steering_keeps_the_target_until_arrival() {
    let mut controller = RandomController::from(building(5, 1), StdRng::seed_from_u64(1));
    controller.building.elevators[0].extend(vec![rider(0, 4, 0)]);
    controller.steer(0, 2);
    assert_eq!(controller.building.elevators[0].floor_on, 1);
    assert_eq!(controller.floors_to, vec![Some(2)]);
    controller.update_elevators();
    assert_eq!(controller.building.elevators[0].floor_on, 2);
    assert_eq!(controller.building.elevators[0].people, vec![rider(2, 4, 0)]);
    assert_eq!(controller.floors_to, vec![Some(2)]);
    controller.update_elevators();
    assert_eq!(controller.building.elevators[0].floor_on, 2);
    assert!(controller.building.elevators[0].stopped);
    assert_eq!(controller.floors_to, vec![None]);
}

#[test]
fn steering_downwards() {
    let mut controller = RandomController::from(building(5, 2), StdRng::seed_from_u64(1));
    place(&mut controller.building.elevators[1], 4, true, true);
    controller.steer(1, 0);
    assert_eq!(controller.building.elevators[1].floor_on, 3);
    assert!(!controller.building.elevators[1].moving_up);
    assert_eq!(controller.floors_to, vec![None, Some(0)]);
    assert_eq!(controller.building.elevators[0].floor_on, 0);
}

#[test]
fn random_cars_never_leave_the_building() {
    let mut controller = RandomController::from(building(4, 3), StdRng::seed_from_u64(77));
    let mut visited = [false; 4];
    for _ in 0..500 {
        let before: Vec<usize> =
            controller.building.elevators.iter().map(|car| car.floor_on).collect();
        controller.update_elevators();
        for (c, car) in controller.building.elevators.iter().enumerate() {
            assert!(car.floor_on < 4);
            assert!(car.floor_on.abs_diff(before[c]) <= 1);
            if car.stopped {
                assert_eq!(car.floor_on, before[c]);
                assert_eq!(controller.floors_to[c], None);
            } else {
                assert!(controller.floors_to[c].is_some());
            }
            visited[car.floor_on] = true;
        }
    }
    assert_eq!(visited, [true, true, true, true]);
}

#[test]
fn random_car_in_a_single_floor_building_stands() {
    let mut controller = RandomController::from(building(1, 1), StdRng::seed_from_u64(5));
    for _ in 0..20 {
        controller.update_elevators();
        assert_eq!(controller.building.elevators[0].floor_on, 0);
        assert!(controller.building.elevators[0].stopped);
    }
}

#[test]
fn full_run_keeps_everyone_accounted_for() {
    let mut rng = StdRng::seed_from_u64(2024);
    let mut controller = NearestController::from(building(5, 2));
    let mut entered = 0usize;
    for step in 0..300 {
        let count = step % 3;
        entered += count;
        controller.building.gen_people_arriving(count, &mut rng);
        controller.building.gen_people_leaving(&mut rng);
        controller.building.flush_first_floor();
        controller.building.exchange_people_on_elevator();
        controller.update_elevators();
        controller.building.increment_wait_times();
        let building = &controller.building;
        let mut inside = 0usize;
        for (index, floor) in building.floors.iter().enumerate() {
            for person in floor.people.iter() {
                inside += 1;
                assert!(!person.riding);
                assert_eq!(person.floor_on, index);
                assert!(person.floor_to < 5);
                if person.floor_on == person.floor_to {
                    assert_eq!(person.wait_time, 0);
                }
            }
        }
        for car in building.elevators.iter() {
            assert!(car.floor_on < 5);
            for person in car.people.iter() {
                inside += 1;
                assert!(person.riding);
                assert_eq!(person.floor_on, car.floor_on);
            }
        }
        assert!(inside <= entered);
    }
    assert!(controller.building.avg_wait_time.count > 0);
}

#[test]
fn random_policy_draws_nothing_while_every_car_has_a_target() {
    let mut controller = RandomController::from(building(6, 2), StdRng::seed_from_u64(3));
    let untouched = StdRng::seed_from_u64(3);
    controller.steer(0, 5);
    controller.steer(1, 4);
    controller.update_elevators();
    controller.update_elevators();
    assert_eq!(controller.rng, untouched);
    assert_eq!(controller.building.elevators[0].floor_on, 3);
    assert_eq!(controller.building.elevators[1].floor_on, 3);
    controller.floors_to[1] = None;
    controller.update_elevators();
    assert_ne!(controller.rng, untouched);
}
