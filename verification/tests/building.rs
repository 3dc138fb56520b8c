use elevator_sim::building::{
    count_trial, ArrivalModel, Building, ConfigError, MAX_ARRIVALS_PER_STEP, P_OUT,
};
use elevator_sim::floors::Floors;
use elevator_sim::mean::RunningMean;
use elevator_sim::person::{Person, PROBABILITY_ONE};
use rand::rngs::StdRng;
use rand::SeedableRng;

fn on_floor(floor_on: usize, floor_to: usize, wait_time: usize) -> Person {
    Person { floor_on, floor_to, is_leaving: false, riding: false, wait_time, p_out: 0 }
}

fn rider(floor_on: usize, floor_to: usize, wait_time: usize) -> Person {
    Person { floor_on, floor_to, is_leaving: false, riding: true, wait_time, p_out: 0 }
}

fn building(num_floors: usize, num_elevators: usize, p_in: u64) -> Building {
    match Building::from(num_floors, num_elevators, p_in, 5_000, 2_500, 500) {
        Ok(building) => building,
        Err(error) => panic!("configuration rejected: {:?}", error),
    }
}

fn rejection(num_floors: usize, num_elevators: usize, p_in: u64) -> Option<ConfigError> {
    Building::from(num_floors, num_elevators, p_in, 5_000, 2_500, 500).err()
}

fn headcount(building: &Building) -> usize {
    let on_floors: usize = building.floors.iter().map(|floor| floor.people.len()).sum();
    let in_cars: usize = building.elevators.iter().map(|car| car.people.len()).sum();
    on_floors + in_cars
}

#[test]
fn fresh_building_is_empty() {
    let made = building(4, 2, 200_000);
    assert_eq!(made.floors.len(), 4);
    assert_eq!(made.elevators.len(), 2);
    for (index, floor) in made.floors.iter().enumerate() {
        assert_eq!(floor.index, index);
        assert!(floor.people.is_empty());
        assert_eq!(floor.dest_prob, 0);
    }
    for car in made.elevators.iter() {
        assert_eq!(car.floor_on, 0);
        assert!(car.stopped);
        assert!(car.people.is_empty());
        assert_eq!((car.energy_up, car.energy_down, car.energy_coef), (5_000, 2_500, 500));
    }
    assert_eq!(made.avg_energy, RunningMean::new());
    assert_eq!(made.avg_wait_time, RunningMean::new());
    assert_eq!(made.p_in, 200_000);
    assert_eq!(made.arrivals, ArrivalModel::Poisson);
}

#[test]
fn single_car_building_uses_repeated_trials() {
    assert_eq!(building(3, 1, 200_000).arrivals, ArrivalModel::RepeatedBernoulli);
    assert_eq!(building(3, 1, 0).arrivals, ArrivalModel::RepeatedBernoulli);
    assert_eq!(building(3, 1, PROBABILITY_ONE as u64).arrivals, ArrivalModel::RepeatedBernoulli);
    assert_eq!(building(3, 0, 1).arrivals, ArrivalModel::Poisson);
}

#[test]
fn zero_floors_are_rejected() {
    assert_eq!(rejection(0, 2, 200_000), Some(ConfigError::ZeroFloors));
    assert_eq!(rejection(0, 1, 2_000_000), Some(ConfigError::ZeroFloors));
    assert_eq!(rejection(0, 2, 0), Some(ConfigError::ZeroFloors));
}

#[test]
fn probability_above_one_is_rejected_for_a_single_car() {
    assert_eq!(rejection(4, 1, 1_000_001), Some(ConfigError::InvalidProbability));
    assert_eq!(rejection(4, 1, 1_000_000), None);
    assert_eq!(rejection(4, 2, 1_000_001), None);
}

#[test]
fn zero_rate_is_rejected_for_several_cars() {
    assert_eq!(rejection(4, 2, 0), Some(ConfigError::InvalidRate));
    assert_eq!(rejection(4, 0, 0), Some(ConfigError::InvalidRate));
    assert_eq!(rejection(4, 2, 1), None);
    assert_eq!(rejection(4, 1, 0), None);
}

#[test]
fn poisson_building_leaves_the_draw_to_its_caller() {
    let mut rng = StdRng::seed_from_u64(2);
    assert_eq!(building(4, 2, 200_000).gen_arrival_count(&mut rng), None);
}

#[test]
fn repeated_trials_stop_at_first_failure() {
    let mut rng = StdRng::seed_from_u64(2);
    let never = building(4, 1, 0);
    for _ in 0..20 {
        assert_eq!(never.gen_arrival_count(&mut rng), Some(0));
    }
    let always = building(4, 1, PROBABILITY_ONE as u64);
    assert_eq!(always.gen_arrival_count(&mut rng), Some(MAX_ARRIVALS_PER_STEP));
}

#[test]
fn repeated_trials_average_near_their_expectation() {
    // With success probability one half the expected count is one.
    let mut rng = StdRng::seed_from_u64(17);
    let even = building(4, 1, 500_000);
    let mut total = 0usize;
    for _ in 0..4_000 {
        match even.gen_arrival_count(&mut rng) {
            Some(count) => total += count,
            None => panic!("a single-car building draws its own arrivals"),
        }
    }
    assert!(total > 3_600 && total < 4_400);
}

#[test]
fn arrivals_enter_at_the_ground_floor() {
    let mut rng = StdRng::seed_from_u64(31);
    let mut made = building(5, 2, 200_000);
    made.floors[0].extend(vec![on_floor(0, 0, 0)]);
    made.gen_people_arriving(7, &mut rng);
    assert_eq!(made.floors[0].people.len(), 8);
    assert_eq!(made.floors[0].people[0], on_floor(0, 0, 0));
    for person in made.floors[0].people.iter().skip(1) {
        assert!(person.floor_to < 5);
        assert_eq!(*person, Person::with_destination(P_OUT, person.floor_to));
    }
    for floor in made.floors.iter().skip(1) {
        assert!(floor.people.is_empty());
    }
    made.gen_people_arriving(0, &mut rng);
    assert_eq!(made.floors[0].people.len(), 8);
}

#[test]
fn single_floor_arrivals_never_wait() {
    let mut rng = StdRng::seed_from_u64(6);
    let mut made = building(1, 1, 500_000);
    for _ in 0..50 {
        let count = made.gen_arrival_count(&mut rng).unwrap_or(0);
        made.gen_people_arriving(count, &mut rng);
        made.gen_people_leaving(&mut rng);
        made.exchange_people_on_elevator();
        made.increment_wait_times();
        assert!(!made.are_people_waiting_on_floor(0));
        assert_eq!(made.get_nearest_wait_floor(0), None);
        for person in made.floors[0].people.iter() {
            assert_eq!(person.wait_time, 0);
            assert_eq!(person.floor_to, 0);
        }
        assert!(made.elevators[0].people.is_empty());
    }
    assert_eq!(made.avg_wait_time, RunningMean::new());
}

#[test]
fn exchange_boards_and_alights_at_a_stopped_car() {
    let mut made = building(4, 1, 0);
    made.elevators[0].floor_on = 2;
    made.elevators[0].extend(vec![rider(2, 2, 4), rider(2, 3, 1)]);
    made.floors[2].extend(vec![on_floor(2, 2, 0), on_floor(2, 0, 6)]);
    made.exchange_people_on_elevator();
    assert_eq!(made.elevators[0].people, vec![rider(2, 3, 1), rider(2, 0, 6)]);
    assert_eq!(made.floors[2].people, vec![on_floor(2, 2, 0), on_floor(2, 2, 0)]);
    assert_eq!((made.avg_wait_time.total, made.avg_wait_time.count), (4, 1));
    assert_eq!(headcount(&made), 4);
}

#[test]
fn exchange_skips_moving_cars() {
    let mut made = building(4, 1, 0);
    made.elevators[0].floor_on = 2;
    made.elevators[0].stopped = false;
    made.elevators[0].extend(vec![rider(2, 2, 4)]);
    made.floors[2].extend(vec![on_floor(2, 0, 6)]);
    made.exchange_people_on_elevator();
    assert_eq!(made.elevators[0].people, vec![rider(2, 2, 4)]);
    assert_eq!(made.floors[2].people, vec![on_floor(2, 0, 6)]);
    assert_eq!(made.avg_wait_time, RunningMean::new());
}

#[test]
fn exchange_at_ground_floor_lets_leavers_out() {
    let mut made = building(3, 2, 200_000);
    let mut going_home = rider(0, 0, 5);
    going_home.is_leaving = true;
    let mut lingering = on_floor(0, 0, 0);
    lingering.is_leaving = true;
    made.elevators[0].extend(vec![going_home, rider(0, 0, 2)]);
    made.floors[0].extend(vec![lingering, on_floor(0, 0, 0), on_floor(0, 2, 1)]);
    made.exchange_people_on_elevator();
    // The two leavers are gone; one rider stayed on the floor; one boarded.
    assert_eq!(made.floors[0].people, vec![on_floor(0, 0, 0), on_floor(0, 0, 0)]);
    assert_eq!(made.elevators[0].people, vec![rider(0, 2, 1)]);
    assert!(made.elevators[1].people.is_empty());
    assert_eq!((made.avg_wait_time.total, made.avg_wait_time.count), (7, 2));
}

#[test]
fn first_of_two_cars_on_a_floor_takes_everyone_waiting() {
    let mut made = building(3, 2, 200_000);
    made.elevators[0].floor_on = 1;
    made.elevators[1].floor_on = 1;
    made.elevators[1].extend(vec![rider(1, 1, 9)]);
    made.floors[1].extend(vec![on_floor(1, 0, 1), on_floor(1, 2, 2)]);
    made.exchange_people_on_elevator();
    assert_eq!(made.elevators[0].people, vec![rider(1, 0, 1), rider(1, 2, 2)]);
    assert!(made.elevators[1].people.is_empty());
    assert_eq!(made.floors[1].people, vec![on_floor(1, 1, 0)]);
    assert_eq!((made.avg_wait_time.total, made.avg_wait_time.count), (9, 1));
}

#[test]
fn exchange_of_one_car_only() {
    let mut made = building(3, 2, 200_000);
    made.elevators[1].floor_on = 2;
    made.floors[0].extend(vec![on_floor(0, 1, 0)]);
    made.floors[2].extend(vec![on_floor(2, 1, 0)]);
    made.exchange_at(1);
    assert!(made.elevators[0].people.is_empty());
    assert_eq!(made.elevators[1].people, vec![rider(2, 1, 0)]);
    assert_eq!(made.floors[0].people.len(), 1);
}

#[test]
fn exchange_with_nobody_keeps_the_average_at_zero() {
    let mut made = building(3, 2, 200_000);
    for _ in 0..5 {
        made.exchange_people_on_elevator();
        made.update_average_energy(0);
    }
    assert_eq!(made.avg_wait_time.whole(), 0);
    assert_eq!(made.avg_wait_time.count, 0);
    assert_eq!(made.avg_energy.whole(), 0);
    assert_eq!((made.avg_energy.total, made.avg_energy.count), (0, 5));
}

#[test]
fn three_steps_of_waiting_give_an_average_of_three() {
    let mut made = building(3, 1, 0);
    made.floors[1].extend(vec![on_floor(1, 0, 0)]);
    made.increment_wait_times();
    made.increment_wait_times();
    made.increment_wait_times();
    assert_eq!(made.floors[1].people[0].wait_time, 3);
    // The car comes by, takes the person down and lets it off.
    made.elevators[0].floor_on = 1;
    made.exchange_people_on_elevator();
    assert_eq!(made.elevators[0].people, vec![rider(1, 0, 3)]);
    made.increment_wait_times();
    made.elevators[0].stopped = false;
    made.elevators[0].update_floor();
    made.elevators[0].stopped = true;
    made.increment_wait_times();
    assert_eq!((made.avg_wait_time.total, made.avg_wait_time.count), (0, 0));
    made.exchange_people_on_elevator();
    assert_eq!((made.avg_wait_time.total, made.avg_wait_time.count), (3, 1));
    assert_eq!(made.avg_wait_time.total as f64 / made.avg_wait_time.count as f64, 3.0);
    assert_eq!(made.avg_wait_time.whole(), 3);
    assert_eq!(made.floors[0].people, vec![on_floor(0, 0, 0)]);
}

#[test]
fn average_energy_is_the_mean_over_recorded_steps() {
    let mut made = building(3, 2, 200_000);
    made.update_average_energy(6_000);
    assert_eq!((made.avg_energy.total, made.avg_energy.count), (6_000, 1));
    made.update_average_energy(0);
    made.update_average_energy(3_000);
    assert_eq!((made.avg_energy.total, made.avg_energy.count), (9_000, 3));
    assert_eq!(made.avg_energy.whole(), 3_000);
    assert_eq!(made.avg_energy.total as f64 / made.avg_energy.count as f64 / 1_000.0, 3.0);
}

#[test]
fn destination_probabilities_follow_demand() {
    let mut made = building(4, 2, 200_000);
    let mut idle = on_floor(2, 2, 0);
    idle.p_out = 50_000;
    made.floors[2].extend(vec![idle]);
    made.floors[1].extend(vec![on_floor(1, 3, 0)]);
    made.elevators[1].extend(vec![rider(0, 3, 0)]);
    made.update_dest_probabilities();
    // Ground floor: rate 0.2 times three floors out of four.
    assert_eq!(made.get_dest_probabilities(), vec![150_000, 1_000_000, 50_000, 1_000_000]);
    assert_eq!(made.floors[2].people.len(), 1);
    assert_eq!(made.elevators[1].people.len(), 1);
}

#[test]
fn ground_floor_rate_above_one_is_reported_as_it_is() {
    let mut made = building(4, 2, 3_000_000);
    made.floors[0].extend(vec![on_floor(0, 2, 0)]);
    made.update_dest_probabilities();
    assert_eq!(made.get_dest_probabilities(), vec![2_250_000, 0, 0, 0]);
    let mut low = building(4, 2, 200_000);
    low.floors[0].extend(vec![on_floor(0, 2, 0)]);
    low.update_dest_probabilities();
    assert_eq!(low.get_dest_probabilities(), vec![1_000_000, 0, 0, 0]);
    let mut single = building(1, 2, 900_000);
    single.update_dest_probabilities();
    assert_eq!(single.get_dest_probabilities(), vec![0]);
}

#[test]
fn building_forwards_floor_queries() {
    let mut made = building(5, 2, 200_000);
    made.floors[4].extend(vec![on_floor(4, 0, 0)]);
    made.floors[1].extend(vec![on_floor(1, 0, 0)]);
    assert!(made.are_people_waiting_on_floor(4));
    assert!(!made.are_people_waiting_on_floor(3));
    assert_eq!(made.get_nearest_wait_floor(3), Some((4, 1)));
    assert_eq!(made.get_nearest_wait_floor(2), Some((1, 1)));
    let mut leaver = on_floor(0, 0, 0);
    leaver.is_leaving = true;
    made.floors[0].extend(vec![leaver]);
    made.flush_first_floor();
    assert!(made.floors[0].people.is_empty());
    made.increment_wait_times();
    assert_eq!(made.floors[4].people[0].wait_time, 1);
}

#[test]
fn departures_turn_idle_people_into_waiting_ones() {
    let mut rng = StdRng::seed_from_u64(12);
    let mut made = building(3, 2, 200_000);
    let mut certain = on_floor(2, 2, 0);
    certain.p_out = PROBABILITY_ONE;
    made.floors[2].extend(vec![certain, on_floor(2, 2, 0)]);
    made.gen_people_leaving(&mut rng);
    assert!(made.floors[2].people[0].is_leaving);
    assert!(made.floors[2].people[0].is_waiting());
    assert_eq!(made.floors[2].people[0].wait_time, 0);
    assert_eq!(made.floors[2].people[1], on_floor(2, 2, 0));
    assert_eq!(headcount(&made), 2);
}

#[test]
fn snapshot_reports_plain_figures() {
    let mut made = building(3, 2, 200_000);
    made.elevators[1].floor_on = 2;
    made.elevators[1].extend(vec![rider(2, 0, 0), rider(2, 1, 0)]);
    made.floors[1].extend(vec![on_floor(1, 1, 0), on_floor(1, 2, 0)]);
    made.update_dest_probabilities();
    made.update_average_energy(4_000);
    let shot = made.snapshot();
    assert_eq!(shot.floors.len(), 3);
    assert_eq!(
        (shot.floors[0].num_people, shot.floors[0].waiting, shot.floors[0].dest_prob),
        (0, false, 1_000_000)
    );
    assert_eq!(
        (shot.floors[1].num_people, shot.floors[1].waiting, shot.floors[1].dest_prob),
        (2, true, 1_000_000)
    );
    assert_eq!(
        (shot.floors[2].num_people, shot.floors[2].waiting, shot.floors[2].dest_prob),
        (0, false, 0)
    );
    assert_eq!((shot.cars[0].floor_on, shot.cars[0].num_people), (0, 0));
    assert_eq!((shot.cars[1].floor_on, shot.cars[1].num_people), (2, 2));
    assert_eq!((shot.avg_energy.total, shot.avg_energy.count), (4_000, 1));
    assert_eq!(shot.avg_wait_time, RunningMean::new());
}

#[test]
fn guards_tell_whether_a_step_can_be_made() {
    let mut made = building(3, 2, 200_000);
    assert!(made.is_wf());
    assert!(made.is_ready_to_tick());
    assert!(made.has_room_for_exchange());

    made.floors[1].extend(vec![on_floor(1, 0, usize::MAX)]);
    assert!(made.is_wf());
    assert!(!made.is_ready_to_tick());

    made.avg_wait_time.total = u128::MAX;
    assert!(made.has_room_for_exchange());
    made.elevators[0].extend(vec![rider(0, 0, 1)]);
    assert!(!made.has_room_for_exchange());
    made.elevators[0].stopped = false;
    assert!(made.has_room_for_exchange());
}

#[test]
fn guard_sees_what_is_out_of_order() {
    let mut misplaced = building(3, 1, 0);
    misplaced.floors[1].extend(vec![on_floor(2, 0, 0)]);
    assert!(!misplaced.is_wf());

    let mut out_of_range = building(3, 1, 0);
    out_of_range.floors[1].extend(vec![on_floor(1, 3, 0)]);
    assert!(!out_of_range.is_wf());

    let mut lost_car = building(3, 1, 0);
    lost_car.elevators[0].floor_on = 3;
    assert!(!lost_car.is_wf());

    let mut idle_with_wait = building(3, 1, 0);
    idle_with_wait.floors[1].extend(vec![on_floor(1, 1, 2)]);
    assert!(!idle_with_wait.is_wf());

    let mut bad_rate = building(3, 1, 0);
    bad_rate.p_in = 1_000_001;
    assert!(!bad_rate.is_wf());

    let mut walker_aboard = building(3, 1, 0);
    walker_aboard.elevators[0].people.push(on_floor(0, 1, 0));
    assert!(!walker_aboard.is_wf());
}

#[test]
fn each_trial_counts_one_more_or_ends_the_trials() {
    assert_eq!(count_trial(0, true), (1, true));
    assert_eq!(count_trial(0, false), (0, false));
    assert_eq!(count_trial(41, true), (42, true));
    assert_eq!(count_trial(41, false), (41, false));
    assert_eq!(
        count_trial(MAX_ARRIVALS_PER_STEP - 1, true),
        (MAX_ARRIVALS_PER_STEP, false)
    );
    assert_eq!(
        count_trial(MAX_ARRIVALS_PER_STEP - 1, false),
        (MAX_ARRIVALS_PER_STEP - 1, false)
    );
}

#[test]
fn no_arrivals_draw_nothing() {
    let mut rng = StdRng::seed_from_u64(31);
    let untouched = StdRng::seed_from_u64(31);
    let mut made = building(5, 2, 200_000);
    made.gen_people_arriving(0, &mut rng);
    assert_eq!(made.gen_arrival_count(&mut rng), None);
    assert_eq!(rng, untouched);
    made.gen_people_arriving(1, &mut rng);
    assert_ne!(rng, untouched);
    assert!(made.arrivals_fit());
}
