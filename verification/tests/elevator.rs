use elevator_sim::elevator::Elevator;
use elevator_sim::people::People;
use elevator_sim::person::Person;

fn passenger(floor_on: usize, floor_to: usize, wait_time: usize) -> Person {
    Person { floor_on, floor_to, is_leaving: false, riding: true, wait_time, p_out: 0 }
}

fn car_at(floor_on: usize, riders: Vec<Person>) -> Elevator {
    let mut car = Elevator::from(5_000, 2_500, 500);
    car.floor_on = floor_on;
    car.extend(riders);
    car
}

#[test]
fn new_car_stands_empty_at_ground_floor() {
    let car = Elevator::from(5_000, 2_500, 500);
    assert_eq!(car.floor_on, 0);
    assert!(car.stopped);
    assert!(!car.moving_up);
    assert!(car.people.is_empty());
    assert_eq!((car.energy_up, car.energy_down, car.energy_coef), (5_000, 2_500, 500));
}

#[test]
fn energy_of_two_riders_going_up_is_six() {
    // Energy in thousandths: 5.0 up, 0.5 per rider.
    let mut car = car_at(0, vec![passenger(0, 3, 0), passenger(0, 2, 0)]);
    car.stopped = false;
    car.moving_up = true;
    assert_eq!(car.get_energy_spent(), 6_000);
    assert_eq!(car.get_energy_spent() as f64 / 1_000.0, 6.0);
}

#[test]
fn energy_depends_on_direction_and_is_zero_when_stopped() {
    let mut car = car_at(4, vec![passenger(4, 0, 0), passenger(4, 1, 0), passenger(4, 2, 0)]);
    assert_eq!(car.get_energy_spent(), 0);
    car.stopped = false;
    car.moving_up = false;
    assert_eq!(car.get_energy_spent(), 4_000);
    car.moving_up = true;
    assert_eq!(car.get_energy_spent(), 6_500);
    let mut empty = Elevator::from(5_000, 2_500, 500);
    empty.stopped = false;
    assert_eq!(empty.get_energy_spent(), 2_500);
}

#[test]
fn energy_uses_the_full_width_of_its_coefficients() {
    let mut car = Elevator::from(u32::MAX, 0, u32::MAX);
    car.extend(vec![passenger(0, 1, 0), passenger(0, 1, 0)]);
    car.stopped = false;
    car.moving_up = true;
    assert_eq!(car.get_energy_spent(), 3 * (u32::MAX as u128));
}

#[test]
fn stopped_car_does_not_move() {
    let mut car = car_at(2, vec![passenger(2, 5, 1)]);
    car.moving_up = true;
    assert_eq!(car.update_floor(), 2);
    assert_eq!(car.update_floor(), 2);
    assert_eq!(car.floor_on, 2);
    assert_eq!(car.people, vec![passenger(2, 5, 1)]);
}

#[test]
fn moving_car_takes_its_riders_along() {
    let mut car = car_at(2, vec![passenger(2, 5, 1), passenger(2, 0, 3)]);
    car.stopped = false;
    car.moving_up = true;
    assert_eq!(car.update_floor(), 3);
    assert_eq!(car.people, vec![passenger(3, 5, 1), passenger(3, 0, 3)]);
    car.moving_up = false;
    assert_eq!(car.update_floor(), 2);
    assert_eq!(car.update_floor(), 1);
    assert_eq!(car.people, vec![passenger(1, 5, 1), passenger(1, 0, 3)]);
}

#[test]
fn empty_car_has_no_ride_target() {
    assert_eq!(Elevator::from(1, 1, 1).get_nearest_dest_floor(), None);
}

#[test]
fn nearest_ride_target_minimises_distance() {
    let car = car_at(3, vec![passenger(3, 7, 0), passenger(3, 4, 0), passenger(3, 0, 0)]);
    assert_eq!(car.get_nearest_dest_floor(), Some((4, 1)));
}

#[test]
fn equally_near_ride_targets_resolve_to_lower_floor() {
    let up_first = car_at(3, vec![passenger(3, 5, 0), passenger(3, 1, 0)]);
    assert_eq!(up_first.get_nearest_dest_floor(), Some((1, 2)));
    let down_first = car_at(3, vec![passenger(3, 1, 0), passenger(3, 5, 0)]);
    assert_eq!(down_first.get_nearest_dest_floor(), Some((1, 2)));
}

#[test]
fn ride_target_may_be_the_current_floor() {
    let car = car_at(3, vec![passenger(3, 5, 0), passenger(3, 3, 0)]);
    assert_eq!(car.get_nearest_dest_floor(), Some((3, 0)));
}

#[test]
fn alighting_takes_exactly_those_who_have_arrived() {
    let mut car = car_at(
        2,
        vec![passenger(2, 2, 4), passenger(2, 5, 1), passenger(2, 2, 0), passenger(2, 0, 9)],
    );
    let off = car.flush_people_leaving_elevator();
    assert_eq!(off, vec![passenger(2, 2, 4), passenger(2, 2, 0)]);
    assert_eq!(car.people, vec![passenger(2, 5, 1), passenger(2, 0, 9)]);
    assert!(!car.are_people_going_to_floor(2));
    assert!(car.flush_people_leaving_elevator().is_empty());
}

#[test]
fn people_boarding_ride_from_then_on() {
    let mut car = car_at(1, vec![passenger(1, 3, 0)]);
    let mut walker = passenger(1, 4, 6);
    walker.riding = false;
    car.extend(vec![walker]);
    assert_eq!(car.people, vec![passenger(1, 3, 0), passenger(1, 4, 6)]);
    assert_eq!(car.get_num_people(), 2);
    assert_eq!(car.get_num_people_waiting(), 0);
    assert!(!car.are_people_waiting());
    assert_eq!(car.get_dest_floors(), vec![3, 4]);
    assert_eq!(car.get_aggregate_wait_time(), 6);
}

#[test]
fn riders_are_not_ticked() {
    let mut car = car_at(1, vec![passenger(1, 3, 2), passenger(1, 4, 6)]);
    car.increment_wait_times();
    assert_eq!(car.people, vec![passenger(1, 3, 2), passenger(1, 4, 6)]);
}

#[test]
fn reset_on_a_car_keeps_the_waits_of_its_riders() {
    let mut car = car_at(1, vec![passenger(1, 3, 2), passenger(1, 1, 6)]);
    car.reset_wait_times();
    assert_eq!(car.people, vec![passenger(1, 3, 2), passenger(1, 1, 6)]);
    assert_eq!(car.get_aggregate_wait_time(), 8);
}
