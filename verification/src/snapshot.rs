//! The state of the building after a step, as plain data for whoever
//! displays or records it.

use crate::building::Building;
use crate::mean::RunningMean;
use crate::people::{anyone_waiting, People};
use vstd::prelude::*;

verus! {

/// What is shown of a floor.
#[derive(Clone, Copy, PartialEq, Eq, Structural, Debug)]
pub struct FloorStatus {
    /// How many people stand on the floor.
    pub num_people: usize,
    /// Whether any of them waits for a car.
    pub waiting: bool,
    /// The chance that the floor becomes a destination, in millionths.
    pub dest_prob: u64,
}

/// What is shown of a car.
#[derive(Clone, Copy, PartialEq, Eq, Structural, Debug)]
pub struct CarStatus {
    /// The floor the car is at.
    pub floor_on: usize,
    /// How many people ride the car.
    pub num_people: usize,
}

/// What is shown of the building.
pub struct Snapshot {
    /// The floors, the ground floor first.
    pub floors: Vec<FloorStatus>,
    /// The cars, in their order.
    pub cars: Vec<CarStatus>,
    /// The mean time that people who completed a ride had waited for it.
    pub avg_wait_time: RunningMean,
    /// The mean energy that the cars spent per step.
    pub avg_energy: RunningMean,
}

impl Building {
    /// What is shown of the floor at position `i`.
    pub open spec fn floor_status(&self, i: int) -> FloorStatus {
        FloorStatus {
            num_people: self.floors@[i].people@.len() as usize,
            waiting: anyone_waiting(self.floors@[i].people@),
            dest_prob: self.floors@[i].dest_prob,
        }
    }

    /// What is shown of the car at position `c`.
    pub open spec fn car_status(&self, c: int) -> CarStatus {
        CarStatus {
            floor_on: self.elevators@[c].floor_on,
            num_people: self.elevators@[c].people@.len() as usize,
        }
    }

    /// The state of the building as plain data: for every floor its
    /// head count, whether somebody waits and its destination chance;
    /// for every car its floor and head count; and the two averages.
    pub fn snapshot(&self) -> (shot: Snapshot)
        ensures
            shot.floors@.len() == self.floors@.len(),
            forall|i: int|
                0 <= i < self.floors@.len() ==> #[trigger] shot.floors@[i] == self.floor_status(i),
            shot.cars@.len() == self.elevators@.len(),
            forall|c: int|
                0 <= c < self.elevators@.len() ==> #[trigger] shot.cars@[c] == self.car_status(c),
            shot.avg_wait_time == self.avg_wait_time,
            shot.avg_energy == self.avg_energy,
    {
        let mut floors: Vec<FloorStatus> = Vec::new();
        let mut i: usize = 0;
        while i < self.floors.len()
            invariant
                i <= self.floors.len(),
                floors@.len() == i,
                forall|k: int| 0 <= k < i ==> #[trigger] floors@[k] == self.floor_status(k),
            decreases self.floors.len() - i,
        {
            let floor = &self.floors[i];
            floors.push(
                FloorStatus {
                    num_people: floor.get_num_people(),
                    waiting: floor.are_people_waiting(),
                    dest_prob: floor.dest_prob,
                },
            );
            i = i + 1;
        }
        let mut cars: Vec<CarStatus> = Vec::new();
        let mut c: usize = 0;
        while c < self.elevators.len()
            invariant
                c <= self.elevators.len(),
                cars@.len() == c,
                forall|k: int| 0 <= k < c ==> #[trigger] cars@[k] == self.car_status(k),
            decreases self.elevators.len() - c,
        {
            let car = &self.elevators[c];
            cars.push(CarStatus { floor_on: car.floor_on, num_people: car.get_num_people() });
            c = c + 1;
        }
        Snapshot { floors, cars, avg_wait_time: self.avg_wait_time, avg_energy: self.avg_energy }
    }
}

} // verus!
