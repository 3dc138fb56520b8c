//! One step of the simulation, in the order on which its phases depend:
//! people arrive, people decide to leave, cars and floors exchange
//! people, the cars are dispatched, energy is metered, and waits and
//! destination chances are brought up to date. Dispatch belongs to the
//! controller; what comes before it and what comes after it is here.

use crate::building::{alighting_tally, is_newcomer, lemma_exchange_waits, Building};
use crate::controller::{
    follows, nearest_decision, random_move, ElevatorController, NearestController,
    RandomController,
};
use crate::elevators::{energy_fits, fleet_energy, Elevators};
use crate::floor::after_leave_trials;
use crate::floors::{same_place, Floors};
use crate::people::ticked;
use rand::rngs::StdRng;
use vstd::prelude::*;

verus! {

impl Building {
    /// Whether `after` is this building once `count` people have entered
    /// it: they stand at the ground floor behind those who were there,
    /// each bound for some floor of the building, and nothing else has
    /// changed.
    pub open spec fn lets_in(&self, after: &Building, count: nat) -> bool {
        let ground = self.floors@[0].people@;
        &&& after.same_cars(self)
        &&& after.same_books(self)
        &&& after.floors@.len() == self.floors@.len()
        &&& same_place(self.floors@[0], after.floors@[0])
        &&& forall|i: int|
            1 <= i < self.floors@.len() ==> #[trigger] after.floors@[i] == self.floors@[i]
        &&& after.floors@[0].people@.len() == ground.len() + count
        &&& after.floors@[0].people@.take(ground.len() as int) == ground
        &&& forall|k: int|
            ground.len() <= k < after.floors@[0].people@.len() ==> is_newcomer(
                #[trigger] after.floors@[0].people@[k],
                self.floors@.len(),
            )
    }

    /// Whether `after` is this building once everybody who stands on a
    /// floor without waiting has been asked whether to leave.
    pub open spec fn asks_to_leave(&self, after: &Building) -> bool {
        &&& after.same_cars(self)
        &&& after.same_books(self)
        &&& after.floors@.len() == self.floors@.len()
        &&& forall|i: int|
            0 <= i < self.floors@.len() ==> {
                let before = #[trigger] self.floors@[i];
                &&& after_leave_trials(before.people@, after.floors@[i].people@)
                &&& same_place(before, after.floors@[i])
            }
    }

    /// Whether `after` is this building once the first half of a step
    /// has been made with `arrivals` people entering: somebody entered,
    /// then people were asked whether to leave, then every stopped car
    /// exchanged people with its floor, and at last those leaving at the
    /// ground floor went.
    pub open spec fn begins_step(&self, after: &Building, arrivals: nat) -> bool {
        exists|entered: Building, asked: Building|
            {
                &&& self.lets_in(&entered, arrivals)
                &&& #[trigger] entered.asks_to_leave(&asked)
                &&& after.crowd() == asked.crowd().exchange_through(
                    asked.elevators@,
                    asked.elevators@.len(),
                ).egress()
                &&& after.same_frame(&asked)
            }
    }

    /// Whether the counters have room for the second half of a step:
    /// the energy statistics for the energy the cars spend, and every
    /// waiting person's counter for one more step.
    pub open spec fn can_end_step(&self) -> bool {
        &&& self.avg_energy@.absorb(fleet_energy(self.elevators@), 1).fits()
        &&& self.ready_to_tick()
    }

    /// Whether `after` is this building once the second half of a step
    /// has been made: the energy the cars spend in their present state
    /// has entered the statistics, everybody who waits has waited one
    /// step more, and every floor shows its present destination chance.
    pub open spec fn ends_step(&self, after: &Building) -> bool {
        &&& after.avg_energy@ == self.avg_energy@.absorb(fleet_energy(self.elevators@), 1)
        &&& after.avg_wait_time == self.avg_wait_time
        &&& after.p_in == self.p_in
        &&& after.arrivals == self.arrivals
        &&& after.elevators@.len() == self.elevators@.len()
        &&& forall|c: int|
            0 <= c < self.elevators@.len() ==> {
                let car = #[trigger] after.elevators@[c];
                &&& car.people@ == self.elevators@[c].people@
                &&& car.floor_on == self.elevators@[c].floor_on
                &&& car.same_car(&self.elevators@[c])
            }
        &&& after.floors@.len() == self.floors@.len()
        &&& forall|i: int|
            0 <= i < self.floors@.len() ==> {
                let floor = #[trigger] after.floors@[i];
                &&& floor.people@ == ticked(self.floors@[i].people@)
                &&& floor.index == self.floors@[i].index
                &&& floor.dest_prob == after.dest_probability(i)
            }
    }

    /// The first half of a step, up to the dispatch of the cars:
    /// `arrivals` people enter, everybody idle is asked whether to leave,
    /// the stopped cars exchange people with their floors, and those
    /// leaving at the ground floor go. Nothing happens, and `false` is
    /// returned, if the wait statistics have no room for the riders who
    /// are about to get off.
    pub fn begin_step(&mut self, arrivals: usize, rng: &mut StdRng) -> (made: bool)
        requires
            old(self).wf(),
        ensures
            made == old(self).avg_wait_time@.absorb(
                alighting_tally(old(self).elevators@, old(self).elevators@.len()).total,
                alighting_tally(old(self).elevators@, old(self).elevators@.len()).count,
            ).fits(),
            !made ==> *final(self) == *old(self) && *final(rng) == *old(rng),
            made ==> old(self).begins_step(final(self), arrivals as nat),
            made ==> final(self).avg_wait_time@ == old(self).avg_wait_time@.absorb(
                alighting_tally(old(self).elevators@, old(self).elevators@.len()).total,
                alighting_tally(old(self).elevators@, old(self).elevators@.len()).count,
            ),
            final(self).floors@.len() == old(self).floors@.len(),
            final(self).elevators@.len() == old(self).elevators@.len(),
            final(self).wf(),
    {
        proof {
            lemma_exchange_waits(self.crowd(), self.elevators@, self.elevators@.len());
        }
        if !self.has_room_for_exchange() {
            return false;
        }
        self.gen_people_arriving(arrivals, rng);
        let ghost entered = *self;
        proof {
            self.lemma_floors_are_wf();
        }
        self.gen_people_leaving(rng);
        let ghost asked = *self;
        proof {
            assert(entered.asks_to_leave(&asked)) by {
                assert forall|i: int| 0 <= i < entered.floors@.len() implies {
                    let before = #[trigger] entered.floors@[i];
                    &&& after_leave_trials(before.people@, asked.floors@[i].people@)
                    &&& same_place(before, asked.floors@[i])
                } by {
                    assert(entered.levels()[i] == entered.floors@[i]);
                }
            }
            lemma_exchange_waits(asked.crowd(), asked.elevators@, asked.elevators@.len());
        }
        self.exchange_people_on_elevator();
        let ghost exchanged = *self;
        self.flush_first_floor();
        proof {
            assert(exchanged.levels()[0] == exchanged.floors@[0]);
            assert(self.crowd().floors =~= exchanged.crowd().egress().floors) by {
                assert forall|i: int| 0 <= i < self.floors@.len() implies self.crowd().floors[i]
                    == #[trigger] exchanged.crowd().egress().floors[i] by {
                    assert(exchanged.levels()[i] == exchanged.floors@[i]);
                }
            }
            assert(self.crowd().cars =~= exchanged.crowd().cars);
            assert(self.same_frame(&asked)) by {
                assert forall|i: int| 0 <= i < self.floors@.len() implies same_place(
                    #[trigger] self.floors@[i],
                    asked.floors@[i],
                ) by {
                    assert(exchanged.levels()[i] == exchanged.floors@[i]);
                    assert(same_place(exchanged.floors@[i], asked.floors@[i]));
                }
            }
            assert(old(self).lets_in(&entered, arrivals as nat));
        }
        true
    }

    /// The second half of a step, after the dispatch of the cars: the
    /// energy that the cars spend is added to the statistics, everybody
    /// who waits has waited one step more, and the destination chances
    /// are refreshed. Nothing happens, and `false` is returned, if a
    /// counter has no room for that.
    pub fn end_step(&mut self) -> (made: bool)
        requires
            old(self).wf(),
        ensures
            made == old(self).can_end_step(),
            !made ==> *final(self) == *old(self),
            made ==> old(self).ends_step(final(self)),
            final(self).floors@.len() == old(self).floors@.len(),
            final(self).elevators@.len() == old(self).elevators@.len(),
            final(self).wf(),
    {
        if !energy_fits(&self.elevators) || !self.is_ready_to_tick() {
            return false;
        }
        let energy_spent: u128 = self.elevators.get_energy_spent();
        if energy_spent > u128::MAX - self.avg_energy.total || self.avg_energy.count == u128::MAX {
            return false;
        }
        self.update_average_energy(energy_spent);
        self.increment_wait_times();
        let ghost ticked_state = *self;
        self.update_dest_probabilities();
        proof {
            assert forall|i: int| 0 <= i < old(self).floors@.len() implies {
                let floor = #[trigger] self.floors@[i];
                &&& floor.people@ == ticked(old(self).floors@[i].people@)
                &&& floor.index == old(self).floors@[i].index
                &&& floor.dest_prob == self.dest_probability(i)
            } by {
                assert(ticked_state.levels()[i] == ticked_state.floors@[i]);
                assert(old(self).levels()[i] == old(self).floors@[i]);
                assert(self.dest_probability(i) == ticked_state.dest_probability(i));
            }
            assert forall|c: int| 0 <= c < old(self).elevators@.len() implies {
                let car = #[trigger] self.elevators@[c];
                &&& car.people@ == old(self).elevators@[c].people@
                &&& car.floor_on == old(self).elevators@[c].floor_on
                &&& car.same_car(&old(self).elevators@[c])
            } by {
                assert(self.elevators@[c] == ticked_state.elevators@[c]);
            }
        }
        true
    }
}

/// How far a step got.
#[derive(Clone, Copy, PartialEq, Eq, Structural, Debug)]
pub enum StepEnd {
    /// Every phase was made.
    Complete,
    /// Nothing was done: the wait statistics have no room for the riders
    /// who are about to get off.
    NotBegun,
    /// The first half was made and the cars were dispatched, but energy
    /// was not metered and nobody's wait was counted: a counter has no
    /// room for it.
    NotEnded,
}

/// Whether `after` is the building `before` once the nearest-demand
/// policy has dispatched its cars: every car has carried out what the
/// policy decides for it in `before`, and nothing else has changed.
pub open spec fn nearest_dispatch(before: Building, after: Building) -> bool {
    &&& after.floors@ == before.floors@
    &&& after.same_books(&before)
    &&& after.elevators@.len() == before.elevators@.len()
    &&& forall|c: int|
        0 <= c < before.elevators@.len() ==> follows(
            before.elevators@[c],
            nearest_decision(before, c),
            #[trigger] after.elevators@[c],
        )
}

/// Whether `after` is the controller `before` once the random policy
/// has dispatched its cars: every car has moved one step towards a floor
/// of the building, a pending target being the one used, and nobody on a
/// floor and no statistic has changed.
pub open spec fn random_dispatch(before: RandomController, after: RandomController) -> bool {
    &&& after.building.floors@ == before.building.floors@
    &&& after.building.same_books(&before.building)
    &&& after.building.elevators@.len() == before.building.elevators@.len()
    &&& after.floors_to@.len() == before.floors_to@.len()
    &&& before.all_targeted() ==> after.rng == before.rng
    &&& forall|c: int|
        0 <= c < before.building.elevators@.len() ==> #[trigger] random_move(
            before.building.elevators@[c],
            before.floors_to@[c],
            before.building.floors@.len(),
            after.building.elevators@[c],
            after.floors_to@[c],
        )
}

impl NearestController {
    /// Whether `after` is this controller once a step with `arrivals`
    /// people entering has got as far as `end` says: the first half of
    /// the step, then the dispatch, then the second half, each on the
    /// state that the one before has left.
    pub open spec fn steps_to(&self, after: &NearestController, arrivals: nat, end: StepEnd) -> bool {
        match end {
            StepEnd::NotBegun => *after == *self,
            StepEnd::NotEnded => exists|begun: Building, moved: Building|
                {
                    &&& self.building.begins_step(&begun, arrivals)
                    &&& #[trigger] nearest_dispatch(begun, moved)
                    &&& !moved.can_end_step()
                    &&& after.building == moved
                },
            StepEnd::Complete => exists|begun: Building, moved: Building|
                {
                    &&& self.building.begins_step(&begun, arrivals)
                    &&& #[trigger] nearest_dispatch(begun, moved)
                    &&& moved.can_end_step()
                    &&& moved.ends_step(&after.building)
                },
        }
    }

    /// One step of the simulation under the nearest-demand policy, its
    /// phases in their order: `arrivals` people enter, people decide to
    /// leave, cars and floors exchange people, the cars are dispatched,
    /// energy is metered, and waits and destination chances are brought
    /// up to date. The step stops where a counter has no room.
    pub fn step(&mut self, arrivals: usize, rng: &mut StdRng) -> (end: StepEnd)
        requires
            old(self).wf(),
        ensures
            old(self).steps_to(final(self), arrivals as nat, end),
            end == StepEnd::NotBegun <==> !old(self).building.avg_wait_time@.absorb(
                alighting_tally(
                    old(self).building.elevators@,
                    old(self).building.elevators@.len(),
                ).total,
                alighting_tally(
                    old(self).building.elevators@,
                    old(self).building.elevators@.len(),
                ).count,
            ).fits(),
            end == StepEnd::NotBegun ==> *final(rng) == *old(rng),
            final(self).wf(),
    {
        if !self.building.begin_step(arrivals, rng) {
            return StepEnd::NotBegun;
        }
        let ghost begun = self.building;
        self.update_elevators();
        let ghost moved = self.building;
        proof {
            assert(nearest_dispatch(begun, moved));
        }
        if self.building.end_step() {
            StepEnd::Complete
        } else {
            StepEnd::NotEnded
        }
    }
}

impl RandomController {
    /// Whether `after` is this controller once a step with `arrivals`
    /// people entering has got as far as `end` says: the first half of
    /// the step, then the dispatch, then the second half, each on the
    /// state that the one before has left.
    pub open spec fn steps_to(&self, after: &RandomController, arrivals: nat, end: StepEnd) -> bool {
        match end {
            StepEnd::NotBegun => *after == *self,
            StepEnd::NotEnded => exists|begun: Building, moved: RandomController|
                {
                    &&& self.building.begins_step(&begun, arrivals)
                    &&& #[trigger] random_dispatch(
                        RandomController { building: begun, ..*self },
                        moved,
                    )
                    &&& !moved.building.can_end_step()
                    &&& *after == moved
                },
            StepEnd::Complete => exists|begun: Building, moved: RandomController|
                {
                    &&& self.building.begins_step(&begun, arrivals)
                    &&& #[trigger] random_dispatch(
                        RandomController { building: begun, ..*self },
                        moved,
                    )
                    &&& moved.building.can_end_step()
                    &&& moved.building.ends_step(&after.building)
                    &&& after.floors_to == moved.floors_to
                    &&& after.rng == moved.rng
                },
        }
    }

    /// One step of the simulation under the random policy, its phases in
    /// their order: `arrivals` people enter, people decide to leave, cars
    /// and floors exchange people, the cars are dispatched, energy is
    /// metered, and waits and destination chances are brought up to
    /// date. The step stops where a counter has no room.
    pub fn step(&mut self, arrivals: usize, rng: &mut StdRng) -> (end: StepEnd)
        requires
            old(self).wf(),
        ensures
            old(self).steps_to(final(self), arrivals as nat, end),
            end == StepEnd::NotBegun <==> !old(self).building.avg_wait_time@.absorb(
                alighting_tally(
                    old(self).building.elevators@,
                    old(self).building.elevators@.len(),
                ).total,
                alighting_tally(
                    old(self).building.elevators@,
                    old(self).building.elevators@.len(),
                ).count,
            ).fits(),
            end == StepEnd::NotBegun ==> *final(rng) == *old(rng),
            final(self).wf(),
    {
        if !self.building.begin_step(arrivals, rng) {
            return StepEnd::NotBegun;
        }
        let ghost begun = *self;
        proof {
            assert(begun == (RandomController { building: begun.building, ..*old(self) }));
        }
        self.update_elevators();
        let ghost moved = *self;
        proof {
            assert(random_dispatch(begun, moved));
        }
        if self.building.end_step() {
            StepEnd::Complete
        } else {
            StepEnd::NotEnded
        }
    }
}

} // verus!
