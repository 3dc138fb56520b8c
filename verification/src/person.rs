//! A single occupant of the building.

use crate::random::{draw_below, draw_bernoulli};
use rand::rngs::StdRng;
use vstd::prelude::*;

verus! {

/// The value that stands for probability one: probabilities are whole
/// numbers of millionths.
pub const PROBABILITY_ONE: u32 = 1_000_000;

/// An occupant: where it stands, where it wants to go, and how long it has
/// been waiting for a car.
#[derive(Debug, PartialEq, Eq, Structural)]
pub struct Person {
    /// The floor the person is on, or the floor of the car it rides.
    pub floor_on: usize,
    /// The floor the person wants to reach.
    pub floor_to: usize,
    /// Set once the person has decided to leave the building; never cleared.
    pub is_leaving: bool,
    /// Whether the person is aboard a car.
    pub riding: bool,
    /// Steps spent waiting for a car since the last completed ride.
    pub wait_time: usize,
    /// Chance, in millionths, that the person decides to leave when asked.
    pub p_out: u32,
}

impl Person {
    /// A person waits when it stands on a floor other than its destination.
    pub open spec fn waiting(self) -> bool {
        !self.riding && self.floor_on != self.floor_to
    }

    /// A person has arrived when it is at its destination floor.
    pub open spec fn arrived(self) -> bool {
        self.floor_on == self.floor_to
    }

    /// The leave probability is a probability, and a person who is leaving
    /// heads for the ground floor.
    pub open spec fn wf(self) -> bool {
        &&& self.p_out <= PROBABILITY_ONE
        &&& self.is_leaving ==> self.floor_to == 0
    }

    /// The person who has just entered the building at the ground floor.
    pub open spec fn arriving(p_out: u32, floor_to: usize) -> Person {
        Person { floor_on: 0, floor_to, is_leaving: false, riding: false, wait_time: 0, p_out }
    }

    /// The person after it has decided to leave: bound for the ground floor.
    pub open spec fn departing(self) -> Person {
        Person { floor_to: 0, is_leaving: true, ..self }
    }

    /// The person after being asked whether it leaves, given the outcome
    /// of its trial. A person who is already leaving is not asked again.
    pub open spec fn asked_to_leave(self, draw: bool) -> Person {
        if !self.is_leaving && draw {
            self.departing()
        } else {
            self
        }
    }

    /// The person after one more step of waiting.
    pub open spec fn ticked(self) -> Person {
        Person { wait_time: (self.wait_time + 1) as usize, ..self }
    }

    /// The person with its wait counter cleared.
    pub open spec fn rested(self) -> Person {
        Person { wait_time: 0, ..self }
    }

    /// The person as a rider of a car.
    pub open spec fn boarded(self) -> Person {
        Person { riding: true, ..self }
    }

    /// The person as someone standing on a floor.
    pub open spec fn landed(self) -> Person {
        Person { riding: false, ..self }
    }

    /// The person carried to another floor.
    pub open spec fn moved_to(self, floor: usize) -> Person {
        Person { floor_on: floor, ..self }
    }

    /// What stays the same about a person for as long as it is in the
    /// building and has not changed its mind: everything but where it is
    /// carried and how long it has waited.
    pub open spec fn identity(self) -> Person {
        Person { floor_on: 0, riding: false, wait_time: 0, ..self }
    }

    /// A person entering at the ground floor with a given destination.
    pub fn with_destination(p_out: u32, floor_to: usize) -> (person: Person)
        ensures
            person == Person::arriving(p_out, floor_to),
    {
        Person { floor_on: 0, floor_to, is_leaving: false, riding: false, wait_time: 0, p_out }
    }

    /// A person entering at the ground floor, bound for a floor drawn
    /// uniformly from the building's floors.
    pub fn from(p_out: u32, num_floors: usize, rng: &mut StdRng) -> (person: Person)
        requires
            p_out <= PROBABILITY_ONE,
            num_floors > 0,
        ensures
            person == Person::arriving(p_out, person.floor_to),
            person.floor_to < num_floors,
            person.wf(),
    {
        let floor_to: usize = draw_below(rng, num_floors);
        Person::with_destination(p_out, floor_to)
    }

    /// Whether the person is well formed.
    pub fn is_wf(&self) -> (ok: bool)
        ensures
            ok == self.wf(),
    {
        self.p_out <= PROBABILITY_ONE && (!self.is_leaving || self.floor_to == 0)
    }

    /// Whether the person waits for a car.
    pub fn is_waiting(&self) -> (waiting: bool)
        ensures
            waiting == self.waiting(),
    {
        !self.riding && self.floor_on != self.floor_to
    }

    /// Applies the outcome of the person's leave trial and reports whether
    /// the person is leaving.
    pub fn decide_leaving(&mut self, draw: bool) -> (leaving: bool)
        ensures
            *final(self) == old(self).asked_to_leave(draw),
            leaving == final(self).is_leaving,
    {
        if !self.is_leaving && draw {
            self.floor_to = 0;
            self.is_leaving = true;
        }
        self.is_leaving
    }

    /// Asks the person whether it leaves the building. One who is already
    /// leaving stays so and draws nothing; otherwise one trial with the
    /// person's own probability decides.
    pub fn gen_is_leaving(&mut self, rng: &mut StdRng) -> (leaving: bool)
        requires
            old(self).p_out <= PROBABILITY_ONE,
        ensures
            leaving == final(self).is_leaving,
            *final(self) == old(self).asked_to_leave(false) || *final(self) == old(
                self,
            ).asked_to_leave(true),
            old(self).is_leaving ==> *final(self) == *old(self) && *final(rng) == *old(rng),
            old(self).p_out == 0 ==> *final(self) == *old(self),
            old(self).p_out == PROBABILITY_ONE ==> *final(self) == old(self).asked_to_leave(true),
            old(self).wf() ==> final(self).wf(),
    {
        if self.is_leaving {
            return true;
        }
        let draw: bool = draw_bernoulli(rng, self.p_out, PROBABILITY_ONE);
        self.decide_leaving(draw)
    }

    /// Counts one more step of waiting.
    pub fn increment_wait_time(&mut self)
        requires
            old(self).wait_time < usize::MAX,
        ensures
            *final(self) == old(self).ticked(),
            final(self).wait_time == old(self).wait_time + 1,
    {
        self.wait_time = self.wait_time + 1;
    }

    /// Clears the wait counter, as when a ride has ended.
    pub fn reset_wait_time(&mut self)
        ensures
            *final(self) == old(self).rested(),
    {
        self.wait_time = 0;
    }
}

} // verus!
