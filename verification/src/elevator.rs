//! One elevator car and the people riding it.

use crate::nearest::{distance, is_nearer, floor_distance, lemma_nearest_is_best, nearer, nearest};
use crate::people::{
    anyone_going_to, dest_floors, drain_selected, lemma_filter_members, selected, unselected,
    People, Selection,
};
use crate::person::Person;
use vstd::prelude::*;

verus! {

/// A car: where it is, whether and which way it moves, who rides it, and
/// what moving costs. Energy is counted in whole units of the caller's
/// choosing.
pub struct Elevator {
    /// The floor the car is at.
    pub floor_on: usize,
    /// The direction of travel; it matters only while the car moves.
    pub moving_up: bool,
    /// Whether the car stands still.
    pub stopped: bool,
    /// The people aboard.
    pub people: Vec<Person>,
    /// Energy spent moving the empty car up one floor.
    pub energy_up: u32,
    /// Energy spent moving the empty car down one floor.
    pub energy_down: u32,
    /// Further energy spent per person aboard and floor travelled.
    pub energy_coef: u32,
}

/// A group of riders carried to `floor`.
pub open spec fn carried_to(people: Seq<Person>, floor: usize) -> Seq<Person> {
    people.map_values(|person: Person| person.moved_to(floor))
}

/// A group of people as riders.
pub open spec fn boarded(people: Seq<Person>) -> Seq<Person> {
    people.map_values(|person: Person| person.boarded())
}

impl Elevator {
    /// Whether `person` may ride here: it is well formed, marked as
    /// riding, and at the car's floor.
    pub open spec fn carries(&self, person: Person) -> bool {
        &&& person.wf()
        &&& person.riding
        &&& person.floor_on == self.floor_on
    }

    /// Everyone aboard may ride here.
    pub open spec fn wf(&self) -> bool {
        forall|i: int| 0 <= i < self.people@.len() ==> self.carries(#[trigger] self.people@[i])
    }

    /// The energy the car spends during a step in its present state.
    pub open spec fn energy(&self) -> nat {
        if self.stopped {
            0
        } else if self.moving_up {
            (self.energy_up + self.energy_coef * self.people@.len()) as nat
        } else {
            (self.energy_down + self.energy_coef * self.people@.len()) as nat
        }
    }

    /// Whether the floor the car would move to exists as a number: a
    /// moving car must not leave the range of floor numbers.
    pub open spec fn can_advance(&self) -> bool {
        !self.stopped ==> if self.moving_up {
            self.floor_on < usize::MAX
        } else {
            self.floor_on > 0
        }
    }

    /// The floor the car is at after one step of travel.
    pub open spec fn next_floor(&self) -> usize {
        if self.stopped {
            self.floor_on
        } else if self.moving_up {
            (self.floor_on + 1) as usize
        } else {
            (self.floor_on - 1) as usize
        }
    }

    /// The riders after one step of travel: carried along with a moving
    /// car, untouched in a stopped one.
    pub open spec fn next_riders(&self) -> Seq<Person> {
        if self.stopped {
            self.people@
        } else {
            carried_to(self.people@, self.next_floor())
        }
    }

    /// Whether `other` is this car but for its floor and the state of
    /// its riders.
    pub open spec fn same_car(&self, other: &Elevator) -> bool {
        &&& self.moving_up == other.moving_up
        &&& self.stopped == other.stopped
        &&& self.energy_up == other.energy_up
        &&& self.energy_down == other.energy_down
        &&& self.energy_coef == other.energy_coef
    }

    /// The rider destination that is the best target for the car, with
    /// its distance, if anyone is aboard.
    pub open spec fn nearest_dest(&self) -> Option<(usize, usize)> {
        match nearest(self.floor_on, dest_floors(self.people@)) {
            None => None,
            Some(floor) => Some((floor, distance(self.floor_on, floor) as usize)),
        }
    }

    /// An empty car standing at the ground floor.
    pub fn from(energy_up: u32, energy_down: u32, energy_coef: u32) -> (car: Elevator)
        ensures
            car.floor_on == 0,
            !car.moving_up,
            car.stopped,
            car.people@.len() == 0,
            car.energy_up == energy_up,
            car.energy_down == energy_down,
            car.energy_coef == energy_coef,
            car.wf(),
    {
        Elevator {
            floor_on: 0,
            moving_up: false,
            stopped: true,
            people: Vec::new(),
            energy_up,
            energy_down,
            energy_coef,
        }
    }

    /// Whether everyone aboard may ride here.
    pub fn is_wf(&self) -> (ok: bool)
        ensures
            ok == self.wf(),
    {
        let mut i: usize = 0;
        while i < self.people.len()
            invariant
                i <= self.people.len(),
                forall|j: int| 0 <= j < i ==> self.carries(#[trigger] self.people@[j]),
            decreases self.people.len() - i,
        {
            let person = &self.people[i];
            if !(person.is_wf() && person.riding && person.floor_on == self.floor_on) {
                return false;
            }
            i = i + 1;
        }
        true
    }

    /// The energy the car spends during a step: nothing while it stands,
    /// otherwise the cost of its direction plus the cost of each rider.
    pub fn get_energy_spent(&self) -> (energy: u128)
        ensures
            energy == self.energy(),
            self.stopped ==> energy == 0,
    {
        if self.stopped {
            0
        } else {
            let riders: u128 = self.people.len() as u128;
            let coef: u128 = self.energy_coef as u128;
            assert(coef * riders <= 0xffff_ffff * 0xffff_ffff_ffff_ffff) by (nonlinear_arith)
                requires
                    0 <= coef <= 0xffff_ffff,
                    0 <= riders <= 0xffff_ffff_ffff_ffff,
            ;
            if self.moving_up {
                self.energy_up as u128 + coef * riders
            } else {
                self.energy_down as u128 + coef * riders
            }
        }
    }

    /// Moves the car one floor in its direction, and its riders with it.
    /// A stopped car stays where it is. Returns the floor the car is at.
    pub fn update_floor(&mut self) -> (floor: usize)
        requires
            old(self).can_advance(),
        ensures
            floor == final(self).floor_on,
            final(self).floor_on == old(self).next_floor(),
            final(self).people@ == old(self).next_riders(),
            final(self).people@.len() == old(self).people@.len(),
            !old(self).stopped ==> forall|i: int|
                0 <= i < old(self).people@.len() ==> #[trigger] final(self).people@[i] == old(
                    self,
                ).people@[i].moved_to(final(self).floor_on),
            final(self).same_car(old(self)),
            old(self).stopped ==> final(self).floor_on == old(self).floor_on,
            old(self).wf() ==> final(self).wf(),
    {
        if self.stopped {
            return self.floor_on;
        }
        self.floor_on = if self.moving_up {
            self.floor_on + 1
        } else {
            self.floor_on - 1
        };
        let ghost before = self.people@;
        let n: usize = self.people.len();
        let mut i: usize = 0;
        while i < n
            invariant
                i <= n,
                n == before.len(),
                self.people@.len() == n,
                before == old(self).people@,
                self.floor_on == old(self).next_floor(),
                self.same_car(old(self)),
                forall|j: int|
                    0 <= j < i ==> #[trigger] self.people@[j] == before[j].moved_to(self.floor_on),
                forall|j: int| i <= j < n ==> #[trigger] self.people@[j] == before[j],
            decreases n - i,
        {
            self.people[i].floor_on = self.floor_on;
            i = i + 1;
        }
        assert(self.people@ =~= carried_to(before, self.floor_on));
        self.floor_on
    }

    /// The rider destination nearest to the car, with its distance in
    /// floors; of two destinations equally near, the lower floor. `None`
    /// when nobody is aboard.
    pub fn get_nearest_dest_floor(&self) -> (target: Option<(usize, usize)>)
        ensures
            target == self.nearest_dest(),
            target is None <==> self.people@.len() == 0,
            target matches Some((floor, dist)) ==> {
                &&& anyone_going_to(self.people@, floor)
                &&& dist == distance(self.floor_on, floor)
                &&& forall|i: int|
                    0 <= i < self.people@.len() ==> !nearer(
                        self.floor_on,
                        (#[trigger] self.people@[i]).floor_to,
                        floor,
                    )
            },
    {
        let ghost dests = dest_floors(self.people@);
        let mut best: Option<usize> = None;
        let mut i: usize = 0;
        assert(dests.take(0) =~= Seq::<usize>::empty());
        while i < self.people.len()
            invariant
                i <= self.people.len(),
                dests == dest_floors(self.people@),
                best == nearest(self.floor_on, dests.take(i as int)),
            decreases self.people.len() - i,
        {
            let floor: usize = self.people[i].floor_to;
            proof {
                assert(dests.take(i + 1).drop_last() =~= dests.take(i as int));
                assert(dests.take(i + 1).last() == floor);
            }
            best = match best {
                None => Some(floor),
                Some(earlier) => if is_nearer(self.floor_on, floor, earlier) {
                    Some(floor)
                } else {
                    Some(earlier)
                },
            };
            i = i + 1;
        }
        proof {
            assert(dests.take(i as int) =~= dests);
            lemma_nearest_is_best(self.floor_on, dests);
            if let Some(floor) = best {
                let k = choose|k: int| 0 <= k < dests.len() && dests[k] == floor;
                assert(self.people@[k].floor_to == floor);
                assert forall|j: int| 0 <= j < self.people@.len() implies !nearer(
                    self.floor_on,
                    (#[trigger] self.people@[j]).floor_to,
                    floor,
                ) by {
                    assert(dests[j] == self.people@[j].floor_to);
                }
            }
        }
        match best {
            None => None,
            Some(floor) => Some((floor, floor_distance(self.floor_on, floor))),
        }
    }

    /// Removes the riders who are at their destination floor and returns
    /// them. Nobody left aboard wants to get off at the car's floor.
    pub fn flush_people_leaving_elevator(&mut self) -> (alighting: Vec<Person>)
        ensures
            alighting@ == selected(old(self).people@, Selection::Arrived),
            final(self).people@ == unselected(old(self).people@, Selection::Arrived),
            final(self).floor_on == old(self).floor_on,
            final(self).same_car(old(self)),
            old(self).wf() ==> final(self).wf(),
            old(self).wf() ==> !anyone_going_to(final(self).people@, final(self).floor_on),
            old(self).wf() ==> forall|i: int|
                0 <= i < alighting@.len() ==> old(self).carries(#[trigger] alighting@[i])
                    && alighting@[i].arrived(),
    {
        let alighting = drain_selected(&mut self.people, Selection::Arrived);
        proof {
            lemma_filter_members(old(self).people@, Selection::Arrived.picked());
            lemma_filter_members(old(self).people@, Selection::Arrived.passed());
        }
        alighting
    }

    /// Takes people aboard; they keep their order and come after those
    /// already riding. All of them ride from now on.
    pub fn extend(&mut self, people: Vec<Person>)
        ensures
            final(self).people@ == old(self).people@ + boarded(people@),
            final(self).floor_on == old(self).floor_on,
            final(self).same_car(old(self)),
            old(self).wf() && (forall|i: int|
                0 <= i < people@.len() ==> old(self).carries((#[trigger] people@[i]).boarded()))
                ==> final(self).wf(),
    {
        let mut people = people;
        let ghost incoming = people@;
        let ghost before = self.people@;
        let start: usize = self.people.len();
        self.people.append(&mut people);
        let n: usize = self.people.len();
        let mut i: usize = start;
        while i < n
            invariant
                start <= i <= n,
                n == before.len() + incoming.len(),
                start == before.len(),
                self.people@.len() == n,
                self.floor_on == old(self).floor_on,
                self.same_car(old(self)),
                forall|j: int| 0 <= j < start ==> #[trigger] self.people@[j] == before[j],
                forall|j: int|
                    start <= j < i ==> #[trigger] self.people@[j] == incoming[j - start].boarded(),
                forall|j: int| i <= j < n ==> #[trigger] self.people@[j] == incoming[j - start],
            decreases n - i,
        {
            self.people[i].riding = true;
            i = i + 1;
        }
        assert(self.people@ =~= before + boarded(incoming));
    }
}

impl People for Elevator {
    open spec fn occupants(&self) -> Seq<Person> {
        self.people@
    }

    open spec fn after_reset(&self) -> Seq<Person> {
        self.people@
    }

    fn get_dest_floors(&self) -> (floors: Vec<usize>) {
        self.people.get_dest_floors()
    }

    fn get_num_people(&self) -> (count: usize) {
        self.people.get_num_people()
    }

    fn get_num_people_waiting(&self) -> (count: usize) {
        self.people.get_num_people_waiting()
    }

    fn get_aggregate_wait_time(&self) -> (total: u128) {
        self.people.get_aggregate_wait_time()
    }

    fn are_people_going_to_floor(&self, floor_index: usize) -> (going: bool) {
        self.people.are_people_going_to_floor(floor_index)
    }

    fn are_people_waiting(&self) -> (waiting: bool) {
        self.people.are_people_waiting()
    }

    fn increment_wait_times(&mut self)
        ensures
            final(self).floor_on == old(self).floor_on,
            final(self).same_car(old(self)),
            old(self).wf() ==> final(self).people@ == old(self).people@,
    {
        self.people.increment_wait_times();
        assert(old(self).wf() ==> self.people@ =~= old(self).people@);
    }

    /// Leaves every counter as it is: a rider's wait stays on record
    /// until the ride has ended and the wait has been counted.
    fn reset_wait_times(&mut self)
        ensures
            final(self).floor_on == old(self).floor_on,
            final(self).same_car(old(self)),
            old(self).wf() ==> final(self).wf(),
    {
    }
}

} // verus!
