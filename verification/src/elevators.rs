//! What a fleet of cars offers as a whole.

use crate::elevator::Elevator;
use crate::people::{can_tick, dest_floors, selected, ticked, unselected, People, Selection};
use crate::person::Person;
use vstd::prelude::*;

verus! {

/// The destinations of all riders of all cars, car by car, with repeats.
pub open spec fn all_dest_floors(cars: Seq<Elevator>) -> Seq<usize>
    decreases cars.len(),
{
    if cars.len() == 0 {
        Seq::empty()
    } else {
        all_dest_floors(cars.drop_last()) + dest_floors(cars.last().people@)
    }
}

/// The members of `floors` without repeats, each where it first occurs.
pub open spec fn distinct(floors: Seq<usize>) -> Seq<usize>
    decreases floors.len(),
{
    if floors.len() == 0 {
        Seq::empty()
    } else {
        let rest = distinct(floors.drop_last());
        if rest.contains(floors.last()) {
            rest
        } else {
            rest.push(floors.last())
        }
    }
}

/// The energy that all cars together spend during a step.
pub open spec fn fleet_energy(cars: Seq<Elevator>) -> nat
    decreases cars.len(),
{
    if cars.len() == 0 {
        0
    } else {
        fleet_energy(cars.drop_last()) + cars.last().energy()
    }
}

/// Whether some rider of some car is bound for `floor`.
pub open spec fn anyone_riding_to(cars: Seq<Elevator>, floor: usize) -> bool {
    exists|c: int, i: int|
        0 <= c < cars.len() && 0 <= i < cars[c].people@.len() && (
        #[trigger] cars[c].people@[i]).floor_to == floor
}

/// `distinct` keeps exactly the members of its argument, each once.
pub proof fn lemma_distinct(floors: Seq<usize>)
    ensures
        distinct(floors).no_duplicates(),
        forall|x: usize| distinct(floors).contains(x) <==> floors.contains(x),
    decreases floors.len(),
{
    if floors.len() > 0 {
        let front = floors.drop_last();
        let rest = distinct(front);
        let out = distinct(floors);
        lemma_distinct(front);
        assert forall|x: usize| out.contains(x) <==> floors.contains(x) by {
            if out.contains(x) {
                let k = choose|k: int| 0 <= k < out.len() && out[k] == x;
                if k < rest.len() {
                    assert(rest[k] == x);
                    assert(rest.contains(x));
                    assert(front.contains(x));
                    let j = choose|j: int| 0 <= j < front.len() && front[j] == x;
                    assert(floors[j] == x);
                } else {
                    assert(floors[floors.len() - 1] == x);
                }
            }
            if floors.contains(x) {
                let k = choose|k: int| 0 <= k < floors.len() && floors[k] == x;
                if k < front.len() {
                    assert(front[k] == x);
                    assert(front.contains(x));
                    let j = choose|j: int| 0 <= j < rest.len() && rest[j] == x;
                    assert(out[j] == x);
                } else if rest.contains(x) {
                    let j = choose|j: int| 0 <= j < rest.len() && rest[j] == x;
                    assert(out[j] == x);
                } else {
                    assert(out[out.len() - 1] == x);
                }
            }
        }
    }
}

/// A floor is among the riders' destinations exactly when some rider of
/// some car is bound for it.
pub proof fn lemma_all_dest_floors(cars: Seq<Elevator>, floor: usize)
    ensures
        all_dest_floors(cars).contains(floor) <==> anyone_riding_to(cars, floor),
    decreases cars.len(),
{
    if cars.len() > 0 {
        let front = cars.drop_last();
        let last = dest_floors(cars.last().people@);
        let all = all_dest_floors(cars);
        lemma_all_dest_floors(front, floor);
        if all.contains(floor) {
            let k = choose|k: int| 0 <= k < all.len() && all[k] == floor;
            if k < all_dest_floors(front).len() {
                assert(all_dest_floors(front)[k] == floor);
                assert(all_dest_floors(front).contains(floor));
                let (c, i) = choose|c: int, i: int|
                    0 <= c < front.len() && 0 <= i < front[c].people@.len() && (
                    #[trigger] front[c].people@[i]).floor_to == floor;
                assert(cars[c].people@[i].floor_to == floor);
            } else {
                let i = k - all_dest_floors(front).len();
                assert(last[i] == floor);
                assert(cars[cars.len() - 1].people@[i].floor_to == floor);
            }
        }
        if anyone_riding_to(cars, floor) {
            let (c, i) = choose|c: int, i: int|
                0 <= c < cars.len() && 0 <= i < cars[c].people@.len() && (
                #[trigger] cars[c].people@[i]).floor_to == floor;
            if c < front.len() {
                assert(front[c].people@[i].floor_to == floor);
                assert(anyone_riding_to(front, floor));
                let k = choose|k: int|
                    0 <= k < all_dest_floors(front).len() && all_dest_floors(front)[k] == floor;
                assert(all[k] == floor);
            } else {
                assert(last[i] == floor);
                assert(all[all_dest_floors(front).len() + i] == floor);
            }
        }
    }
}

/// Whether `floors` holds `floor`.
pub fn holds_floor(floors: &Vec<usize>, floor: usize) -> (found: bool)
    ensures
        found == floors@.contains(floor),
{
    let mut i: usize = 0;
    while i < floors.len()
        invariant
            i <= floors.len(),
            forall|j: int| 0 <= j < i ==> floors@[j] != floor,
        decreases floors.len() - i,
    {
        if floors[i] == floor {
            return true;
        }
        i = i + 1;
    }
    false
}

/// Whether the energy that all cars together spend during a step fits
/// the type in which it is reported.
pub fn energy_fits(cars: &Vec<Elevator>) -> (ok: bool)
    ensures
        ok == (fleet_energy(cars@) <= u128::MAX),
{
    let mut energy: u128 = 0;
    let mut c: usize = 0;
    assert(cars@.take(0) =~= Seq::<Elevator>::empty());
    while c < cars.len()
        invariant
            c <= cars.len(),
            energy == fleet_energy(cars@.take(c as int)),
        decreases cars.len() - c,
    {
        proof {
            assert(cars@.take(c + 1).drop_last() =~= cars@.take(c as int));
            lemma_fleet_energy_grows(cars@, c + 1);
        }
        let spent: u128 = cars[c].get_energy_spent();
        if spent > u128::MAX - energy {
            return false;
        }
        energy = energy + spent;
        c = c + 1;
    }
    assert(cars@.take(c as int) =~= cars@);
    true
}

/// A fleet of cars.
pub trait Elevators {
    /// The cars, in order.
    spec fn cars(&self) -> Seq<Elevator>;

    /// The floors that riders of any car are bound for, each listed once,
    /// in the order in which the cars and their riders first name them.
    fn get_dest_floors(&self) -> (floors: Vec<usize>)
        ensures
            floors@ == distinct(all_dest_floors(self.cars())),
            floors@.no_duplicates(),
            forall|floor: usize|
                floors@.contains(floor) <==> anyone_riding_to(self.cars(), floor),
    ;

    /// The energy that all cars together spend during a step. The sum
    /// must fit the result type.
    fn get_energy_spent(&self) -> (energy: u128)
        requires
            fleet_energy(self.cars()) <= u128::MAX,
        ensures
            energy == fleet_energy(self.cars()),
    ;

    /// Lets the riders who are at their destination off every car and
    /// returns them car by car.
    fn flush_people_leaving_elevators(&mut self) -> (alighting: Vec<Vec<Person>>)
        ensures
            alighting@.len() == old(self).cars().len(),
            final(self).cars().len() == old(self).cars().len(),
            forall|c: int|
                0 <= c < old(self).cars().len() ==> {
                    let before = #[trigger] old(self).cars()[c];
                    let after = final(self).cars()[c];
                    &&& alighting@[c]@ == selected(before.people@, Selection::Arrived)
                    &&& after.people@ == unselected(before.people@, Selection::Arrived)
                    &&& after.floor_on == before.floor_on
                    &&& after.same_car(&before)
                    &&& before.wf() ==> after.wf()
                },
    ;

    /// Moves every car one floor in its direction, riders included;
    /// stopped cars stay where they are.
    fn update_floors(&mut self)
        requires
            forall|c: int|
                0 <= c < old(self).cars().len() ==> (#[trigger] old(self).cars()[c]).can_advance(),
        ensures
            final(self).cars().len() == old(self).cars().len(),
            forall|c: int|
                0 <= c < old(self).cars().len() ==> {
                    let before = #[trigger] old(self).cars()[c];
                    let after = final(self).cars()[c];
                    &&& after.floor_on == before.next_floor()
                    &&& after.people@ == before.next_riders()
                    &&& after.same_car(&before)
                    &&& before.wf() ==> after.wf()
                },
    ;

    /// Counts one more step for every rider who waits. Riders of a
    /// well-formed car do not wait, so such a car is left as it is.
    fn increment_wait_times(&mut self)
        requires
            forall|c: int|
                0 <= c < old(self).cars().len() ==> can_tick(
                    (#[trigger] old(self).cars()[c]).people@,
                ),
        ensures
            final(self).cars().len() == old(self).cars().len(),
            forall|c: int|
                0 <= c < old(self).cars().len() ==> {
                    let before = #[trigger] old(self).cars()[c];
                    let after = final(self).cars()[c];
                    &&& after.people@ == ticked(before.people@)
                    &&& after.floor_on == before.floor_on
                    &&& after.same_car(&before)
                    &&& before.wf() ==> after.people@ == before.people@
                },
    ;
}

impl Elevators for Vec<Elevator> {
    open spec fn cars(&self) -> Seq<Elevator> {
        self@
    }

    fn get_dest_floors(&self) -> (floors: Vec<usize>) {
        let mut floors: Vec<usize> = Vec::new();
        let mut c: usize = 0;
        assert(self@.take(0) =~= Seq::<Elevator>::empty());
        while c < self.len()
            invariant
                c <= self.len(),
                floors@ == distinct(all_dest_floors(self@.take(c as int))),
            decreases self.len() - c,
        {
            let car_floors: Vec<usize> = self[c].get_dest_floors();
            let ghost base = all_dest_floors(self@.take(c as int));
            let mut i: usize = 0;
            assert(car_floors@.take(0) =~= Seq::<usize>::empty());
            assert(base + car_floors@.take(0) =~= base);
            while i < car_floors.len()
                invariant
                    i <= car_floors.len(),
                    floors@ == distinct(base + car_floors@.take(i as int)),
                decreases car_floors.len() - i,
            {
                proof {
                    let grown = base + car_floors@.take(i + 1);
                    assert(grown.drop_last() =~= base + car_floors@.take(i as int));
                    assert(grown.last() == car_floors@[i as int]);
                }
                if !holds_floor(&floors, car_floors[i]) {
                    floors.push(car_floors[i]);
                }
                i = i + 1;
            }
            proof {
                assert(car_floors@.take(i as int) =~= car_floors@);
                assert(self@.take(c + 1).drop_last() =~= self@.take(c as int));
                assert(self@.take(c + 1).last() == self@[c as int]);
            }
            c = c + 1;
        }
        proof {
            assert(self@.take(c as int) =~= self@);
            lemma_distinct(all_dest_floors(self@));
            assert forall|floor: usize|
                floors@.contains(floor) <==> anyone_riding_to(self@, floor) by {
                lemma_all_dest_floors(self@, floor);
            }
        }
        floors
    }

    fn get_energy_spent(&self) -> (energy: u128) {
        let mut energy: u128 = 0;
        let mut c: usize = 0;
        assert(self@.take(0) =~= Seq::<Elevator>::empty());
        while c < self.len()
            invariant
                c <= self.len(),
                energy == fleet_energy(self@.take(c as int)),
                fleet_energy(self@) <= u128::MAX,
            decreases self.len() - c,
        {
            proof {
                assert(self@.take(c + 1).drop_last() =~= self@.take(c as int));
                lemma_fleet_energy_grows(self@, c + 1);
            }
            energy = energy + self[c].get_energy_spent();
            c = c + 1;
        }
        assert(self@.take(c as int) =~= self@);
        energy
    }

    fn flush_people_leaving_elevators(&mut self) -> (alighting: Vec<Vec<Person>>) {
        let mut alighting: Vec<Vec<Person>> = Vec::new();
        let ghost before = self@;
        let n: usize = self.len();
        let mut c: usize = 0;
        while c < n
            invariant
                c <= n,
                n == before.len(),
                self@.len() == n,
                alighting@.len() == c,
                forall|k: int|
                    0 <= k < c ==> {
                        let was = #[trigger] before[k];
                        let is = self@[k];
                        &&& alighting@[k]@ == selected(was.people@, Selection::Arrived)
                        &&& is.people@ == unselected(was.people@, Selection::Arrived)
                        &&& is.floor_on == was.floor_on
                        &&& is.same_car(&was)
                        &&& was.wf() ==> is.wf()
                    },
                forall|k: int| c <= k < n ==> #[trigger] self@[k] == before[k],
            decreases n - c,
        {
            let off: Vec<Person> = self[c].flush_people_leaving_elevator();
            alighting.push(off);
            c = c + 1;
        }
        alighting
    }

    fn update_floors(&mut self) {
        let ghost before = self@;
        let n: usize = self.len();
        let mut c: usize = 0;
        assert forall|k: int| 0 <= k < n implies (#[trigger] before[k]).can_advance() by {
            assert(old(self).cars()[k].can_advance());
        }
        while c < n
            invariant
                c <= n,
                n == before.len(),
                self@.len() == n,
                forall|k: int| 0 <= k < n ==> (#[trigger] before[k]).can_advance(),
                forall|k: int|
                    0 <= k < c ==> {
                        let was = #[trigger] before[k];
                        let is = self@[k];
                        &&& is.floor_on == was.next_floor()
                        &&& is.people@ == was.next_riders()
                        &&& is.same_car(&was)
                        &&& was.wf() ==> is.wf()
                    },
                forall|k: int| c <= k < n ==> #[trigger] self@[k] == before[k],
            decreases n - c,
        {
            self[c].update_floor();
            c = c + 1;
        }
    }

    fn increment_wait_times(&mut self) {
        let ghost before = self@;
        let n: usize = self.len();
        let mut c: usize = 0;
        assert forall|k: int| 0 <= k < n implies can_tick((#[trigger] before[k]).people@) by {
            assert(can_tick(old(self).cars()[k].people@));
        }
        while c < n
            invariant
                c <= n,
                n == before.len(),
                self@.len() == n,
                forall|k: int| 0 <= k < n ==> can_tick((#[trigger] before[k]).people@),
                forall|k: int|
                    0 <= k < c ==> {
                        let was = #[trigger] before[k];
                        let is = self@[k];
                        &&& is.people@ == ticked(was.people@)
                        &&& is.floor_on == was.floor_on
                        &&& is.same_car(&was)
                        &&& was.wf() ==> is.people@ == was.people@
                    },
                forall|k: int| c <= k < n ==> #[trigger] self@[k] == before[k],
            decreases n - c,
        {
            self[c].increment_wait_times();
            c = c + 1;
        }
    }
}

/// The energy of a longer prefix of the fleet is no less than that of a
/// shorter one.
pub proof fn lemma_fleet_energy_grows(cars: Seq<Elevator>, n: int)
    requires
        0 <= n <= cars.len(),
    ensures
        fleet_energy(cars.take(n)) <= fleet_energy(cars),
    decreases cars.len() - n,
{
    if n < cars.len() {
        assert(cars.take(n + 1).drop_last() =~= cars.take(n));
        lemma_fleet_energy_grows(cars, n + 1);
    } else {
        assert(cars.take(n) =~= cars);
    }
}

} // verus!
