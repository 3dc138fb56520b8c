//! The building: its floors and cars, the arrival model, and the running
//! statistics of a simulation.

use crate::elevator::{boarded, Elevator};
use crate::elevators::{anyone_riding_to, holds_floor, Elevators};
use crate::floor::{after_leave_trials, composite_p_out, landed, Floor};
use crate::floors::{
    all_wf, lemma_waiting_floors, nearest_wait_floor, same_floor, same_place, waiting_floors,
    Floors,
};
use crate::mean::{RunningMean, Tally};
use crate::nearest::lemma_nearest_is_best;
use crate::people::{
    all_rested, anyone_waiting, can_increment, can_tick, lemma_filter_members, selected,
    selected_wait, ticked, total_wait_time, unselected, People, Selection,
};
use crate::person::{Person, PROBABILITY_ONE};
use crate::population::{
    lemma_exchange_keeps_everybody, lemma_exchange_keeps_everybody_who_stays,
    lemma_exchange_lands_arrived, nobody_leaving,
};
use crate::random::draw_bernoulli;
use rand::rngs::StdRng;
use vstd::prelude::*;

verus! {

/// The chance, in millionths, that a person who is asked decides to
/// leave the building: one in twenty.
pub const P_OUT: u32 = 50_000;

/// The most people that repeated trials let into the building in one
/// step. A success probability of one would otherwise never stop.
pub const MAX_ARRIVALS_PER_STEP: usize = 1_000_000;

/// How the number of people entering during a step is drawn.
#[derive(Clone, Copy, PartialEq, Eq, Structural, Debug)]
pub enum ArrivalModel {
    /// The number follows a Poisson distribution whose rate is the
    /// building's arrival parameter. The caller draws it.
    Poisson,
    /// One more person enters for as long as a trial with the building's
    /// arrival parameter as its probability succeeds.
    RepeatedBernoulli,
}

/// Why a building cannot be made as asked.
#[derive(Clone, Copy, PartialEq, Eq, Structural, Debug)]
pub enum ConfigError {
    /// A building needs at least one floor.
    ZeroFloors,
    /// The arrival parameter of a building with a single car is a
    /// probability and may not exceed one.
    InvalidProbability,
    /// The arrival parameter of any other building is a rate and must be
    /// more than zero.
    InvalidRate,
}

/// The arrival model that goes with a number of cars: repeated trials for
/// a single car, a Poisson draw otherwise.
pub open spec fn arrival_model(num_elevators: usize) -> ArrivalModel {
    if num_elevators == 1 {
        ArrivalModel::RepeatedBernoulli
    } else {
        ArrivalModel::Poisson
    }
}

/// What is wrong with a configuration, if anything. The arrival
/// parameter is given in millionths.
pub open spec fn config_error(num_floors: usize, num_elevators: usize, p_in: u64) -> Option<
    ConfigError,
> {
    if num_floors == 0 {
        Some(ConfigError::ZeroFloors)
    } else if num_elevators == 1 && p_in > PROBABILITY_ONE {
        Some(ConfigError::InvalidProbability)
    } else if num_elevators != 1 && p_in == 0 {
        Some(ConfigError::InvalidRate)
    } else {
        None
    }
}

/// Whether everyone in the group is bound for one of `num_floors` floors.
pub open spec fn bound_within(people: Seq<Person>, num_floors: nat) -> bool {
    forall|i: int| 0 <= i < people.len() ==> (#[trigger] people[i]).floor_to < num_floors
}

/// Whether `person` has just entered a building of `num_floors` floors.
pub open spec fn is_newcomer(person: Person, num_floors: nat) -> bool {
    person.floor_to < num_floors && person == Person::arriving(P_OUT, person.floor_to)
}

/// People who have just got off a car: their wait is over and they ride
/// no longer.
pub open spec fn alighted(people: Seq<Person>) -> Seq<Person> {
    people.map_values(|person: Person| person.rested().landed())
}

/// Where everybody is, together with the wait statistics: the part of a
/// building's state that an exchange between cars and floors changes.
pub struct Crowd {
    /// The people on each floor.
    pub floors: Seq<Seq<Person>>,
    /// The people aboard each car.
    pub cars: Seq<Seq<Person>>,
    /// The wait times of everyone who has completed a ride.
    pub waits: Tally,
}

impl Crowd {
    /// The exchange between the car at position `car` and the floor at
    /// position `floor`, where the car stands. Those who wait on the
    /// floor board and those aboard who have arrived get off, each group
    /// in its order and behind those already there. The waits of those
    /// who get off enter the statistics before their counters are
    /// cleared.
    pub open spec fn transfer(self, floor: int, car: int) -> Crowd {
        let standing = self.floors[floor];
        let aboard = self.cars[car];
        let off = selected(aboard, Selection::Arrived);
        let on = selected(standing, Selection::Waiting);
        Crowd {
            floors: self.floors.update(
                floor,
                unselected(standing, Selection::Waiting) + alighted(off),
            ),
            cars: self.cars.update(car, unselected(aboard, Selection::Arrived) + boarded(on)),
            waits: self.waits.absorb(total_wait_time(off), off.len()),
        }
    }

    /// Everyone on the ground floor who has decided to leave is gone.
    pub open spec fn egress(self) -> Crowd {
        Crowd {
            floors: self.floors.update(0, unselected(self.floors[0], Selection::Leaving)),
            ..self
        }
    }

    /// The exchange at the car at position `c`: nothing if the car
    /// moves; otherwise the transfer at its floor, followed at the
    /// ground floor by the egress of those who leave.
    pub open spec fn exchange_at(self, cars: Seq<Elevator>, c: int) -> Crowd {
        if !cars[c].stopped {
            self
        } else if cars[c].floor_on == 0 {
            self.transfer(0, c).egress()
        } else {
            self.transfer(cars[c].floor_on as int, c)
        }
    }

    /// The exchange at the first `n` cars, one after the other.
    pub open spec fn exchange_through(self, cars: Seq<Elevator>, n: nat) -> Crowd
        decreases n,
    {
        if n == 0 {
            self
        } else {
            self.exchange_through(cars, (n - 1) as nat).exchange_at(cars, n - 1)
        }
    }
}

/// A filter keeps everyone bound for a floor that exists.
pub proof fn lemma_filter_keeps_bound(
    people: Seq<Person>,
    pred: spec_fn(Person) -> bool,
    num_floors: nat,
)
    requires
        bound_within(people, num_floors),
    ensures
        bound_within(people.filter(pred), num_floors),
{
    lemma_filter_members(people, pred);
    assert forall|i: int| 0 <= i < people.filter(pred).len() implies (
    #[trigger] people.filter(pred)[i]).floor_to < num_floors by {
        let x = people.filter(pred)[i];
        assert(people.contains(x));
        let k = choose|k: int| 0 <= k < people.len() && people[k] == x;
        assert(people[k].floor_to < num_floors);
    }
}

/// The wait statistics only grow as the exchange proceeds from car to
/// car.
pub proof fn lemma_exchange_waits_grow(crowd: Crowd, cars: Seq<Elevator>, k: nat, n: nat)
    requires
        k <= n,
    ensures
        crowd.exchange_through(cars, k).waits.total <= crowd.exchange_through(cars, n).waits.total,
        crowd.exchange_through(cars, k).waits.count <= crowd.exchange_through(cars, n).waits.count,
    decreases n - k,
{
    if k < n {
        lemma_exchange_waits_grow(crowd, cars, k, (n - 1) as nat);
    }
}

/// The waits of the riders who get off during an exchange at the first
/// `n` of `cars`: those who have arrived, in the cars that stand.
pub open spec fn alighting_tally(cars: Seq<Elevator>, n: nat) -> Tally
    decreases n,
{
    if n == 0 {
        Tally { total: 0, count: 0 }
    } else {
        let before = alighting_tally(cars, (n - 1) as nat);
        let off = selected(cars[n - 1].people@, Selection::Arrived);
        if cars[n - 1].stopped {
            before.absorb(total_wait_time(off), off.len())
        } else {
            before
        }
    }
}

/// What an exchange adds to the wait statistics is decided by the riders
/// as they are before it: no car's riders depend on the exchange at
/// another car.
pub proof fn lemma_exchange_waits(crowd: Crowd, cars: Seq<Elevator>, k: nat)
    requires
        k <= cars.len(),
        crowd.cars.len() == cars.len(),
        forall|c: int| 0 <= c < cars.len() ==> crowd.cars[c] == (#[trigger] cars[c]).people@,
    ensures
        crowd.exchange_through(cars, k).waits == crowd.waits.absorb(
            alighting_tally(cars, k).total,
            alighting_tally(cars, k).count,
        ),
        crowd.exchange_through(cars, k).cars.len() == cars.len(),
        forall|c: int|
            k <= c < cars.len() ==> #[trigger] crowd.exchange_through(cars, k).cars[c]
                == crowd.cars[c],
    decreases k,
{
    if k > 0 {
        lemma_exchange_waits(crowd, cars, (k - 1) as nat);
        let before = crowd.exchange_through(cars, (k - 1) as nat);
        assert(before.cars[k - 1] == cars[k - 1].people@);
    }
}

/// The waits of those who get off only grow from car to car.
pub proof fn lemma_alighting_tally_grows(cars: Seq<Elevator>, k: nat, n: nat)
    requires
        k <= n,
    ensures
        alighting_tally(cars, k).total <= alighting_tally(cars, n).total,
        alighting_tally(cars, k).count <= alighting_tally(cars, n).count,
    decreases n - k,
{
    if k < n {
        lemma_alighting_tally_grows(cars, k, (n - 1) as nat);
    }
}

/// Counts one trial of the repeated trials that let people in. With
/// `n` people let in so far, a success lets in one more and calls for
/// another trial unless the most that a step admits is reached; a failure
/// lets nobody in and ends the trials.
pub fn count_trial(n: usize, success: bool) -> (counted: (usize, bool))
    requires
        n < MAX_ARRIVALS_PER_STEP,
    ensures
        counted == if success {
            ((n + 1) as usize, n + 1 < MAX_ARRIVALS_PER_STEP)
        } else {
            (n, false)
        },
{
    if success {
        (n + 1, n + 1 < MAX_ARRIVALS_PER_STEP)
    } else {
        (n, false)
    }
}

/// Whether everyone in the group is bound for one of `num_floors` floors.
pub fn all_bound_within(people: &Vec<Person>, num_floors: usize) -> (ok: bool)
    ensures
        ok == bound_within(people@, num_floors as nat),
{
    let mut i: usize = 0;
    while i < people.len()
        invariant
            i <= people.len(),
            forall|j: int| 0 <= j < i ==> (#[trigger] people@[j]).floor_to < num_floors,
        decreases people.len() - i,
    {
        if people[i].floor_to >= num_floors {
            return false;
        }
        i = i + 1;
    }
    true
}

/// The building.
pub struct Building {
    /// The cars.
    pub elevators: Vec<Elevator>,
    /// The floors, the ground floor first.
    pub floors: Vec<Floor>,
    /// The mean energy that the cars spent per step.
    pub avg_energy: RunningMean,
    /// The mean time that people who completed a ride had waited for it.
    pub avg_wait_time: RunningMean,
    /// The arrival parameter in millionths: a rate or a probability, as
    /// the arrival model has it.
    pub p_in: u64,
    /// How the number of arrivals per step is drawn.
    pub arrivals: ArrivalModel,
}

impl Building {
    /// Whether the floor at position `i` is in order: well formed, aware
    /// of its position, and holding only people bound for floors that
    /// exist.
    pub open spec fn floor_ok(&self, i: int) -> bool {
        &&& self.floors@[i].wf()
        &&& self.floors@[i].index == i
        &&& bound_within(self.floors@[i].people@, self.floors@.len())
    }

    /// Whether the car at position `c` is in order: well formed, at a
    /// floor that exists, and carrying only people bound for floors that
    /// exist.
    pub open spec fn car_ok(&self, c: int) -> bool {
        &&& self.elevators@[c].wf()
        &&& self.elevators@[c].floor_on < self.floors@.len()
        &&& bound_within(self.elevators@[c].people@, self.floors@.len())
    }

    /// Whether the arrival parameter suits the arrival model.
    pub open spec fn arrivals_ok(&self) -> bool {
        match self.arrivals {
            ArrivalModel::Poisson => self.p_in > 0,
            ArrivalModel::RepeatedBernoulli => self.p_in <= PROBABILITY_ONE,
        }
    }

    /// The building is in order: it has a floor, and every floor and car
    /// is in order.
    pub open spec fn wf(&self) -> bool {
        &&& self.floors@.len() > 0
        &&& forall|i: int| 0 <= i < self.floors@.len() ==> #[trigger] self.floor_ok(i)
        &&& forall|c: int| 0 <= c < self.elevators@.len() ==> #[trigger] self.car_ok(c)
        &&& self.arrivals_ok()
    }

    /// Whether the building is one that has just been made from the given
    /// configuration: empty floors, empty cars standing at the ground
    /// floor, and no statistics yet.
    pub open spec fn is_fresh(
        &self,
        num_floors: usize,
        num_elevators: usize,
        p_in: u64,
        energy_up: u32,
        energy_down: u32,
        energy_coef: u32,
    ) -> bool {
        &&& self.floors@.len() == num_floors
        &&& forall|i: int|
            0 <= i < num_floors ==> {
                let floor = #[trigger] self.floors@[i];
                floor.index == i && floor.people@.len() == 0 && floor.dest_prob == 0
            }
        &&& self.elevators@.len() == num_elevators
        &&& forall|c: int|
            0 <= c < num_elevators ==> {
                let car = #[trigger] self.elevators@[c];
                &&& car.floor_on == 0
                &&& car.stopped
                &&& !car.moving_up
                &&& car.people@.len() == 0
                &&& car.energy_up == energy_up
                &&& car.energy_down == energy_down
                &&& car.energy_coef == energy_coef
            }
        &&& self.avg_energy@ == (Tally { total: 0, count: 0 })
        &&& self.avg_wait_time@ == (Tally { total: 0, count: 0 })
        &&& self.p_in == p_in
        &&& self.arrivals == arrival_model(num_elevators)
    }

    /// Whether `other` has the same cars in the same state.
    pub open spec fn same_cars(&self, other: &Building) -> bool {
        self.elevators@ == other.elevators@
    }

    /// Whether `other` has the same statistics and arrival settings.
    pub open spec fn same_books(&self, other: &Building) -> bool {
        &&& self.avg_energy == other.avg_energy
        &&& self.avg_wait_time == other.avg_wait_time
        &&& self.p_in == other.p_in
        &&& self.arrivals == other.arrivals
    }

    /// Where everybody is, and the wait statistics.
    pub open spec fn crowd(&self) -> Crowd {
        Crowd {
            floors: self.floors@.map_values(|floor: Floor| floor.people@),
            cars: self.elevators@.map_values(|car: Elevator| car.people@),
            waits: self.avg_wait_time@,
        }
    }

    /// Whether `other` is this building but for where people are and
    /// what the wait statistics say.
    pub open spec fn same_frame(&self, other: &Building) -> bool {
        &&& self.floors@.len() == other.floors@.len()
        &&& forall|i: int|
            0 <= i < self.floors@.len() ==> same_place(#[trigger] self.floors@[i], other.floors@[i])
        &&& self.elevators@.len() == other.elevators@.len()
        &&& forall|c: int|
            0 <= c < self.elevators@.len() ==> {
                let car = #[trigger] self.elevators@[c];
                car.floor_on == other.elevators@[c].floor_on && car.same_car(&other.elevators@[c])
            }
        &&& self.avg_energy == other.avg_energy
        &&& self.p_in == other.p_in
        &&& self.arrivals == other.arrivals
    }

    /// Whether a car is wanted at the floor at position `i` right now:
    /// somebody waits there, or somebody rides there.
    pub open spec fn wanted_at(&self, i: int) -> bool {
        anyone_waiting(self.floors@[i].people@) || anyone_riding_to(self.elevators@, i as usize)
    }

    /// The chance, in millionths, that during a step somebody turns up
    /// at the floor at position `i` who wants a car. At the ground floor
    /// this is the arrival parameter times the share of the other floors
    /// among all floors, rounded down; elsewhere it is the chance that
    /// somebody on the floor decides to leave.
    pub open spec fn demand_chance(&self, i: int) -> nat {
        if i == 0 {
            self.p_in as nat * ((self.floors@.len() - 1) as nat) / self.floors@.len()
        } else {
            composite_p_out(self.floors@[i].people@)
        }
    }

    /// The chance, in millionths, that the floor at position `i` is a
    /// destination for a car: certain if a car is wanted there now,
    /// otherwise the chance that one will be wanted. A rate above one at
    /// the ground floor is reported as it is.
    pub open spec fn dest_probability(&self, i: int) -> nat {
        if self.wanted_at(i) && self.demand_chance(i) < PROBABILITY_ONE {
            PROBABILITY_ONE as nat
        } else {
            self.demand_chance(i)
        }
    }

    /// Makes a building of `num_floors` empty floors and `num_elevators`
    /// empty cars standing at the ground floor. The arrival parameter
    /// `p_in` is given in millionths. With a single car it is the
    /// probability of one more arrival and may not exceed one; otherwise
    /// it is the rate of a Poisson distribution and must be positive.
    pub fn from(
        num_floors: usize,
        num_elevators: usize,
        p_in: u64,
        energy_up: u32,
        energy_down: u32,
        energy_coef: u32,
    ) -> (made: Result<Building, ConfigError>)
        ensures
            match made {
                Ok(building) => {
                    &&& config_error(num_floors, num_elevators, p_in) is None
                    &&& building.is_fresh(
                        num_floors,
                        num_elevators,
                        p_in,
                        energy_up,
                        energy_down,
                        energy_coef,
                    )
                    &&& building.wf()
                },
                Err(error) => config_error(num_floors, num_elevators, p_in) == Some(error),
            },
    {
        if num_floors == 0 {
            return Err(ConfigError::ZeroFloors);
        }
        if num_elevators == 1 && p_in > PROBABILITY_ONE as u64 {
            return Err(ConfigError::InvalidProbability);
        }
        if num_elevators != 1 && p_in == 0 {
            return Err(ConfigError::InvalidRate);
        }
        let mut floors: Vec<Floor> = Vec::new();
        let mut i: usize = 0;
        while i < num_floors
            invariant
                i <= num_floors,
                floors@.len() == i,
                forall|k: int|
                    0 <= k < i ==> {
                        let floor = #[trigger] floors@[k];
                        floor.index == k && floor.people@.len() == 0 && floor.dest_prob == 0
                    },
            decreases num_floors - i,
        {
            floors.push(Floor::new(i));
            i = i + 1;
        }
        let mut elevators: Vec<Elevator> = Vec::new();
        let mut c: usize = 0;
        while c < num_elevators
            invariant
                c <= num_elevators,
                elevators@.len() == c,
                forall|k: int|
                    0 <= k < c ==> {
                        let car = #[trigger] elevators@[k];
                        &&& car.floor_on == 0
                        &&& car.stopped
                        &&& !car.moving_up
                        &&& car.people@.len() == 0
                        &&& car.energy_up == energy_up
                        &&& car.energy_down == energy_down
                        &&& car.energy_coef == energy_coef
                    },
            decreases num_elevators - c,
        {
            elevators.push(Elevator::from(energy_up, energy_down, energy_coef));
            c = c + 1;
        }
        let arrivals = if num_elevators == 1 {
            ArrivalModel::RepeatedBernoulli
        } else {
            ArrivalModel::Poisson
        };
        let building = Building {
            elevators,
            floors,
            avg_energy: RunningMean::new(),
            avg_wait_time: RunningMean::new(),
            p_in,
            arrivals,
        };
        proof {
            assert forall|k: int| 0 <= k < building.floors@.len() implies #[trigger] building.floor_ok(
                k,
            ) by {
                assert(building.floors@[k].people@.len() == 0);
            }
            assert forall|k: int| 0 <= k < building.elevators@.len() implies #[trigger] building.car_ok(
                k,
            ) by {
                assert(building.elevators@[k].people@.len() == 0);
            }
        }
        Ok(building)
    }

    /// Draws the number of people who enter during a step from repeated
    /// trials: one more person for each success until the first failure,
    /// and at most `MAX_ARRIVALS_PER_STEP`, each trial counted by
    /// `count_trial`. A building whose arrivals follow a Poisson
    /// distribution answers `None` and draws nothing: its caller draws.
    pub fn gen_arrival_count(&self, rng: &mut StdRng) -> (count: Option<usize>)
        requires
            self.arrivals_ok(),
        ensures
            self.arrivals == ArrivalModel::Poisson <==> count is None,
            count is None ==> *final(rng) == *old(rng),
            count matches Some(n) ==> {
                &&& n <= MAX_ARRIVALS_PER_STEP
                &&& self.p_in == 0 ==> n == 0
                &&& self.p_in == PROBABILITY_ONE ==> n == MAX_ARRIVALS_PER_STEP
            },
    {
        match self.arrivals {
            ArrivalModel::Poisson => None,
            ArrivalModel::RepeatedBernoulli => {
                let p: u32 = self.p_in as u32;
                let mut n: usize = 0;
                let mut more: bool = true;
                while more
                    invariant
                        n <= MAX_ARRIVALS_PER_STEP,
                        more ==> n < MAX_ARRIVALS_PER_STEP,
                        p <= PROBABILITY_ONE,
                        p == 0 ==> n == 0,
                        p == PROBABILITY_ONE && !more ==> n == MAX_ARRIVALS_PER_STEP,
                    decreases MAX_ARRIVALS_PER_STEP - n + if more { 1nat } else { 0nat },
                {
                    let success: bool = draw_bernoulli(rng, p, PROBABILITY_ONE);
                    let counted = count_trial(n, success);
                    n = counted.0;
                    more = counted.1;
                }
                Some(n)
            },
        }
    }

    /// Lets `count` people into the building at the ground floor, each
    /// bound for a floor drawn uniformly from all floors.
    pub fn gen_people_arriving(&mut self, count: usize, rng: &mut StdRng)
        requires
            old(self).wf(),
        ensures
            final(self).wf(),
            count == 0 ==> *final(rng) == *old(rng),
            final(self).same_cars(old(self)),
            final(self).same_books(old(self)),
            final(self).floors@.len() == old(self).floors@.len(),
            same_place(old(self).floors@[0], final(self).floors@[0]),
            forall|i: int|
                1 <= i < old(self).floors@.len() ==> #[trigger] final(self).floors@[i] == old(
                    self,
                ).floors@[i],
            final(self).floors@[0].people@.len() == old(self).floors@[0].people@.len() + count,
            final(self).floors@[0].people@.take(old(self).floors@[0].people@.len() as int) == old(
                self,
            ).floors@[0].people@,
            forall|k: int|
                old(self).floors@[0].people@.len() <= k < final(self).floors@[0].people@.len()
                    ==> is_newcomer(
                    #[trigger] final(self).floors@[0].people@[k],
                    old(self).floors@.len(),
                ),
    {
        let num_floors: usize = self.floors.len();
        let mut arrivals: Vec<Person> = Vec::new();
        let mut i: usize = 0;
        while i < count
            invariant
                i <= count,
                num_floors > 0,
                arrivals@.len() == i,
                i == 0 ==> *rng == *old(rng),
                forall|k: int| 0 <= k < i ==> is_newcomer(#[trigger] arrivals@[k], num_floors as nat),
            decreases count - i,
        {
            arrivals.push(Person::from(P_OUT, num_floors, rng));
            i = i + 1;
        }
        proof {
            assert(old(self).floor_ok(0));
            assert forall|k: int| 0 <= k < arrivals@.len() implies old(self).floors@[0].hosts(
                (#[trigger] arrivals@[k]).landed(),
            ) by {
                assert(is_newcomer(arrivals@[k], num_floors as nat));
            }
        }
        self.floors[0].extend(arrivals);
        proof {
            let was = old(self).floors@[0].people@;
            let is = self.floors@[0].people@;
            assert(is.take(was.len() as int) =~= was);
            assert forall|k: int| was.len() <= k < is.len() implies is_newcomer(
                #[trigger] is[k],
                num_floors as nat,
            ) by {
                assert(is[k] == landed(arrivals@)[k - was.len()]);
                assert(is_newcomer(arrivals@[k - was.len()], num_floors as nat));
            }
            assert forall|k: int| 0 <= k < self.floors@.len() implies #[trigger] self.floor_ok(
                k,
            ) by {
                assert(old(self).floor_ok(k));
                if k == 0 {
                    assert forall|j: int| 0 <= j < is.len() implies (#[trigger] is[j]).floor_to
                        < num_floors by {
                        if j < was.len() {
                            assert(is[j] == was[j]);
                        } else {
                            assert(is_newcomer(is[j], num_floors as nat));
                        }
                    }
                }
            }
            assert forall|c: int| 0 <= c < self.elevators@.len() implies #[trigger] self.car_ok(
                c,
            ) by {
                assert(old(self).car_ok(c));
            }
        }
    }

    /// Records on every floor the chance that it is a destination for a
    /// car. The figure is for display; no decision depends on it.
    pub fn update_dest_probabilities(&mut self)
        requires
            old(self).wf(),
        ensures
            final(self).floors@.len() == old(self).floors@.len(),
            forall|i: int|
                0 <= i < old(self).floors@.len() ==> {
                    let floor = #[trigger] final(self).floors@[i];
                    &&& floor.dest_prob == old(self).dest_probability(i)
                    &&& floor.people@ == old(self).floors@[i].people@
                    &&& floor.index == old(self).floors@[i].index
                },
            final(self).same_cars(old(self)),
            final(self).same_books(old(self)),
            final(self).wf(),
    {
        let num_floors: usize = self.floors.len();
        let dest_floors: Vec<usize> = self.elevators.get_dest_floors();
        let mut i: usize = 0;
        while i < num_floors
            invariant
                i <= num_floors,
                num_floors == old(self).floors@.len(),
                self.floors@.len() == num_floors,
                old(self).wf(),
                self.same_cars(old(self)),
                self.same_books(old(self)),
                forall|floor: usize|
                    dest_floors@.contains(floor) <==> anyone_riding_to(self.elevators@, floor),
                forall|k: int|
                    0 <= k < num_floors ==> {
                        let floor = #[trigger] self.floors@[k];
                        &&& floor.people@ == old(self).floors@[k].people@
                        &&& floor.index == old(self).floors@[k].index
                    },
                forall|k: int|
                    0 <= k < i ==> (#[trigger] self.floors@[k]).dest_prob == old(
                        self,
                    ).dest_probability(k),
            decreases num_floors - i,
        {
            proof {
                assert(old(self).floor_ok(i as int));
                assert(self.floors@[i as int].people@ == old(self).floors@[i as int].people@);
                assert(self.floors@[i as int].wf()) by {
                    assert forall|j: int|
                        0 <= j < self.floors@[i as int].people@.len() implies self.floors@[i as int].hosts(
                        #[trigger] self.floors@[i as int].people@[j],
                    ) by {
                        assert(old(self).floors@[i as int].hosts(
                            old(self).floors@[i as int].people@[j],
                        ));
                    }
                }
            }
            let waiting: bool = self.floors[i].are_people_waiting();
            let going: bool = holds_floor(&dest_floors, i);
            let chance: u64 = if i == 0 {
                let rate: u128 = self.p_in as u128;
                let others: u128 = (num_floors - 1) as u128;
                let all: u128 = num_floors as u128;
                assert(rate * others <= u128::MAX && (rate * others) / (all as int) <= rate)
                    by (nonlinear_arith)
                    requires
                        0 <= rate <= 0xffff_ffff_ffff_ffff,
                        0 <= others < all,
                        all <= 0xffff_ffff_ffff_ffff,
                ;
                (rate * others / all) as u64
            } else {
                self.floors[i].get_p_out() as u64
            };
            let probability: u64 = if (waiting || going) && chance < PROBABILITY_ONE as u64 {
                PROBABILITY_ONE as u64
            } else {
                chance
            };
            self.floors[i].dest_prob = probability;
            i = i + 1;
        }
        proof {
            assert forall|k: int| 0 <= k < self.floors@.len() implies #[trigger] self.floor_ok(
                k,
            ) by {
                assert(old(self).floor_ok(k));
                assert forall|j: int|
                    0 <= j < self.floors@[k].people@.len() implies self.floors@[k].hosts(
                    #[trigger] self.floors@[k].people@[j],
                ) by {
                    assert(old(self).floors@[k].hosts(old(self).floors@[k].people@[j]));
                }
            }
            assert forall|c: int| 0 <= c < self.elevators@.len() implies #[trigger] self.car_ok(
                c,
            ) by {
                assert(old(self).car_ok(c));
            }
        }
    }

    /// Whether the arrival parameter suits the arrival model.
    pub fn arrivals_fit(&self) -> (ok: bool)
        ensures
            ok == self.arrivals_ok(),
    {
        match self.arrivals {
            ArrivalModel::Poisson => self.p_in > 0,
            ArrivalModel::RepeatedBernoulli => self.p_in <= PROBABILITY_ONE as u64,
        }
    }

    /// Whether the building is in order.
    pub fn is_wf(&self) -> (ok: bool)
        ensures
            ok == self.wf(),
    {
        let num_floors: usize = self.floors.len();
        if num_floors == 0 {
            return false;
        }
        if !self.arrivals_fit() {
            return false;
        }
        let mut i: usize = 0;
        while i < num_floors
            invariant
                i <= num_floors,
                num_floors == self.floors@.len(),
                forall|k: int| 0 <= k < i ==> #[trigger] self.floor_ok(k),
            decreases num_floors - i,
        {
            let floor = &self.floors[i];
            if !(floor.is_wf() && floor.index == i && all_bound_within(&floor.people, num_floors)) {
                assert(!self.floor_ok(i as int));
                return false;
            }
            i = i + 1;
        }
        let mut c: usize = 0;
        while c < self.elevators.len()
            invariant
                c <= self.elevators.len(),
                num_floors == self.floors@.len(),
                forall|k: int| 0 <= k < self.floors@.len() ==> #[trigger] self.floor_ok(k),
                forall|k: int| 0 <= k < c ==> #[trigger] self.car_ok(k),
            decreases self.elevators.len() - c,
        {
            let car = &self.elevators[c];
            if !(car.is_wf() && car.floor_on < num_floors && all_bound_within(
                &car.people,
                num_floors,
            )) {
                assert(!self.car_ok(c as int));
                return false;
            }
            c = c + 1;
        }
        true
    }

    /// Whether every counter that a step of waiting would advance has
    /// room for it.
    pub fn is_ready_to_tick(&self) -> (ok: bool)
        ensures
            ok == self.ready_to_tick(),
    {
        let mut i: usize = 0;
        while i < self.floors.len()
            invariant
                i <= self.floors.len(),
                forall|k: int| 0 <= k < i ==> can_tick((#[trigger] self.floors@[k]).people@),
            decreases self.floors.len() - i,
        {
            if !can_increment(&self.floors[i].people) {
                return false;
            }
            i = i + 1;
        }
        let mut c: usize = 0;
        while c < self.elevators.len()
            invariant
                c <= self.elevators.len(),
                forall|k: int|
                    0 <= k < self.floors@.len() ==> can_tick((#[trigger] self.floors@[k]).people@),
                forall|k: int| 0 <= k < c ==> can_tick((#[trigger] self.elevators@[k]).people@),
            decreases self.elevators.len() - c,
        {
            if !can_increment(&self.elevators[c].people) {
                return false;
            }
            c = c + 1;
        }
        true
    }

    /// Whether the wait statistics have room for what an exchange at
    /// every car would add to them.
    pub fn has_room_for_exchange(&self) -> (ok: bool)
        ensures
            ok == self.crowd().exchange_through(
                self.elevators@,
                self.elevators@.len(),
            ).waits.fits(),
    {
        let ghost cars = self.elevators@;
        let n: usize = self.elevators.len();
        let mut total: u128 = self.avg_wait_time.total;
        let mut count: u128 = self.avg_wait_time.count;
        let mut c: usize = 0;
        proof {
            lemma_exchange_waits(self.crowd(), cars, n as nat);
        }
        while c < n
            invariant
                c <= n,
                n == cars.len(),
                cars == self.elevators@,
                total == self.avg_wait_time.total + alighting_tally(cars, c as nat).total,
                count == self.avg_wait_time.count + alighting_tally(cars, c as nat).count,
                self.crowd().exchange_through(cars, n as nat).waits == self.avg_wait_time@.absorb(
                    alighting_tally(cars, n as nat).total,
                    alighting_tally(cars, n as nat).count,
                ),
            decreases n - c,
        {
            proof {
                lemma_alighting_tally_grows(cars, (c + 1) as nat, n as nat);
            }
            if self.elevators[c].stopped {
                let (waits, people) = selected_wait(&self.elevators[c].people, Selection::Arrived);
                if waits > u128::MAX - total || people as u128 > u128::MAX - count {
                    return false;
                }
                total = total + waits;
                count = count + people as u128;
            }
            c = c + 1;
        }
        true
    }

    /// The exchange between the car at position `c` and the floor where
    /// it stands, if it stands: people waiting there board, riders who
    /// have arrived get off and their waits enter the statistics, and at
    /// the ground floor those who leave the building go. The statistics
    /// must have room for what enters them.
    pub fn exchange_at(&mut self, c: usize)
        requires
            old(self).wf(),
            c < old(self).elevators@.len(),
            old(self).crowd().exchange_at(old(self).elevators@, c as int).waits.fits(),
        ensures
            final(self).crowd() == old(self).crowd().exchange_at(old(self).elevators@, c as int),
            final(self).same_frame(old(self)),
            final(self).wf(),
    {
        proof {
            assert(old(self).car_ok(c as int));
        }
        if !self.elevators[c].stopped {
            assert(self.crowd() == old(self).crowd());
            return ;
        }
        let f: usize = self.elevators[c].floor_on;
        let ghost num_floors = self.floors@.len();
        let ghost standing = self.floors@[f as int].people@;
        let ghost aboard = self.elevators@[c as int].people@;
        let ghost off = selected(aboard, Selection::Arrived);
        let ghost on = selected(standing, Selection::Waiting);
        proof {
            assert(old(self).floor_ok(f as int));
            lemma_filter_keeps_bound(standing, Selection::Waiting.picked(), num_floors);
            lemma_filter_keeps_bound(standing, Selection::Waiting.passed(), num_floors);
            lemma_filter_keeps_bound(aboard, Selection::Arrived.picked(), num_floors);
            lemma_filter_keeps_bound(aboard, Selection::Arrived.passed(), num_floors);
        }
        let boarding: Vec<Person> = self.floors[f].flush_people_entering_elevator();
        let mut alighting: Vec<Person> = self.elevators[c].flush_people_leaving_elevator();
        let wait_times: u128 = alighting.get_aggregate_wait_time();
        let num_people: usize = alighting.get_num_people();
        self.avg_wait_time.absorb(wait_times, num_people as u128);
        alighting.reset_wait_times();
        proof {
            assert(alighting@ == all_rested(off));
            assert forall|i: int| 0 <= i < boarding@.len() implies self.elevators@[c as int].carries(
                (#[trigger] boarding@[i]).boarded(),
            ) by {
                assert(old(self).floors@[f as int].hosts(boarding@[i]));
            }
            assert forall|i: int| 0 <= i < alighting@.len() implies self.floors@[f as int].hosts(
                (#[trigger] alighting@[i]).landed(),
            ) by {
                assert(old(self).elevators@[c as int].carries(off[i]));
                assert(off[i].arrived());
            }
        }
        self.elevators[c].extend(boarding);
        self.floors[f].extend(alighting);
        let ghost transferred = old(self).crowd().transfer(f as int, c as int);
        proof {
            assert(landed(alighting@) =~= alighted(off));
            assert(self.crowd().floors =~= transferred.floors);
            assert(self.crowd().cars =~= transferred.cars);
            assert(self.crowd() == transferred);
            assert(bound_within(self.floors@[f as int].people@, num_floors)) by {
                let is = self.floors@[f as int].people@;
                let stay = unselected(standing, Selection::Waiting);
                assert forall|i: int| 0 <= i < is.len() implies (#[trigger] is[i]).floor_to
                    < num_floors by {
                    if i < stay.len() {
                        assert(is[i] == stay[i]);
                    } else {
                        assert(is[i] == off[i - stay.len()].rested().landed());
                    }
                }
            }
            assert(bound_within(self.elevators@[c as int].people@, num_floors)) by {
                let is = self.elevators@[c as int].people@;
                let stay = unselected(aboard, Selection::Arrived);
                assert forall|i: int| 0 <= i < is.len() implies (#[trigger] is[i]).floor_to
                    < num_floors by {
                    if i < stay.len() {
                        assert(is[i] == stay[i]);
                    } else {
                        assert(is[i] == on[i - stay.len()].boarded());
                    }
                }
            }
        }
        if f == 0 {
            proof {
                lemma_filter_keeps_bound(
                    self.floors@[0].people@,
                    Selection::Leaving.passed(),
                    num_floors,
                );
            }
            self.floors[0].flush_people_leaving_floor();
            proof {
                assert(self.crowd().floors =~= transferred.egress().floors);
                assert(self.crowd().cars =~= transferred.egress().cars);
            }
        }
        proof {
            assert forall|i: int| 0 <= i < self.floors@.len() implies #[trigger] self.floor_ok(
                i,
            ) by {
                assert(old(self).floor_ok(i));
            }
            assert forall|k: int| 0 <= k < self.elevators@.len() implies #[trigger] self.car_ok(
                k,
            ) by {
                assert(old(self).car_ok(k));
            }
        }
    }

    /// The exchange of people between every stopped car and the floor
    /// where it stands, car by car in their order. The statistics must
    /// have room for what enters them.
    pub fn exchange_people_on_elevator(&mut self)
        requires
            old(self).wf(),
            old(self).crowd().exchange_through(
                old(self).elevators@,
                old(self).elevators@.len(),
            ).waits.fits(),
        ensures
            final(self).crowd() == old(self).crowd().exchange_through(
                old(self).elevators@,
                old(self).elevators@.len(),
            ),
            final(self).avg_wait_time@ == old(self).avg_wait_time@.absorb(
                alighting_tally(old(self).elevators@, old(self).elevators@.len()).total,
                alighting_tally(old(self).elevators@, old(self).elevators@.len()).count,
            ),
            final(self).crowd().population().subset_of(old(self).crowd().population()),
            nobody_leaving(old(self).crowd()) ==> final(self).crowd().population() == old(
                self,
            ).crowd().population(),
            forall|c: int, j: int|
                0 <= c < old(self).elevators@.len() && 0 <= j < old(self).elevators@[c].people@.len()
                    ==> {
                    let car = old(self).elevators@[c];
                    let rider = #[trigger] old(self).elevators@[c].people@[j];
                    car.stopped && rider.arrived() && !(car.floor_on == 0 && rider.is_leaving)
                        ==> final(self).floors@[car.floor_on as int].people@.contains(
                        rider.rested().landed(),
                    )
                },
            final(self).same_frame(old(self)),
            final(self).wf(),
    {
        let ghost start = self.crowd();
        let ghost cars = self.elevators@;
        let n: usize = self.elevators.len();
        let mut c: usize = 0;
        proof {
            assert forall|k: int| 0 <= k < cars.len() implies (#[trigger] cars[k]).floor_on
                < start.floors.len() by {
                assert(self.car_ok(k));
            }
            lemma_exchange_keeps_everybody(start, cars, n as nat);
            lemma_exchange_waits(start, cars, n as nat);
            if nobody_leaving(start) {
                lemma_exchange_keeps_everybody_who_stays(start, cars, n as nat);
            }
            assert forall|c: int, j: int|
                0 <= c < cars.len() && 0 <= j < cars[c].people@.len() implies {
                let car = cars[c];
                let rider = #[trigger] cars[c].people@[j];
                car.stopped && rider.arrived() && !(car.floor_on == 0 && rider.is_leaving)
                    ==> start.exchange_through(cars, n as nat).floors[car.floor_on as int].contains(
                    rider.rested().landed(),
                )
            } by {
                let car = cars[c];
                let rider = cars[c].people@[j];
                if car.stopped && rider.arrived() && !(car.floor_on == 0 && rider.is_leaving) {
                    assert(start.cars[c][j] == rider);
                    lemma_exchange_lands_arrived(start, cars, n as nat, c, rider);
                }
            }
        }
        while c < n
            invariant
                c <= n,
                n == cars.len(),
                start == old(self).crowd(),
                cars == old(self).elevators@,
                start.exchange_through(cars, n as nat).waits.fits(),
                self.crowd() == start.exchange_through(cars, c as nat),
                self.same_frame(old(self)),
                self.wf(),
            decreases n - c,
        {
            proof {
                lemma_exchange_waits_grow(start, cars, (c + 1) as nat, n as nat);
                assert(self.elevators@[c as int].stopped == cars[c as int].stopped);
                assert(self.elevators@[c as int].floor_on == cars[c as int].floor_on);
            }
            let ghost earlier = *self;
            self.exchange_at(c);
            proof {
                assert forall|i: int| 0 <= i < self.floors@.len() implies same_place(
                    #[trigger] self.floors@[i],
                    old(self).floors@[i],
                ) by {
                    assert(same_place(earlier.floors@[i], old(self).floors@[i]));
                }
                assert forall|k: int| 0 <= k < self.elevators@.len() implies {
                    let car = #[trigger] self.elevators@[k];
                    car.floor_on == old(self).elevators@[k].floor_on && car.same_car(
                        &old(self).elevators@[k],
                    )
                } by {
                    assert(earlier.elevators@[k].same_car(&old(self).elevators@[k]));
                }
            }
            c = c + 1;
        }
    }

    /// Brings the mean energy per step up to date with the energy that
    /// the cars spent during the step just made. The step's number is the
    /// number of steps recorded so far, and both counters must have room.
    pub fn update_average_energy(&mut self, energy_spent: u128)
        requires
            old(self).avg_energy@.absorb(energy_spent as nat, 1).fits(),
        ensures
            final(self).avg_energy@ == old(self).avg_energy@.absorb(energy_spent as nat, 1),
            final(self).avg_wait_time == old(self).avg_wait_time,
            final(self).p_in == old(self).p_in,
            final(self).arrivals == old(self).arrivals,
            final(self).avg_energy.count > 0,
            final(self).floors@ == old(self).floors@,
            final(self).elevators@ == old(self).elevators@,
            old(self).wf() ==> final(self).wf(),
    {
        self.avg_energy.record(energy_spent);
        proof {
            if old(self).wf() {
                assert forall|i: int| 0 <= i < self.floors@.len() implies #[trigger] self.floor_ok(
                    i,
                ) by {
                    assert(old(self).floor_ok(i));
                }
                assert forall|c: int|
                    0 <= c < self.elevators@.len() implies #[trigger] self.car_ok(c) by {
                    assert(old(self).car_ok(c));
                }
            }
        }
    }

    /// In a building that is in order, every floor is well formed.
    pub proof fn lemma_floors_are_wf(&self)
        requires
            self.wf(),
        ensures
            all_wf(self.floors@),
    {
        assert forall|i: int| 0 <= i < self.floors@.len() implies (#[trigger] self.floors@[i]).wf() by {
            assert(self.floor_ok(i));
        }
    }

    /// In a building that is in order, whoever stands on a floor and
    /// does not wait for a car has no wait on record: the counter is
    /// zero from the moment a ride ends until the next wait begins.
    pub proof fn lemma_idle_people_have_no_wait(&self, i: int, j: int)
        requires
            self.wf(),
            0 <= i < self.floors@.len(),
            0 <= j < self.floors@[i].people@.len(),
        ensures
            !self.floors@[i].people@[j].riding,
            self.floors@[i].people@[j].floor_on == i,
            !self.floors@[i].people@[j].waiting() ==> self.floors@[i].people@[j].wait_time == 0,
    {
        assert(self.floor_ok(i));
        assert(self.floors@[i].hosts(self.floors@[i].people@[j]));
    }

    /// In a building that is in order, every rider is where its car is.
    pub proof fn lemma_riders_are_with_their_car(&self, c: int, j: int)
        requires
            self.wf(),
            0 <= c < self.elevators@.len(),
            0 <= j < self.elevators@[c].people@.len(),
        ensures
            self.elevators@[c].people@[j].riding,
            self.elevators@[c].people@[j].floor_on == self.elevators@[c].floor_on,
            self.elevators@[c].floor_on < self.floors@.len(),
    {
        assert(self.car_ok(c));
        assert(self.elevators@[c].carries(self.elevators@[c].people@[j]));
    }

    /// In a building of a single floor nobody ever waits: everyone who
    /// enters is where it wants to be.
    pub proof fn lemma_single_floor_nobody_waits(&self)
        requires
            self.wf(),
            self.floors@.len() == 1,
        ensures
            !anyone_waiting(self.floors@[0].people@),
            nearest_wait_floor(self.floors@, 0) is None,
            forall|c: int|
                0 <= c < self.elevators@.len() ==> !anyone_waiting(
                    (#[trigger] self.elevators@[c]).people@,
                ),
    {
        assert(self.floor_ok(0));
        assert forall|j: int| 0 <= j < self.floors@[0].people@.len() implies !(
        #[trigger] self.floors@[0].people@[j]).waiting() by {
            assert(self.floors@[0].hosts(self.floors@[0].people@[j]));
        }
        assert forall|c: int| 0 <= c < self.elevators@.len() implies !anyone_waiting(
            (#[trigger] self.elevators@[c]).people@,
        ) by {
            assert(self.car_ok(c));
            assert forall|j: int| 0 <= j < self.elevators@[c].people@.len() implies !(
            #[trigger] self.elevators@[c].people@[j]).waiting() by {
                assert(self.elevators@[c].carries(self.elevators@[c].people@[j]));
            }
        }
        assert(self.floors@.len() == self.floors.len());
        lemma_nearest_is_best(0, waiting_floors(self.floors@));
        if nearest_wait_floor(self.floors@, 0) is Some {
            let floor = nearest_wait_floor(self.floors@, 0)->Some_0.0;
            lemma_waiting_floors(self.floors@, floor);
        }
    }
}

impl Floors for Building {
    open spec fn levels(&self) -> Seq<Floor> {
        self.floors@
    }

    open spec fn ready_to_tick(&self) -> bool {
        &&& forall|i: int|
            0 <= i < self.floors@.len() ==> can_tick((#[trigger] self.floors@[i]).people@)
        &&& forall|c: int|
            0 <= c < self.elevators@.len() ==> can_tick((#[trigger] self.elevators@[c]).people@)
    }

    fn are_people_waiting_on_floor(&self, floor_index: usize) -> (waiting: bool) {
        self.floors.are_people_waiting_on_floor(floor_index)
    }

    fn get_nearest_wait_floor(&self, floor_on: usize) -> (target: Option<(usize, usize)>) {
        self.floors.get_nearest_wait_floor(floor_on)
    }

    fn get_dest_probabilities(&self) -> (probabilities: Vec<u64>) {
        self.floors.get_dest_probabilities()
    }

    fn gen_people_leaving(&mut self, rng: &mut StdRng)
        ensures
            final(self).same_cars(old(self)),
            final(self).same_books(old(self)),
            old(self).wf() ==> final(self).wf(),
    {
        self.floors.gen_people_leaving(rng);
        proof {
            if old(self).wf() {
                assert forall|i: int| 0 <= i < self.floors@.len() implies #[trigger] self.floor_ok(
                    i,
                ) by {
                    assert(old(self).floor_ok(i));
                    let was = old(self).floors.levels()[i];
                    let is = self.floors.levels()[i];
                    assert(after_leave_trials(was.people@, is.people@));
                    assert forall|j: int| 0 <= j < is.people@.len() implies (
                    #[trigger] is.people@[j]).floor_to < self.floors@.len() by {
                        assert(was.people@[j].floor_to < self.floors@.len());
                    }
                }
                assert forall|c: int|
                    0 <= c < self.elevators@.len() implies #[trigger] self.car_ok(c) by {
                    assert(old(self).car_ok(c));
                }
            }
        }
    }

    fn flush_first_floor(&mut self)
        ensures
            final(self).same_cars(old(self)),
            final(self).same_books(old(self)),
            old(self).wf() ==> final(self).wf(),
    {
        proof {
            if self.wf() {
                self.lemma_floors_are_wf();
            }
        }
        self.floors.flush_first_floor();
        proof {
            if old(self).wf() {
                assert forall|i: int| 0 <= i < self.floors@.len() implies #[trigger] self.floor_ok(
                    i,
                ) by {
                    assert(old(self).floor_ok(i));
                    if i == 0 {
                        lemma_filter_keeps_bound(
                            old(self).floors@[0].people@,
                            Selection::Leaving.passed(),
                            self.floors@.len(),
                        );
                    } else {
                        assert(same_floor(
                            old(self).floors.levels()[i],
                            self.floors.levels()[i],
                        ));
                    }
                }
                assert forall|c: int|
                    0 <= c < self.elevators@.len() implies #[trigger] self.car_ok(c) by {
                    assert(old(self).car_ok(c));
                }
            }
        }
    }

    fn increment_wait_times(&mut self)
        ensures
            final(self).same_frame(old(self)),
            final(self).avg_wait_time == old(self).avg_wait_time,
            final(self).elevators@.len() == old(self).elevators@.len(),
            forall|c: int|
                0 <= c < old(self).elevators@.len() ==> (
                #[trigger] final(self).elevators@[c]).people@ == ticked(
                    old(self).elevators@[c].people@,
                ),
            old(self).wf() ==> final(self).wf(),
            old(self).wf() ==> forall|c: int|
                0 <= c < old(self).elevators@.len() ==> (
                #[trigger] final(self).elevators@[c]).people@ == old(self).elevators@[c].people@,
    {
        assert forall|c: int| 0 <= c < self.elevators@.len() implies can_tick(
            (#[trigger] self.elevators.cars()[c]).people@,
        ) by {
            assert(can_tick(self.elevators@[c].people@));
        }
        assert forall|i: int| 0 <= i < self.floors@.len() implies can_tick(
            (#[trigger] self.floors@[i]).people@,
        ) by {}
        proof {
            if self.wf() {
                self.lemma_floors_are_wf();
            }
        }
        self.elevators.increment_wait_times();
        self.floors.increment_wait_times();
        proof {
            if old(self).wf() {
                assert forall|c: int| 0 <= c < self.elevators@.len() implies (
                #[trigger] self.elevators@[c]).people@ == old(self).elevators@[c].people@ by {
                    assert(old(self).car_ok(c));
                    assert(old(self).elevators.cars()[c] == old(self).elevators@[c]);
                }
            }
            assert forall|c: int| 0 <= c < self.elevators@.len() implies {
                let car = #[trigger] self.elevators@[c];
                &&& car.people@ == ticked(old(self).elevators@[c].people@)
                &&& car.floor_on == old(self).elevators@[c].floor_on
                &&& car.same_car(&old(self).elevators@[c])
                &&& old(self).elevators@[c].wf() ==> car.people@ == old(self).elevators@[c].people@
            } by {
                assert(old(self).elevators.cars()[c] == old(self).elevators@[c]);
            }
            assert forall|i: int| 0 <= i < self.floors@.len() implies same_place(
                #[trigger] self.floors@[i],
                old(self).floors@[i],
            ) && self.floors@[i].people@ == ticked(old(self).floors@[i].people@) by {
                assert(old(self).floors.levels()[i] == old(self).floors@[i]);
            }
            if old(self).wf() {
                assert forall|i: int| 0 <= i < self.floors@.len() implies #[trigger] self.floor_ok(
                    i,
                ) by {
                    assert(old(self).floor_ok(i));
                    assert(self.floors.levels()[i].wf());
                    let was = old(self).floors@[i].people@;
                    let is = self.floors@[i].people@;
                    assert forall|j: int| 0 <= j < is.len() implies (#[trigger] is[j]).floor_to
                        < self.floors@.len() by {
                        assert(was[j].floor_to < self.floors@.len());
                    }
                }
                assert forall|c: int|
                    0 <= c < self.elevators@.len() implies #[trigger] self.car_ok(c) by {
                    assert(old(self).car_ok(c));
                    let was = old(self).elevators@[c];
                    let is = self.elevators@[c];
                    assert(is.people@ == was.people@);
                    assert forall|j: int| 0 <= j < is.people@.len() implies is.carries(
                        #[trigger] is.people@[j],
                    ) by {
                        assert(was.carries(was.people@[j]));
                    }
                }
            }
        }
    }
}

} // verus!
