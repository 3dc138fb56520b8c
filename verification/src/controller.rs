//! The dispatch policies: each decides for every car, once per step,
//! whether it goes up, goes down or stands, and moves it accordingly.
//! Cars are decided one by one; no policy coordinates them.

use crate::building::{bound_within, Building};
use crate::elevator::{carried_to, Elevator};
use crate::floors::{nearest_wait_floor, Floors};
use crate::nearest::{head_toward, toward, Decision};
use crate::floors::{lemma_waiting_floors, waiting_floors};
use crate::nearest::lemma_nearest_is_best;
use crate::people::{anyone_going_to, anyone_waiting, dest_floors, People};
use crate::person::Person;
use crate::random::draw_below;
use rand::rngs::StdRng;
use vstd::prelude::*;

verus! {

/// Whether a car at `floor_on` can carry out `decision` without leaving
/// a building of `num_floors` floors.
pub open spec fn in_reach(floor_on: usize, decision: Decision, num_floors: nat) -> bool {
    match decision {
        Decision::Up => floor_on + 1 < num_floors,
        Decision::Down => floor_on > 0,
        Decision::Stop => true,
    }
}

/// Whether `after` is the car `before` once it has carried out
/// `decision`: standing exactly when told to stop, turned the way it was
/// sent, one floor further in that direction, and with its riders carried
/// along. A car that stops keeps its floor, its riders and its last
/// direction.
pub open spec fn follows(before: Elevator, decision: Decision, after: Elevator) -> bool {
    &&& after.energy_up == before.energy_up
    &&& after.energy_down == before.energy_down
    &&& after.energy_coef == before.energy_coef
    &&& match decision {
        Decision::Up => {
            &&& !after.stopped
            &&& after.moving_up
            &&& after.floor_on == before.floor_on + 1
            &&& after.people@ == carried_to(before.people@, after.floor_on)
        },
        Decision::Down => {
            &&& !after.stopped
            &&& !after.moving_up
            &&& after.floor_on == before.floor_on - 1
            &&& after.people@ == carried_to(before.people@, after.floor_on)
        },
        Decision::Stop => {
            &&& after.stopped
            &&& after.moving_up == before.moving_up
            &&& after.floor_on == before.floor_on
            &&& after.people@ == before.people@
        },
    }
}

/// Whether `after` is the car `before` once it has carried out one
/// decision, whichever it was.
pub open spec fn one_step(before: Elevator, after: Elevator) -> bool {
    exists|decision: Decision| follows(before, decision, after)
}

/// A car that stands after a step is where it was before, with the
/// same riders.
pub proof fn lemma_stopped_car_stays(before: Elevator, after: Elevator)
    requires
        one_step(before, after),
        after.stopped,
    ensures
        after.floor_on == before.floor_on,
        after.people@ == before.people@,
{
}

/// Commits `decision` to `car` and moves it by one step. The floor it
/// moves to must exist as a number.
pub fn carry_out(car: &mut Elevator, decision: Decision)
    requires
        decision == Decision::Up ==> old(car).floor_on < usize::MAX,
        decision == Decision::Down ==> old(car).floor_on > 0,
    ensures
        follows(*old(car), decision, *final(car)),
        old(car).wf() ==> final(car).wf(),
{
    match decision {
        Decision::Up => {
            car.stopped = false;
            car.moving_up = true;
        },
        Decision::Down => {
            car.stopped = false;
            car.moving_up = false;
        },
        Decision::Stop => {
            car.stopped = true;
        },
    }
    proof {
        if old(car).wf() {
            assert forall|i: int| 0 <= i < car.people@.len() implies car.carries(
                #[trigger] car.people@[i],
            ) by {
                assert(old(car).carries(old(car).people@[i]));
            }
        }
    }
    car.update_floor();
}

/// Being carried does not change where anybody wants to go.
pub proof fn lemma_carried_keeps_bound(people: Seq<Person>, floor: usize, n: nat)
    requires
        bound_within(people, n),
    ensures
        bound_within(carried_to(people, floor), n),
{
    assert forall|i: int| 0 <= i < carried_to(people, floor).len() implies (
    #[trigger] carried_to(people, floor)[i]).floor_to < n by {
        assert(people[i].floor_to < n);
    }
}

/// A policy that steers the cars of a building.
pub trait ElevatorController {
    /// The building under control.
    spec fn building(&self) -> Building;

    /// Whether the controller and its building are in order.
    spec fn wf(&self) -> bool;

    /// Decides for every car whether it goes up, goes down or stands,
    /// and moves it by one step. Whatever the policy, each car carries
    /// out one decision that keeps it inside the building, nobody on a
    /// floor is touched, and the statistics stay as they are.
    fn update_elevators(&mut self)
        requires
            old(self).wf(),
        ensures
            final(self).wf(),
            final(self).building().wf(),
            final(self).building().floors@ == old(self).building().floors@,
            final(self).building().same_books(&old(self).building()),
            final(self).building().elevators@.len() == old(self).building().elevators@.len(),
            forall|c: int|
                0 <= c < old(self).building().elevators@.len() ==> #[trigger] one_step(
                    old(self).building().elevators@[c],
                    final(self).building().elevators@[c],
                ),
    ;
}

/// The policy that sends every car to floors picked at random: a car
/// without a target draws one uniformly from all floors, moves towards it
/// one floor per step, and gives it up on arrival.
pub struct RandomController {
    /// The building under control.
    pub building: Building,
    /// The target of each car, if it has one.
    pub floors_to: Vec<Option<usize>>,
    /// The source of the draws.
    pub rng: StdRng,
}

/// Whether a car and its target slot have gone from `before` to `after`
/// by one step of the random policy with `target` as the floor the car
/// is headed for. A target that was pending is the one used; the car
/// moves towards it, or stops and gives it up when it is there.
pub open spec fn random_step(
    before: Elevator,
    pending: Option<usize>,
    target: usize,
    after: Elevator,
    kept: Option<usize>,
) -> bool {
    &&& pending matches Some(t) ==> t == target
    &&& follows(before, toward(before.floor_on, target), after)
    &&& kept == if target == before.floor_on {
        None
    } else {
        Some(target)
    }
}

/// Whether a car and its target slot have gone from `before` to `after`
/// by one step of the random policy towards some floor of a building of
/// `num_floors` floors.
pub open spec fn random_move(
    before: Elevator,
    pending: Option<usize>,
    num_floors: nat,
    after: Elevator,
    kept: Option<usize>,
) -> bool {
    exists|target: usize| target < num_floors && random_step(before, pending, target, after, kept)
}

impl RandomController {
    /// Whether every car has a target slot and every target is a floor
    /// of the building.
    pub open spec fn targets_ok(&self) -> bool {
        &&& self.floors_to@.len() == self.building.elevators@.len()
        &&& forall|c: int|
            0 <= c < self.floors_to@.len() ==> (#[trigger] self.floors_to@[c] matches Some(t)
                ==> t < self.building.floors@.len())
    }

    /// Whether every car has a target, so that a step draws nothing.
    pub open spec fn all_targeted(&self) -> bool {
        forall|c: int| 0 <= c < self.floors_to@.len() ==> #[trigger] self.floors_to@[c] is Some
    }

    /// A controller for `building` that draws from `rng`. No car has a
    /// target yet.
    pub fn from(building: Building, rng: StdRng) -> (controller: RandomController)
        ensures
            controller.building == building,
            controller.rng == rng,
            controller.floors_to@.len() == building.elevators@.len(),
            forall|c: int|
                0 <= c < controller.floors_to@.len() ==> #[trigger] controller.floors_to@[c]
                    is None,
            controller.targets_ok(),
    {
        let num_elevators: usize = building.elevators.len();
        let mut floors_to: Vec<Option<usize>> = Vec::new();
        let mut c: usize = 0;
        while c < num_elevators
            invariant
                c <= num_elevators,
                floors_to@.len() == c,
                forall|k: int| 0 <= k < c ==> #[trigger] floors_to@[k] is None,
            decreases num_elevators - c,
        {
            floors_to.push(None);
            c = c + 1;
        }
        RandomController { building, floors_to, rng }
    }

    /// Whether the controller and its building are in order.
    pub fn is_wf(&self) -> (ok: bool)
        ensures
            ok == self.wf(),
    {
        if !self.building.is_wf() || self.floors_to.len() != self.building.elevators.len() {
            return false;
        }
        let num_floors: usize = self.building.floors.len();
        let mut c: usize = 0;
        while c < self.floors_to.len()
            invariant
                c <= self.floors_to.len(),
                num_floors == self.building.floors@.len(),
                forall|k: int|
                    0 <= k < c ==> (#[trigger] self.floors_to@[k] matches Some(t) ==> t
                        < num_floors),
            decreases self.floors_to.len() - c,
        {
            match self.floors_to[c] {
                Some(target) => {
                    if target >= num_floors {
                        return false;
                    }
                },
                None => {},
            }
            c = c + 1;
        }
        true
    }

    /// Moves the car at position `c` one step on its way to `target` and
    /// keeps the target for the steps to come; a car that is there
    /// already stops and has no target any more.
    pub fn steer(&mut self, c: usize, target: usize)
        requires
            old(self).building.wf(),
            old(self).targets_ok(),
            c < old(self).building.elevators@.len(),
            target < old(self).building.floors@.len(),
        ensures
            random_step(
                old(self).building.elevators@[c as int],
                Some(target),
                target,
                final(self).building.elevators@[c as int],
                final(self).floors_to@[c as int],
            ),
            final(self).building.elevators@.len() == old(self).building.elevators@.len(),
            final(self).floors_to@.len() == old(self).floors_to@.len(),
            forall|k: int|
                0 <= k < old(self).building.elevators@.len() && k != c ==> {
                    &&& #[trigger] final(self).building.elevators@[k] == old(
                        self,
                    ).building.elevators@[k]
                    &&& final(self).floors_to@[k] == old(self).floors_to@[k]
                },
            final(self).building.floors@ == old(self).building.floors@,
            final(self).building.same_books(&old(self).building),
            final(self).rng == old(self).rng,
            final(self).building.wf(),
            final(self).targets_ok(),
    {
        proof {
            assert(self.building.car_ok(c as int));
        }
        let floor_on: usize = self.building.elevators[c].floor_on;
        let decision: Decision = head_toward(floor_on, target);
        carry_out(&mut self.building.elevators[c], decision);
        self.floors_to[c] = if target == floor_on {
            None
        } else {
            Some(target)
        };
        proof {
            let num_floors = self.building.floors@.len();
            let before = old(self).building.elevators@[c as int];
            lemma_carried_keeps_bound(
                before.people@,
                self.building.elevators@[c as int].floor_on,
                num_floors,
            );
            assert forall|i: int|
                0 <= i < self.building.floors@.len() implies #[trigger] self.building.floor_ok(
                i,
            ) by {
                assert(old(self).building.floor_ok(i));
            }
            assert forall|k: int|
                0 <= k < self.building.elevators@.len() implies #[trigger] self.building.car_ok(
                k,
            ) by {
                assert(old(self).building.car_ok(k));
            }
            assert forall|k: int| 0 <= k < self.floors_to@.len() implies (
            #[trigger] self.floors_to@[k] matches Some(t) ==> t < num_floors) by {
                if k != c {
                    assert(self.floors_to@[k] == old(self).floors_to@[k]);
                }
            }
        }
    }
}

impl ElevatorController for RandomController {
    open spec fn building(&self) -> Building {
        self.building
    }

    open spec fn wf(&self) -> bool {
        self.building.wf() && self.targets_ok()
    }

    fn update_elevators(&mut self)
        ensures
            final(self).floors_to@.len() == old(self).floors_to@.len(),
            old(self).all_targeted() ==> final(self).rng == old(self).rng,
            forall|c: int|
                0 <= c < old(self).building.elevators@.len() ==> #[trigger] random_move(
                    old(self).building.elevators@[c],
                    old(self).floors_to@[c],
                    old(self).building.floors@.len(),
                    final(self).building.elevators@[c],
                    final(self).floors_to@[c],
                ),
    {
        let num_floors: usize = self.building.floors.len();
        let n: usize = self.building.elevators.len();
        let mut c: usize = 0;
        while c < n
            invariant
                c <= n,
                n == old(self).building.elevators@.len(),
                num_floors == old(self).building.floors@.len(),
                self.building.elevators@.len() == n,
                self.floors_to@.len() == n,
                self.building.wf(),
                self.targets_ok(),
                old(self).targets_ok(),
                old(self).all_targeted() ==> self.rng == old(self).rng,
                self.building.floors@ == old(self).building.floors@,
                self.building.same_books(&old(self).building),
                forall|k: int|
                    0 <= k < c ==> #[trigger] random_move(
                        old(self).building.elevators@[k],
                        old(self).floors_to@[k],
                        num_floors as nat,
                        self.building.elevators@[k],
                        self.floors_to@[k],
                    ),
                forall|k: int|
                    c <= k < n ==> {
                        &&& #[trigger] self.building.elevators@[k] == old(
                            self,
                        ).building.elevators@[k]
                        &&& self.floors_to@[k] == old(self).floors_to@[k]
                    },
            decreases n - c,
        {
            let ghost entry = *self;
            let pending: Option<usize> = self.floors_to[c];
            let target: usize = match pending {
                Some(floor) => floor,
                None => draw_below(&mut self.rng, num_floors),
            };
            let ghost drawn = *self;
            assert(drawn.building == entry.building && drawn.floors_to == entry.floors_to);
            self.steer(c, target);
            proof {
                assert forall|k: int| c < k < n implies self.building.elevators@[k] == old(
                    self,
                ).building.elevators@[k] && self.floors_to@[k] == old(self).floors_to@[k] by {
                    assert(self.building.elevators@[k] == drawn.building.elevators@[k]);
                    assert(entry.building.elevators@[k] == old(self).building.elevators@[k]);
                }
                assert(random_step(
                    old(self).building.elevators@[c as int],
                    old(self).floors_to@[c as int],
                    target,
                    self.building.elevators@[c as int],
                    self.floors_to@[c as int],
                ));
                assert forall|k: int| 0 <= k < c implies #[trigger] random_move(
                    old(self).building.elevators@[k],
                    old(self).floors_to@[k],
                    num_floors as nat,
                    self.building.elevators@[k],
                    self.floors_to@[k],
                ) by {
                    assert(random_move(
                        old(self).building.elevators@[k],
                        old(self).floors_to@[k],
                        num_floors as nat,
                        entry.building.elevators@[k],
                        entry.floors_to@[k],
                    ));
                }
            }
            c = c + 1;
        }
        proof {
            assert forall|k: int| 0 <= k < n implies #[trigger] one_step(
                old(self).building.elevators@[k],
                self.building.elevators@[k],
            ) by {
                assert(random_move(
                    old(self).building.elevators@[k],
                    old(self).floors_to@[k],
                    num_floors as nat,
                    self.building.elevators@[k],
                    self.floors_to@[k],
                ));
                let target = choose|target: usize|
                    target < num_floors && random_step(
                        old(self).building.elevators@[k],
                        old(self).floors_to@[k],
                        target,
                        self.building.elevators@[k],
                        self.floors_to@[k],
                    );
                assert(follows(
                    old(self).building.elevators@[k],
                    toward(old(self).building.elevators@[k].floor_on, target),
                    self.building.elevators@[k],
                ));
            }
        }
    }
}

/// The policy that serves the nearest demand. A standing car goes to the
/// nearest destination of its riders or, when it is empty, to the nearest
/// floor where somebody waits; without either it stays. A moving car
/// stops at the top and bottom floors, where somebody waits, and where a
/// rider wants to get off; otherwise it keeps going.
pub struct NearestController {
    /// The building under control.
    pub building: Building,
}

/// What the nearest-demand policy decides for the car at position `c` of
/// `building`. A standing car whose nearest target is the floor it is at
/// stays there.
pub open spec fn nearest_decision(building: Building, c: int) -> Decision {
    let car = building.elevators@[c];
    let top = building.floors@.len() - 1;
    if car.stopped {
        match car.nearest_dest() {
            Some((floor, _)) => toward(car.floor_on, floor),
            None => match nearest_wait_floor(building.floors@, car.floor_on) {
                Some((floor, _)) => toward(car.floor_on, floor),
                None => Decision::Stop,
            },
        }
    } else if car.floor_on == 0 || car.floor_on == top {
        Decision::Stop
    } else if anyone_waiting(building.floors@[car.floor_on as int].people@) {
        Decision::Stop
    } else if anyone_going_to(car.people@, car.floor_on) {
        Decision::Stop
    } else if car.moving_up {
        Decision::Up
    } else {
        Decision::Down
    }
}

/// Whatever the nearest-demand policy decides keeps the car inside the
/// building, and a moving car at the top or bottom floor is told to stop.
pub proof fn lemma_nearest_decision_in_reach(building: Building, c: int)
    requires
        building.wf(),
        0 <= c < building.elevators@.len(),
    ensures
        in_reach(
            building.elevators@[c].floor_on,
            nearest_decision(building, c),
            building.floors@.len(),
        ),
        !building.elevators@[c].stopped && (building.elevators@[c].floor_on == 0
            || building.elevators@[c].floor_on == building.floors@.len() - 1)
            ==> nearest_decision(building, c) == Decision::Stop,
{
    let car = building.elevators@[c];
    assert(building.car_ok(c));
    assert(building.floors@.len() == building.floors.len());
    if car.stopped {
        lemma_nearest_is_best(car.floor_on, dest_floors(car.people@));
        lemma_nearest_is_best(car.floor_on, waiting_floors(building.floors@));
        match car.nearest_dest() {
            Some((floor, _)) => {
                let dests = dest_floors(car.people@);
                let k = choose|k: int| 0 <= k < dests.len() && dests[k] == floor;
                assert(car.people@[k].floor_to == floor);
            },
            None => {
                match nearest_wait_floor(building.floors@, car.floor_on) {
                    Some((floor, _)) => {
                        lemma_waiting_floors(building.floors@, floor);
                    },
                    None => {},
                }
            },
        }
    }
}

impl NearestController {
    /// A controller for `building`.
    pub fn from(building: Building) -> (controller: NearestController)
        ensures
            controller.building == building,
    {
        NearestController { building }
    }

    /// Whether the controller and its building are in order.
    pub fn is_wf(&self) -> (ok: bool)
        ensures
            ok == self.wf(),
    {
        self.building.is_wf()
    }

    /// Decides what the car at position `c` does next.
    pub fn decide(&self, c: usize) -> (decision: Decision)
        requires
            self.building.wf(),
            c < self.building.elevators@.len(),
        ensures
            decision == nearest_decision(self.building, c as int),
            in_reach(
                self.building.elevators@[c as int].floor_on,
                decision,
                self.building.floors@.len(),
            ),
    {
        proof {
            lemma_nearest_decision_in_reach(self.building, c as int);
            assert(self.building.car_ok(c as int));
        }
        let car = &self.building.elevators[c];
        if car.stopped {
            match car.get_nearest_dest_floor() {
                Some((floor, _)) => head_toward(car.floor_on, floor),
                None => match self.building.get_nearest_wait_floor(car.floor_on) {
                    Some((floor, _)) => head_toward(car.floor_on, floor),
                    None => Decision::Stop,
                },
            }
        } else if car.floor_on == 0 || car.floor_on == self.building.floors.len() - 1 {
            Decision::Stop
        } else if self.building.are_people_waiting_on_floor(car.floor_on) {
            Decision::Stop
        } else if car.are_people_going_to_floor(car.floor_on) {
            Decision::Stop
        } else if car.moving_up {
            Decision::Up
        } else {
            Decision::Down
        }
    }
}

impl ElevatorController for NearestController {
    open spec fn building(&self) -> Building {
        self.building
    }

    open spec fn wf(&self) -> bool {
        self.building.wf()
    }

    fn update_elevators(&mut self)
        ensures
            forall|c: int|
                0 <= c < old(self).building.elevators@.len() ==> follows(
                    old(self).building.elevators@[c],
                    nearest_decision(old(self).building, c),
                    #[trigger] final(self).building.elevators@[c],
                ),
    {
        let n: usize = self.building.elevators.len();
        let mut decisions: Vec<Decision> = Vec::new();
        let mut c: usize = 0;
        while c < n
            invariant
                c <= n,
                *self == *old(self),
                self.building.wf(),
                n == self.building.elevators@.len(),
                decisions@.len() == c,
                forall|k: int|
                    0 <= k < c ==> #[trigger] decisions@[k] == nearest_decision(
                        self.building,
                        k,
                    ),
            decreases n - c,
        {
            decisions.push(self.decide(c));
            c = c + 1;
        }
        proof {
            assert forall|k: int| 0 <= k < n implies in_reach(
                self.building.elevators@[k].floor_on,
                #[trigger] decisions@[k],
                self.building.floors@.len(),
            ) by {
                lemma_nearest_decision_in_reach(self.building, k);
            }
        }
        let ghost num_floors = self.building.floors@.len();
        assert(num_floors == self.building.floors.len());
        c = 0;
        while c < n
            invariant
                c <= n,
                num_floors <= usize::MAX,
                n == old(self).building.elevators@.len(),
                self.building.elevators@.len() == n,
                decisions@.len() == n,
                num_floors == old(self).building.floors@.len(),
                old(self).building.wf(),
                self.building.floors@ == old(self).building.floors@,
                self.building.same_books(&old(self).building),
                forall|k: int|
                    0 <= k < n ==> #[trigger] decisions@[k] == nearest_decision(
                        old(self).building,
                        k,
                    ),
                forall|k: int|
                    0 <= k < n ==> in_reach(
                        old(self).building.elevators@[k].floor_on,
                        #[trigger] decisions@[k],
                        num_floors,
                    ),
                forall|k: int|
                    0 <= k < c ==> follows(
                        old(self).building.elevators@[k],
                        decisions@[k],
                        #[trigger] self.building.elevators@[k],
                    ) && self.building.car_ok(k),
                forall|k: int|
                    c <= k < n ==> #[trigger] self.building.elevators@[k] == old(
                        self,
                    ).building.elevators@[k],
            decreases n - c,
        {
            proof {
                assert(old(self).building.car_ok(c as int));
                assert(in_reach(
                    old(self).building.elevators@[c as int].floor_on,
                    decisions@[c as int],
                    num_floors,
                ));
            }
            let ghost earlier = self.building;
            carry_out(&mut self.building.elevators[c], decisions[c]);
            proof {
                let before = old(self).building.elevators@[c as int];
                lemma_carried_keeps_bound(
                    before.people@,
                    self.building.elevators@[c as int].floor_on,
                    num_floors,
                );
                assert(self.building.car_ok(c as int));
                assert forall|k: int| 0 <= k < c implies follows(
                    old(self).building.elevators@[k],
                    decisions@[k],
                    #[trigger] self.building.elevators@[k],
                ) && self.building.car_ok(k) by {
                    assert(self.building.elevators@[k] == earlier.elevators@[k]);
                    assert(earlier.car_ok(k));
                }
            }
            c = c + 1;
        }
        proof {
            assert forall|i: int|
                0 <= i < self.building.floors@.len() implies #[trigger] self.building.floor_ok(
                i,
            ) by {
                assert(old(self).building.floor_ok(i));
            }
            assert forall|k: int| 0 <= k < n implies #[trigger] one_step(
                old(self).building.elevators@[k],
                self.building.elevators@[k],
            ) by {
                assert(follows(
                    old(self).building.elevators@[k],
                    decisions@[k],
                    self.building.elevators@[k],
                ));
            }
        }
    }
}

} // verus!
