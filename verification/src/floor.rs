//! One floor of the building and the people standing on it.

use crate::people::{
    anyone_waiting, drain_selected, idle_rested, lemma_filter_members, selected, unselected,
    People, Selection,
};
use crate::person::{Person, PROBABILITY_ONE};
use rand::rngs::StdRng;
use vstd::prelude::*;

verus! {

/// A floor: its position in the building, the people standing on it, and
/// the chance, in millionths, that a car will be wanted here soon. That
/// chance is informational and decides nothing.
pub struct Floor {
    /// The floor's position, counted from the ground floor at zero.
    pub index: usize,
    /// The people standing on the floor.
    pub people: Vec<Person>,
    /// The chance that the floor becomes a destination, in millionths.
    pub dest_prob: u64,
}

/// The chance, in millionths, that none of `people` decides to leave when
/// each is asked once. Every factor rounds down to a whole millionth.
pub open spec fn stay_probability(people: Seq<Person>) -> nat
    decreases people.len(),
{
    if people.len() == 0 {
        PROBABILITY_ONE as nat
    } else {
        stay_probability(people.drop_last()) * ((PROBABILITY_ONE - people.last().p_out) as nat)
            / (PROBABILITY_ONE as nat)
    }
}

/// The chance, in millionths, that at least one of `people` decides to
/// leave: the complement of the chance that all of them stay.
pub open spec fn composite_p_out(people: Seq<Person>) -> nat {
    (PROBABILITY_ONE - stay_probability(people)) as nat
}

/// A group of people as people standing on a floor.
pub open spec fn landed(people: Seq<Person>) -> Seq<Person> {
    people.map_values(|person: Person| person.landed())
}

/// Whether a round of leave trials has nobody to ask: everybody either
/// waits for a car or is leaving already, so no draw is due.
pub open spec fn nobody_to_ask(people: Seq<Person>) -> bool {
    forall|i: int|
        0 <= i < people.len() ==> (#[trigger] people[i]).waiting() || people[i].is_leaving
}

/// How one round of leave trials may change a group: nobody comes or
/// goes; a person who waits, or who is leaving already, is not asked and
/// stays as it was; anyone else either stays as it was or departs, and
/// the ends of the probability scale leave no choice.
pub open spec fn after_leave_trials(before: Seq<Person>, after: Seq<Person>) -> bool {
    &&& after.len() == before.len()
    &&& forall|i: int|
        0 <= i < before.len() ==> {
            let was = #[trigger] before[i];
            let is = after[i];
            &&& is == was || is == was.departing()
            &&& was.waiting() || was.is_leaving || was.p_out == 0 ==> is == was
            &&& !was.waiting() && was.p_out == PROBABILITY_ONE ==> is == was.asked_to_leave(
                true,
            )
        }
}

/// The chance that everyone stays is a probability.
pub proof fn lemma_stay_probability_bounded(people: Seq<Person>)
    requires
        forall|i: int| 0 <= i < people.len() ==> (#[trigger] people[i]).p_out <= PROBABILITY_ONE,
    ensures
        stay_probability(people) <= PROBABILITY_ONE,
    decreases people.len(),
{
    if people.len() > 0 {
        let rest = people.drop_last();
        lemma_stay_probability_bounded(rest);
        let stay = stay_probability(rest);
        let keep = (PROBABILITY_ONE - people.last().p_out) as nat;
        assert(stay * keep / 1_000_000 <= 1_000_000) by (nonlinear_arith)
            requires
                stay <= 1_000_000,
                keep <= 1_000_000,
        ;
    }
}

/// The product of the chances, in millionths, that each of `people`
/// stays: what `stay_probability` would be without rounding, scaled by a
/// million for every person.
pub open spec fn stay_product(people: Seq<Person>) -> nat
    decreases people.len(),
{
    if people.len() == 0 {
        1
    } else {
        stay_product(people.drop_last()) * ((PROBABILITY_ONE - people.last().p_out) as nat)
    }
}

/// A million to the power of `n`.
pub open spec fn million_to(n: nat) -> nat
    decreases n,
{
    if n == 0 {
        1
    } else {
        million_to((n - 1) as nat) * (PROBABILITY_ONE as nat)
    }
}

/// Rounding costs little. With `n` people, the chance that all of them
/// stay is never above the exact product of their chances to stay and
/// falls short of it by at most `n` millionths. Hence the chance that
/// somebody leaves is one minus that product, overstated by no more than
/// `n` millionths, in whatever order the people are listed.
pub proof fn lemma_stay_probability_is_close(people: Seq<Person>)
    requires
        forall|i: int| 0 <= i < people.len() ==> (#[trigger] people[i]).p_out <= PROBABILITY_ONE,
    ensures
        stay_probability(people) * million_to(people.len()) <= PROBABILITY_ONE * stay_product(
            people,
        ),
        PROBABILITY_ONE * stay_product(people) <= (stay_probability(people) + people.len())
            * million_to(people.len()),
        composite_p_out(people) + stay_probability(people) == PROBABILITY_ONE,
    decreases people.len(),
{
    lemma_stay_probability_bounded(people);
    if people.len() > 0 {
        let rest = people.drop_last();
        lemma_stay_probability_is_close(rest);
        let n = rest.len() as int;
        let s = stay_probability(rest) as int;
        let s1 = stay_probability(people) as int;
        let k = (PROBABILITY_ONE - people.last().p_out) as int;
        let q = million_to(rest.len()) as int;
        let pi = stay_product(rest) as int;
        let one = PROBABILITY_ONE as int;
        assert(s1 == (s * k) / one);
        assert(s1 * one <= s * k && s * k < s1 * one + one) by (nonlinear_arith)
            requires
                s1 == (s * k) / one,
                one == 1_000_000,
                s >= 0,
                k >= 0,
        ;
        assert(s1 * (q * one) <= one * (pi * k)) by (nonlinear_arith)
            requires
                s1 * one <= s * k,
                s * q <= one * pi,
                q >= 0,
                k >= 0,
                one > 0,
                pi >= 0,
                s >= 0,
                s1 >= 0,
        {
            assert(s1 * one * q <= s * k * q);
            assert(s * q * k <= one * pi * k);
        }
        assert(one * (pi * k) <= (s1 + n + 1) * (q * one)) by (nonlinear_arith)
            requires
                s * k < s1 * one + one,
                one * pi <= (s + n) * q,
                0 <= k <= one,
                q >= 0,
                n >= 0,
                pi >= 0,
                s >= 0,
                s1 >= 0,
        {
            assert(one * pi * k <= (s + n) * q * k);
            assert((s + n) * q * k == s * k * q + n * q * k);
            assert(s * k * q <= (s1 * one + one) * q);
            assert(n * q * k <= n * q * one);
        }
    }
}

/// The chance that a prefix stays, extended by one more person.
pub proof fn lemma_stay_take_step(people: Seq<Person>, i: int)
    requires
        0 <= i < people.len(),
    ensures
        stay_probability(people.take(i + 1)) == stay_probability(people.take(i)) * ((
        PROBABILITY_ONE - people[i].p_out) as nat) / (PROBABILITY_ONE as nat),
{
    assert(people.take(i + 1).drop_last() =~= people.take(i));
}

impl Floor {
    /// Whether `person` may stand here: it is well formed, not aboard a
    /// car, on this floor, and has no wait on record if this is where it
    /// wants to be.
    pub open spec fn hosts(&self, person: Person) -> bool {
        &&& person.wf()
        &&& !person.riding
        &&& person.floor_on == self.index
        &&& person.arrived() ==> person.wait_time == 0
    }

    /// Everyone on the floor may stand here.
    pub open spec fn wf(&self) -> bool {
        forall|i: int| 0 <= i < self.people@.len() ==> self.hosts(#[trigger] self.people@[i])
    }

    /// An empty floor at position `index`.
    pub fn new(index: usize) -> (floor: Floor)
        ensures
            floor.index == index,
            floor.people@.len() == 0,
            floor.dest_prob == 0,
            floor.wf(),
    {
        Floor { index, people: Vec::new(), dest_prob: 0 }
    }

    /// Whether everyone on the floor may stand here.
    pub fn is_wf(&self) -> (ok: bool)
        ensures
            ok == self.wf(),
    {
        let mut i: usize = 0;
        while i < self.people.len()
            invariant
                i <= self.people.len(),
                forall|j: int| 0 <= j < i ==> self.hosts(#[trigger] self.people@[j]),
            decreases self.people.len() - i,
        {
            let person = &self.people[i];
            let at_home: bool = person.is_wf() && !person.riding && person.floor_on == self.index
                && (person.floor_on != person.floor_to || person.wait_time == 0);
            if !at_home {
                return false;
            }
            i = i + 1;
        }
        true
    }

    /// The chance, in millionths, that at least one person on the floor
    /// decides to leave during a step. An empty floor gives zero.
    pub fn get_p_out(&self) -> (p_out: u32)
        requires
            self.wf(),
        ensures
            p_out == composite_p_out(self.people@),
            p_out <= PROBABILITY_ONE,
            self.people@.len() == 0 ==> p_out == 0,
    {
        let mut stay: u64 = PROBABILITY_ONE as u64;
        let mut i: usize = 0;
        assert(self.people@.take(0) =~= Seq::<Person>::empty());
        while i < self.people.len()
            invariant
                i <= self.people.len(),
                self.wf(),
                stay == stay_probability(self.people@.take(i as int)),
                stay <= PROBABILITY_ONE,
            decreases self.people.len() - i,
        {
            let keep: u64 = (PROBABILITY_ONE - self.people[i].p_out) as u64;
            proof {
                lemma_stay_take_step(self.people@, i as int);
                assert(stay * keep <= 1_000_000_000_000 && stay * keep / 1_000_000 <= 1_000_000)
                    by (nonlinear_arith)
                    requires
                        stay <= 1_000_000,
                        keep <= 1_000_000,
                ;
            }
            stay = stay * keep / (PROBABILITY_ONE as u64);
            i = i + 1;
        }
        assert(self.people@.take(i as int) =~= self.people@);
        (PROBABILITY_ONE as u64 - stay) as u32
    }

    /// Asks everyone on the floor who is not waiting for a car whether
    /// they leave the building.
    pub fn gen_people_leaving(&mut self, rng: &mut StdRng)
        requires
            old(self).wf(),
        ensures
            after_leave_trials(old(self).people@, final(self).people@),
            nobody_to_ask(old(self).people@) ==> *final(rng) == *old(rng),
            final(self).index == old(self).index,
            final(self).dest_prob == old(self).dest_prob,
            final(self).wf(),
    {
        let ghost before = self.people@;
        let n: usize = self.people.len();
        let mut i: usize = 0;
        while i < n
            invariant
                i <= n,
                nobody_to_ask(before) ==> *rng == *old(rng),
                n == before.len(),
                self.people@.len() == n,
                self.index == old(self).index,
                self.dest_prob == old(self).dest_prob,
                before == old(self).people@,
                old(self).wf(),
                after_leave_trials(before.take(i as int), self.people@.take(i as int)),
                forall|j: int| i <= j < n ==> #[trigger] self.people@[j] == before[j],
                forall|j: int| 0 <= j < i ==> self.hosts(#[trigger] self.people@[j]),
            decreases n - i,
        {
            let ghost earlier = self.people@;
            if !self.people[i].is_waiting() {
                self.people[i].gen_is_leaving(rng);
            }
            proof {
                assert(self.people@.take(i as int) =~= earlier.take(i as int));
                assert forall|j: int| 0 <= j < i + 1 implies {
                    let was = #[trigger] before.take(i + 1)[j];
                    let is = self.people@.take(i + 1)[j];
                    &&& is == was || is == was.departing()
                    &&& was.waiting() || was.is_leaving || was.p_out == 0 ==> is == was
                    &&& !was.waiting() && was.p_out == PROBABILITY_ONE ==> is
                        == was.asked_to_leave(true)
                } by {
                    if j < i {
                        assert(before.take(i as int)[j] == before[j]);
                        assert(self.people@.take(i as int)[j] == self.people@[j]);
                    }
                }
            }
            i = i + 1;
        }
        proof {
            assert(before.take(n as int) =~= before);
            assert(self.people@.take(n as int) =~= self.people@);
        }
    }

    /// Removes everyone who waits for a car and returns them, so that a
    /// stopped car can take them aboard. Nobody is left waiting here.
    pub fn flush_people_entering_elevator(&mut self) -> (boarding: Vec<Person>)
        ensures
            boarding@ == selected(old(self).people@, Selection::Waiting),
            final(self).people@ == unselected(old(self).people@, Selection::Waiting),
            final(self).index == old(self).index,
            final(self).dest_prob == old(self).dest_prob,
            !anyone_waiting(final(self).people@),
            old(self).wf() ==> final(self).wf(),
            old(self).wf() ==> forall|i: int|
                0 <= i < boarding@.len() ==> old(self).hosts(#[trigger] boarding@[i])
                    && boarding@[i].waiting(),
    {
        let boarding = drain_selected(&mut self.people, Selection::Waiting);
        proof {
            lemma_filter_members(old(self).people@, Selection::Waiting.picked());
            lemma_filter_members(old(self).people@, Selection::Waiting.passed());
        }
        boarding
    }

    /// Removes and discards everyone who has decided to leave the
    /// building. Meant for the ground floor, where people leave.
    pub fn flush_people_leaving_floor(&mut self)
        ensures
            final(self).people@ == unselected(old(self).people@, Selection::Leaving),
            final(self).index == old(self).index,
            final(self).dest_prob == old(self).dest_prob,
            old(self).wf() ==> final(self).wf(),
    {
        let _gone = drain_selected(&mut self.people, Selection::Leaving);
        proof {
            lemma_filter_members(old(self).people@, Selection::Leaving.passed());
        }
    }

    /// Takes in people who step onto the floor; they keep their order and
    /// come after those already here. None of them rides any longer.
    pub fn extend(&mut self, people: Vec<Person>)
        ensures
            final(self).people@ == old(self).people@ + landed(people@),
            final(self).index == old(self).index,
            final(self).dest_prob == old(self).dest_prob,
            old(self).wf() && (forall|i: int|
                0 <= i < people@.len() ==> old(self).hosts((#[trigger] people@[i]).landed()))
                ==> final(self).wf(),
    {
        let mut people = people;
        let ghost incoming = people@;
        let ghost before = self.people@;
        let start: usize = self.people.len();
        self.people.append(&mut people);
        let n: usize = self.people.len();
        let mut i: usize = start;
        while i < n
            invariant
                start <= i <= n,
                n == before.len() + incoming.len(),
                start == before.len(),
                self.people@.len() == n,
                self.index == old(self).index,
                self.dest_prob == old(self).dest_prob,
                forall|j: int| 0 <= j < start ==> #[trigger] self.people@[j] == before[j],
                forall|j: int|
                    start <= j < i ==> #[trigger] self.people@[j] == incoming[j - start].landed(),
                forall|j: int| i <= j < n ==> #[trigger] self.people@[j] == incoming[j - start],
            decreases n - i,
        {
            self.people[i].riding = false;
            i = i + 1;
        }
        assert(self.people@ =~= before + landed(incoming));
    }
}

impl People for Floor {
    open spec fn occupants(&self) -> Seq<Person> {
        self.people@
    }

    open spec fn after_reset(&self) -> Seq<Person> {
        idle_rested(self.people@)
    }

    fn get_dest_floors(&self) -> (floors: Vec<usize>) {
        self.people.get_dest_floors()
    }

    fn get_num_people(&self) -> (count: usize) {
        self.people.get_num_people()
    }

    fn get_num_people_waiting(&self) -> (count: usize) {
        self.people.get_num_people_waiting()
    }

    fn get_aggregate_wait_time(&self) -> (total: u128) {
        self.people.get_aggregate_wait_time()
    }

    fn are_people_going_to_floor(&self, floor_index: usize) -> (going: bool) {
        self.people.are_people_going_to_floor(floor_index)
    }

    fn are_people_waiting(&self) -> (waiting: bool) {
        self.people.are_people_waiting()
    }

    fn increment_wait_times(&mut self)
        ensures
            final(self).index == old(self).index,
            final(self).dest_prob == old(self).dest_prob,
            old(self).wf() ==> final(self).wf(),
    {
        self.people.increment_wait_times();
    }

    fn reset_wait_times(&mut self)
        ensures
            final(self).index == old(self).index,
            final(self).dest_prob == old(self).dest_prob,
            old(self).wf() ==> final(self).wf(),
    {
        let ghost before = self.people@;
        let n: usize = self.people.len();
        let mut i: usize = 0;
        while i < n
            invariant
                i <= n,
                n == before.len(),
                self.people@.len() == n,
                self.index == old(self).index,
                self.dest_prob == old(self).dest_prob,
                forall|j: int| 0 <= j < i ==> #[trigger] self.people@[j] == idle_rested(before)[j],
                forall|j: int| i <= j < n ==> #[trigger] self.people@[j] == before[j],
            decreases n - i,
        {
            if !self.people[i].is_waiting() {
                self.people[i].reset_wait_time();
            }
            i = i + 1;
        }
        assert(self.people@ =~= idle_rested(before));
        proof {
            if old(self).wf() {
                assert forall|j: int| 0 <= j < self.people@.len() implies self.hosts(
                    #[trigger] self.people@[j],
                ) by {
                    assert(old(self).hosts(before[j]));
                }
            }
        }
    }
}

} // verus!
