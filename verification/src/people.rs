//! What every group of occupants offers, whether it stands on a floor,
//! rides a car, or is in transit between the two.

use crate::person::Person;
use vstd::prelude::*;

verus! {

/// A way of picking occupants out of a group.
#[derive(Clone, Copy, PartialEq, Eq, Structural, Debug)]
pub enum Selection {
    /// Those who wait for a car.
    Waiting,
    /// Those who are at their destination floor.
    Arrived,
    /// Those who have decided to leave the building.
    Leaving,
}

impl Selection {
    /// Whether the selection picks `person`.
    pub open spec fn holds(self, person: Person) -> bool {
        match self {
            Selection::Waiting => person.waiting(),
            Selection::Arrived => person.arrived(),
            Selection::Leaving => person.is_leaving,
        }
    }

    /// The selection as a predicate.
    pub open spec fn picked(self) -> spec_fn(Person) -> bool {
        |person: Person| self.holds(person)
    }

    /// The predicate of everyone the selection passes over.
    pub open spec fn passed(self) -> spec_fn(Person) -> bool {
        |person: Person| !self.holds(person)
    }

    /// Whether the selection picks `person`.
    pub fn test(&self, person: &Person) -> (picked: bool)
        ensures
            picked == self.holds(*person),
    {
        match self {
            Selection::Waiting => person.is_waiting(),
            Selection::Arrived => person.floor_on == person.floor_to,
            Selection::Leaving => person.is_leaving,
        }
    }
}

/// The members of `people` that `which` picks, in their order.
pub open spec fn selected(people: Seq<Person>, which: Selection) -> Seq<Person> {
    people.filter(which.picked())
}

/// The members of `people` that `which` passes over, in their order.
pub open spec fn unselected(people: Seq<Person>, which: Selection) -> Seq<Person> {
    people.filter(which.passed())
}

/// The destination floor of each member, in order and with repeats.
pub open spec fn dest_floors(people: Seq<Person>) -> Seq<usize> {
    people.map_values(|person: Person| person.floor_to)
}

/// The sum of the members' wait counters.
pub open spec fn total_wait_time(people: Seq<Person>) -> nat
    decreases people.len(),
{
    if people.len() == 0 {
        0
    } else {
        total_wait_time(people.drop_last()) + people.last().wait_time as nat
    }
}

/// Whether some member is bound for `floor`.
pub open spec fn anyone_going_to(people: Seq<Person>, floor: usize) -> bool {
    exists|i: int| 0 <= i < people.len() && (#[trigger] people[i]).floor_to == floor
}

/// Whether some member waits for a car.
pub open spec fn anyone_waiting(people: Seq<Person>) -> bool {
    exists|i: int| 0 <= i < people.len() && (#[trigger] people[i]).waiting()
}

/// Whether every waiting member's counter has room for one more step.
pub open spec fn can_tick(people: Seq<Person>) -> bool {
    forall|i: int|
        0 <= i < people.len() && (#[trigger] people[i]).waiting() ==> people[i].wait_time
            < usize::MAX
}

/// The group after one step of waiting: the waiting members' counters
/// have advanced and nobody else has changed.
pub open spec fn ticked(people: Seq<Person>) -> Seq<Person> {
    people.map_values(
        |person: Person|
            if person.waiting() {
                person.ticked()
            } else {
                person
            },
    )
}

/// The group with every member's counter cleared.
pub open spec fn all_rested(people: Seq<Person>) -> Seq<Person> {
    people.map_values(|person: Person| person.rested())
}

/// The group with the counter of every member who does not wait cleared.
pub open spec fn idle_rested(people: Seq<Person>) -> Seq<Person> {
    people.map_values(
        |person: Person|
            if person.waiting() {
                person
            } else {
                person.rested()
            },
    )
}

/// Filtering one more element either appends it or changes nothing.
pub proof fn lemma_filter_take_step<A>(s: Seq<A>, pred: spec_fn(A) -> bool, i: int)
    requires
        0 <= i < s.len(),
    ensures
        s.take(i + 1).filter(pred) == if pred(s[i]) {
            s.take(i).filter(pred).push(s[i])
        } else {
            s.take(i).filter(pred)
        },
{
    reveal(Seq::filter);
    assert(s.take(i + 1).drop_last() =~= s.take(i));
}

/// Whatever a filter returns satisfies the predicate and comes from the
/// sequence that was filtered.
pub proof fn lemma_filter_members<A>(s: Seq<A>, pred: spec_fn(A) -> bool)
    ensures
        forall|i: int|
            0 <= i < s.filter(pred).len() ==> pred(#[trigger] s.filter(pred)[i]) && s.contains(
                s.filter(pred)[i],
            ),
    decreases s.len(),
{
    reveal(Seq::filter);
    if s.len() > 0 {
        let rest = s.drop_last();
        lemma_filter_members(rest, pred);
        assert forall|i: int| 0 <= i < s.filter(pred).len() implies pred(
            #[trigger] s.filter(pred)[i],
        ) && s.contains(s.filter(pred)[i]) by {
            if i < rest.filter(pred).len() {
                let x = rest.filter(pred)[i];
                assert(rest.contains(x));
                let k = choose|k: int| 0 <= k < rest.len() && rest[k] == x;
                assert(s[k] == x);
            } else {
                assert(s[s.len() - 1] == s.last());
            }
        }
    }
}

/// Draining a group a second time finds nobody: once those that a
/// selection picks are gone, it picks none of the rest.
pub proof fn lemma_second_drain_is_empty(people: Seq<Person>, which: Selection)
    ensures
        selected(unselected(people, which), which) == Seq::<Person>::empty(),
        unselected(unselected(people, which), which) == unselected(people, which),
{
    let rest = unselected(people, which);
    lemma_filter_members(people, which.passed());
    rest.lemma_all_neg_filter_empty(which.picked());
    assert(selected(rest, which) =~= Seq::<Person>::empty());
    lemma_filter_all(rest, which.passed());
}

/// A filter that every member passes changes nothing.
pub proof fn lemma_filter_all<A>(s: Seq<A>, pred: spec_fn(A) -> bool)
    requires
        forall|i: int| 0 <= i < s.len() ==> pred(#[trigger] s[i]),
    ensures
        s.filter(pred) == s,
    decreases s.len(),
{
    reveal(Seq::filter);
    if s.len() > 0 {
        lemma_filter_all(s.drop_last(), pred);
        assert(s.drop_last().push(s.last()) =~= s);
    }
}

/// A group whose counters have all been cleared has no wait on record.
pub proof fn lemma_all_rested_have_no_wait(people: Seq<Person>)
    ensures
        total_wait_time(all_rested(people)) == 0,
    decreases people.len(),
{
    if people.len() > 0 {
        lemma_all_rested_have_no_wait(people.drop_last());
        assert(all_rested(people).drop_last() =~= all_rested(people.drop_last()));
    }
}

/// The wait total of a prefix grows by the counter of the next member.
pub proof fn lemma_total_wait_take_step(people: Seq<Person>, i: int)
    requires
        0 <= i < people.len(),
    ensures
        total_wait_time(people.take(i + 1)) == total_wait_time(people.take(i))
            + people[i].wait_time,
{
    assert(people.take(i + 1).drop_last() =~= people.take(i));
}

/// Removes from `people` the members that `which` picks and returns them.
/// Both the removed and the remaining keep their order, and every member
/// ends up in exactly one of the two groups.
pub fn drain_selected(people: &mut Vec<Person>, which: Selection) -> (taken: Vec<Person>)
    ensures
        taken@ == selected(old(people)@, which),
        final(people)@ == unselected(old(people)@, which),
{
    let ghost before = people@;
    let mut taken: Vec<Person> = Vec::new();
    let n: usize = people.len();
    let mut seen: usize = 0;
    let mut kept: usize = 0;
    proof {
        reveal(Seq::filter);
        assert(before.take(0) =~= Seq::<Person>::empty());
        assert(people@.take(0) =~= Seq::<Person>::empty());
    }
    while seen < n
        invariant
            n == before.len(),
            kept <= seen <= n,
            people@.len() == kept + (n - seen),
            people@.take(kept as int) == before.take(seen as int).filter(which.passed()),
            people@.skip(kept as int) == before.skip(seen as int),
            taken@ == before.take(seen as int).filter(which.picked()),
        decreases n - seen,
    {
        proof {
            lemma_filter_take_step(before, which.picked(), seen as int);
            lemma_filter_take_step(before, which.passed(), seen as int);
            assert(people@[kept as int] == people@.skip(kept as int)[0]);
            assert(before[seen as int] == before.skip(seen as int)[0]);
        }
        let ghost current = people@;
        if which.test(&people[kept]) {
            let person = people.remove(kept);
            taken.push(person);
            proof {
                assert(people@.take(kept as int) =~= current.take(kept as int));
                assert(people@.skip(kept as int) =~= current.skip(kept as int).skip(1));
                assert(before.skip(seen + 1) =~= before.skip(seen as int).skip(1));
            }
        } else {
            proof {
                assert(people@.take(kept + 1) =~= current.take(kept as int).push(
                    current[kept as int],
                ));
                assert(people@.skip(kept + 1) =~= current.skip(kept as int).skip(1));
                assert(before.skip(seen + 1) =~= before.skip(seen as int).skip(1));
            }
            kept = kept + 1;
        }
        seen = seen + 1;
    }
    proof {
        assert(before.take(n as int) =~= before);
        assert(people@.take(kept as int) =~= people@);
    }
    taken
}

/// Whether every waiting member's counter has room for one more step.
pub fn can_increment(people: &Vec<Person>) -> (ok: bool)
    ensures
        ok == can_tick(people@),
{
    let mut i: usize = 0;
    while i < people.len()
        invariant
            i <= people.len(),
            forall|j: int|
                0 <= j < i && (#[trigger] people@[j]).waiting() ==> people@[j].wait_time
                    < usize::MAX,
        decreases people.len() - i,
    {
        if people[i].is_waiting() && people[i].wait_time == usize::MAX {
            return false;
        }
        i = i + 1;
    }
    true
}

/// The sum of the wait counters of the members that `which` picks, and
/// how many members it picks.
pub fn selected_wait(people: &Vec<Person>, which: Selection) -> (tally: (u128, usize))
    ensures
        tally.0 == total_wait_time(selected(people@, which)),
        tally.1 == selected(people@, which).len(),
{
    let mut total: u128 = 0;
    let mut count: usize = 0;
    let mut i: usize = 0;
    proof {
        reveal(Seq::filter);
        assert(people@.take(0) =~= Seq::<Person>::empty());
    }
    while i < people.len()
        invariant
            i <= people.len(),
            count <= i,
            count == selected(people@.take(i as int), which).len(),
            total == total_wait_time(selected(people@.take(i as int), which)),
            total <= i * usize::MAX,
        decreases people.len() - i,
    {
        proof {
            lemma_filter_take_step(people@, which.picked(), i as int);
            let before = selected(people@.take(i as int), which);
            assert(before.push(people@[i as int]).drop_last() =~= before);
            assert((i + 1) * usize::MAX <= u128::MAX) by (nonlinear_arith)
                requires
                    0 <= i < usize::MAX,
                    usize::MAX <= u64::MAX,
            ;
            assert((i + 1) * usize::MAX == i * usize::MAX + usize::MAX) by (nonlinear_arith);
        }
        if which.test(&people[i]) {
            total = total + people[i].wait_time as u128;
            count = count + 1;
        }
        i = i + 1;
    }
    assert(people@.take(i as int) =~= people@);
    (total, count)
}

/// A group of occupants: the capability shared by a floor, a car and a
/// plain list of people in transit.
pub trait People {
    /// The occupants, in the order the group holds them.
    spec fn occupants(&self) -> Seq<Person>;

    /// The destination floor of each occupant, in order and with repeats.
    fn get_dest_floors(&self) -> (floors: Vec<usize>)
        ensures
            floors@ == dest_floors(self.occupants()),
    ;

    /// How many occupants there are.
    fn get_num_people(&self) -> (count: usize)
        ensures
            count == self.occupants().len(),
    ;

    /// How many occupants wait for a car.
    fn get_num_people_waiting(&self) -> (count: usize)
        ensures
            count == selected(self.occupants(), Selection::Waiting).len(),
    ;

    /// The sum of the occupants' wait counters.
    fn get_aggregate_wait_time(&self) -> (total: u128)
        ensures
            total == total_wait_time(self.occupants()),
    ;

    /// Whether some occupant is bound for `floor_index`.
    fn are_people_going_to_floor(&self, floor_index: usize) -> (going: bool)
        ensures
            going == anyone_going_to(self.occupants(), floor_index),
    ;

    /// Whether some occupant waits for a car.
    fn are_people_waiting(&self) -> (waiting: bool)
        ensures
            waiting == anyone_waiting(self.occupants()),
    ;

    /// Counts one more step for every occupant who waits.
    fn increment_wait_times(&mut self)
        requires
            can_tick(old(self).occupants()),
        ensures
            final(self).occupants() == ticked(old(self).occupants()),
    ;

    /// The occupants as a reset of wait counters leaves them. Which
    /// counters a reset clears depends on the kind of group: a plain list
    /// clears them all, a floor those of the people who do not wait, and
    /// a car none, as nobody's ride has ended while aboard.
    spec fn after_reset(&self) -> Seq<Person>;

    /// Clears wait counters, as the kind of group has it.
    fn reset_wait_times(&mut self)
        ensures
            final(self).occupants() == old(self).after_reset(),
    ;
}

impl People for Vec<Person> {
    open spec fn occupants(&self) -> Seq<Person> {
        self@
    }

    open spec fn after_reset(&self) -> Seq<Person> {
        all_rested(self@)
    }

    fn get_dest_floors(&self) -> (floors: Vec<usize>) {
        let mut floors: Vec<usize> = Vec::new();
        let mut i: usize = 0;
        while i < self.len()
            invariant
                i <= self.len(),
                floors@ == dest_floors(self@.take(i as int)),
            decreases self.len() - i,
        {
            floors.push(self[i].floor_to);
            i = i + 1;
            assert(floors@ =~= dest_floors(self@.take(i as int)));
        }
        assert(self@.take(i as int) =~= self@);
        floors
    }

    fn get_num_people(&self) -> (count: usize) {
        self.len()
    }

    fn get_num_people_waiting(&self) -> (count: usize) {
        let mut count: usize = 0;
        let mut i: usize = 0;
        proof {
            reveal(Seq::filter);
            assert(self@.take(0) =~= Seq::<Person>::empty());
        }
        while i < self.len()
            invariant
                i <= self.len(),
                count <= i,
                count == selected(self@.take(i as int), Selection::Waiting).len(),
            decreases self.len() - i,
        {
            proof {
                lemma_filter_take_step(self@, Selection::Waiting.picked(), i as int);
            }
            if self[i].is_waiting() {
                count = count + 1;
            }
            i = i + 1;
        }
        assert(self@.take(i as int) =~= self@);
        count
    }

    fn get_aggregate_wait_time(&self) -> (total: u128) {
        let mut total: u128 = 0;
        let mut i: usize = 0;
        assert(self@.take(0) =~= Seq::<Person>::empty());
        while i < self.len()
            invariant
                i <= self.len(),
                total == total_wait_time(self@.take(i as int)),
                total <= i * usize::MAX,
            decreases self.len() - i,
        {
            proof {
                lemma_total_wait_take_step(self@, i as int);
                assert((i + 1) * usize::MAX <= u128::MAX) by (nonlinear_arith)
                    requires
                        0 <= i < usize::MAX,
                        usize::MAX <= u64::MAX,
                ;
                assert((i + 1) * usize::MAX == i * usize::MAX + usize::MAX) by (nonlinear_arith);
            }
            total = total + self[i].wait_time as u128;
            i = i + 1;
        }
        assert(self@.take(i as int) =~= self@);
        total
    }

    fn are_people_going_to_floor(&self, floor_index: usize) -> (going: bool) {
        let mut i: usize = 0;
        while i < self.len()
            invariant
                i <= self.len(),
                forall|j: int| 0 <= j < i ==> (#[trigger] self@[j]).floor_to != floor_index,
            decreases self.len() - i,
        {
            if self[i].floor_to == floor_index {
                return true;
            }
            i = i + 1;
        }
        false
    }

    fn are_people_waiting(&self) -> (waiting: bool) {
        let mut i: usize = 0;
        while i < self.len()
            invariant
                i <= self.len(),
                forall|j: int| 0 <= j < i ==> !(#[trigger] self@[j]).waiting(),
            decreases self.len() - i,
        {
            if self[i].is_waiting() {
                return true;
            }
            i = i + 1;
        }
        false
    }

    fn increment_wait_times(&mut self) {
        let ghost before = self@;
        let n: usize = self.len();
        let mut i: usize = 0;
        while i < n
            invariant
                i <= n,
                n == before.len(),
                self@.len() == n,
                can_tick(before),
                forall|j: int| 0 <= j < i ==> #[trigger] self@[j] == ticked(before)[j],
                forall|j: int| i <= j < n ==> #[trigger] self@[j] == before[j],
            decreases n - i,
        {
            if self[i].is_waiting() {
                self[i].increment_wait_time();
            }
            i = i + 1;
        }
        assert(self@ =~= ticked(before));
    }

    /// Clears every member's counter and changes nothing else.
    fn reset_wait_times(&mut self)
        ensures
            final(self)@.len() == old(self)@.len(),
            forall|i: int|
                0 <= i < old(self)@.len() ==> #[trigger] final(self)@[i] == old(self)@[i].rested(),
            total_wait_time(final(self)@) == 0,
    {
        let ghost before = self@;
        let n: usize = self.len();
        let mut i: usize = 0;
        while i < n
            invariant
                i <= n,
                n == before.len(),
                self@.len() == n,
                forall|j: int| 0 <= j < i ==> #[trigger] self@[j] == before[j].rested(),
                forall|j: int| i <= j < n ==> #[trigger] self@[j] == before[j],
            decreases n - i,
        {
            self[i].reset_wait_time();
            i = i + 1;
        }
        assert(self@ =~= all_rested(before));
        proof {
            lemma_all_rested_have_no_wait(before);
        }
    }
}

} // verus!
