//! Who is in the building, whatever floor or car they are in: the measure
//! by which an exchange between cars and floors is seen to move people
//! without losing or doubling anyone.

use crate::building::{alighted, Crowd};
use crate::elevator::{boarded, carried_to, Elevator};
use crate::people::{lemma_filter_members, selected, unselected, Selection};
use crate::person::Person;
use vstd::multiset::Multiset;
use vstd::prelude::*;
use vstd::seq_lib::{lemma_multiset_commutative, to_multiset_build};

verus! {

/// The members of a group, each reduced to what identifies it, as a
/// multiset: the group without its order and without what changes as its
/// members are carried about.
pub open spec fn identities(people: Seq<Person>) -> Multiset<Person> {
    people.map_values(|person: Person| person.identity()).to_multiset()
}

/// Everybody in the first `n` of the given groups.
pub open spec fn gathered(groups: Seq<Seq<Person>>, n: nat) -> Multiset<Person>
    decreases n,
{
    if n == 0 {
        Multiset::empty()
    } else {
        gathered(groups, (n - 1) as nat).add(identities(groups[n - 1]))
    }
}

impl Crowd {
    /// Everybody in the building, on the floors and in the cars.
    pub open spec fn population(self) -> Multiset<Person> {
        gathered(self.floors, self.floors.len()).add(gathered(self.cars, self.cars.len()))
    }
}

/// The members of two groups put together are the members of the one
/// and the members of the other.
pub proof fn lemma_identities_of_joined(a: Seq<Person>, b: Seq<Person>)
    ensures
        identities(a + b) == identities(a).add(identities(b)),
{
    let id = |person: Person| person.identity();
    assert((a + b).map_values(id) =~= a.map_values(id) + b.map_values(id));
    lemma_multiset_commutative(a.map_values(id), b.map_values(id));
}

/// Getting on or off a car does not change who somebody is.
pub proof fn lemma_identities_of_moved(people: Seq<Person>)
    ensures
        identities(boarded(people)) == identities(people),
        identities(alighted(people)) == identities(people),
{
    let id = |person: Person| person.identity();
    assert(boarded(people).map_values(id) =~= people.map_values(id));
    assert(alighted(people).map_values(id) =~= people.map_values(id));
}

/// A selection splits a group in two: everybody is either picked or
/// passed over, and nobody is both.
pub proof fn lemma_selection_splits(people: Seq<Person>, which: Selection)
    ensures
        identities(selected(people, which)).add(identities(unselected(people, which)))
            == identities(people),
        selected(people, which).len() + unselected(people, which).len() == people.len(),
    decreases people.len(),
{
    reveal(Seq::filter);
    let id = |person: Person| person.identity();
    if people.len() == 0 {
        let nobody = people.map_values(id);
        nobody.to_multiset_ensures();
        vstd::multiset::lemma_multiset_empty_len(nobody.to_multiset());
        assert(identities(people).add(identities(people)) =~= identities(people));
    } else {
        let rest = people.drop_last();
        let last = people.last();
        lemma_selection_splits(rest, which);
        assert(people =~= rest.push(last));
        assert(people.map_values(id) =~= rest.map_values(id).push(last.identity()));
        to_multiset_build(rest.map_values(id), last.identity());
        if which.holds(last) {
            let picked = selected(rest, which);
            assert(selected(people, which) == picked.push(last));
            assert(picked.push(last).map_values(id) =~= picked.map_values(id).push(
                last.identity(),
            ));
            to_multiset_build(picked.map_values(id), last.identity());
            assert(identities(selected(people, which)).add(identities(unselected(people, which)))
                =~= identities(people));
        } else {
            let passed = unselected(rest, which);
            assert(unselected(people, which) == passed.push(last));
            assert(passed.push(last).map_values(id) =~= passed.map_values(id).push(
                last.identity(),
            ));
            to_multiset_build(passed.map_values(id), last.identity());
            assert(identities(selected(people, which)).add(identities(unselected(people, which)))
                =~= identities(people));
        }
    }
}

/// Replacing one group changes the gathering by exactly that group.
pub proof fn lemma_gathered_update(groups: Seq<Seq<Person>>, at: int, group: Seq<Person>, n: nat)
    requires
        0 <= at < n <= groups.len(),
    ensures
        gathered(groups.update(at, group), n).add(identities(groups[at])) == gathered(
            groups,
            n,
        ).add(identities(group)),
    decreases n,
{
    let changed = groups.update(at, group);
    if at == n - 1 {
        lemma_gathered_same(groups, changed, (n - 1) as nat);
        assert(gathered(changed, n).add(identities(groups[at])) =~= gathered(groups, n).add(
            identities(group),
        ));
    } else {
        lemma_gathered_update(groups, at, group, (n - 1) as nat);
        assert(changed[n - 1] == groups[n - 1]);
        assert(gathered(changed, n).add(identities(groups[at])) =~= gathered(
            changed,
            (n - 1) as nat,
        ).add(identities(groups[at])).add(identities(groups[n - 1])));
        assert(gathered(groups, n).add(identities(group)) =~= gathered(groups, (n - 1) as nat).add(
            identities(group),
        ).add(identities(groups[n - 1])));
    }
}

/// Groups that agree on their first `n` members gather the same people.
pub proof fn lemma_gathered_same(a: Seq<Seq<Person>>, b: Seq<Seq<Person>>, n: nat)
    requires
        n <= a.len(),
        n <= b.len(),
        forall|i: int| 0 <= i < n ==> a[i] == b[i],
    ensures
        gathered(a, n) == gathered(b, n),
    decreases n,
{
    if n > 0 {
        lemma_gathered_same(a, b, (n - 1) as nat);
    }
}

/// The exchange between a car and a floor moves people and neither loses
/// nor doubles anyone: everybody who was in the building is in it
/// afterwards, on one floor or in one car, as often as before.
pub proof fn lemma_transfer_keeps_everybody(crowd: Crowd, floor: int, car: int)
    requires
        0 <= floor < crowd.floors.len(),
        0 <= car < crowd.cars.len(),
    ensures
        crowd.transfer(floor, car).population() == crowd.population(),
{
    let after = crowd.transfer(floor, car);
    let standing = crowd.floors[floor];
    let aboard = crowd.cars[car];
    let off = selected(aboard, Selection::Arrived);
    let on = selected(standing, Selection::Waiting);
    let stay = unselected(standing, Selection::Waiting);
    let ride = unselected(aboard, Selection::Arrived);
    lemma_gathered_update(crowd.floors, floor, stay + alighted(off), crowd.floors.len());
    lemma_gathered_update(crowd.cars, car, ride + boarded(on), crowd.cars.len());
    lemma_identities_of_joined(stay, alighted(off));
    lemma_identities_of_joined(ride, boarded(on));
    lemma_identities_of_moved(off);
    lemma_identities_of_moved(on);
    lemma_selection_splits(standing, Selection::Waiting);
    lemma_selection_splits(aboard, Selection::Arrived);
    let f0 = gathered(crowd.floors, crowd.floors.len());
    let f1 = gathered(after.floors, after.floors.len());
    let c0 = gathered(crowd.cars, crowd.cars.len());
    let c1 = gathered(after.cars, after.cars.len());
    assert(f1.add(identities(standing)) == f0.add(identities(stay).add(identities(off))));
    assert(c1.add(identities(aboard)) == c0.add(identities(ride).add(identities(on))));
    assert forall|person: Person| f1.add(c1).count(person) == f0.add(c0).count(person) by {
        assert(f1.add(identities(standing)).count(person) == f0.add(
            identities(stay).add(identities(off)),
        ).count(person));
        assert(c1.add(identities(aboard)).count(person) == c0.add(
            identities(ride).add(identities(on)),
        ).count(person));
        assert(identities(on).add(identities(stay)).count(person) == identities(standing).count(
            person,
        ));
        assert(identities(off).add(identities(ride)).count(person) == identities(aboard).count(
            person,
        ));
    }
    assert(f1.add(c1) =~= f0.add(c0));
}

/// The egress at the ground floor removes those who have decided to
/// leave and nobody else.
pub proof fn lemma_egress_removes_leavers(crowd: Crowd)
    requires
        crowd.floors.len() > 0,
    ensures
        crowd.egress().population().add(identities(selected(crowd.floors[0], Selection::Leaving)))
            == crowd.population(),
{
    let after = crowd.egress();
    let ground = crowd.floors[0];
    let gone = selected(ground, Selection::Leaving);
    let stay = unselected(ground, Selection::Leaving);
    lemma_gathered_update(crowd.floors, 0, stay, crowd.floors.len());
    lemma_selection_splits(ground, Selection::Leaving);
    let f0 = gathered(crowd.floors, crowd.floors.len());
    let f1 = gathered(after.floors, after.floors.len());
    let c = gathered(crowd.cars, crowd.cars.len());
    assert forall|person: Person|
        f1.add(c).add(identities(gone)).count(person) == f0.add(c).count(person) by {
        assert(f1.add(identities(ground)).count(person) == f0.add(identities(stay)).count(person));
        assert(identities(gone).add(identities(stay)).count(person) == identities(ground).count(
            person,
        ));
    }
    assert(f1.add(c).add(identities(gone)) =~= f0.add(c));
}

/// A ride from floor to floor does not change who is aboard.
pub proof fn lemma_identities_of_carried(people: Seq<Person>, floor: usize)
    ensures
        identities(carried_to(people, floor)) == identities(people),
{
    let id = |person: Person| person.identity();
    assert(carried_to(people, floor).map_values(id) =~= people.map_values(id));
}

/// The exchange at one car loses nobody but those who leave the building
/// at the ground floor: everybody in the building afterwards was in it
/// before, and unless the car stands at the ground floor, everybody who
/// was in it before still is.
pub proof fn lemma_exchange_at_keeps_everybody(crowd: Crowd, cars: Seq<Elevator>, c: int)
    requires
        crowd.floors.len() > 0,
        crowd.cars.len() == cars.len(),
        0 <= c < cars.len(),
        cars[c].floor_on < crowd.floors.len(),
    ensures
        crowd.exchange_at(cars, c).floors.len() == crowd.floors.len(),
        crowd.exchange_at(cars, c).cars.len() == crowd.cars.len(),
        crowd.exchange_at(cars, c).population().subset_of(crowd.population()),
        !(cars[c].stopped && cars[c].floor_on == 0) ==> crowd.exchange_at(cars, c).population()
            == crowd.population(),
{
    if cars[c].stopped {
        let floor = cars[c].floor_on as int;
        lemma_transfer_keeps_everybody(crowd, floor, c);
        if floor == 0 {
            let moved = crowd.transfer(0, c);
            lemma_egress_removes_leavers(moved);
            let gone = identities(selected(moved.floors[0], Selection::Leaving));
            assert forall|person: Person|
                moved.egress().population().count(person) <= crowd.population().count(
                    person,
                ) by {
                assert(moved.egress().population().add(gone).count(person)
                    == crowd.population().count(person));
            }
        }
    }
}

/// The exchange at all cars loses nobody but those who leave the
/// building at the ground floor.
pub proof fn lemma_exchange_keeps_everybody(crowd: Crowd, cars: Seq<Elevator>, n: nat)
    requires
        crowd.floors.len() > 0,
        crowd.cars.len() == cars.len(),
        n <= cars.len(),
        forall|c: int| 0 <= c < cars.len() ==> (#[trigger] cars[c]).floor_on < crowd.floors.len(),
    ensures
        crowd.exchange_through(cars, n).floors.len() == crowd.floors.len(),
        crowd.exchange_through(cars, n).cars.len() == crowd.cars.len(),
        crowd.exchange_through(cars, n).population().subset_of(crowd.population()),
    decreases n,
{
    if n > 0 {
        let before = crowd.exchange_through(cars, (n - 1) as nat);
        lemma_exchange_keeps_everybody(crowd, cars, (n - 1) as nat);
        lemma_exchange_at_keeps_everybody(before, cars, n - 1);
        let after = before.exchange_at(cars, n - 1);
        assert forall|person: Person|
            after.population().count(person) <= crowd.population().count(person) by {
            assert(after.population().count(person) <= before.population().count(person));
            assert(before.population().count(person) <= crowd.population().count(person));
        }
    }
}

/// Whether `rule` holds of `person` at position `at`.
pub open spec fn holds_at(rule: spec_fn(int, Person) -> bool, at: int, person: Person) -> bool {
    rule(at, person)
}

/// Whether `rule` holds of everybody in every group, each at the
/// position of its group.
pub open spec fn holds_throughout(groups: Seq<Seq<Person>>, rule: spec_fn(int, Person) -> bool) -> bool {
    forall|i: int, j: int|
        0 <= i < groups.len() && 0 <= j < groups[i].len() ==> holds_at(
            rule,
            i,
            #[trigger] groups[i][j],
        )
}

/// Whether a rule for people on floors and a rule for people in cars
/// carry over when people change between a car and the floor it is at:
/// who gets off a car where it has arrived meets the floor's rule, and
/// who boards from the car's floor while waiting meets the car's rule.
pub open spec fn carry_over(
    cars: Seq<Elevator>,
    floor_rule: spec_fn(int, Person) -> bool,
    car_rule: spec_fn(int, Person) -> bool,
) -> bool {
    &&& forall|c: int, person: Person|
        0 <= c < cars.len() && #[trigger] holds_at(car_rule, c, person) && person.arrived()
            ==> holds_at(floor_rule, cars[c].floor_on as int, person.rested().landed())
    &&& forall|c: int, person: Person|
        0 <= c < cars.len() && holds_at(floor_rule, cars[c].floor_on as int, person)
            && person.waiting() ==> #[trigger] holds_at(car_rule, c, person.boarded())
}

/// Whatever holds of everybody where they are, and carries over when
/// people get on and off, holds after the transfer between a car and
/// the floor it is at.
pub proof fn lemma_transfer_keeps_rules(
    crowd: Crowd,
    cars: Seq<Elevator>,
    c: int,
    floor_rule: spec_fn(int, Person) -> bool,
    car_rule: spec_fn(int, Person) -> bool,
)
    requires
        crowd.cars.len() == cars.len(),
        0 <= c < cars.len(),
        cars[c].floor_on < crowd.floors.len(),
        holds_throughout(crowd.floors, floor_rule),
        holds_throughout(crowd.cars, car_rule),
        carry_over(cars, floor_rule, car_rule),
    ensures
        holds_throughout(crowd.transfer(cars[c].floor_on as int, c).floors, floor_rule),
        holds_throughout(crowd.transfer(cars[c].floor_on as int, c).cars, car_rule),
{
    let f = cars[c].floor_on as int;
    let standing = crowd.floors[f];
    let aboard = crowd.cars[c];
    let off = selected(aboard, Selection::Arrived);
    let on = selected(standing, Selection::Waiting);
    let stay = unselected(standing, Selection::Waiting);
    let ride = unselected(aboard, Selection::Arrived);
    let moved = crowd.transfer(f, c);
    lemma_filter_members(aboard, Selection::Arrived.picked());
    lemma_filter_members(aboard, Selection::Arrived.passed());
    lemma_filter_members(standing, Selection::Waiting.picked());
    lemma_filter_members(standing, Selection::Waiting.passed());
    assert forall|i: int, j: int|
        0 <= i < moved.floors.len() && 0 <= j < moved.floors[i].len() implies holds_at(
        floor_rule,
        i,
        #[trigger] moved.floors[i][j],
    ) by {
        if i == f {
            if j < stay.len() {
                let x = stay[j];
                assert(moved.floors[i][j] == x);
                let k = choose|k: int| 0 <= k < standing.len() && standing[k] == x;
                assert(holds_at(floor_rule, f, crowd.floors[f][k]));
            } else {
                let x = off[j - stay.len()];
                assert(moved.floors[i][j] == x.rested().landed());
                let k = choose|k: int| 0 <= k < aboard.len() && aboard[k] == x;
                assert(holds_at(car_rule, c, crowd.cars[c][k]));
            }
        } else {
            assert(holds_at(floor_rule, i, crowd.floors[i][j]));
        }
    }
    assert forall|i: int, j: int|
        0 <= i < moved.cars.len() && 0 <= j < moved.cars[i].len() implies holds_at(
        car_rule,
        i,
        #[trigger] moved.cars[i][j],
    ) by {
        if i == c {
            if j < ride.len() {
                let x = ride[j];
                assert(moved.cars[i][j] == x);
                let k = choose|k: int| 0 <= k < aboard.len() && aboard[k] == x;
                assert(holds_at(car_rule, c, crowd.cars[c][k]));
            } else {
                let x = on[j - ride.len()];
                assert(moved.cars[i][j] == x.boarded());
                let k = choose|k: int| 0 <= k < standing.len() && standing[k] == x;
                assert(holds_at(floor_rule, f, crowd.floors[f][k]));
            }
        } else {
            assert(holds_at(car_rule, i, crowd.cars[i][j]));
        }
    }
}

/// Whatever holds of everybody where they are, and carries over when
/// people get on and off, holds after the exchange at one car.
pub proof fn lemma_exchange_at_keeps_rules(
    crowd: Crowd,
    cars: Seq<Elevator>,
    c: int,
    floor_rule: spec_fn(int, Person) -> bool,
    car_rule: spec_fn(int, Person) -> bool,
)
    requires
        crowd.floors.len() > 0,
        crowd.cars.len() == cars.len(),
        0 <= c < cars.len(),
        cars[c].floor_on < crowd.floors.len(),
        holds_throughout(crowd.floors, floor_rule),
        holds_throughout(crowd.cars, car_rule),
        carry_over(cars, floor_rule, car_rule),
    ensures
        holds_throughout(crowd.exchange_at(cars, c).floors, floor_rule),
        holds_throughout(crowd.exchange_at(cars, c).cars, car_rule),
{
    if cars[c].stopped {
        let f = cars[c].floor_on as int;
        let moved = crowd.transfer(f, c);
        lemma_transfer_keeps_rules(crowd, cars, c, floor_rule, car_rule);
        if f == 0 {
            let ground = moved.floors[0];
            let left = moved.egress();
            lemma_filter_members(ground, Selection::Leaving.passed());
            assert forall|i: int, j: int|
                0 <= i < left.floors.len() && 0 <= j < left.floors[i].len() implies holds_at(
                floor_rule,
                i,
                #[trigger] left.floors[i][j],
            ) by {
                if i == 0 {
                    let x = left.floors[0][j];
                    let k = choose|k: int| 0 <= k < ground.len() && ground[k] == x;
                    assert(holds_at(floor_rule, 0, moved.floors[0][k]));
                } else {
                    assert(holds_at(floor_rule, i, moved.floors[i][j]));
                }
            }
        }
    }
}

/// Whatever holds of everybody where they are, and carries over when
/// people get on and off, holds after the exchange at all cars.
pub proof fn lemma_exchange_keeps_rules(
    crowd: Crowd,
    cars: Seq<Elevator>,
    n: nat,
    floor_rule: spec_fn(int, Person) -> bool,
    car_rule: spec_fn(int, Person) -> bool,
)
    requires
        crowd.floors.len() > 0,
        crowd.cars.len() == cars.len(),
        n <= cars.len(),
        forall|c: int| 0 <= c < cars.len() ==> (#[trigger] cars[c]).floor_on < crowd.floors.len(),
        holds_throughout(crowd.floors, floor_rule),
        holds_throughout(crowd.cars, car_rule),
        carry_over(cars, floor_rule, car_rule),
    ensures
        holds_throughout(crowd.exchange_through(cars, n).floors, floor_rule),
        holds_throughout(crowd.exchange_through(cars, n).cars, car_rule),
    decreases n,
{
    if n > 0 {
        lemma_exchange_keeps_rules(crowd, cars, (n - 1) as nat, floor_rule, car_rule);
        lemma_exchange_keeps_everybody(crowd, cars, (n - 1) as nat);
        lemma_exchange_at_keeps_rules(
            crowd.exchange_through(cars, (n - 1) as nat),
            cars,
            n - 1,
            floor_rule,
            car_rule,
        );
    }
}

/// Whether everybody in the crowd is where its group is: those on a
/// floor stand on that floor and do not ride, those in a car ride and are
/// at the floor of their car.
pub open spec fn everybody_in_place(crowd: Crowd, cars: Seq<Elevator>) -> bool {
    &&& forall|i: int, j: int|
        0 <= i < crowd.floors.len() && 0 <= j < crowd.floors[i].len() ==> {
            let person = #[trigger] crowd.floors[i][j];
            person.floor_on == i && !person.riding
        }
    &&& forall|c: int, j: int|
        0 <= c < crowd.cars.len() && 0 <= j < crowd.cars[c].len() ==> {
            let person = #[trigger] crowd.cars[c][j];
            person.floor_on == cars[c].floor_on && person.riding
        }
}

/// The exchange leaves everybody in place: newly boarded riders are at
/// the floor of their car, and those who got off stand on the floor
/// where they got off.
pub proof fn lemma_exchange_keeps_places(crowd: Crowd, cars: Seq<Elevator>, n: nat)
    requires
        crowd.floors.len() > 0,
        crowd.cars.len() == cars.len(),
        n <= cars.len(),
        forall|c: int| 0 <= c < cars.len() ==> (#[trigger] cars[c]).floor_on < crowd.floors.len(),
        everybody_in_place(crowd, cars),
    ensures
        everybody_in_place(crowd.exchange_through(cars, n), cars),
{
    let floor_rule = |i: int, person: Person| person.floor_on == i && !person.riding;
    let car_rule = |c: int, person: Person|
        0 <= c < cars.len() && person.floor_on == cars[c].floor_on && person.riding;
    assert(holds_throughout(crowd.floors, floor_rule)) by {
        assert forall|i: int, j: int|
            0 <= i < crowd.floors.len() && 0 <= j < crowd.floors[i].len() implies holds_at(
            floor_rule,
            i,
            #[trigger] crowd.floors[i][j],
        ) by {}
    }
    assert(holds_throughout(crowd.cars, car_rule)) by {
        assert forall|c: int, j: int|
            0 <= c < crowd.cars.len() && 0 <= j < crowd.cars[c].len() implies holds_at(
            car_rule,
            c,
            #[trigger] crowd.cars[c][j],
        ) by {}
    }
    assert(carry_over(cars, floor_rule, car_rule)) by {
        assert forall|c: int, person: Person|
            0 <= c < cars.len() && #[trigger] holds_at(car_rule, c, person)
                && person.arrived() implies holds_at(
            floor_rule,
            cars[c].floor_on as int,
            person.rested().landed(),
        ) by {}
        assert forall|c: int, person: Person|
            0 <= c < cars.len() && holds_at(floor_rule, cars[c].floor_on as int, person)
                && person.waiting() implies #[trigger] holds_at(car_rule, c, person.boarded()) by {}
    }
    lemma_exchange_keeps_rules(crowd, cars, n, floor_rule, car_rule);
    lemma_exchange_keeps_everybody(crowd, cars, n);
    let after = crowd.exchange_through(cars, n);
    assert forall|i: int, j: int|
        0 <= i < after.floors.len() && 0 <= j < after.floors[i].len() implies {
        let person = #[trigger] after.floors[i][j];
        person.floor_on == i && !person.riding
    } by {
        assert(holds_at(floor_rule, i, after.floors[i][j]));
    }
    assert forall|c: int, j: int| 0 <= c < after.cars.len() && 0 <= j < after.cars[c].len() implies {
        let person = #[trigger] after.cars[c][j];
        person.floor_on == cars[c].floor_on && person.riding
    } by {
        assert(holds_at(car_rule, c, after.cars[c][j]));
    }
}

/// Whether nobody in the crowd has decided to leave the building.
pub open spec fn nobody_leaving(crowd: Crowd) -> bool {
    &&& forall|i: int, j: int|
        0 <= i < crowd.floors.len() && 0 <= j < crowd.floors[i].len() ==> !(
        #[trigger] crowd.floors[i][j]).is_leaving
    &&& forall|c: int, j: int|
        0 <= c < crowd.cars.len() && 0 <= j < crowd.cars[c].len() ==> !(
        #[trigger] crowd.cars[c][j]).is_leaving
}

/// While nobody is leaving the building, the exchange loses nobody and
/// makes nobody up: everybody is afterwards on one floor or in one car,
/// as often as before.
pub proof fn lemma_exchange_keeps_everybody_who_stays(crowd: Crowd, cars: Seq<Elevator>, n: nat)
    requires
        crowd.floors.len() > 0,
        crowd.cars.len() == cars.len(),
        n <= cars.len(),
        forall|c: int| 0 <= c < cars.len() ==> (#[trigger] cars[c]).floor_on < crowd.floors.len(),
        nobody_leaving(crowd),
    ensures
        crowd.exchange_through(cars, n).population() == crowd.population(),
        nobody_leaving(crowd.exchange_through(cars, n)),
    decreases n,
{
    let floor_rule = |i: int, person: Person| !person.is_leaving;
    let car_rule = |c: int, person: Person| !person.is_leaving;
    assert(holds_throughout(crowd.floors, floor_rule)) by {
        assert forall|i: int, j: int|
            0 <= i < crowd.floors.len() && 0 <= j < crowd.floors[i].len() implies holds_at(
            floor_rule,
            i,
            #[trigger] crowd.floors[i][j],
        ) by {}
    }
    assert(holds_throughout(crowd.cars, car_rule)) by {
        assert forall|c: int, j: int|
            0 <= c < crowd.cars.len() && 0 <= j < crowd.cars[c].len() implies holds_at(
            car_rule,
            c,
            #[trigger] crowd.cars[c][j],
        ) by {}
    }
    assert(carry_over(cars, floor_rule, car_rule)) by {
        assert forall|c: int, person: Person|
            0 <= c < cars.len() && #[trigger] holds_at(car_rule, c, person)
                && person.arrived() implies holds_at(
            floor_rule,
            cars[c].floor_on as int,
            person.rested().landed(),
        ) by {}
        assert forall|c: int, person: Person|
            0 <= c < cars.len() && holds_at(floor_rule, cars[c].floor_on as int, person)
                && person.waiting() implies #[trigger] holds_at(car_rule, c, person.boarded()) by {}
    }
    lemma_exchange_keeps_rules(crowd, cars, n, floor_rule, car_rule);
    lemma_exchange_keeps_everybody(crowd, cars, n);
    let after = crowd.exchange_through(cars, n);
    assert(nobody_leaving(after)) by {
        assert forall|i: int, j: int|
            0 <= i < after.floors.len() && 0 <= j < after.floors[i].len() implies !(
        #[trigger] after.floors[i][j]).is_leaving by {
            assert(holds_at(floor_rule, i, after.floors[i][j]));
        }
        assert forall|c: int, j: int|
            0 <= c < after.cars.len() && 0 <= j < after.cars[c].len() implies !(
        #[trigger] after.cars[c][j]).is_leaving by {
            assert(holds_at(car_rule, c, after.cars[c][j]));
        }
    }
    if n > 0 {
        let before = crowd.exchange_through(cars, (n - 1) as nat);
        lemma_exchange_keeps_everybody_who_stays(crowd, cars, (n - 1) as nat);
        lemma_exchange_keeps_everybody(crowd, cars, (n - 1) as nat);
        let c = n - 1;
        if cars[c].stopped {
            let f = cars[c].floor_on as int;
            lemma_transfer_keeps_everybody(before, f, c);
            if f == 0 {
                let moved = before.transfer(0, c);
                lemma_exchange_keeps_rules(crowd, cars, (n - 1) as nat, floor_rule, car_rule);
                lemma_egress_removes_leavers(moved);
                let gone = selected(moved.floors[0], Selection::Leaving);
                lemma_filter_members(moved.floors[0], Selection::Leaving.picked());
                assert(gone.len() == 0) by {
                    if gone.len() > 0 {
                        let x = gone[0];
                        assert(x.is_leaving);
                        let k = choose|k: int| 0 <= k < moved.floors[0].len() && moved.floors[0][k]
                            == x;
                        lemma_transfer_keeps_rules(before, cars, c, floor_rule, car_rule);
                        assert(holds_at(floor_rule, 0, moved.floors[0][k]));
                    }
                }
                assert(identities(gone) =~= Multiset::<Person>::empty()) by {
                    let nobody = gone.map_values(|person: Person| person.identity());
                    nobody.to_multiset_ensures();
                    vstd::multiset::lemma_multiset_empty_len(nobody.to_multiset());
                }
                assert(moved.egress().population() =~= moved.population());
            }
        }
    }
}

/// The exchange at the first `k` cars leaves the riders of the other
/// cars alone, and neither adds nor removes a floor or a car.
pub proof fn lemma_exchange_leaves_later_cars(crowd: Crowd, cars: Seq<Elevator>, k: nat)
    requires
        crowd.cars.len() == cars.len(),
        k <= cars.len(),
        forall|c: int| 0 <= c < cars.len() ==> (#[trigger] cars[c]).floor_on < crowd.floors.len(),
    ensures
        crowd.exchange_through(cars, k).floors.len() == crowd.floors.len(),
        crowd.exchange_through(cars, k).cars.len() == crowd.cars.len(),
        forall|c: int|
            k <= c < cars.len() ==> #[trigger] crowd.exchange_through(cars, k).cars[c]
                == crowd.cars[c],
    decreases k,
{
    if k > 0 {
        lemma_exchange_leaves_later_cars(crowd, cars, (k - 1) as nat);
    }
}

/// Whoever stands on a floor without waiting for a car stays there
/// through the exchange at any car, unless it leaves the building at the
/// ground floor.
pub proof fn lemma_exchange_at_keeps_idle(
    crowd: Crowd,
    cars: Seq<Elevator>,
    c: int,
    floor: int,
    person: Person,
)
    requires
        crowd.cars.len() == cars.len(),
        0 <= c < cars.len(),
        cars[c].floor_on < crowd.floors.len(),
        0 <= floor < crowd.floors.len(),
        crowd.floors[floor].contains(person),
        !person.waiting(),
        !(floor == 0 && person.is_leaving),
    ensures
        crowd.exchange_at(cars, c).floors[floor].contains(person),
{
    if cars[c].stopped {
        let f = cars[c].floor_on as int;
        let moved = crowd.transfer(f, c);
        let k = choose|k: int| 0 <= k < crowd.floors[floor].len() && crowd.floors[floor][k] == person;
        if f == floor {
            let standing = crowd.floors[f];
            let stay = unselected(standing, Selection::Waiting);
            standing.lemma_filter_contains(Selection::Waiting.passed(), k);
            let m = choose|m: int| 0 <= m < stay.len() && stay[m] == person;
            assert(moved.floors[f][m] == person);
        } else {
            assert(moved.floors[floor][k] == person);
        }
        assert(moved.floors[floor].contains(person));
        if f == 0 {
            if floor == 0 {
                let ground = moved.floors[0];
                let g = choose|g: int| 0 <= g < ground.len() && ground[g] == person;
                ground.lemma_filter_contains(Selection::Leaving.passed(), g);
            } else {
                let g = choose|g: int| 0 <= g < moved.floors[floor].len() && moved.floors[floor][g]
                    == person;
                assert(moved.egress().floors[floor][g] == person);
            }
        }
    }
}

/// A rider who has arrived where its car stands is let off by the
/// exchange at that car: nobody left aboard has arrived, and unless the
/// rider leaves the building at the ground floor, it stands on the floor
/// afterwards, no longer riding and with no wait on record.
pub proof fn lemma_exchange_at_lands_arrived(
    crowd: Crowd,
    cars: Seq<Elevator>,
    c: int,
    rider: Person,
)
    requires
        crowd.cars.len() == cars.len(),
        0 <= c < cars.len(),
        cars[c].floor_on < crowd.floors.len(),
        cars[c].stopped,
        crowd.cars[c].contains(rider),
        rider.arrived(),
    ensures
        forall|j: int|
            0 <= j < crowd.exchange_at(cars, c).cars[c].len() ==> !(
            #[trigger] crowd.exchange_at(cars, c).cars[c][j]).arrived(),
        !(cars[c].floor_on == 0 && rider.is_leaving) ==> crowd.exchange_at(
            cars,
            c,
        ).floors[cars[c].floor_on as int].contains(rider.rested().landed()),
        rider.rested().landed().wait_time == 0,
        !rider.rested().landed().riding,
{
    let f = cars[c].floor_on as int;
    let after = crowd.exchange_at(cars, c);
    let moved = crowd.transfer(f, c);
    let standing = crowd.floors[f];
    let aboard = crowd.cars[c];
    let off = selected(aboard, Selection::Arrived);
    let on = selected(standing, Selection::Waiting);
    let stay = unselected(standing, Selection::Waiting);
    let ride = unselected(aboard, Selection::Arrived);
    lemma_filter_members(aboard, Selection::Arrived.passed());
    lemma_filter_members(standing, Selection::Waiting.picked());
    assert(after.cars[c] == ride + boarded(on));
    assert forall|j: int| 0 <= j < after.cars[c].len() implies !(#[trigger] after.cars[c][j]).arrived() by {
        if j < ride.len() {
            assert(after.cars[c][j] == ride[j]);
        } else {
            assert(after.cars[c][j] == on[j - ride.len()].boarded());
        }
    }
    let k = choose|k: int| 0 <= k < aboard.len() && aboard[k] == rider;
    aboard.lemma_filter_contains(Selection::Arrived.picked(), k);
    let m = choose|m: int| 0 <= m < off.len() && off[m] == rider;
    let landed = rider.rested().landed();
    assert(moved.floors[f][stay.len() + m] == landed);
    assert(moved.floors[f].contains(landed));
    if f == 0 && !rider.is_leaving {
        let ground = moved.floors[0];
        let g = choose|g: int| 0 <= g < ground.len() && ground[g] == landed;
        ground.lemma_filter_contains(Selection::Leaving.passed(), g);
    }
}

/// Every rider who has arrived where its car stands is let off by the
/// exchange at all cars: unless it leaves the building at the ground
/// floor, it stands on that floor afterwards, no longer riding and with
/// no wait on record.
pub proof fn lemma_exchange_lands_arrived(
    crowd: Crowd,
    cars: Seq<Elevator>,
    n: nat,
    c: int,
    rider: Person,
)
    requires
        crowd.cars.len() == cars.len(),
        0 <= c < n <= cars.len(),
        forall|k: int| 0 <= k < cars.len() ==> (#[trigger] cars[k]).floor_on < crowd.floors.len(),
        cars[c].stopped,
        crowd.cars[c].contains(rider),
        rider.arrived(),
        !(cars[c].floor_on == 0 && rider.is_leaving),
    ensures
        crowd.exchange_through(cars, n).floors[cars[c].floor_on as int].contains(
            rider.rested().landed(),
        ),
    decreases n,
{
    let before = crowd.exchange_through(cars, (n - 1) as nat);
    lemma_exchange_leaves_later_cars(crowd, cars, (n - 1) as nat);
    if n - 1 == c {
        lemma_exchange_at_lands_arrived(before, cars, c, rider);
    } else {
        lemma_exchange_lands_arrived(crowd, cars, (n - 1) as nat, c, rider);
        lemma_exchange_at_keeps_idle(
            before,
            cars,
            n - 1,
            cars[c].floor_on as int,
            rider.rested().landed(),
        );
    }
}

} // verus!
