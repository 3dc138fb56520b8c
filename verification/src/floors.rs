//! What the floors of a building offer as a whole.

use crate::floor::{after_leave_trials, nobody_to_ask, Floor};
use crate::nearest::{distance, is_nearer, floor_distance, lemma_nearest_is_best, nearer, nearest};
use crate::people::{anyone_waiting, can_tick, ticked, unselected, People, Selection};
use rand::rngs::StdRng;
use vstd::prelude::*;

verus! {

/// The positions of the floors on which somebody waits, lowest first.
pub open spec fn waiting_floors(levels: Seq<Floor>) -> Seq<usize>
    decreases levels.len(),
{
    if levels.len() == 0 {
        Seq::empty()
    } else {
        let rest = waiting_floors(levels.drop_last());
        if anyone_waiting(levels.last().people@) {
            rest.push((levels.len() - 1) as usize)
        } else {
            rest
        }
    }
}

/// The floor with somebody waiting that is the best target for a car at
/// `floor_on`, with its distance, if there is such a floor.
pub open spec fn nearest_wait_floor(levels: Seq<Floor>, floor_on: usize) -> Option<(usize, usize)> {
    match nearest(floor_on, waiting_floors(levels)) {
        None => None,
        Some(floor) => Some((floor, distance(floor_on, floor) as usize)),
    }
}

/// The chance recorded for each floor that it becomes a destination.
pub open spec fn dest_probabilities(levels: Seq<Floor>) -> Seq<u64> {
    levels.map_values(|floor: Floor| floor.dest_prob)
}

/// Whether a round of leave trials has nobody to ask on any floor.
pub open spec fn nobody_to_ask_anywhere(levels: Seq<Floor>) -> bool {
    forall|i: int| 0 <= i < levels.len() ==> nobody_to_ask((#[trigger] levels[i]).people@)
}

/// Whether every floor is well formed.
pub open spec fn all_wf(levels: Seq<Floor>) -> bool {
    forall|i: int| 0 <= i < levels.len() ==> (#[trigger] levels[i]).wf()
}

/// Whether two floors differ at most in the people on them.
pub open spec fn same_place(a: Floor, b: Floor) -> bool {
    a.index == b.index && a.dest_prob == b.dest_prob
}

/// Whether two floors are the same in every respect.
pub open spec fn same_floor(a: Floor, b: Floor) -> bool {
    same_place(a, b) && a.people@ == b.people@
}

/// A position is listed among the waiting floors exactly when it is the
/// position of a floor on which somebody waits.
pub proof fn lemma_waiting_floors(levels: Seq<Floor>, floor: usize)
    requires
        levels.len() <= usize::MAX,
    ensures
        waiting_floors(levels).contains(floor) <==> floor < levels.len() && anyone_waiting(
            levels[floor as int].people@,
        ),
    decreases levels.len(),
{
    if levels.len() > 0 {
        let front = levels.drop_last();
        let rest = waiting_floors(front);
        let all = waiting_floors(levels);
        let top = (levels.len() - 1) as usize;
        lemma_waiting_floors(front, floor);
        if all.contains(floor) {
            let k = choose|k: int| 0 <= k < all.len() && all[k] == floor;
            if k < rest.len() {
                assert(rest[k] == floor);
                assert(rest.contains(floor));
                assert(front[floor as int] == levels[floor as int]);
            }
        }
        if floor < levels.len() && anyone_waiting(levels[floor as int].people@) {
            if floor == top {
                assert(all[all.len() - 1] == floor);
            } else {
                assert(front[floor as int] == levels[floor as int]);
                let k = choose|k: int| 0 <= k < rest.len() && rest[k] == floor;
                assert(all[k] == floor);
            }
        }
    }
}

/// The floors of a building, bottom to top.
pub trait Floors {
    /// The floors, the ground floor first.
    spec fn levels(&self) -> Seq<Floor>;

    /// Whether every counter that a step of waiting would advance has
    /// room for it.
    spec fn ready_to_tick(&self) -> bool;

    /// Whether somebody waits for a car on the floor at `floor_index`.
    fn are_people_waiting_on_floor(&self, floor_index: usize) -> (waiting: bool)
        requires
            floor_index < self.levels().len(),
        ensures
            waiting == anyone_waiting(self.levels()[floor_index as int].people@),
    ;

    /// The floor with somebody waiting that is nearest to `floor_on`,
    /// with its distance in floors; of two such floors equally near, the
    /// lower. `None` when nobody waits anywhere.
    fn get_nearest_wait_floor(&self, floor_on: usize) -> (target: Option<(usize, usize)>)
        ensures
            target == nearest_wait_floor(self.levels(), floor_on),
            target is None <==> forall|i: int|
                0 <= i < self.levels().len() ==> !anyone_waiting(
                    (#[trigger] self.levels()[i]).people@,
                ),
            target matches Some((floor, dist)) ==> {
                &&& floor < self.levels().len()
                &&& anyone_waiting(self.levels()[floor as int].people@)
                &&& dist == distance(floor_on, floor)
                &&& forall|i: int|
                    0 <= i < self.levels().len() && anyone_waiting(
                        (#[trigger] self.levels()[i]).people@,
                    ) ==> !nearer(floor_on, i as usize, floor)
            },
    ;

    /// The chance recorded for each floor that it becomes a destination,
    /// in millionths, the ground floor first.
    fn get_dest_probabilities(&self) -> (probabilities: Vec<u64>)
        ensures
            probabilities@ == dest_probabilities(self.levels()),
    ;

    /// Asks everyone in the building who stands on a floor and does not
    /// wait for a car whether they leave.
    fn gen_people_leaving(&mut self, rng: &mut StdRng)
        requires
            all_wf(old(self).levels()),
        ensures
            final(self).levels().len() == old(self).levels().len(),
            forall|i: int|
                0 <= i < old(self).levels().len() ==> {
                    let before = #[trigger] old(self).levels()[i];
                    let after = final(self).levels()[i];
                    &&& after_leave_trials(before.people@, after.people@)
                    &&& same_place(before, after)
                },
            nobody_to_ask_anywhere(old(self).levels()) ==> *final(rng) == *old(rng),
            all_wf(final(self).levels()),
    ;

    /// Lets everyone on the ground floor who has decided to leave out of
    /// the building.
    fn flush_first_floor(&mut self)
        requires
            old(self).levels().len() > 0,
        ensures
            final(self).levels().len() == old(self).levels().len(),
            final(self).levels()[0].people@ == unselected(
                old(self).levels()[0].people@,
                Selection::Leaving,
            ),
            same_place(old(self).levels()[0], final(self).levels()[0]),
            forall|i: int|
                1 <= i < old(self).levels().len() ==> same_floor(
                    #[trigger] old(self).levels()[i],
                    final(self).levels()[i],
                ),
            all_wf(old(self).levels()) ==> all_wf(final(self).levels()),
    ;

    /// Counts one more step for everyone who waits for a car.
    fn increment_wait_times(&mut self)
        requires
            old(self).ready_to_tick(),
        ensures
            final(self).levels().len() == old(self).levels().len(),
            forall|i: int|
                0 <= i < old(self).levels().len() ==> {
                    let before = #[trigger] old(self).levels()[i];
                    let after = final(self).levels()[i];
                    &&& after.people@ == ticked(before.people@)
                    &&& same_place(before, after)
                },
            all_wf(old(self).levels()) ==> all_wf(final(self).levels()),
    ;
}

impl Floors for Vec<Floor> {
    open spec fn levels(&self) -> Seq<Floor> {
        self@
    }

    open spec fn ready_to_tick(&self) -> bool {
        forall|i: int| 0 <= i < self@.len() ==> can_tick((#[trigger] self@[i]).people@)
    }

    fn are_people_waiting_on_floor(&self, floor_index: usize) -> (waiting: bool) {
        self[floor_index].are_people_waiting()
    }

    fn get_nearest_wait_floor(&self, floor_on: usize) -> (target: Option<(usize, usize)>) {
        let mut best: Option<usize> = None;
        let mut i: usize = 0;
        assert(self@.take(0) =~= Seq::<Floor>::empty());
        while i < self.len()
            invariant
                i <= self.len(),
                best == nearest(floor_on, waiting_floors(self@.take(i as int))),
            decreases self.len() - i,
        {
            proof {
                assert(self@.take(i + 1).drop_last() =~= self@.take(i as int));
                assert(self@.take(i + 1).last() == self@[i as int]);
                let grown = waiting_floors(self@.take(i as int)).push(i);
                assert(grown.drop_last() =~= waiting_floors(self@.take(i as int)));
            }
            if self[i].are_people_waiting() {
                best = match best {
                    None => Some(i),
                    Some(earlier) => if is_nearer(floor_on, i, earlier) {
                        Some(i)
                    } else {
                        Some(earlier)
                    },
                };
            }
            i = i + 1;
        }
        proof {
            assert(self@.take(i as int) =~= self@);
            let waiting = waiting_floors(self@);
            lemma_nearest_is_best(floor_on, waiting);
            assert forall|k: int|
                0 <= k < self@.len() && anyone_waiting((#[trigger] self@[k]).people@) implies best
                matches Some(floor) && !nearer(floor_on, k as usize, floor) by {
                lemma_waiting_floors(self@, k as usize);
                let j = choose|j: int| 0 <= j < waiting.len() && waiting[j] == k as usize;
                assert(!nearer(floor_on, waiting[j], best->Some_0));
            }
            if let Some(floor) = best {
                lemma_waiting_floors(self@, floor);
            }
        }
        match best {
            None => None,
            Some(floor) => Some((floor, floor_distance(floor_on, floor))),
        }
    }

    fn get_dest_probabilities(&self) -> (probabilities: Vec<u64>) {
        let mut probabilities: Vec<u64> = Vec::new();
        let mut i: usize = 0;
        while i < self.len()
            invariant
                i <= self.len(),
                probabilities@ == dest_probabilities(self@.take(i as int)),
            decreases self.len() - i,
        {
            probabilities.push(self[i].dest_prob);
            i = i + 1;
            assert(probabilities@ =~= dest_probabilities(self@.take(i as int)));
        }
        assert(self@.take(i as int) =~= self@);
        probabilities
    }

    fn gen_people_leaving(&mut self, rng: &mut StdRng) {
        let ghost before = self@;
        let n: usize = self.len();
        let mut i: usize = 0;
        assert forall|k: int| 0 <= k < n implies (#[trigger] before[k]).wf() by {
            assert(old(self).levels()[k].wf());
        }
        while i < n
            invariant
                i <= n,
                n == before.len(),
                self@.len() == n,
                forall|k: int| 0 <= k < n ==> (#[trigger] before[k]).wf(),
                nobody_to_ask_anywhere(before) ==> *rng == *old(rng),
                forall|k: int|
                    0 <= k < i ==> {
                        let was = #[trigger] before[k];
                        let is = self@[k];
                        &&& after_leave_trials(was.people@, is.people@)
                        &&& same_place(was, is)
                        &&& is.wf()
                    },
                forall|k: int| i <= k < n ==> #[trigger] self@[k] == before[k],
            decreases n - i,
        {
            self[i].gen_people_leaving(rng);
            i = i + 1;
        }
        assert forall|k: int| 0 <= k < self@.len() implies (#[trigger] self.levels()[k]).wf() by {
            assert(before[k].wf());
        }
    }

    fn flush_first_floor(&mut self) {
        self[0].flush_people_leaving_floor();
        assert forall|k: int| 0 <= k < self@.len() && all_wf(old(self).levels()) implies (
        #[trigger] self.levels()[k]).wf() by {
            assert(old(self).levels()[k].wf());
        }
    }

    fn increment_wait_times(&mut self) {
        let ghost before = self@;
        let n: usize = self.len();
        let mut i: usize = 0;
        while i < n
            invariant
                i <= n,
                n == before.len(),
                self@.len() == n,
                forall|k: int| 0 <= k < n ==> can_tick((#[trigger] before[k]).people@),
                forall|k: int|
                    0 <= k < i ==> {
                        let was = #[trigger] before[k];
                        let is = self@[k];
                        &&& is.people@ == ticked(was.people@)
                        &&& same_place(was, is)
                        &&& was.wf() ==> is.wf()
                    },
                forall|k: int| i <= k < n ==> #[trigger] self@[k] == before[k],
            decreases n - i,
        {
            self[i].increment_wait_times();
            i = i + 1;
        }
        assert forall|k: int| 0 <= k < self@.len() && all_wf(old(self).levels()) implies (
        #[trigger] self.levels()[k]).wf() by {
            assert(old(self).levels()[k].wf());
            assert(before[k].wf());
        }
    }
}

} // verus!
