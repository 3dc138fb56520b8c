//! Which of several floors is nearest to a given one. Distance is counted
//! in floors, and of two floors at the same distance the lower one wins.

use vstd::prelude::*;

verus! {

/// The number of floors between `a` and `b`.
pub open spec fn distance(a: usize, b: usize) -> nat {
    if a > b {
        (a - b) as nat
    } else {
        (b - a) as nat
    }
}

/// Whether floor `a` is a better target than floor `b` for a car at
/// `from`: strictly closer, or equally close and lower.
pub open spec fn nearer(from: usize, a: usize, b: usize) -> bool {
    distance(from, a) < distance(from, b) || (distance(from, a) == distance(from, b) && a < b)
}

/// The best target among `floors` for a car at `from`, if there is any.
pub open spec fn nearest(from: usize, floors: Seq<usize>) -> Option<usize>
    decreases floors.len(),
{
    if floors.len() == 0 {
        None
    } else {
        match nearest(from, floors.drop_last()) {
            None => Some(floors.last()),
            Some(best) => if nearer(from, floors.last(), best) {
                Some(floors.last())
            } else {
                Some(best)
            },
        }
    }
}

/// There is a nearest floor exactly when there is a floor at all; it is
/// one of the candidates, and no candidate is a better target. Because
/// `nearer` orders floors totally, this fixes the answer: it does not
/// depend on the order in which the candidates are listed.
pub proof fn lemma_nearest_is_best(from: usize, floors: Seq<usize>)
    ensures
        nearest(from, floors) is None <==> floors.len() == 0,
        nearest(from, floors) matches Some(best) ==> floors.contains(best) && forall|i: int|
            0 <= i < floors.len() ==> !nearer(from, #[trigger] floors[i], best),
    decreases floors.len(),
{
    if floors.len() > 0 {
        let rest = floors.drop_last();
        lemma_nearest_is_best(from, rest);
        let best = nearest(from, floors)->Some_0;
        match nearest(from, rest) {
            None => {
                assert(floors[floors.len() - 1] == best);
            },
            Some(earlier) => {
                if nearer(from, floors.last(), earlier) {
                    assert(floors[floors.len() - 1] == best);
                } else {
                    let k = choose|k: int| 0 <= k < rest.len() && rest[k] == earlier;
                    assert(floors[k] == best);
                }
            },
        }
        assert forall|i: int| 0 <= i < floors.len() implies !nearer(
            from,
            #[trigger] floors[i],
            best,
        ) by {
            if i < rest.len() {
                assert(rest[i] == floors[i]);
            }
        }
    }
}

/// Two lists with the same members have the same nearest floor.
pub proof fn lemma_nearest_ignores_order(from: usize, a: Seq<usize>, b: Seq<usize>)
    requires
        forall|x: usize| a.contains(x) <==> b.contains(x),
    ensures
        nearest(from, a) == nearest(from, b),
{
    lemma_nearest_is_best(from, a);
    lemma_nearest_is_best(from, b);
    if a.len() == 0 {
        if b.len() > 0 {
            assert(b.contains(b[0]));
        }
    } else {
        assert(a.contains(a[0]));
        let x = nearest(from, a)->Some_0;
        let y = nearest(from, b)->Some_0;
        assert(b.contains(x));
        assert(a.contains(y));
    }
}

/// The number of floors between `a` and `b`.
pub fn floor_distance(a: usize, b: usize) -> (d: usize)
    ensures
        d == distance(a, b),
{
    if a > b {
        a - b
    } else {
        b - a
    }
}

/// Whether floor `a` is a better target than floor `b` for a car at `from`.
pub fn is_nearer(from: usize, a: usize, b: usize) -> (better: bool)
    ensures
        better == nearer(from, a, b),
{
    let da: usize = floor_distance(from, a);
    let db: usize = floor_distance(from, b);
    da < db || (da == db && a < b)
}

/// The direction in which a car is to go next.
#[derive(Clone, Copy, PartialEq, Eq, Structural, Debug)]
pub enum Decision {
    /// Go up one floor.
    Up,
    /// Go down one floor.
    Down,
    /// Stand still.
    Stop,
}

/// The move that takes a car at `from` towards `target`: none when it is
/// there already.
pub open spec fn toward(from: usize, target: usize) -> Decision {
    if target > from {
        Decision::Up
    } else if target < from {
        Decision::Down
    } else {
        Decision::Stop
    }
}

/// The move that takes a car at `from` towards `target`.
pub fn head_toward(from: usize, target: usize) -> (decision: Decision)
    ensures
        decision == toward(from, target),
{
    if target > from {
        Decision::Up
    } else if target < from {
        Decision::Down
    } else {
        Decision::Stop
    }
}

} // verus!
