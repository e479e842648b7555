//! Cycling the selected celestial body with the arrow keys.
use vstd::prelude::*;

verus! {

/// The first position at or after `from` in `bodies` that holds `c`.
pub open spec fn first_match(bodies: Seq<u32>, c: u32, from: int) -> Option<int>
    decreases bodies.len() - from,
{
    if from < 0 || from >= bodies.len() {
        None
    } else if bodies[from] == c {
        Some(from)
    } else {
        first_match(bodies, c, from + 1)
    }
}

/// Where `c` first occurs in `bodies`, or 0 when it does not.
fn position_of(bodies: &Vec<u32>, c: u32) -> (res: usize)
    ensures
        res == current_position(bodies@, c),
        bodies@.len() > 0 ==> res < bodies@.len(),
{
    let mut i: usize = 0;
    while i < bodies.len()
        invariant
            i <= bodies@.len(),
            first_match(bodies@, c, 0) == first_match(bodies@, c, i as int),
        decreases bodies@.len() - i,
    {
        if bodies[i] == c {
            assert(first_match(bodies@, c, i as int) == Some(i as int));
            return i;
        }
        i += 1;
    }
    0
}

/// The position of the currently selected body in `bodies` (entity indices in query order):
/// where it first occurs, or 0 when it is not there.
pub open spec fn current_position(bodies: Seq<u32>, current: u32) -> int {
    match first_match(bodies, current, 0) {
        Some(i) => i,
        None => 0,
    }
}

/// The position of the body to select next: the first body when nothing is selected yet;
/// otherwise the previous body (wrapping to the last) on "left", the next body (wrapping to
/// the first) on "right", "left" taking precedence; `None` when the selection stays.
pub open spec fn spec_next_selection(bodies: Seq<u32>, current: Option<u32>, left: bool, right: bool) -> Option<int> {
    match current {
        None => Some(0),
        Some(c) => {
            let i = current_position(bodies, c);
            if left {
                if i == 0 {
                    Some(bodies.len() - 1)
                } else {
                    Some(i - 1)
                }
            } else if right {
                if i + 1 < bodies.len() {
                    Some(i + 1)
                } else {
                    Some(0)
                }
            } else {
                None
            }
        },
    }
}

/// Decides the new selection among `bodies` (the entity index of each selectable body, in
/// query order) given the entity index of the current selection and which arrow keys were
/// just pressed; returns the position of the body to select, or `None` to keep the
/// current one.
pub fn next_selection(bodies: &Vec<u32>, current: Option<u32>, left: bool, right: bool) -> (res: Option<usize>)
    requires
        bodies@.len() > 0,
    ensures
        match spec_next_selection(bodies@, current, left, right) {
            Some(i) => res == Some(i as usize),
            None => res is None,
        },
{
    let c = match current {
        None => {
            return Some(0);
        },
        Some(c) => c,
    };
    let current_index = position_of(bodies, c);
    assert(current_index < bodies@.len());
    if left {
        if current_index == 0 {
            Some(bodies.len() - 1)
        } else {
            Some(current_index - 1)
        }
    } else if right {
        if current_index < bodies.len() - 1 {
            Some(current_index + 1)
        } else {
            Some(0)
        }
    } else {
        None
    }
}

/// No body occurs twice.
pub open spec fn distinct_bodies(bodies: Seq<u32>) -> bool {
    forall|i: int, j: int| 0 <= i < j < bodies.len() ==> bodies[i] != bodies[j]
}

/// Among distinct bodies, the search from any position up to `i` finds `i`.
proof fn lemma_first_match_distinct(bodies: Seq<u32>, i: int, from: int)
    requires
        distinct_bodies(bodies),
        0 <= from <= i < bodies.len(),
    ensures
        first_match(bodies, bodies[i], from) == Some(i),
    decreases i - from,
{
    if from < i {
        assert(bodies[from] != bodies[i]);
        lemma_first_match_distinct(bodies, i, from + 1);
    }
}

/// Moving right and then left (or left and then right) comes back to the body one started
/// from, as long as no body occurs twice.
pub proof fn law_selection_round_trip(bodies: Seq<u32>, i: int)
    requires
        distinct_bodies(bodies),
        0 <= i < bodies.len(),
    ensures
        ({
            let r = spec_next_selection(bodies, Some(bodies[i]), false, true)->0;
            spec_next_selection(bodies, Some(bodies[r]), true, false) == Some(i)
        }),
        ({
            let l = spec_next_selection(bodies, Some(bodies[i]), true, false)->0;
            spec_next_selection(bodies, Some(bodies[l]), false, true) == Some(i)
        }),
{
    lemma_first_match_distinct(bodies, i, 0);
    let r = spec_next_selection(bodies, Some(bodies[i]), false, true)->0;
    assert(0 <= r < bodies.len());
    lemma_first_match_distinct(bodies, r, 0);
    let l = spec_next_selection(bodies, Some(bodies[i]), true, false)->0;
    assert(0 <= l < bodies.len());
    lemma_first_match_distinct(bodies, l, 0);
}

} // verus!
