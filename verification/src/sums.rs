//! Sums over a range of indices, and the count of repeats in a sequence: the two shapes
//! in which the cost functions are written down.

use vstd::prelude::*;

verus! {

/// `f(0) + f(1) + ... + f(n - 1)`.
pub open spec fn sum(n: int, f: spec_fn(int) -> int) -> int
    decreases n,
{
    if n <= 0 {
        0
    } else {
        sum(n - 1, f) + f(n - 1)
    }
}

/// 1 for true, 0 for false.
pub open spec fn one_if(b: bool) -> int {
    if b {
        1
    } else {
        0
    }
}

/// How many items of a sequence have occurred before in it: each occurrence of a value
/// after its first counts once.
pub open spec fn repeats(s: Seq<usize>) -> int
    decreases s.len(),
{
    if s.len() == 0 {
        0
    } else {
        repeats(s.drop_last()) + one_if(s.drop_last().contains(s.last()))
    }
}

/// Counts `x` as a repeat if it is in `seen`, and notes it there if it is not.
pub(crate) fn tally(seen: &mut Vec<usize>, x: usize, Ghost(done): Ghost<Seq<usize>>) -> (extra: i32)
    requires
        forall|y: usize| old(seen)@.contains(y) <==> done.contains(y),
    ensures
        extra == repeats(done.push(x)) - repeats(done),
        0 <= extra <= 1,
        forall|y: usize| final(seen)@.contains(y) <==> done.push(x).contains(y),
{
    let found = crate::rules::has_index(seen, x);
    proof {
        assert(done.push(x).drop_last() =~= done);
        assert(done.push(x).last() == x);
    }
    let ghost before = seen@;
    assert(forall|y: usize| before.contains(y) <==> done.contains(y));
    if !found {
        seen.push(x);
    }
    proof {
        assert forall|y: usize| seen@.contains(y) <==> done.push(x).contains(y) by {
            if seen@.contains(y) {
                let k = choose|k: int| 0 <= k < seen@.len() && seen@[k] == y;
                if k < before.len() {
                    assert(before[k] == y);
                    assert(before.contains(y));
                    assert(done.contains(y));
                    let m = choose|m: int| 0 <= m < done.len() && done[m] == y;
                    assert(done.push(x)[m] == y);
                } else {
                    assert(done.push(x)[done.len() as int] == y);
                }
            }
            if done.push(x).contains(y) {
                let k = choose|k: int| 0 <= k < done.push(x).len() && done.push(x)[k] == y;
                if k < done.len() {
                    assert(done[k] == y);
                    assert(done.contains(y));
                    assert(before.contains(y));
                    let m = choose|m: int| 0 <= m < before.len() && before[m] == y;
                    assert(seen@[m] == y);
                } else if found {
                    assert(before.contains(x));
                    let m = choose|m: int| 0 <= m < before.len() && before[m] == x;
                    assert(seen@[m] == y);
                } else {
                    assert(seen@[before.len() as int] == y);
                }
            }
        }
    }
    if found {
        1
    } else {
        0
    }
}

} // verus!
