//! Combo detection: recent inputs are kept in a bounded buffer, and a combo
//! fires when the buffer ends with its pattern.

use vstd::prelude::*;
use std::collections::VecDeque;
use vstd::std_specs::cmp::PartialEqSpec;

verus! {

/// Whether `buffer` ends with `pattern`, entries compared as `==` compares
/// them. An empty pattern always matches; a buffer shorter than the pattern
/// never does.
pub open spec fn ends_with<T: PartialEq>(buffer: Seq<T>, pattern: Seq<T>) -> bool {
    pattern.len() == 0 || (buffer.len() >= pattern.len() && forall|k: int|
        0 <= k < pattern.len() ==> (#[trigger] buffer[buffer.len() - pattern.len() + k]).eq_spec(
            &pattern[k],
        ))
}

/// Returns `true` when the tail of `buffer` equals `pattern`.
///
/// An empty `pattern` always matches. If `buffer` is shorter than `pattern`,
/// returns `false`. Otherwise the answer is that of comparing the last
/// entries of `buffer` with `pattern`, one by one, with `==`.
pub fn matches_sequence<T: PartialEq>(buffer: &[T], pattern: &[T]) -> (r: bool)
    ensures
        pattern@.len() == 0 ==> r,
        0 < pattern@.len() && buffer@.len() < pattern@.len() ==> !r,
        T::obeys_eq_spec() ==> r == ends_with(buffer@, pattern@),
{
    if pattern.len() == 0 {
        return true;
    }
    if buffer.len() < pattern.len() {
        return false;
    }
    let blen = buffer.len();
    let offset = blen - pattern.len();
    let mut k: usize = 0;
    while k < pattern.len()
        invariant
            offset == buffer@.len() - pattern@.len(),
            pattern@.len() <= buffer@.len(),
            blen == buffer@.len(),
            k <= pattern@.len(),
            T::obeys_eq_spec() ==> forall|j: int|
                0 <= j < k ==> (#[trigger] buffer@[offset + j]).eq_spec(&pattern@[j]),
        decreases pattern@.len() - k,
    {
        if !(buffer[offset + k] == pattern[k]) {
            return false;
        }
        k = k + 1;
    }
    true
}

/// Trims `v` to at most `max` elements by removing from the front.
pub fn trim_to_max<T>(v: &mut VecDeque<T>, max: usize)
    ensures
        final(v)@ == (if old(v)@.len() > max {
            old(v)@.skip(old(v)@.len() - max)
        } else {
            old(v)@
        }),
{
    let ghost start = v@;
    while v.len() > max
        invariant
            start == old(v)@,
            v@.len() <= start.len(),
            v@.len() >= max ==> v@ == start.skip(start.len() - v@.len()),
            start.len() > max ==> v@.len() >= max,
            start.len() <= max ==> v@ == start,
        decreases v@.len(),
    {
        let ghost pre = v@;
        let front = v.pop_front();
        proof {
            assert(front is Some);
            assert(v@ == pre.subrange(1, pre.len() as int));
            assert(pre == start.skip(start.len() - pre.len()));
            let n = start.len() - v@.len();
            assert forall|i: int| 0 <= i < v@.len() implies start.skip(n)[i] == v@[i] by {
                assert(v@[i] == pre[i + 1]);
                assert(pre[i + 1] == start[n - 1 + i + 1]);
            }
            assert(start.skip(n) =~= v@);
        }
    }
    proof {
        if start.len() > max {
            assert(v@.len() == max);
        }
    }
}

} // verus!
