//! Index arithmetic shared by indexing and slicing: negative indices count
//! from the end of a sequence, and slice bounds are clipped to its length.

use vstd::prelude::*;

verus! {

/// Absolute position of index `i` in a sequence of length `len`: a
/// non-negative index stands for itself, a negative one counts back from the
/// end; a negative index that reaches before the start has no position.
pub open spec fn spec_wrap(i: int, len: int) -> Option<int> {
    if i >= 0 {
        Some(i)
    } else if len < -i {
        None
    } else {
        Some(len + i)
    }
}

/// Position of index `i` if it lies inside `[0, len)`.
pub open spec fn spec_abs_index(i: int, len: int) -> Option<int> {
    match spec_wrap(i, len) {
        Some(k) => if k < len { Some(k) } else { None },
        None => None,
    }
}

/// A slice bound: `default` when absent, else its absolute position clipped
/// to `[0, len]`.
pub open spec fn spec_abs_bound(i: Option<int>, len: int, default: int) -> int {
    match i {
        None => default,
        Some(i) => match spec_wrap(i, len) {
            Some(k) => if k < len { k } else { len },
            None => 0,
        },
    }
}

/// Number of elements between `from` and `until`, zero when `until` comes first.
pub open spec fn spec_take(from: int, until: int) -> int {
    if until >= from { until - from } else { 0 }
}

/// Absolutises index `i` for a sequence of length `len`.
pub fn wrap(i: isize, len: usize) -> (r: Option<usize>)
    ensures
        match spec_wrap(i as int, len as int) {
            Some(k) => r == Some(k as usize),
            None => r is None,
        },
{
    if i >= 0 {
        Some(i as usize)
    } else {
        let back: usize = (-(i + 1)) as usize + 1;
        if len < back {
            None
        } else {
            Some(len - back)
        }
    }
}

/// Absolutises an index and returns it if it is inside `[0, len)`.
pub fn abs_index(i: isize, len: usize) -> (r: Option<usize>)
    ensures
        match spec_abs_index(i as int, len as int) {
            Some(k) => r == Some(k as usize),
            None => r is None,
        },
{
    match wrap(i, len) {
        Some(k) => if k < len { Some(k) } else { None },
        None => None,
    }
}

/// If a range bound is given, absolutises and clips it between 0 and `len`,
/// else returns `default`.
pub fn abs_bound(i: Option<isize>, len: usize, default: usize) -> (r: usize)
    ensures
        r as int == spec_abs_bound(
            match i { Some(x) => Some(x as int), None => None },
            len as int,
            default as int,
        ),
{
    match i {
        None => default,
        Some(i) => {
            let k = match wrap(i, len) {
                Some(k) => k,
                None => 0,
            };
            if k < len { k } else { len }
        },
    }
}

/// Turns the bounds `from..until` into a number of elements to skip and a
/// number to take.
pub fn skip_take(from: usize, until: usize) -> (r: (usize, usize))
    ensures
        r.0 == from,
        r.1 as int == spec_take(from as int, until as int),
{
    (from, until.saturating_sub(from))
}

} // verus!
