use vstd::prelude::*;

verus! {

/// Model of negative-index wrapping: a non-negative index stands for itself;
/// a negative index `i` stands for `len + i` when its magnitude is at most
/// `len`, and wraps to nothing otherwise.
pub open spec fn wrap_spec(i: int, len: int) -> Option<int> {
    if i >= 0 {
        Some(i)
    } else if len + i < 0 {
        None
    } else {
        Some(len + i)
    }
}

/// Model of a slice bound: an absent bound stands for `default`; a present
/// bound is wrapped, a failed wrap counts as `0`, and the result is clipped
/// to at most `len`.
pub open spec fn abs_bound_spec(i: Option<int>, len: int, default: int) -> int {
    match i {
        None => default,
        Some(i) => {
            let w = match wrap_spec(i, len) {
                Some(w) => w,
                None => 0,
            };
            if w < len {
                w
            } else {
                len
            }
        },
    }
}

/// Model of a single-element index: the wrapped position, valid only inside
/// `[0, len)`.
pub open spec fn abs_index_spec(i: int, len: int) -> Option<int> {
    match wrap_spec(i, len) {
        Some(w) => if w < len {
            Some(w)
        } else {
            None
        },
        None => None,
    }
}

/// A 64-bit optional bound as a mathematical one.
pub open spec fn opt_int(b: Option<i64>) -> Option<int> {
    match b {
        Some(i) => Some(i as int),
        None => None,
    }
}

/// Whether a bound survives wrapping: absent bounds and non-negative ones
/// always do; a negative one only when its magnitude is at most `len`.
pub open spec fn bound_ok(b: Option<int>, len: int) -> bool {
    match b {
        None => true,
        Some(i) => wrap_spec(i, len) is Some,
    }
}

/// Wrap and clip a slice bound given as a 64-bit integer; yields nothing
/// exactly when the wrap fails.
pub fn clamp_bound(b: Option<i64>, len: usize, default: usize) -> (r: Option<usize>)
    requires
        default <= len,
    ensures
        match r {
            Some(c) => bound_ok(opt_int(b), len as int) && c as int == abs_bound_spec(
                opt_int(b),
                len as int,
                default as int,
            ),
            None => !bound_ok(opt_int(b), len as int),
        },
{
    match b {
        None => Some(default),
        Some(i) => {
            if i >= 0 {
                if i as u64 >= len as u64 {
                    Some(len)
                } else {
                    Some(i as usize)
                }
            } else {
                // magnitude of the negative bound, computed without overflow
                let mag: u64 = ((-1 - i) as u64) + 1;
                if (len as u64) < mag {
                    None
                } else {
                    Some(len - (mag as usize))
                }
            }
        },
    }
}

/// Resolve a single-element position given as a 64-bit integer; yields
/// nothing when the wrapped position is not a valid element position.
pub fn locate_index(i: i64, len: usize) -> (r: Option<usize>)
    ensures
        r == match abs_index_spec(i as int, len as int) {
            Some(p) => Some(p as usize),
            None => None::<usize>,
        },
{
    if i >= 0 {
        if (i as u64) < (len as u64) {
            Some(i as usize)
        } else {
            None
        }
    } else {
        let mag: u64 = ((-1 - i) as u64) + 1;
        if (len as u64) < mag {
            None
        } else {
            Some(len - (mag as usize))
        }
    }
}

/// Wrap an index: non-negative indices stand for themselves, negative ones
/// count from `len` backwards and fail when their magnitude exceeds `len`.
pub fn wrap(i: isize, len: usize) -> (r: Option<usize>)
    ensures
        r == match wrap_spec(i as int, len as int) {
            Some(w) => Some(w as usize),
            None => None::<usize>,
        },
{
    if i >= 0 {
        Some(i as usize)
    } else {
        // magnitude of a negative `i`, computed without overflow
        let mag: usize = ((-1 - i) as usize) + 1;
        if len < mag {
            None
        } else {
            Some(len - mag)
        }
    }
}

/// Absolutise a slice bound and clip it between `0` and `len`; an absent
/// bound yields `default`.
pub fn abs_bound(i: Option<isize>, len: usize, default: usize) -> (r: usize)
    requires
        default <= len,
    ensures
        r as int == abs_bound_spec(
            match i {
                Some(i) => Some(i as int),
                None => None::<int>,
            },
            len as int,
            default as int,
        ),
{
    match i {
        None => default,
        Some(i) => {
            let w = match wrap(i, len) {
                Some(w) => w,
                None => 0,
            };
            if w < len {
                w
            } else {
                len
            }
        },
    }
}

/// Absolutise a single-element index; the result is only returned when it
/// lies inside `[0, len)`.
pub fn abs_index(i: isize, len: usize) -> (r: Option<usize>)
    ensures
        r == match abs_index_spec(i as int, len as int) {
            Some(w) => Some(w as usize),
            None => None::<usize>,
        },
{
    match wrap(i, len) {
        Some(w) => if w < len {
            Some(w)
        } else {
            None
        },
        None => None,
    }
}

/// Turn a half-open span `[from, until)` into a skip count and a take count;
/// an empty or reversed span takes nothing.
pub fn skip_take(from: usize, until: usize) -> (r: (usize, usize))
    ensures
        r.0 == from,
        r.1 == if until > from {
            until - from
        } else {
            0
        },
{
    (from, if until > from {
        until - from
    } else {
        0
    })
}

} // verus!
