//! Small duplicate-free vectors used as sets of task ids and of value
//! handles. Insertion and removal keep the no-duplicates invariant; the view
//! is the underlying sequence, queried with `contains`.

use vstd::prelude::*;

use crate::ids::RawVc;
use crate::ids::TaskId;

verus! {

/// No element occurs twice in the sequence.
pub open spec fn no_dup<T>(s: Seq<T>) -> bool {
    forall|i: int, j: int| 0 <= i < j < s.len() ==> s[i] != s[j]
}

/// Whether the id set contains `x`.
pub fn id_set_contains(v: &Vec<TaskId>, x: TaskId) -> (b: bool)
    ensures
        b == v@.contains(x),
{
    let mut i: usize = 0;
    while i < v.len()
        invariant
            i <= v@.len(),
            forall|k: int| 0 <= k < i ==> v@[k] != x,
        decreases v@.len() - i,
    {
        if v[i] == x {
            return true;
        }
        i += 1;
    }
    false
}

/// Inserts `x` unless present; returns whether it was added.
pub fn id_set_insert(v: &mut Vec<TaskId>, x: TaskId) -> (added: bool)
    requires
        no_dup(old(v)@),
    ensures
        no_dup(final(v)@),
        added == !old(v)@.contains(x),
        added ==> final(v)@ == old(v)@.push(x),
        !added ==> final(v)@ == old(v)@,
        final(v)@.contains(x),
        forall|y: TaskId| #[trigger] final(v)@.contains(y) <==> (old(v)@.contains(y) || y == x),
{
    if id_set_contains(v, x) {
        false
    } else {
        v.push(x);
        proof {
            assert(v@ == old(v)@.push(x));
            assert(v@[old(v)@.len() as int] == x);
            assert(v@.contains(x));
            assert forall|y: TaskId| #[trigger] v@.contains(y) <==> (old(v)@.contains(y) || y
                == x) by {
                if v@.contains(y) && y != x {
                    let k = choose|k: int| 0 <= k < v@.len() && v@[k] == y;
                    assert(old(v)@[k] == y);
                }
                if old(v)@.contains(y) {
                    let k = choose|k: int| 0 <= k < old(v)@.len() && old(v)@[k] == y;
                    assert(v@[k] == y);
                }
            }
        }
        true
    }
}

/// Removes `x` if present; returns whether it was there.
pub fn id_set_remove(v: &mut Vec<TaskId>, x: TaskId) -> (removed: bool)
    requires
        no_dup(old(v)@),
    ensures
        no_dup(final(v)@),
        !final(v)@.contains(x),
        forall|y: TaskId| y != x ==> (#[trigger] final(v)@.contains(y) <==> old(v)@.contains(y)),
        final(v)@.len() <= old(v)@.len(),
{
    let mut i: usize = 0;
    while i < v.len()
        invariant
            i <= v@.len(),
            no_dup(v@),
            v@ == old(v)@,
            forall|k: int| 0 <= k < i ==> v@[k] != x,
        decreases v@.len() - i,
    {
        if v[i] == x {
            v.remove(i);
            assert(!v@.contains(x)) by {
                assert(forall|k: int| 0 <= k < i ==> v@[k] == old(v)@[k] && v@[k] != x);
                assert(forall|k: int| i <= k < v@.len() ==> v@[k] == old(v)@[k + 1]);
                assert forall|k: int| 0 <= k < v@.len() implies v@[k] != x by {
                    if k >= i {
                        assert(old(v)@[k + 1] != x);
                    }
                }
            }
            assert forall|y: TaskId| y != x implies (v@.contains(y) <==> old(v)@.contains(y)) by {
                if v@.contains(y) {
                    let k = choose|k: int| 0 <= k < v@.len() && v@[k] == y;
                    if k < i {
                        assert(old(v)@[k] == y);
                    } else {
                        assert(old(v)@[k + 1] == y);
                    }
                }
                if old(v)@.contains(y) {
                    let k = choose|k: int| 0 <= k < old(v)@.len() && old(v)@[k] == y;
                    if k < i {
                        assert(v@[k] == y);
                    } else if k > i {
                        assert(v@[k - 1] == y);
                    }
                }
            }
            return true;
        }
        i += 1;
    }
    false
}

/// A copy of an id vector (element-wise, so the view is known equal).
pub fn clone_ids(v: &Vec<TaskId>) -> (r: Vec<TaskId>)
    ensures
        r@ == v@,
{
    let mut r: Vec<TaskId> = Vec::new();
    let mut i: usize = 0;
    while i < v.len()
        invariant
            i <= v@.len(),
            r@ == v@.subrange(0, i as int),
        decreases v@.len() - i,
    {
        r.push(v[i]);
        proof {
            assert(r@ =~= v@.subrange(0, i + 1));
        }
        i += 1;
    }
    proof {
        assert(r@ =~= v@);
    }
    r
}

/// Whether the handle set contains `x`.
pub fn vc_set_contains(v: &Vec<RawVc>, x: RawVc) -> (b: bool)
    ensures
        b == v@.contains(x),
{
    let mut i: usize = 0;
    while i < v.len()
        invariant
            i <= v@.len(),
            forall|k: int| 0 <= k < i ==> v@[k] != x,
        decreases v@.len() - i,
    {
        if v[i] == x {
            return true;
        }
        i += 1;
    }
    false
}

/// Inserts `x` unless present; returns whether it was added.
pub fn vc_set_insert(v: &mut Vec<RawVc>, x: RawVc) -> (added: bool)
    requires
        no_dup(old(v)@),
    ensures
        no_dup(final(v)@),
        added == !old(v)@.contains(x),
        added ==> final(v)@ == old(v)@.push(x),
        !added ==> final(v)@ == old(v)@,
        final(v)@.contains(x),
        forall|y: RawVc| #[trigger] final(v)@.contains(y) <==> (old(v)@.contains(y) || y == x),
{
    if vc_set_contains(v, x) {
        false
    } else {
        v.push(x);
        proof {
            assert(v@ == old(v)@.push(x));
            assert(v@[old(v)@.len() as int] == x);
            assert(v@.contains(x));
            assert forall|y: RawVc| #[trigger] v@.contains(y) <==> (old(v)@.contains(y) || y
                == x) by {
                if v@.contains(y) && y != x {
                    let k = choose|k: int| 0 <= k < v@.len() && v@[k] == y;
                    assert(old(v)@[k] == y);
                }
                if old(v)@.contains(y) {
                    let k = choose|k: int| 0 <= k < old(v)@.len() && old(v)@[k] == y;
                    assert(v@[k] == y);
                }
            }
        }
        true
    }
}

} // verus!
