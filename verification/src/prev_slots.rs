//! Bookkeeping that keeps slot indices stable across re-executions. A logical
//! slot identity is either an explicit (value type, key) pair or an ordinal
//! position within a value type; both map to the slot index used by the
//! previous execution, so downstream readers see the same cell again.

use vstd::prelude::*;

use crate::ids::ValueTypeId;

verus! {

/// One explicit-key mapping: (value type, key) -> slot index.
#[derive(Clone, Copy, PartialEq, Eq, Structural, Debug)]
pub struct KeyedEntry {
    pub type_id: ValueTypeId,
    pub key: u64,
    pub index: usize,
}

/// Positional mappings for one value type: the n-th request for this type
/// within one execution maps to `indices[n]`. The cursor is reset to zero at
/// the start of each execution.
pub struct TypeEntry {
    pub type_id: ValueTypeId,
    pub cursor: usize,
    pub indices: Vec<usize>,
}

/// Stores previous slot locations for keys or types.
pub struct PrevSlots {
    pub by_key: Vec<KeyedEntry>,
    pub by_type: Vec<TypeEntry>,
}

/// No two entries record the same (value type, key) identity.
pub open spec fn unique_keys(s: Seq<KeyedEntry>) -> bool {
    forall|i: int, j: int|
        0 <= i < j < s.len() ==> !((#[trigger] s[i]).type_id == (#[trigger] s[j]).type_id
            && s[i].key == s[j].key)
}

/// No two entries record the same value type.
pub open spec fn unique_types(s: Seq<TypeEntry>) -> bool {
    forall|i: int, j: int|
        0 <= i < j < s.len() ==> (#[trigger] s[i]).type_id != (#[trigger] s[j]).type_id
}

impl PrevSlots {
    /// Whether an explicit-key mapping exists for (t, k).
    pub open spec fn has_key(self, t: ValueTypeId, k: u64) -> bool {
        exists|i: int|
            0 <= i < self.by_key@.len() && (#[trigger] self.by_key@[i]).type_id == t
                && self.by_key@[i].key == k
    }

    /// Position of the explicit-key mapping for (t, k), if it exists.
    pub open spec fn key_pos(self, t: ValueTypeId, k: u64) -> int {
        choose|i: int|
            0 <= i < self.by_key@.len() && (#[trigger] self.by_key@[i]).type_id == t
                && self.by_key@[i].key == k
    }

    /// The slot index the previous execution used for (t, k), if any.
    pub open spec fn key_index(self, t: ValueTypeId, k: u64) -> Option<usize> {
        if self.has_key(t, k) {
            Some(self.by_key@[self.key_pos(t, k)].index)
        } else {
            None
        }
    }

    /// Whether a positional record exists for value type `t`.
    pub open spec fn has_type(self, t: ValueTypeId) -> bool {
        exists|i: int|
            0 <= i < self.by_type@.len() && (#[trigger] self.by_type@[i]).type_id == t
    }

    /// Position of the record for value type `t`, if it exists.
    pub open spec fn type_pos(self, t: ValueTypeId) -> int {
        choose|i: int|
            0 <= i < self.by_type@.len() && (#[trigger] self.by_type@[i]).type_id == t
    }

    /// The per-type cursor: how many positional requests for `t` the current
    /// execution has already made.
    pub open spec fn type_cursor(self, t: ValueTypeId) -> nat {
        if self.has_type(t) {
            self.by_type@[self.type_pos(t)].cursor as nat
        } else {
            0
        }
    }

    /// The slot indices recorded for positional requests of type `t`.
    pub open spec fn type_list(self, t: ValueTypeId) -> Seq<usize> {
        if self.has_type(t) {
            self.by_type@[self.type_pos(t)].indices@
        } else {
            Seq::empty()
        }
    }

    /// Well-formedness: identities are recorded at most once, cursors never
    /// run past their list, and every recorded index points at an allocated
    /// slot of the owning task.
    pub open spec fn wf(self, slot_count: nat) -> bool {
        &&& unique_keys(self.by_key@)
        &&& forall|i: int|
            0 <= i < self.by_key@.len() ==> (#[trigger] self.by_key@[i]).index < slot_count
        &&& unique_types(self.by_type@)
        &&& forall|i: int|
            0 <= i < self.by_type@.len() ==> (#[trigger] self.by_type@[i]).cursor
                <= self.by_type@[i].indices@.len()
        &&& forall|i: int, j: int|
            0 <= i < self.by_type@.len() && 0 <= j < self.by_type@[i].indices@.len() ==> (
            #[trigger] self.by_type@[i].indices@[j]) < slot_count
    }

    /// An empty mapping: the state before a task's first execution.
    pub fn empty() -> (m: PrevSlots)
        ensures
            m.by_key@ =~= Seq::<KeyedEntry>::empty(),
            m.by_type@ =~= Seq::<TypeEntry>::empty(),
            m.wf(0),
    {
        PrevSlots { by_key: Vec::new(), by_type: Vec::new() }
    }

    /// Looks up the slot index for explicit key (t, k); records `fresh` as its
    /// index if the identity is new. Returns the index and whether `fresh` was
    /// consumed (in which case the caller must allocate that slot).
    #[verifier::loop_isolation(false)]
    pub fn key_next(&mut self, t: ValueTypeId, k: u64, fresh: usize) -> (r: (usize, bool))
        requires
            old(self).wf(fresh as nat),
        ensures
            final(self).wf(fresh as nat + 1),
            !r.1 ==> final(self).wf(fresh as nat),
            r.1 == !old(self).has_key(t, k),
            old(self).has_key(t, k) ==> *final(self) == *old(self) && old(self).key_index(t, k)
                == Some(r.0),
            !old(self).has_key(t, k) ==> {
                &&& r.0 == fresh
                &&& final(self).by_key@ == old(self).by_key@.push(
                    KeyedEntry { type_id: t, key: k, index: fresh },
                )
                &&& final(self).by_type@ == old(self).by_type@
            },
            final(self).key_index(t, k) == Some(r.0),
            forall|t2: ValueTypeId, k2: u64|
                !(t2 == t && k2 == k) ==> final(self).key_index(t2, k2) == old(self).key_index(
                    t2,
                    k2,
                ),
            forall|t2: ValueTypeId|
                final(self).type_cursor(t2) == old(self).type_cursor(t2)
                    && final(self).type_list(t2) == old(self).type_list(t2),
    {
        let n = self.by_key.len();
        let mut i: usize = 0;
        while i < n
            invariant
                n == self.by_key@.len(),
                i <= n,
                *self == *old(self),
                forall|p: int|
                    0 <= p < i ==> !((#[trigger] self.by_key@[p]).type_id == t
                        && self.by_key@[p].key == k),
            decreases n - i,
        {
            let e = self.by_key[i];
            if e.type_id == t && e.key == k {
                proof {
                    assert(self.has_key(t, k));
                    let p = self.key_pos(t, k);
                    assert(self.by_key@[p].type_id == t && self.by_key@[p].key == k);
                    if p != i {
                        assert(false);  // uniqueness of (type, key) pairs
                    }
                }
                return (e.index, false);
            }
            i += 1;
        }
        proof {
            assert(!self.has_key(t, k));
        }
        self.by_key.push(KeyedEntry { type_id: t, key: k, index: fresh });
        proof {
            let m1 = *self;
            let m0 = *old(self);
            assert(m1.by_key@ == m0.by_key@.push(KeyedEntry { type_id: t, key: k, index: fresh }));
            assert(m1.by_key@[m0.by_key@.len() as int].type_id == t);
            assert(m1.has_key(t, k));
            let p = m1.key_pos(t, k);
            if p != m0.by_key@.len() as int {
                assert(m0.by_key@[p].type_id == t && m0.by_key@[p].key == k);
                assert(m0.has_key(t, k));
                assert(false);
            }
            assert(m1.key_index(t, k) == Some(fresh));
            assert forall|t2: ValueTypeId, k2: u64| !(t2 == t && k2 == k) implies m1.key_index(
                t2,
                k2,
            ) == m0.key_index(t2, k2) by {
                lemma_key_push_preserves(m0, m1, t, k, fresh, t2, k2);
            }
            assert forall|t2: ValueTypeId| m1.type_cursor(t2) == m0.type_cursor(t2)
                && m1.type_list(t2) == m0.type_list(t2) by {
                assert(m1.by_type@ == m0.by_type@);
            }
        }
        (fresh, true)
    }

    /// Serves the next positional request for value type `t`: reuses the slot
    /// index recorded at the cursor position, or records `fresh` if the
    /// previous execution made fewer requests. Advances the cursor. Returns
    /// the index and whether `fresh` was consumed.
    #[verifier::loop_isolation(false)]
    pub fn type_next(&mut self, t: ValueTypeId, fresh: usize) -> (r: (usize, bool))
        requires
            old(self).wf(fresh as nat),
        ensures
            final(self).wf(fresh as nat + 1),
            !r.1 ==> final(self).wf(fresh as nat),
            r.1 == (old(self).type_cursor(t) == old(self).type_list(t).len()),
            old(self).type_cursor(t) < old(self).type_list(t).len() ==> {
                &&& r.0 == old(self).type_list(t)[old(self).type_cursor(t) as int]
                &&& final(self).type_list(t) == old(self).type_list(t)
            },
            old(self).type_cursor(t) == old(self).type_list(t).len() ==> {
                &&& r.0 == fresh
                &&& final(self).type_list(t) == old(self).type_list(t).push(fresh)
            },
            final(self).type_cursor(t) == old(self).type_cursor(t) + 1,
            final(self).type_list(t)[old(self).type_cursor(t) as int] == r.0,
            forall|t2: ValueTypeId|
                t2 != t ==> final(self).type_cursor(t2) == old(self).type_cursor(t2)
                    && final(self).type_list(t2) == old(self).type_list(t2),
            forall|t2: ValueTypeId, k2: u64|
                final(self).key_index(t2, k2) == old(self).key_index(t2, k2),
            final(self).by_key@ == old(self).by_key@,
    {
        let n = self.by_type.len();
        let mut i: usize = 0;
        let ghost m0 = *old(self);
        while i < n
            invariant
                n == self.by_type@.len(),
                i <= n,
                *self == m0,
                forall|p: int| 0 <= p < i ==> (#[trigger] self.by_type@[p]).type_id != t,
            decreases n - i,
        {
            if self.by_type[i].type_id == t {
                proof {
                    assert(self.has_type(t));
                    let p = self.type_pos(t);
                    assert(self.by_type@[p].type_id == t);
                    if p != i {
                        assert(false);  // type ids are unique
                    }
                }
                let c = self.by_type[i].cursor;
                let len = self.by_type[i].indices.len();
                let idx: usize;
                let used_fresh: bool;
                if c < len {
                    idx = self.by_type[i].indices[c];
                    used_fresh = false;
                    self.by_type[i].cursor = c + 1;
                } else {
                    self.by_type[i].indices.push(fresh);
                    idx = fresh;
                    used_fresh = true;
                    let grown = self.by_type[i].indices.len();
                    self.by_type[i].cursor = grown;
                }
                proof {
                    let m1 = *self;
                    assert(m1.by_type@[i as int].type_id == t);
                    assert(m1.has_type(t));
                    let p1 = m1.type_pos(t);
                    assert(m1.by_type@[p1].type_id == t);
                    if p1 != i {
                        assert(m0.by_type@[p1].type_id == t);
                        assert(false);
                    }
                    assert forall|t2: ValueTypeId| t2 != t implies m1.type_cursor(t2)
                        == m0.type_cursor(t2) && m1.type_list(t2) == m0.type_list(t2) by {
                        lemma_type_update_preserves(m0, m1, i as int, t2);
                    }
                }
                return (idx, used_fresh);
            }
            i += 1;
        }
        proof {
            assert(!self.has_type(t));
        }
        let mut indices: Vec<usize> = Vec::new();
        indices.push(fresh);
        self.by_type.push(TypeEntry { type_id: t, cursor: 1, indices });
        proof {
            let m1 = *self;
            assert(m1.by_type@[m0.by_type@.len() as int].type_id == t);
            assert(m1.has_type(t));
            let p1 = m1.type_pos(t);
            if p1 != m0.by_type@.len() as int {
                assert(m0.by_type@[p1].type_id == t);
                assert(false);
            }
            assert(m1.type_list(t) =~= m0.type_list(t).push(fresh));
            assert forall|t2: ValueTypeId| t2 != t implies m1.type_cursor(t2) == m0.type_cursor(t2)
                && m1.type_list(t2) == m0.type_list(t2) by {
                if m1.has_type(t2) {
                    let p2 = m1.type_pos(t2);
                    assert(m1.by_type@[p2].type_id == t2);
                    assert(p2 < m0.by_type@.len());
                    assert(m0.has_type(t2));
                    let p0 = m0.type_pos(t2);
                    assert(m0.by_type@[p0].type_id == t2);
                    if p0 != p2 {
                        assert(m1.by_type@[p0].type_id == t2);
                        assert(false);
                    }
                } else {
                    if m0.has_type(t2) {
                        let p0 = m0.type_pos(t2);
                        assert(m1.by_type@[p0].type_id == t2);
                        assert(false);
                    }
                }
            }
        }
        (fresh, true)
    }

    /// Resets every per-type cursor to zero; called when an execution starts,
    /// so positional requests replay from the front.
    #[verifier::loop_isolation(false)]
    pub fn reset_cursors(&mut self)
        requires
            unique_types(old(self).by_type@),
        ensures
            forall|t: ValueTypeId| final(self).type_cursor(t) == 0,
            forall|t: ValueTypeId| final(self).type_list(t) == old(self).type_list(t),
            forall|t: ValueTypeId, k: u64|
                final(self).key_index(t, k) == old(self).key_index(t, k),
            final(self).by_key@ == old(self).by_key@,
            final(self).by_type@.len() == old(self).by_type@.len(),
            forall|i: int|
                0 <= i < final(self).by_type@.len() ==> (#[trigger] final(self).by_type@[i])
                    == (TypeEntry { cursor: 0usize, ..old(self).by_type@[i] }),
            forall|n: nat| old(self).wf(n) ==> final(self).wf(n),
    {
        let ghost m0 = *old(self);
        let n = self.by_type.len();
        let mut i: usize = 0;
        while i < n
            invariant
                n == self.by_type@.len(),
                i <= n,
                self.by_key@ == m0.by_key@,
                self.by_type@.len() == m0.by_type@.len(),
                forall|p: int|
                    0 <= p < i ==> (#[trigger] self.by_type@[p]) == (TypeEntry {
                        cursor: 0usize,
                        ..m0.by_type@[p]
                    }),
                forall|p: int| i <= p < n ==> self.by_type@[p] == m0.by_type@[p],
            decreases n - i,
        {
            self.by_type[i].cursor = 0;
            i += 1;
        }
        proof {
            let m1 = *self;
            assert forall|t: ValueTypeId| m1.type_cursor(t) == 0 && m1.type_list(t)
                == m0.type_list(t) by {
                if m1.has_type(t) {
                    let p1 = m1.type_pos(t);
                    assert(m1.by_type@[p1] == (TypeEntry { cursor: 0usize, ..m0.by_type@[p1] }));
                    assert(m0.by_type@[p1].type_id == t);
                    assert(m0.has_type(t));
                    let p0 = m0.type_pos(t);
                    if p0 != p1 {
                        assert(m0.by_type@[p0].type_id == t);
                        assert(m0.by_type@[p1].type_id == t);
                        assert(false);
                    }
                } else {
                    if m0.has_type(t) {
                        let p0 = m0.type_pos(t);
                        assert(m1.by_type@[p0].type_id == t);
                        assert(false);
                    }
                }
            }
        }
    }
}

/// Pushing a new explicit-key mapping leaves every other identity's lookup
/// unchanged.
proof fn lemma_key_push_preserves(
    m0: PrevSlots,
    m1: PrevSlots,
    t: ValueTypeId,
    k: u64,
    fresh: usize,
    t2: ValueTypeId,
    k2: u64,
)
    requires
        unique_keys(m1.by_key@),
        m1.by_key@ == m0.by_key@.push(KeyedEntry { type_id: t, key: k, index: fresh }),
        !(t2 == t && k2 == k),
    ensures
        m1.key_index(t2, k2) == m0.key_index(t2, k2),
{
    if m1.has_key(t2, k2) {
        let p = m1.key_pos(t2, k2);
        assert(m1.by_key@[p].type_id == t2 && m1.by_key@[p].key == k2);
        assert(p < m0.by_key@.len());
        assert(m0.has_key(t2, k2));
        let p0 = m0.key_pos(t2, k2);
        assert(m0.by_key@[p0].type_id == t2 && m0.by_key@[p0].key == k2);
        assert(m1.by_key@[p0] == m0.by_key@[p0]);
        if m1.key_index(t2, k2) != m0.key_index(t2, k2) {
            assert(m1.by_key@[p].index != m0.by_key@[p0].index);
            assert(p != p0);
            assert(false);  // two distinct positions with the same identity
        }
    } else {
        if m0.has_key(t2, k2) {
            let p0 = m0.key_pos(t2, k2);
            assert(m1.by_key@[p0].type_id == t2 && m1.by_key@[p0].key == k2);
            assert(false);
        }
    }
}

/// Updating the positional record at one position leaves every other value
/// type's cursor and list unchanged.
proof fn lemma_type_update_preserves(m0: PrevSlots, m1: PrevSlots, i: int, t2: ValueTypeId)
    requires
        unique_types(m0.by_type@),
        unique_types(m1.by_type@),
        0 <= i < m0.by_type@.len(),
        m1.by_type@.len() == m0.by_type@.len(),
        forall|p: int| 0 <= p < m0.by_type@.len() && p != i ==> m1.by_type@[p] == m0.by_type@[p],
        m1.by_type@[i].type_id == m0.by_type@[i].type_id,
        t2 != m0.by_type@[i].type_id,
    ensures
        m1.type_cursor(t2) == m0.type_cursor(t2),
        m1.type_list(t2) == m0.type_list(t2),
{
    if m1.has_type(t2) {
        let p1 = m1.type_pos(t2);
        assert(m1.by_type@[p1].type_id == t2);
        assert(p1 != i);
        assert(m0.by_type@[p1].type_id == t2);
        assert(m0.has_type(t2));
        let p0 = m0.type_pos(t2);
        assert(m0.by_type@[p0].type_id == t2);
        assert(p0 != i);
        assert(m1.by_type@[p0].type_id == t2);
        if p0 != p1 {
            assert(m1.type_cursor(t2) == m1.by_type@[p1].cursor as nat);
        }
        assert(m1.by_type@[p1] == m0.by_type@[p1]);
        if m1.type_cursor(t2) != m0.type_cursor(t2) || m1.type_list(t2) != m0.type_list(t2) {
            assert(p1 != p0);
            assert(m0.by_type@[p1].type_id == t2 && m0.by_type@[p0].type_id == t2);
            assert(false);  // two distinct positions with the same type id
        }
    } else {
        if m0.has_type(t2) {
            let p0 = m0.type_pos(t2);
            assert(p0 != i);
            assert(m1.by_type@[p0].type_id == t2);
            assert(false);
        }
    }
}

} // verus!

// The replay law: a re-execution that makes the same slot requests as the
// previous execution is served the same slot indices. The model below mirrors
// the mapping state — explicit-key table, per-type index lists and cursors,
// and the next fresh slot index — and interprets request sequences against
// it; the law is proved for every request sequence by induction.

verus! {

/// One slot request of an executing body: by explicit key, or positional.
#[derive(Clone, Copy, PartialEq, Eq, Structural, Debug)]
pub enum SlotRequest {
    Keyed(ValueTypeId, u64),
    Positional(ValueTypeId),
}

/// The mapping state a request sequence is interpreted against.
pub struct ReplayModel {
    pub keys: Map<(ValueTypeId, u64), int>,
    pub lists: Map<ValueTypeId, Seq<int>>,
    pub cursors: Map<ValueTypeId, int>,
    pub fresh: int,
}

/// The recorded index for an explicit key, if any.
pub open spec fn key_of(m: ReplayModel, t: ValueTypeId, k: u64) -> Option<int> {
    if m.keys.dom().contains((t, k)) {
        Some(m.keys[(t, k)])
    } else {
        None
    }
}

/// The recorded positional index list of a value type.
pub open spec fn list_of(m: ReplayModel, t: ValueTypeId) -> Seq<int> {
    if m.lists.dom().contains(t) {
        m.lists[t]
    } else {
        Seq::empty()
    }
}

/// The positional cursor of a value type.
pub open spec fn cur_of(m: ReplayModel, t: ValueTypeId) -> int {
    if m.cursors.dom().contains(t) {
        m.cursors[t]
    } else {
        0
    }
}

/// Cursors never run past their lists.
pub open spec fn bounded(m: ReplayModel) -> bool {
    forall|t: ValueTypeId| 0 <= #[trigger] cur_of(m, t) <= list_of(m, t).len()
}

/// All cursors are at the start: the state of a freshly begun execution.
pub open spec fn cursors_zero(m: ReplayModel) -> bool {
    forall|t: ValueTypeId| #[trigger] cur_of(m, t) == 0
}

/// The index a request is served.
pub open spec fn step_index(m: ReplayModel, r: SlotRequest) -> int {
    match r {
        SlotRequest::Keyed(t, k) => match key_of(m, t, k) {
            Some(i) => i,
            None => m.fresh,
        },
        SlotRequest::Positional(t) => if cur_of(m, t) < list_of(m, t).len() {
            list_of(m, t)[cur_of(m, t)]
        } else {
            m.fresh
        },
    }
}

/// The mapping state after serving a request.
pub open spec fn step_state(m: ReplayModel, r: SlotRequest) -> ReplayModel {
    match r {
        SlotRequest::Keyed(t, k) => match key_of(m, t, k) {
            Some(i) => m,
            None => ReplayModel { keys: m.keys.insert((t, k), m.fresh), fresh: m.fresh + 1, ..m },
        },
        SlotRequest::Positional(t) => if cur_of(m, t) < list_of(m, t).len() {
            ReplayModel { cursors: m.cursors.insert(t, cur_of(m, t) + 1), ..m }
        } else {
            ReplayModel {
                lists: m.lists.insert(t, list_of(m, t).push(m.fresh)),
                cursors: m.cursors.insert(t, cur_of(m, t) + 1),
                fresh: m.fresh + 1,
                ..m
            }
        },
    }
}

/// The indices a whole request sequence is served, in order.
pub open spec fn run_indices(m: ReplayModel, rs: Seq<SlotRequest>) -> Seq<int>
    decreases rs.len(),
{
    if rs.len() == 0 {
        Seq::empty()
    } else {
        seq![step_index(m, rs[0])] + run_indices(step_state(m, rs[0]), rs.drop_first())
    }
}

/// The mapping state after a whole request sequence.
pub open spec fn run_state(m: ReplayModel, rs: Seq<SlotRequest>) -> ReplayModel
    decreases rs.len(),
{
    if rs.len() == 0 {
        m
    } else {
        run_state(step_state(m, rs[0]), rs.drop_first())
    }
}

/// The state handed to the next execution: the committed tables with every
/// cursor reset.
pub open spec fn reset(m: ReplayModel) -> ReplayModel {
    ReplayModel { cursors: Map::empty(), ..m }
}

/// Serving requests only adds mappings: recorded keys keep their index, and
/// recorded index lists only grow at the end.
pub open spec fn grows(a: ReplayModel, b: ReplayModel) -> bool {
    &&& forall|t: ValueTypeId, k: u64|
        (#[trigger] key_of(a, t, k)) is Some ==> key_of(b, t, k) == key_of(a, t, k)
    &&& forall|t: ValueTypeId| (#[trigger] list_of(a, t)).is_prefix_of(list_of(b, t))
}

proof fn lemma_prefix_refl_int(s: Seq<int>)
    ensures
        s.is_prefix_of(s),
{
    assert(s =~= s.subrange(0, s.len() as int));
}

proof fn lemma_prefix_trans_int(a: Seq<int>, b: Seq<int>, c: Seq<int>)
    requires
        a.is_prefix_of(b),
        b.is_prefix_of(c),
    ensures
        a.is_prefix_of(c),
{
    assert(a =~= c.subrange(0, a.len() as int));
}

/// One step grows the mapping and keeps cursors bounded.
proof fn lemma_step_grows(m: ReplayModel, r: SlotRequest)
    requires
        bounded(m),
    ensures
        grows(m, step_state(m, r)),
        bounded(step_state(m, r)),
{
    let m2 = step_state(m, r);
    assert forall|t: ValueTypeId| (#[trigger] list_of(m, t)).is_prefix_of(list_of(m2, t)) by {
        if list_of(m2, t) == list_of(m, t) {
            lemma_prefix_refl_int(list_of(m, t));
        } else {
            assert(list_of(m, t) =~= list_of(m2, t).subrange(0, list_of(m, t).len() as int));
        }
    }
    assert forall|t: ValueTypeId| 0 <= #[trigger] cur_of(m2, t) <= list_of(m2, t).len() by {
        assert(cur_of(m, t) <= list_of(m, t).len());
        assert(list_of(m, t).is_prefix_of(list_of(m2, t)));
    }
}

/// A whole run grows the mapping and keeps cursors bounded.
proof fn lemma_run_grows(m: ReplayModel, rs: Seq<SlotRequest>)
    requires
        bounded(m),
    ensures
        grows(m, run_state(m, rs)),
        bounded(run_state(m, rs)),
    decreases rs.len(),
{
    if rs.len() == 0 {
        assert forall|t: ValueTypeId| (#[trigger] list_of(m, t)).is_prefix_of(list_of(m, t)) by {
            lemma_prefix_refl_int(list_of(m, t));
        }
    } else {
        let m1 = step_state(m, rs[0]);
        lemma_step_grows(m, rs[0]);
        lemma_run_grows(m1, rs.drop_first());
        let fin = run_state(m, rs);
        assert(fin == run_state(m1, rs.drop_first()));
        assert forall|t: ValueTypeId, k: u64| (#[trigger] key_of(m, t, k)) is Some implies key_of(
            fin,
            t,
            k,
        ) == key_of(m, t, k) by {
            assert(key_of(m1, t, k) == key_of(m, t, k));
        }
        assert forall|t: ValueTypeId| (#[trigger] list_of(m, t)).is_prefix_of(list_of(fin, t)) by {
            assert(list_of(m1, t).is_prefix_of(list_of(fin, t)));
            lemma_prefix_trans_int(list_of(m, t), list_of(m1, t), list_of(fin, t));
        }
    }
}

/// The induction core of the replay law: if `mb` holds the tables the first
/// run committed (its final key table and index lists) and its cursors agree
/// with `ma`'s, then interpreting the same requests from `mb` returns exactly
/// the indices the first run returned, and the committed tables do not change
/// again.
proof fn lemma_replay_general(ma: ReplayModel, mb: ReplayModel, rs: Seq<SlotRequest>)
    requires
        bounded(ma),
        mb.keys == run_state(ma, rs).keys,
        mb.lists == run_state(ma, rs).lists,
        forall|t: ValueTypeId| #[trigger] cur_of(mb, t) == cur_of(ma, t),
    ensures
        run_indices(mb, rs) == run_indices(ma, rs),
    decreases rs.len(),
{
    if rs.len() == 0 {
        assert(run_indices(mb, rs) =~= run_indices(ma, rs));
    } else {
        let r = rs[0];
        let rest = rs.drop_first();
        let ma1 = step_state(ma, r);
        let fin = run_state(ma, rs);
        assert(fin == run_state(ma1, rest));
        lemma_step_grows(ma, r);
        lemma_run_grows(ma1, rest);
        match r {
            SlotRequest::Keyed(t, k) => {
                match key_of(ma, t, k) {
                    Some(i) => {
                        assert(key_of(ma1, t, k) == Some(i));
                        assert(key_of(fin, t, k) == Some(i));
                        assert(key_of(mb, t, k) == Some(i));
                        assert(step_index(mb, r) == i == step_index(ma, r));
                        assert(step_state(mb, r) == mb);
                        lemma_replay_general(ma1, mb, rest);
                    },
                    None => {
                        assert(key_of(ma1, t, k) == Some(ma.fresh));
                        assert(key_of(fin, t, k) == Some(ma.fresh));
                        assert(key_of(mb, t, k) == Some(ma.fresh));
                        assert(step_index(mb, r) == ma.fresh == step_index(ma, r));
                        assert(step_state(mb, r) == mb);
                        assert forall|t2: ValueTypeId| #[trigger] cur_of(mb, t2) == cur_of(
                            ma1,
                            t2,
                        ) by {
                            assert(cur_of(ma1, t2) == cur_of(ma, t2));
                        }
                        lemma_replay_general(ma1, mb, rest);
                    },
                }
            },
            SlotRequest::Positional(t) => {
                let c = cur_of(ma, t);
                assert(cur_of(mb, t) == c);
                let mb1 = step_state(mb, r);
                if c < list_of(ma, t).len() {
                    // Reuse: the committed list already holds the index.
                    assert(list_of(ma1, t) == list_of(ma, t));
                    assert(list_of(ma, t).is_prefix_of(list_of(fin, t))) by {
                        lemma_prefix_trans_int(list_of(ma, t), list_of(ma1, t), list_of(fin, t));
                    }
                    assert(list_of(mb, t) == list_of(fin, t));
                    assert(list_of(mb, t)[c] == list_of(ma, t)[c]);
                    assert(step_index(mb, r) == step_index(ma, r));
                    assert(mb1.keys == mb.keys && mb1.lists == mb.lists);
                    assert forall|t2: ValueTypeId| #[trigger] cur_of(mb1, t2) == cur_of(
                        ma1,
                        t2,
                    ) by {
                        if t2 != t {
                            assert(cur_of(mb1, t2) == cur_of(mb, t2));
                            assert(cur_of(ma1, t2) == cur_of(ma, t2));
                        }
                    }
                    lemma_replay_general(ma1, mb1, rest);
                } else {
                    // Append: the first run recorded the fresh index at
                    // position c, where the replay finds it again.
                    assert(c == list_of(ma, t).len());
                    assert(list_of(ma1, t) == list_of(ma, t).push(ma.fresh));
                    assert(list_of(ma1, t).is_prefix_of(list_of(fin, t)));
                    assert(list_of(mb, t) == list_of(fin, t));
                    assert(list_of(fin, t)[c] == list_of(ma1, t)[c]);
                    assert(list_of(ma1, t)[c] == ma.fresh);
                    assert(c < list_of(mb, t).len());
                    assert(step_index(mb, r) == ma.fresh == step_index(ma, r));
                    assert(mb1.keys == mb.keys && mb1.lists == mb.lists);
                    assert forall|t2: ValueTypeId| #[trigger] cur_of(mb1, t2) == cur_of(
                        ma1,
                        t2,
                    ) by {
                        if t2 != t {
                            assert(cur_of(mb1, t2) == cur_of(mb, t2));
                            assert(cur_of(ma1, t2) == cur_of(ma, t2));
                        }
                    }
                    lemma_replay_general(ma1, mb1, rest);
                }
            },
        }
        assert(run_indices(mb, rs) =~= run_indices(ma, rs));
    }
}

/// Law: re-executing with unchanged positional and keyed slot requests yields
/// slot indices identical to the previous execution. The previous run starts
/// from a reset mapping `m`, commits its tables, and the next run replays the
/// same requests against those tables with cursors reset.
pub proof fn lemma_slot_identity_stable(m: ReplayModel, rs: Seq<SlotRequest>)
    requires
        bounded(m),
        cursors_zero(m),
    ensures
        run_indices(reset(run_state(m, rs)), rs) == run_indices(m, rs),
{
    let fin = run_state(m, rs);
    let mb = reset(fin);
    assert forall|t: ValueTypeId| #[trigger] cur_of(mb, t) == cur_of(m, t) by {
        assert(!mb.cursors.dom().contains(t));
        assert(cur_of(m, t) == 0);
    }
    lemma_replay_general(m, mb, rs);
}

} // verus!
