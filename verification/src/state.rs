//! Per-account ledger state: one active locked balance plus any number of
//! pending timestamped unlock slots, and the process-wide constants.

use vstd::prelude::*;

verus! {

/// Process-wide constants, immutable after initialization. They are
/// informational: in this generalized design neither interval gates an
/// operation. Whether `unlock_interval` should delay an unlock request is a
/// policy choice left to the caller, not a structural rule of the ledger.
#[derive(Clone, Debug)]
pub struct Constants {
    /// Hint, in seconds, for how often a rebase is expected to be triggered.
    pub rebase_interval: u64,
    /// Hint, in seconds, for the intended unlock waiting time.
    pub unlock_interval: u64,
    /// The denomination identifier of the base asset.
    pub denom: String,
}

/// An owner's locked balance: the principal together with the multiplier in
/// effect when the principal was last fixed.
#[derive(Clone, Copy, Debug, PartialEq, Eq, Structural)]
pub struct LockEntry {
    pub amount: u128,
    pub rebase_at_lock: u128,
}

/// One pending unlock slot, keyed by the time the unlock was requested.
#[derive(Clone, Copy, Debug, PartialEq, Eq, Structural)]
pub struct UnlockEntry {
    pub amount: u128,
    pub time: u64,
    pub rebase_at_lock: u128,
}

/// Unlock request times are strictly increasing: at most one slot per time.
pub open spec fn unlocks_sorted(s: Seq<UnlockEntry>) -> bool {
    forall|i: int, j: int| 0 <= i < j < s.len() ==> s[i].time < s[j].time
}

/// The index of the unlock slot at exactly time `t`, scanning from the front.
pub open spec fn spec_find_unlock(s: Seq<UnlockEntry>, t: int) -> Option<int>
    decreases s.len(),
{
    if s.len() == 0 {
        None
    } else if s[0].time == t {
        Some(0)
    } else {
        match spec_find_unlock(s.drop_first(), t) {
            Option::None => None,
            Option::Some(i) => Some(i + 1),
        }
    }
}

/// Length of the prefix of unlock slots requested before `t`; for a sorted
/// account this is where a new time-`t` slot belongs.
pub open spec fn unlocks_len_before(s: Seq<UnlockEntry>, t: int) -> int
    decreases s.len(),
{
    if s.len() == 0 {
        0
    } else if s[0].time < t {
        1 + unlocks_len_before(s.drop_first(), t)
    } else {
        0
    }
}

/// One participant's state: the owner's name, the active lock if any, and the
/// pending unlock slots in ascending request-time order.
#[derive(Debug)]
pub struct Account {
    pub owner: String,
    pub lock: Option<LockEntry>,
    pub unlocks: Vec<UnlockEntry>,
}

impl Account {
    /// Well-formed: slots in strict time order, and a present lock holds a
    /// positive principal (a lock is deleted the moment it reaches zero).
    pub open spec fn wf(self) -> bool {
        &&& unlocks_sorted(self.unlocks@)
        &&& (self.lock matches Some(l) ==> l.amount > 0)
    }
}

/// Wherever a slot find answers, it answers with a slot at that time; where
/// it does not, no slot sits at that time.
pub(crate) proof fn lemma_find_unlock_props(s: Seq<UnlockEntry>, t: int)
    ensures
        match spec_find_unlock(s, t) {
            Option::None => forall|j: int| 0 <= j < s.len() ==> (#[trigger] s[j]).time != t,
            Option::Some(i) => 0 <= i < s.len() && s[i].time == t,
        },
    decreases s.len(),
{
    if s.len() > 0 && s[0].time != t {
        lemma_find_unlock_props(s.drop_first(), t);
        let sub = s.drop_first();
        match spec_find_unlock(sub, t) {
            Option::None => {
                assert forall|j: int| 0 <= j < s.len() implies (#[trigger] s[j]).time != t by {
                    if j > 0 {
                        assert(sub[j - 1] == s[j]);
                        assert(sub[j - 1].time != t);
                    }
                }
            },
            Option::Some(i) => {
                assert(sub[i] == s[i + 1]);
                assert(spec_find_unlock(s, t) == Some(i + 1));
            },
        }
    }
}

/// A scan that stops at the first slot at time `t` computes the find.
pub(crate) proof fn lemma_find_unlock_found(s: Seq<UnlockEntry>, t: int, i: int)
    requires
        0 <= i < s.len(),
        s[i].time == t,
        forall|j: int| 0 <= j < i ==> (#[trigger] s[j]).time != t,
    ensures
        spec_find_unlock(s, t) == Some(i),
    decreases s.len(),
{
    if i > 0 {
        let sub = s.drop_first();
        assert(sub[i - 1] == s[i]);
        assert(forall|j: int| 0 <= j < i - 1 ==> sub[j] == s[j + 1]);
        lemma_find_unlock_found(sub, t, i - 1);
    }
}

/// A scan that matches nowhere computes an empty find.
pub(crate) proof fn lemma_find_unlock_none(s: Seq<UnlockEntry>, t: int)
    requires
        forall|j: int| 0 <= j < s.len() ==> (#[trigger] s[j]).time != t,
    ensures
        spec_find_unlock(s, t) is None,
    decreases s.len(),
{
    if s.len() > 0 {
        let sub = s.drop_first();
        assert(forall|j: int| 0 <= j < sub.len() ==> sub[j] == s[j + 1]);
        lemma_find_unlock_none(sub, t);
    }
}

/// For a sorted slot vector split at `i` between times below `t` and times
/// above `t`, the time-`t` insertion point is exactly `i`.
pub(crate) proof fn lemma_unlocks_len_before_bounds(s: Seq<UnlockEntry>, t: int, i: int)
    requires
        0 <= i <= s.len(),
        forall|j: int| 0 <= j < i ==> (#[trigger] s[j]).time < t,
        forall|j: int| i <= j < s.len() ==> (#[trigger] s[j]).time > t,
    ensures
        unlocks_len_before(s, t) == i,
    decreases s.len(),
{
    if s.len() == 0 {
    } else if i == 0 {
        assert(s[0].time > t);
    } else {
        assert(s[0].time < t);
        assert(forall|j: int| 0 <= j < i - 1 ==> s.drop_first()[j] == s[j + 1]);
        assert(forall|j: int| i - 1 <= j < s.drop_first().len() ==> s.drop_first()[j] == s[j + 1]);
        lemma_unlocks_len_before_bounds(s.drop_first(), t, i - 1);
    }
}

/// Find the index of the slot requested at exactly time `t`.
pub(crate) fn find_unlock_idx(unlocks: &Vec<UnlockEntry>, t: u64) -> (r: Option<usize>)
    ensures
        r is None ==> spec_find_unlock(unlocks@, t as int) is None,
        r matches Some(u) ==> spec_find_unlock(unlocks@, t as int) == Some(u as int),
{
    let ghost s = unlocks@;
    let mut k: usize = 0;
    while k < unlocks.len()
        invariant
            k <= s.len(),
            unlocks@ == s,
            t as int == t,
            forall|j: int| 0 <= j < k ==> (#[trigger] s[j]).time != t as int,
        decreases s.len() - k,
    {
        if unlocks[k].time == t {
            proof {
                lemma_find_unlock_found(s, t as int, k as int);
            }
            return Some(k);
        }
        k = k + 1;
    }
    proof {
        lemma_find_unlock_none(s, t as int);
    }
    None
}

/// Insert a slot whose request time is not yet present, keeping time order.
pub(crate) fn insert_unlock(unlocks: &mut Vec<UnlockEntry>, e: UnlockEntry)
    requires
        unlocks_sorted(old(unlocks)@),
        forall|j: int| 0 <= j < old(unlocks)@.len() ==> (#[trigger] old(unlocks)@[j]).time != e.time,
    ensures
        final(unlocks)@ == old(unlocks)@.insert(
            unlocks_len_before(old(unlocks)@, e.time as int),
            e,
        ),
        unlocks_sorted(final(unlocks)@),
{
    let ghost s = unlocks@;
    let ghost t = e.time as int;
    let mut i: usize = unlocks.len();
    while i > 0
        invariant
            i <= s.len(),
            unlocks@ == s,
            t == e.time as int,
            unlocks_sorted(s),
            forall|j: int| 0 <= j < s.len() ==> (#[trigger] s[j]).time != e.time,
            forall|j: int| i <= j < s.len() ==> (#[trigger] s[j]).time > t,
        ensures
            i == 0 || s[i as int - 1].time < t,
        decreases i,
    {
        let prev = unlocks[i - 1];
        proof {
            assert(prev == s[i as int - 1]);
        }
        if prev.time < e.time {
            break ;
        }
        proof {
            assert(s[i as int - 1].time > t);
        }
        i = i - 1;
    }
    assert(forall|j: int| 0 <= j < i ==> (#[trigger] s[j]).time < t) by {
        if i > 0 {
            assert(s[i - 1].time < t);
            assert(forall|j: int| 0 <= j < i - 1 ==> #[trigger] s[j].time < s[i - 1].time);
        }
    }
    proof {
        lemma_unlocks_len_before_bounds(s, t, i as int);
    }
    unlocks.insert(i, e);
    assert(unlocks_sorted(unlocks@)) by {
        let ns = s.insert(i as int, e);
        assert forall|a: int, b: int| 0 <= a < b < ns.len() implies ns[a].time < ns[b].time by {
            if b < i {
            } else if a > i {
            } else if a == i && b > i {
                assert(ns[b] == s[b - 1]);
            } else if b == i && a < i {
                assert(ns[a] == s[a]);
            } else if a < i && b > i {
                assert(ns[a] == s[a]);
                assert(ns[b] == s[b - 1]);
                assert(s[a].time < t);
                assert(s[b - 1].time > t);
            }
        }
    }
}

} // verus!
