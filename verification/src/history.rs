//! The append-only, time-ordered series of rebase multiplier snapshots, and
//! the two nearest-snapshot queries: at-or-before (used when a deposit
//! re-bases to the newest terms) and strictly-before (used when a withdrawal
//! settles a matured unlock, so that a rebase posted exactly at the unlock
//! time never affects it).

use vstd::prelude::*;

use crate::error::ContractError;

verus! {

/// One multiplier snapshot: the multiplier (as fixed-point atomics, see
/// `crate::convert`) in effect from `effective_time` on.
#[derive(Clone, Copy, Debug, PartialEq, Eq, Structural)]
pub struct RebaseSnapshot {
    pub effective_time: u64,
    pub multiplier: u128,
}

/// Snapshot times are strictly increasing: at most one snapshot per time.
pub open spec fn times_sorted(s: Seq<RebaseSnapshot>) -> bool {
    forall|i: int, j: int|
        0 <= i < j < s.len() ==> s[i].effective_time < s[j].effective_time
}

/// Whether some snapshot sits at exactly time `t`.
pub open spec fn spec_has_time(s: Seq<RebaseSnapshot>, t: int) -> bool {
    exists|i: int| 0 <= i < s.len() && s[i].effective_time == t
}

/// Length of the prefix of snapshots with time before `t`; for a sorted
/// history this is where a new time-`t` snapshot belongs.
pub open spec fn len_before(s: Seq<RebaseSnapshot>, t: int) -> int
    decreases s.len(),
{
    if s.len() == 0 {
        0
    } else if s[0].effective_time < t {
        1 + len_before(s.drop_first(), t)
    } else {
        0
    }
}

/// The snapshot with the greatest time at or before `t`, scanning from the
/// newest snapshot backwards.
pub open spec fn spec_at_or_before(s: Seq<RebaseSnapshot>, t: int) -> Option<RebaseSnapshot>
    decreases s.len(),
{
    if s.len() == 0 {
        None
    } else if s.last().effective_time <= t {
        Some(s.last())
    } else {
        spec_at_or_before(s.drop_last(), t)
    }
}

/// The snapshot with the greatest time strictly before `t`.
pub open spec fn spec_strictly_before(s: Seq<RebaseSnapshot>, t: int) -> Option<RebaseSnapshot>
    decreases s.len(),
{
    if s.len() == 0 {
        None
    } else if s.last().effective_time < t {
        Some(s.last())
    } else {
        spec_strictly_before(s.drop_last(), t)
    }
}

/// A lookup either finds a snapshot or reports the missing record.
pub open spec fn lookup_result(o: Option<RebaseSnapshot>) -> Result<RebaseSnapshot, ContractError> {
    match o {
        Option::None => Err(ContractError::NoRebaseRecord),
        Option::Some(s) => Ok(s),
    }
}

/// The append-only history of rebase snapshots, kept in ascending time order.
#[derive(Debug)]
pub struct RebaseHistory {
    snaps: Vec<RebaseSnapshot>,
}

impl View for RebaseHistory {
    type V = Seq<RebaseSnapshot>;

    closed spec fn view(&self) -> Seq<RebaseSnapshot> {
        self.snaps@
    }
}

impl RebaseHistory {
    /// Well-formed: snapshot times strictly increase.
    pub open spec fn wf(self) -> bool {
        times_sorted(self@)
    }

    /// An empty history.
    pub fn new() -> (h: Self)
        ensures
            h@ == Seq::<RebaseSnapshot>::empty(),
            h.wf(),
    {
        RebaseHistory { snaps: Vec::new() }
    }

    /// How many snapshots the history holds.
    pub fn len(&self) -> (n: usize)
        ensures
            n == self@.len(),
    {
        self.snaps.len()
    }

    /// Append a snapshot. Fails with `DuplicateTimestamp`, changing nothing,
    /// if a snapshot already sits at exactly that time; otherwise inserts it
    /// at its place in time order.
    pub fn append(&mut self, effective_time: u64, multiplier: u128) -> (r: Result<
        (),
        ContractError,
    >)
        requires
            old(self).wf(),
        ensures
            final(self).wf(),
            spec_has_time(old(self)@, effective_time as int) ==> r == Err::<
                (),
                ContractError,
            >(ContractError::DuplicateTimestamp) && final(self)@ == old(self)@,
            !spec_has_time(old(self)@, effective_time as int) ==> r == Ok::<(), ContractError>(())
                && final(self)@ == old(self)@.insert(
                len_before(old(self)@, effective_time as int),
                RebaseSnapshot { effective_time, multiplier },
            ),
    {
        let ghost s = self.snaps@;
        let ghost t = effective_time as int;
        let mut i: usize = self.snaps.len();
        while i > 0
            invariant
                i <= s.len(),
                self.snaps@ == s,
                t == effective_time as int,
                times_sorted(s),
                forall|j: int| i <= j < s.len() ==> s[j].effective_time > t,
            ensures
                i == 0 || s[i as int - 1].effective_time < t,
            decreases i,
        {
            let prev = self.snaps[i - 1];
            proof {
                assert(prev == s[i as int - 1]);
            }
            if prev.effective_time == effective_time {
                proof {
                    assert(s[i as int - 1].effective_time == t);
                    assert(spec_has_time(s, t));
                }
                return Err(ContractError::DuplicateTimestamp);
            }
            if prev.effective_time < effective_time {
                break ;
            }
            proof {
                assert(s[i as int - 1].effective_time > t);
            }
            i = i - 1;
        }
        assert(forall|j: int| 0 <= j < i ==> s[j].effective_time < t) by {
            if i > 0 {
                assert(s[i - 1].effective_time < t);
                assert(forall|j: int|
                    0 <= j < i - 1 ==> #[trigger] s[j].effective_time < s[i
                        - 1].effective_time);
            }
        }
        assert(!spec_has_time(s, t)) by {
            assert forall|j: int| 0 <= j < s.len() implies s[j].effective_time != t by {
                if j < i {
                    assert(s[j].effective_time < t);
                } else {
                    assert(s[j].effective_time > t);
                }
            }
        }
        proof {
            lemma_len_before_bounds(s, t, i as int);
        }
        let snap = RebaseSnapshot { effective_time, multiplier };
        self.snaps.insert(i, snap);
        assert(times_sorted(self.snaps@)) by {
            let ns = s.insert(i as int, snap);
            assert(forall|a: int, b: int|
                0 <= a < b < ns.len() ==> ns[a].effective_time < ns[b].effective_time) by {
                assert forall|a: int, b: int| 0 <= a < b < ns.len() implies ns[a].effective_time
                    < ns[b].effective_time by {
                    if b < i {
                    } else if a > i {
                    } else if a == i && b > i {
                        assert(ns[b] == s[b - 1]);
                    } else if b == i && a < i {
                        assert(ns[a] == s[a]);
                    } else if a < i && b > i {
                        assert(ns[a] == s[a]);
                        assert(ns[b] == s[b - 1]);
                        assert(s[a].effective_time < t);
                        assert(s[b - 1].effective_time > t);
                    }
                }
            }
        }
        Ok(())
    }


    /// All snapshots, oldest first.
    pub fn snapshots(&self) -> (r: Vec<RebaseSnapshot>)
        ensures
            r@ == self@,
    {
        let mut r: Vec<RebaseSnapshot> = Vec::new();
        let mut k: usize = 0;
        while k < self.snaps.len()
            invariant
                k <= self.snaps@.len(),
                r@ == self.snaps@.take(k as int),
            decreases self.snaps@.len() - k,
        {
            r.push(self.snaps[k]);
            proof {
                assert(self.snaps@.take(k as int + 1) =~= self.snaps@.take(k as int).push(
                    self.snaps@[k as int],
                ));
            }
            k = k + 1;
        }
        proof {
            assert(self.snaps@.take(self.snaps@.len() as int) =~= self.snaps@);
        }
        r
    }

    /// The snapshot with the greatest time at or before `time`, or
    /// `NoRebaseRecord` if none qualifies.
    pub fn lookup_at_or_before(&self, time: u64) -> (r: Result<RebaseSnapshot, ContractError>)
        ensures
            r == lookup_result(spec_at_or_before(self@, time as int)),
    {
        let ghost s = self.snaps@;
        let ghost t = time as int;
        proof {
            assert(s.take(s.len() as int) =~= s);
        }
        let mut i: usize = self.snaps.len();
        while i > 0
            invariant
                i <= s.len(),
                self.snaps@ == s,
                t == time as int,
                spec_at_or_before(s, t) == spec_at_or_before(s.take(i as int), t),
            decreases i,
        {
            let cand = self.snaps[i - 1];
            proof {
                assert(s.take(i as int).len() == i);
                assert(s.take(i as int)[i as int - 1] == s[i as int - 1]);
                assert(s.take(i as int).last() == cand);
            }
            if cand.effective_time <= time {
                return Ok(cand);
            }
            proof {
                assert(s.take(i as int).drop_last() =~= s.take(i as int - 1));
            }
            i = i - 1;
        }
        proof {
            assert(s.take(0) =~= Seq::<RebaseSnapshot>::empty());
        }
        Err(ContractError::NoRebaseRecord)
    }

    /// The snapshot with the greatest time strictly before `time`, or
    /// `NoRebaseRecord` if none qualifies.
    pub fn lookup_strictly_before(&self, time: u64) -> (r: Result<RebaseSnapshot, ContractError>)
        ensures
            r == lookup_result(spec_strictly_before(self@, time as int)),
    {
        let ghost s = self.snaps@;
        let ghost t = time as int;
        proof {
            assert(s.take(s.len() as int) =~= s);
        }
        let mut i: usize = self.snaps.len();
        while i > 0
            invariant
                i <= s.len(),
                self.snaps@ == s,
                t == time as int,
                spec_strictly_before(s, t) == spec_strictly_before(s.take(i as int), t),
            decreases i,
        {
            let cand = self.snaps[i - 1];
            proof {
                assert(s.take(i as int).len() == i);
                assert(s.take(i as int)[i as int - 1] == s[i as int - 1]);
                assert(s.take(i as int).last() == cand);
            }
            if cand.effective_time < time {
                return Ok(cand);
            }
            proof {
                assert(s.take(i as int).drop_last() =~= s.take(i as int - 1));
            }
            i = i - 1;
        }
        proof {
            assert(s.take(0) =~= Seq::<RebaseSnapshot>::empty());
        }
        Err(ContractError::NoRebaseRecord)
    }
}

/// For a sorted history split at `i` between times below `t` and times above
/// `t`, the time-`t` insertion point is exactly `i`.
proof fn lemma_len_before_bounds(s: Seq<RebaseSnapshot>, t: int, i: int)
    requires
        0 <= i <= s.len(),
        forall|j: int| 0 <= j < i ==> s[j].effective_time < t,
        forall|j: int| i <= j < s.len() ==> s[j].effective_time > t,
    ensures
        len_before(s, t) == i,
    decreases s.len(),
{
    if s.len() == 0 {
    } else if i == 0 {
        assert(s[0].effective_time > t);
    } else {
        assert(s[0].effective_time < t);
        assert(forall|j: int| 0 <= j < i - 1 ==> s.drop_first()[j].effective_time < t);
        assert(forall|j: int|
            i - 1 <= j < s.drop_first().len() ==> s.drop_first()[j].effective_time > t);
        lemma_len_before_bounds(s.drop_first(), t, i - 1);
    }
}

/// What it means for `r` to be the nearest snapshot at or before `t`.
pub open spec fn is_nearest_at_or_before(s: Seq<RebaseSnapshot>, t: int, r: RebaseSnapshot) -> bool {
    &&& exists|i: int| 0 <= i < s.len() && s[i] == r
    &&& r.effective_time <= t
    &&& forall|i: int|
        0 <= i < s.len() && s[i].effective_time <= t ==> s[i].effective_time <= r.effective_time
}

/// What it means for `r` to be the nearest snapshot strictly before `t`.
pub open spec fn is_nearest_strictly_before(
    s: Seq<RebaseSnapshot>,
    t: int,
    r: RebaseSnapshot,
) -> bool {
    &&& exists|i: int| 0 <= i < s.len() && s[i] == r
    &&& r.effective_time < t
    &&& forall|i: int|
        0 <= i < s.len() && s[i].effective_time < t ==> s[i].effective_time <= r.effective_time
}

/// The at-or-before lookup always answers with the nearest qualifying
/// snapshot, and answers nothing only when no snapshot qualifies.
pub proof fn lemma_at_or_before_nearest(s: Seq<RebaseSnapshot>, t: int)
    requires
        times_sorted(s),
    ensures
        match spec_at_or_before(s, t) {
            Option::None => forall|i: int| 0 <= i < s.len() ==> s[i].effective_time > t,
            Option::Some(r) => is_nearest_at_or_before(s, t, r),
        },
    decreases s.len(),
{
    if s.len() == 0 {
    } else if s.last().effective_time <= t {
        let r = s.last();
        assert(s[s.len() - 1] == r);
        assert forall|i: int|
            0 <= i < s.len() && s[i].effective_time <= t implies s[i].effective_time
            <= r.effective_time by {
            if i < s.len() - 1 {
                assert(s[i].effective_time < s[s.len() - 1].effective_time);
            }
        }
        assert(is_nearest_at_or_before(s, t, r));
    } else {
        let sub = s.drop_last();
        assert(forall|i: int| 0 <= i < sub.len() ==> sub[i] == s[i]);
        lemma_at_or_before_nearest(sub, t);
        assert(spec_at_or_before(s, t) == spec_at_or_before(sub, t));
        assert(s[s.len() - 1].effective_time > t);
        match spec_at_or_before(sub, t) {
            Option::None => {
                assert forall|i: int| 0 <= i < s.len() implies s[i].effective_time > t by {
                    if i < s.len() - 1 {
                        assert(s[i] == sub[i]);
                        assert(sub[i].effective_time > t);
                    }
                }
            },
            Option::Some(r) => {
                let w = choose|i: int| 0 <= i < sub.len() && sub[i] == r;
                assert(s[w] == r);
                assert forall|i: int|
                    0 <= i < s.len() && s[i].effective_time <= t implies s[i].effective_time
                    <= r.effective_time by {
                    if i < s.len() - 1 {
                        assert(s[i] == sub[i]);
                    }
                }
                assert(is_nearest_at_or_before(s, t, r));
            },
        }
    }
}

/// The strictly-before lookup always answers with the nearest qualifying
/// snapshot, and answers nothing only when no snapshot qualifies.
pub proof fn lemma_strictly_before_nearest(s: Seq<RebaseSnapshot>, t: int)
    requires
        times_sorted(s),
    ensures
        match spec_strictly_before(s, t) {
            Option::None => forall|i: int| 0 <= i < s.len() ==> s[i].effective_time >= t,
            Option::Some(r) => is_nearest_strictly_before(s, t, r),
        },
    decreases s.len(),
{
    if s.len() == 0 {
    } else if s.last().effective_time < t {
        let r = s.last();
        assert(s[s.len() - 1] == r);
        assert forall|i: int|
            0 <= i < s.len() && s[i].effective_time < t implies s[i].effective_time
            <= r.effective_time by {
            if i < s.len() - 1 {
                assert(s[i].effective_time < s[s.len() - 1].effective_time);
            }
        }
        assert(is_nearest_strictly_before(s, t, r));
    } else {
        let sub = s.drop_last();
        assert(forall|i: int| 0 <= i < sub.len() ==> sub[i] == s[i]);
        lemma_strictly_before_nearest(sub, t);
        assert(spec_strictly_before(s, t) == spec_strictly_before(sub, t));
        assert(s[s.len() - 1].effective_time >= t);
        match spec_strictly_before(sub, t) {
            Option::None => {
                assert forall|i: int| 0 <= i < s.len() implies s[i].effective_time >= t by {
                    if i < s.len() - 1 {
                        assert(s[i] == sub[i]);
                        assert(sub[i].effective_time >= t);
                    }
                }
            },
            Option::Some(r) => {
                let w = choose|i: int| 0 <= i < sub.len() && sub[i] == r;
                assert(s[w] == r);
                assert forall|i: int|
                    0 <= i < s.len() && s[i].effective_time < t implies s[i].effective_time
                    <= r.effective_time by {
                    if i < s.len() - 1 {
                        assert(s[i] == sub[i]);
                    }
                }
                assert(is_nearest_strictly_before(s, t, r));
            },
        }
    }
}

/// Boundary tie-break: a snapshot posted at time `t` itself (or later) never
/// changes what the strictly-before query answers at `t`, wherever in time
/// order it lands.
pub proof fn lemma_tie_break_insert(s: Seq<RebaseSnapshot>, snap: RebaseSnapshot, i: int, t: int)
    requires
        0 <= i <= s.len(),
        snap.effective_time >= t,
    ensures
        spec_strictly_before(s.insert(i, snap), t) == spec_strictly_before(s, t),
    decreases s.len(),
{
    let ns = s.insert(i, snap);
    if i == s.len() {
        assert(ns.last() == snap);
        assert(ns.drop_last() =~= s);
    } else {
        assert(ns.last() == s.last());
        if s.last().effective_time < t {
        } else {
            assert(ns.drop_last() =~= s.drop_last().insert(i, snap));
            lemma_tie_break_insert(s.drop_last(), snap, i, t);
        }
    }
}

} // verus!
