//! The ledger facade: the four operations an external caller invokes —
//! deposit, request-unlock, withdraw (bulk and single-slot) and
//! trigger-rebase — together with the read-only queries. Each operation is
//! one atomic state transition: it either commits a consistent new state or
//! fails and changes nothing.

use vstd::prelude::*;

use crate::convert::conv_value;
use crate::convert::convert;
use crate::convert::dec_from_ratio;
use crate::convert::spec_convert;
use crate::convert::DEC_ONE;
use crate::error::ContractError;
use crate::history::len_before;
use crate::history::spec_at_or_before;
use crate::history::spec_has_time;
use crate::history::spec_strictly_before;
use crate::history::RebaseHistory;
use crate::history::RebaseSnapshot;
use crate::msg::ExecuteMsg;
use crate::msg::InstantiateMsg;
use crate::msg::LedgerEffect;
use crate::msg::QueryAnswer;
use crate::msg::QueryMsg;
use crate::state::find_unlock_idx;
use crate::state::insert_unlock;
use crate::state::lemma_find_unlock_props;
use crate::state::spec_find_unlock;
use crate::state::unlocks_len_before;
use crate::state::unlocks_sorted;
use crate::state::Account;
use crate::state::Constants;
use crate::state::LockEntry;
use crate::state::UnlockEntry;

verus! {

/// The whole ledger: the shared constants, the price recorded at the last
/// rebase trigger, the shared snapshot history, and one entry per
/// participating owner.
pub struct Ledger {
    pub constants: Constants,
    pub last_price: u128,
    pub history: RebaseHistory,
    pub accounts: Vec<Account>,
}

/// No two account entries share an owner.
pub open spec fn owners_distinct(s: Seq<Account>) -> bool {
    forall|i: int, j: int| 0 <= i < j < s.len() ==> s[i].owner@ != s[j].owner@
}

/// The index of the account entry of `owner`, scanning from the front.
pub open spec fn spec_find_account(s: Seq<Account>, owner: Seq<char>) -> Option<int>
    decreases s.len(),
{
    if s.len() == 0 {
        None
    } else if s[0].owner@ == owner {
        Some(0)
    } else {
        match spec_find_account(s.drop_first(), owner) {
            Option::None => None,
            Option::Some(i) => Some(i + 1),
        }
    }
}

impl Ledger {
    /// Well-formed: ordered history, positive last trigger price, one entry
    /// per owner, every entry well-formed.
    pub open spec fn wf(self) -> bool {
        &&& self.history.wf()
        &&& self.last_price > 0
        &&& owners_distinct(self.accounts@)
        &&& forall|i: int| 0 <= i < self.accounts@.len() ==> (#[trigger] self.accounts@[i]).wf()
    }

    /// The lock of `owner`, absent if the owner holds no locked balance.
    pub open spec fn spec_lock_of(self, owner: Seq<char>) -> Option<LockEntry> {
        match spec_find_account(self.accounts@, owner) {
            Option::None => None,
            Option::Some(i) => self.accounts@[i].lock,
        }
    }

    /// The pending unlock slots of `owner`, in ascending request-time order.
    pub open spec fn spec_unlocks_of(self, owner: Seq<char>) -> Seq<UnlockEntry> {
        match spec_find_account(self.accounts@, owner) {
            Option::None => Seq::empty(),
            Option::Some(i) => self.accounts@[i].unlocks@,
        }
    }
}

/// Nothing observable changed: a failed operation commits nothing.
pub open spec fn ledger_unchanged(pre: Ledger, post: Ledger) -> bool {
    &&& post.constants == pre.constants
    &&& post.last_price == pre.last_price
    &&& post.history@ == pre.history@
    &&& post.accounts@ == pre.accounts@
}

/// The constants, last trigger price and history are as they were.
pub open spec fn shared_unchanged(pre: Ledger, post: Ledger) -> bool {
    &&& post.constants == pre.constants
    &&& post.last_price == pre.last_price
    &&& post.history@ == pre.history@
}

/// Every owner other than `owner` sees exactly the state it saw before.
pub open spec fn others_unchanged(pre: Ledger, post: Ledger, owner: Seq<char>) -> bool {
    forall|o: Seq<char>|
        o != owner ==> #[trigger] post.spec_lock_of(o) == pre.spec_lock_of(o)
            && post.spec_unlocks_of(o) == pre.spec_unlocks_of(o)
}

/// Wherever a find answers, it answers with a matching entry; where it does
/// not, no entry matches.
proof fn lemma_find_account_props(s: Seq<Account>, owner: Seq<char>)
    ensures
        match spec_find_account(s, owner) {
            Option::None => forall|j: int| 0 <= j < s.len() ==> (#[trigger] s[j]).owner@ != owner,
            Option::Some(i) => 0 <= i < s.len() && s[i].owner@ == owner,
        },
    decreases s.len(),
{
    if s.len() > 0 && s[0].owner@ != owner {
        lemma_find_account_props(s.drop_first(), owner);
        let sub = s.drop_first();
        match spec_find_account(sub, owner) {
            Option::None => {
                assert forall|j: int| 0 <= j < s.len() implies (#[trigger] s[j]).owner@
                    != owner by {
                    if j > 0 {
                        assert(sub[j - 1] == s[j]);
                        assert(sub[j - 1].owner@ != owner);
                    }
                }
            },
            Option::Some(i) => {
                assert(sub[i] == s[i + 1]);
                assert(spec_find_account(s, owner) == Some(i + 1));
            },
        }
    }
}

/// A scan that stops at the first matching index computes the find.
proof fn lemma_find_account_found(s: Seq<Account>, owner: Seq<char>, i: int)
    requires
        0 <= i < s.len(),
        s[i].owner@ == owner,
        forall|j: int| 0 <= j < i ==> (#[trigger] s[j]).owner@ != owner,
    ensures
        spec_find_account(s, owner) == Some(i),
    decreases s.len(),
{
    if i > 0 {
        let sub = s.drop_first();
        assert(sub[i - 1] == s[i]);
        assert(forall|j: int| 0 <= j < i - 1 ==> sub[j] == s[j + 1]);
        lemma_find_account_found(sub, owner, i - 1);
    }
}

/// A scan that matches nowhere computes an empty find.
proof fn lemma_find_account_none(s: Seq<Account>, owner: Seq<char>)
    requires
        forall|j: int| 0 <= j < s.len() ==> (#[trigger] s[j]).owner@ != owner,
    ensures
        spec_find_account(s, owner) is None,
    decreases s.len(),
{
    if s.len() > 0 {
        let sub = s.drop_first();
        assert(forall|j: int| 0 <= j < sub.len() ==> sub[j] == s[j + 1]);
        lemma_find_account_none(sub, owner);
    }
}

/// Replacing an entry with one of the same owner moves no find answer.
proof fn lemma_find_after_update(s: Seq<Account>, i: int, a2: Account, o: Seq<char>)
    requires
        0 <= i < s.len(),
        a2.owner@ == s[i].owner@,
    ensures
        spec_find_account(s.update(i, a2), o) == spec_find_account(s, o),
    decreases s.len(),
{
    let ns = s.update(i, a2);
    if i == 0 {
        assert(ns[0] == a2);
        if s[0].owner@ != o {
            assert(ns.drop_first() =~= s.drop_first());
        }
    } else {
        assert(ns[0] == s[0]);
        if s[0].owner@ != o {
            assert(ns.drop_first() =~= s.drop_first().update(i - 1, a2));
            assert(s.drop_first()[i - 1] == s[i]);
            lemma_find_after_update(s.drop_first(), i - 1, a2, o);
        }
    }
}

/// Appending a new entry answers old finds as before, and answers the new
/// owner's find with the appended entry.
proof fn lemma_find_after_push(s: Seq<Account>, a: Account, o: Seq<char>)
    ensures
        spec_find_account(s.push(a), o) == (match spec_find_account(s, o) {
            Option::Some(i) => Some(i),
            Option::None => if a.owner@ == o {
                Some(s.len() as int)
            } else {
                None
            },
        }),
    decreases s.len(),
{
    let ns = s.push(a);
    if s.len() == 0 {
        assert(ns[0] == a);
        if a.owner@ != o {
            assert(ns.drop_first() =~= Seq::<Account>::empty());
        }
    } else {
        assert(ns[0] == s[0]);
        if s[0].owner@ == o {
            assert(spec_find_account(ns, o) == Some(0int));
        } else {
            assert(ns.drop_first() =~= s.drop_first().push(a));
            lemma_find_after_push(s.drop_first(), a, o);
            assert(spec_find_account(ns, o) == (match spec_find_account(ns.drop_first(), o) {
                Option::None => None::<int>,
                Option::Some(i) => Some(i + 1),
            }));
            assert(spec_find_account(s, o) == (match spec_find_account(s.drop_first(), o) {
                Option::None => None::<int>,
                Option::Some(i) => Some(i + 1),
            }));
        }
    }
}

/// Find the index of `owner`'s account entry.
fn find_account_idx(accounts: &Vec<Account>, owner: &String) -> (r: Option<usize>)
    ensures
        r is None ==> spec_find_account(accounts@, owner@) is None,
        r matches Some(u) ==> spec_find_account(accounts@, owner@) == Some(u as int),
{
    let ghost s = accounts@;
    let mut k: usize = 0;
    while k < accounts.len()
        invariant
            k <= s.len(),
            accounts@ == s,
            forall|j: int| 0 <= j < k ==> (#[trigger] s[j]).owner@ != owner@,
        decreases s.len() - k,
    {
        if accounts[k].owner == *owner {
            proof {
                lemma_find_account_found(s, owner@, k as int);
            }
            return Some(k);
        }
        k = k + 1;
    }
    proof {
        lemma_find_account_none(s, owner@);
    }
    None
}

/// Initialize the ledger: the given constants, a last trigger price of one,
/// an empty history and no accounts.
pub fn instantiate(msg: InstantiateMsg) -> (l: Ledger)
    ensures
        l.wf(),
        l.constants.rebase_interval == msg.rebase_interval,
        l.constants.unlock_interval == msg.unlock_interval,
        l.constants.denom == msg.denom,
        l.last_price == 1,
        l.history@ == Seq::<RebaseSnapshot>::empty(),
        l.accounts@ == Seq::<Account>::empty(),
{
    Ledger {
        constants: Constants {
            rebase_interval: msg.rebase_interval,
            unlock_interval: msg.unlock_interval,
            denom: msg.denom,
        },
        last_price: 1,
        history: RebaseHistory::new(),
        accounts: Vec::new(),
    }
}

/// The outcome the rebase trigger commits: the multiplier `price /
/// last_price` appended at `now`, and the trigger price remembered.
pub open spec fn rebase_post(
    pre: Ledger,
    post: Ledger,
    price: u128,
    now: u64,
    r: Result<(), ContractError>,
) -> bool {
    let m = price as int * (DEC_ONE as int) / (pre.last_price as int);
    if m > u128::MAX {
        r == Err::<(), ContractError>(ContractError::Overflow) && ledger_unchanged(pre, post)
    } else if spec_has_time(pre.history@, now as int) {
        r == Err::<(), ContractError>(ContractError::DuplicateTimestamp) && ledger_unchanged(
            pre,
            post,
        )
    } else {
        &&& r == Ok::<(), ContractError>(())
        &&& post.history@ == pre.history@.insert(
            len_before(pre.history@, now as int),
            RebaseSnapshot { effective_time: now, multiplier: m as u128 },
        )
        &&& post.last_price == price
        &&& post.constants == pre.constants
        &&& post.accounts@ == pre.accounts@
    }
}

/// Trigger a rebase: record the multiplier `price / last_price` at `now`.
/// The price sample is supplied by the oracle collaborator and is positive.
pub fn rebase(ledger: &mut Ledger, price: u128, now: u64) -> (r: Result<(), ContractError>)
    requires
        old(ledger).wf(),
        price > 0,
    ensures
        final(ledger).wf(),
        rebase_post(*old(ledger), *final(ledger), price, now, r),
{
    let multiplier = match dec_from_ratio(price, ledger.last_price) {
        Some(m) => m,
        None => {
            return Err(ContractError::Overflow);
        },
    };
    match ledger.history.append(now, multiplier) {
        Ok(_) => {
            ledger.last_price = price;
            Ok(())
        },
        Err(e) => {
            proof {
                assert(spec_has_time(old(ledger).history@, now as int));
            }
            Err(e)
        },
    }
}

/// The current lock of `address`, or nothing.
pub fn query_locks(ledger: &Ledger, address: &String) -> (r: Option<LockEntry>)
    ensures
        r == ledger.spec_lock_of(address@),
{
    proof {
        lemma_find_account_props(ledger.accounts@, address@);
    }
    match find_account_idx(&ledger.accounts, address) {
        Option::Some(i) => ledger.accounts[i].lock,
        Option::None => None,
    }
}

/// The pending unlocks of `address`, in ascending request-time order.
pub fn query_unlocks(ledger: &Ledger, address: &String) -> (r: Vec<UnlockEntry>)
    ensures
        r@ == ledger.spec_unlocks_of(address@),
{
    proof {
        lemma_find_account_props(ledger.accounts@, address@);
    }
    match find_account_idx(&ledger.accounts, address) {
        Option::Some(i) => copy_unlocks(&ledger.accounts[i].unlocks),
        Option::None => Vec::new(),
    }
}

/// An element-for-element copy of a slot vector.
fn copy_unlocks(src: &Vec<UnlockEntry>) -> (r: Vec<UnlockEntry>)
    ensures
        r@ == src@,
{
    let mut r: Vec<UnlockEntry> = Vec::new();
    let mut k: usize = 0;
    while k < src.len()
        invariant
            k <= src@.len(),
            r@ == src@.take(k as int),
        decreases src@.len() - k,
    {
        r.push(src[k]);
        proof {
            assert(src@.take(k as int + 1) =~= src@.take(k as int).push(src@[k as int]));
        }
        k = k + 1;
    }
    proof {
        assert(src@.take(src@.len() as int) =~= src@);
    }
    r
}

/// Frame for an operation that rewrites one owner's entry in place: the whole
/// ledger stays well-formed, the owner sees the new entry, nobody else sees
/// any change.
proof fn lemma_ledger_update_ok(pre: Ledger, post: Ledger, i: int, owner: Seq<char>)
    requires
        pre.wf(),
        0 <= i < pre.accounts@.len(),
        spec_find_account(pre.accounts@, owner) == Some(i),
        post.accounts@ == pre.accounts@.update(i, post.accounts@[i]),
        post.accounts@[i].owner@ == pre.accounts@[i].owner@,
        post.accounts@[i].wf(),
        post.constants == pre.constants,
        post.last_price == pre.last_price,
        post.history@ == pre.history@,
    ensures
        post.wf(),
        post.spec_lock_of(owner) == post.accounts@[i].lock,
        post.spec_unlocks_of(owner) == post.accounts@[i].unlocks@,
        others_unchanged(pre, post, owner),
        shared_unchanged(pre, post),
{
    let s = pre.accounts@;
    let ns = post.accounts@;
    lemma_find_account_props(s, owner);
    assert(s[i].owner@ == owner);
    assert(forall|k: int| 0 <= k < ns.len() && k != i ==> ns[k] == s[k]);
    assert(owners_distinct(ns)) by {
        assert forall|a: int, b: int| 0 <= a < b < ns.len() implies ns[a].owner@
            != ns[b].owner@ by {
            assert(ns[a].owner@ == s[a].owner@);
            assert(ns[b].owner@ == s[b].owner@);
        }
    }
    assert(forall|k: int| 0 <= k < ns.len() ==> (#[trigger] ns[k]).wf()) by {
        assert forall|k: int| 0 <= k < ns.len() implies (#[trigger] ns[k]).wf() by {
            if k != i {
                assert(ns[k] == s[k]);
                assert(s[k].wf());
            }
        }
    }
    lemma_find_after_update(s, i, ns[i], owner);
    assert(spec_find_account(ns, owner) == Some(i));
    assert forall|o: Seq<char>| o != owner implies #[trigger] post.spec_lock_of(o)
        == pre.spec_lock_of(o) && post.spec_unlocks_of(o) == pre.spec_unlocks_of(o) by {
        lemma_find_after_update(s, i, ns[i], o);
        lemma_find_account_props(s, o);
        match spec_find_account(s, o) {
            Option::None => {},
            Option::Some(k) => {
                assert(s[k].owner@ == o);
                assert(k != i);
                assert(ns[k] == s[k]);
            },
        }
    }
}

/// Frame for an operation that adds a first entry for a new owner: the
/// ledger stays well-formed, the new owner sees the new entry, nobody else
/// sees any change.
proof fn lemma_ledger_push_ok(pre: Ledger, post: Ledger, owner: Seq<char>)
    requires
        pre.wf(),
        spec_find_account(pre.accounts@, owner) is None,
        pre.accounts@.len() < post.accounts@.len(),
        post.accounts@ == pre.accounts@.push(post.accounts@[pre.accounts@.len() as int]),
        post.accounts@[pre.accounts@.len() as int].owner@ == owner,
        post.accounts@[pre.accounts@.len() as int].wf(),
        post.constants == pre.constants,
        post.last_price == pre.last_price,
        post.history@ == pre.history@,
    ensures
        post.wf(),
        post.spec_lock_of(owner) == post.accounts@[pre.accounts@.len() as int].lock,
        post.spec_unlocks_of(owner) == post.accounts@[pre.accounts@.len() as int].unlocks@,
        others_unchanged(pre, post, owner),
        shared_unchanged(pre, post),
{
    let s = pre.accounts@;
    let ns = post.accounts@;
    let n = s.len() as int;
    let a = ns[n];
    lemma_find_account_props(s, owner);
    assert(forall|k: int| 0 <= k < n ==> ns[k] == s[k]);
    assert(owners_distinct(ns)) by {
        assert forall|x: int, y: int| 0 <= x < y < ns.len() implies ns[x].owner@
            != ns[y].owner@ by {
            if y < n {
                assert(ns[x] == s[x]);
                assert(ns[y] == s[y]);
            } else {
                assert(ns[x] == s[x]);
                assert(s[x].owner@ != owner);
            }
        }
    }
    assert(forall|k: int| 0 <= k < ns.len() ==> (#[trigger] ns[k]).wf()) by {
        assert forall|k: int| 0 <= k < ns.len() implies (#[trigger] ns[k]).wf() by {
            if k < n {
                assert(ns[k] == s[k]);
                assert(s[k].wf());
            }
        }
    }
    lemma_find_after_push(s, a, owner);
    assert(spec_find_account(ns, owner) == Some(n));
    assert forall|o: Seq<char>| o != owner implies #[trigger] post.spec_lock_of(o)
        == pre.spec_lock_of(o) && post.spec_unlocks_of(o) == pre.spec_unlocks_of(o) by {
        lemma_find_after_push(s, a, o);
        lemma_find_account_props(s, o);
        match spec_find_account(s, o) {
            Option::None => {},
            Option::Some(k) => {
                assert(s[k].owner@ == o);
                assert(ns[k] == s[k]);
            },
        }
    }
}

/// What a deposit leaves as the owner's lock: a fresh lock at the latest
/// terms, or the existing principal re-based to them plus the new amount.
pub open spec fn spec_deposit_new_lock(old_lock: Option<LockEntry>, amount: u128, m: u128) -> Result<
    LockEntry,
    ContractError,
> {
    match old_lock {
        Option::None => Ok(LockEntry { amount, rebase_at_lock: m }),
        Option::Some(l) => match spec_convert(l.amount as int, l.rebase_at_lock as int, m as int) {
            Result::Err(e) => Err(e),
            Result::Ok(c) => if c + amount > u128::MAX {
                Err(ContractError::Overflow)
            } else {
                Ok(LockEntry { amount: (c + amount) as u128, rebase_at_lock: m })
            },
        },
    }
}

/// The outcome a deposit commits: a zero amount is rejected; the latest
/// snapshot at or before `now` gives the terms; the owner's lock becomes
/// `spec_deposit_new_lock`; nothing else moves; every failure commits
/// nothing.
pub open spec fn deposit_post(
    pre: Ledger,
    post: Ledger,
    owner: Seq<char>,
    amount: u128,
    now: u64,
    r: Result<(), ContractError>,
) -> bool {
    if amount == 0 {
        r == Err::<(), ContractError>(ContractError::ZeroAmount) && ledger_unchanged(pre, post)
    } else {
        match spec_at_or_before(pre.history@, now as int) {
            Option::None => r == Err::<(), ContractError>(ContractError::NoRebaseRecord)
                && ledger_unchanged(pre, post),
            Option::Some(snap) => match spec_deposit_new_lock(
                pre.spec_lock_of(owner),
                amount,
                snap.multiplier,
            ) {
                Result::Err(e) => r == Err::<(), ContractError>(e) && ledger_unchanged(pre, post),
                Result::Ok(nl) => {
                    &&& r == Ok::<(), ContractError>(())
                    &&& post.spec_lock_of(owner) == Some(nl)
                    &&& post.spec_unlocks_of(owner) == pre.spec_unlocks_of(owner)
                    &&& others_unchanged(pre, post, owner)
                    &&& shared_unchanged(pre, post)
                },
            },
        }
    }
}

/// Deposit `amount` for `owner` at time `now`: re-base any existing lock to
/// the latest snapshot's terms, then add the amount. The equal-valued asset
/// transfer is the custody collaborator's side of the same step.
pub fn deposit(ledger: &mut Ledger, owner: &String, amount: u128, now: u64) -> (r: Result<
    (),
    ContractError,
>)
    requires
        old(ledger).wf(),
    ensures
        final(ledger).wf(),
        deposit_post(*old(ledger), *final(ledger), owner@, amount, now, r),
{
    if amount == 0 {
        return Err(ContractError::ZeroAmount);
    }
    let snap = match ledger.history.lookup_at_or_before(now) {
        Ok(s) => s,
        Err(e) => {
            return Err(e);
        },
    };
    proof {
        lemma_find_account_props(ledger.accounts@, owner@);
    }
    match find_account_idx(&ledger.accounts, owner) {
        Option::None => {
            let acct = Account {
                owner: owner.clone(),
                lock: Some(LockEntry { amount, rebase_at_lock: snap.multiplier }),
                unlocks: Vec::new(),
            };
            ledger.accounts.push(acct);
            proof {
                lemma_ledger_push_ok(*old(ledger), *ledger, owner@);
            }
            Ok(())
        },
        Option::Some(i) => {
            match ledger.accounts[i].lock {
                Option::None => {
                    ledger.accounts[i].lock = Some(
                        LockEntry { amount, rebase_at_lock: snap.multiplier },
                    );
                    proof {
                        assert(ledger.accounts@ =~= old(ledger).accounts@.update(
                            i as int,
                            ledger.accounts@[i as int],
                        ));
                        lemma_ledger_update_ok(*old(ledger), *ledger, i as int, owner@);
                    }
                    Ok(())
                },
                Option::Some(l) => {
                    let c = match convert(l.amount, l.rebase_at_lock, snap.multiplier) {
                        Ok(c) => c,
                        Err(e) => {
                            return Err(e);
                        },
                    };
                    if c > u128::MAX - amount {
                        return Err(ContractError::Overflow);
                    }
                    ledger.accounts[i].lock = Some(
                        LockEntry { amount: c + amount, rebase_at_lock: snap.multiplier },
                    );
                    proof {
                        assert(ledger.accounts@ =~= old(ledger).accounts@.update(
                            i as int,
                            ledger.accounts@[i as int],
                        ));
                        lemma_ledger_update_ok(*old(ledger), *ledger, i as int, owner@);
                    }
                    Ok(())
                },
            }
        },
    }
}

/// What an unlock request does to the owner's state: the amount leaves the
/// lock (the lock is deleted at zero), and a slot keyed at `now` is created,
/// or merged into, carrying the lock's basis.
pub open spec fn spec_unlock_result(
    lock: Option<LockEntry>,
    unlocks: Seq<UnlockEntry>,
    amount: u128,
    now: u64,
) -> Result<(Option<LockEntry>, Seq<UnlockEntry>), ContractError> {
    match lock {
        Option::None => Err(ContractError::NoLockEntry),
        Option::Some(l) => if amount > l.amount {
            Err(ContractError::InsufficientFunds)
        } else {
            let nl: Option<LockEntry> = if l.amount == amount {
                None
            } else {
                Some(LockEntry { amount: (l.amount - amount) as u128, rebase_at_lock: l.rebase_at_lock })
            };
            match spec_find_unlock(unlocks, now as int) {
                Option::Some(i) => {
                    let e = unlocks[i];
                    if e.amount + amount > u128::MAX {
                        Err(ContractError::Overflow)
                    } else {
                        Ok(
                            (
                                nl,
                                unlocks.update(
                                    i,
                                    UnlockEntry {
                                        amount: (e.amount + amount) as u128,
                                        time: e.time,
                                        rebase_at_lock: l.rebase_at_lock,
                                    },
                                ),
                            ),
                        )
                    }
                },
                Option::None => Ok(
                    (
                        nl,
                        unlocks.insert(
                            unlocks_len_before(unlocks, now as int),
                            UnlockEntry { amount, time: now, rebase_at_lock: l.rebase_at_lock },
                        ),
                    ),
                ),
            }
        },
    }
}

/// The outcome an unlock request commits: exactly `spec_unlock_result` for
/// the owner, nothing else moves, and every failure commits nothing.
pub open spec fn unlock_post(
    pre: Ledger,
    post: Ledger,
    owner: Seq<char>,
    amount: u128,
    now: u64,
    r: Result<(), ContractError>,
) -> bool {
    match spec_unlock_result(pre.spec_lock_of(owner), pre.spec_unlocks_of(owner), amount, now) {
        Result::Err(e) => r == Err::<(), ContractError>(e) && ledger_unchanged(pre, post),
        Result::Ok(pair) => {
            &&& r == Ok::<(), ContractError>(())
            &&& post.spec_lock_of(owner) == pair.0
            &&& post.spec_unlocks_of(owner) == pair.1
            &&& others_unchanged(pre, post, owner)
            &&& shared_unchanged(pre, post)
        },
    }
}

/// Request to unlock `amount` of `owner`'s locked principal at time `now`.
/// The amount leaves the lock under the lock's recorded basis; no waiting
/// period is enforced here (see `Constants::unlock_interval`).
pub fn unlock(ledger: &mut Ledger, owner: &String, amount: u128, now: u64) -> (r: Result<
    (),
    ContractError,
>)
    requires
        old(ledger).wf(),
    ensures
        final(ledger).wf(),
        unlock_post(*old(ledger), *final(ledger), owner@, amount, now, r),
{
    proof {
        lemma_find_account_props(ledger.accounts@, owner@);
    }
    let i = match find_account_idx(&ledger.accounts, owner) {
        Option::Some(i) => i,
        Option::None => {
            return Err(ContractError::NoLockEntry);
        },
    };
    let l = match ledger.accounts[i].lock {
        Option::Some(l) => l,
        Option::None => {
            return Err(ContractError::NoLockEntry);
        },
    };
    if amount > l.amount {
        return Err(ContractError::InsufficientFunds);
    }
    let new_lock: Option<LockEntry> = if l.amount == amount {
        None
    } else {
        Some(LockEntry { amount: l.amount - amount, rebase_at_lock: l.rebase_at_lock })
    };
    proof {
        lemma_find_unlock_props(ledger.accounts@[i as int].unlocks@, now as int);
    }
    match find_unlock_idx(&ledger.accounts[i].unlocks, now) {
        Option::Some(j) => {
            let e = ledger.accounts[i].unlocks[j];
            if e.amount > u128::MAX - amount {
                return Err(ContractError::Overflow);
            }
            ledger.accounts[i].lock = new_lock;
            ledger.accounts[i].unlocks[j] = UnlockEntry {
                amount: e.amount + amount,
                time: e.time,
                rebase_at_lock: l.rebase_at_lock,
            };
            proof {
                let s = old(ledger).accounts@;
                let su = s[i as int].unlocks@;
                assert(ledger.accounts@[i as int].unlocks@ =~= su.update(
                    j as int,
                    ledger.accounts@[i as int].unlocks@[j as int],
                ));
                assert(unlocks_sorted(ledger.accounts@[i as int].unlocks@)) by {
                    let nu = ledger.accounts@[i as int].unlocks@;
                    assert forall|a: int, b: int| 0 <= a < b < nu.len() implies nu[a].time
                        < nu[b].time by {
                        assert(nu[a].time == su[a].time);
                        assert(nu[b].time == su[b].time);
                    }
                }
                assert(ledger.accounts@ =~= s.update(i as int, ledger.accounts@[i as int]));
                lemma_ledger_update_ok(*old(ledger), *ledger, i as int, owner@);
            }
            Ok(())
        },
        Option::None => {
            ledger.accounts[i].lock = new_lock;
            let e = UnlockEntry { amount, time: now, rebase_at_lock: l.rebase_at_lock };
            insert_unlock(&mut ledger.accounts[i].unlocks, e);
            proof {
                let s = old(ledger).accounts@;
                assert(ledger.accounts@ =~= s.update(i as int, ledger.accounts@[i as int]));
                lemma_ledger_update_ok(*old(ledger), *ledger, i as int, owner@);
            }
            Ok(())
        },
    }
}

/// The settled value of one unlock slot: its amount converted from its
/// stored basis to the multiplier in effect strictly before its request
/// time — a rebase posted exactly at that time never applies to it.
pub open spec fn spec_settle_value(h: Seq<RebaseSnapshot>, e: UnlockEntry) -> Result<
    u128,
    ContractError,
> {
    match spec_strictly_before(h, e.time as int) {
        Option::None => Err(ContractError::NoRebaseRecord),
        Option::Some(snap) => spec_convert(
            e.amount as int,
            e.rebase_at_lock as int,
            snap.multiplier as int,
        ),
    }
}

/// The total a maturity sweep settles, folding the slots in ascending order
/// over the accumulator `acc`: the first slot that cannot settle, or the
/// first accumulation that does not fit, fails the whole batch.
pub open spec fn spec_batch_total(
    h: Seq<RebaseSnapshot>,
    us: Seq<UnlockEntry>,
    now: int,
    acc: int,
) -> Result<u128, ContractError>
    decreases us.len(),
{
    if us.len() == 0 {
        Ok(acc as u128)
    } else {
        let e = us[0];
        if e.time > now {
            spec_batch_total(h, us.drop_first(), now, acc)
        } else {
            match spec_settle_value(h, e) {
                Result::Err(er) => Err(er),
                Result::Ok(v) => if acc + v > u128::MAX {
                    Err(ContractError::Overflow)
                } else {
                    spec_batch_total(h, us.drop_first(), now, acc + v)
                },
            }
        }
    }
}

/// The slots a maturity sweep leaves behind: those requested after `now`,
/// in their original order.
pub open spec fn spec_keep_unmatured(us: Seq<UnlockEntry>, now: int) -> Seq<UnlockEntry>
    decreases us.len(),
{
    if us.len() == 0 {
        Seq::empty()
    } else {
        let rest = spec_keep_unmatured(us.drop_first(), now);
        if us[0].time > now {
            seq![us[0]] + rest
        } else {
            rest
        }
    }
}

/// The outcome a maturity sweep commits: every slot with request time at or
/// before `now` settles and is cleared, the total is returned, nothing else
/// moves; any failure settles nothing and commits nothing.
pub open spec fn withdraw_post(
    pre: Ledger,
    post: Ledger,
    owner: Seq<char>,
    now: u64,
    r: Result<u128, ContractError>,
) -> bool {
    match spec_batch_total(pre.history@, pre.spec_unlocks_of(owner), now as int, 0) {
        Result::Err(e) => r == Err::<u128, ContractError>(e) && ledger_unchanged(pre, post),
        Result::Ok(total) => {
            &&& r == Ok::<u128, ContractError>(total)
            &&& post.spec_lock_of(owner) == pre.spec_lock_of(owner)
            &&& post.spec_unlocks_of(owner) == spec_keep_unmatured(
                pre.spec_unlocks_of(owner),
                now as int,
            )
            &&& others_unchanged(pre, post, owner)
            &&& shared_unchanged(pre, post)
        },
    }
}

/// Dropping the head of the right part keeps a concatenation sorted.
proof fn lemma_sorted_drop_middle(a: Seq<UnlockEntry>, b: Seq<UnlockEntry>)
    requires
        b.len() > 0,
        unlocks_sorted(a + b),
    ensures
        unlocks_sorted(a + b.drop_first()),
{
    let c = a + b.drop_first();
    let whole = a + b;
    assert forall|x: int, y: int| 0 <= x < y < c.len() implies c[x].time < c[y].time by {
        let mx: int = if x < a.len() { x } else { x + 1 };
        let my: int = if y < a.len() { y } else { y + 1 };
        assert(c[x] == whole[mx]);
        assert(c[y] == whole[my]);
    }
}

/// Withdraw every matured unlock of `owner`: settle each slot requested at
/// or before `now` at its strictly-before multiplier, clear those slots, and
/// return the total to be released by the custody collaborator.
pub fn withdraw(ledger: &mut Ledger, owner: &String, now: u64) -> (r: Result<u128, ContractError>)
    requires
        old(ledger).wf(),
    ensures
        final(ledger).wf(),
        withdraw_post(*old(ledger), *final(ledger), owner@, now, r),
{
    proof {
        lemma_find_account_props(ledger.accounts@, owner@);
    }
    let i = match find_account_idx(&ledger.accounts, owner) {
        Option::Some(i) => i,
        Option::None => {
            return Ok(0);
        },
    };
    let ghost h = ledger.history@;
    let ghost u = ledger.accounts@[i as int].unlocks@;
    proof {
        assert(old(ledger).accounts@[i as int].wf());
        assert(u.skip(0) =~= u);
        assert(Seq::<UnlockEntry>::empty() + u =~= u);
    }
    let n = ledger.accounts[i].unlocks.len();
    let mut total: u128 = 0;
    let mut kept: Vec<UnlockEntry> = Vec::new();
    let mut k: usize = 0;
    while k < n
        invariant
            k <= n,
            n == u.len(),
            *ledger == *old(ledger),
            old(ledger).wf(),
            i < ledger.accounts@.len(),
            u == ledger.accounts@[i as int].unlocks@,
            old(ledger).spec_unlocks_of(owner@) == u,
            h == ledger.history@,
            spec_batch_total(h, u, now as int, 0) == spec_batch_total(
                h,
                u.skip(k as int),
                now as int,
                total as int,
            ),
            kept@ + spec_keep_unmatured(u.skip(k as int), now as int) == spec_keep_unmatured(
                u,
                now as int,
            ),
            unlocks_sorted(kept@ + u.skip(k as int)),
        decreases n - k,
    {
        let e = ledger.accounts[i].unlocks[k];
        proof {
            assert(u.skip(k as int)[0] == e);
            assert(u.skip(k as int).drop_first() =~= u.skip(k as int + 1));
        }
        if e.time <= now {
            let settle = match ledger.history.lookup_strictly_before(e.time) {
                Ok(snap) => snap,
                Err(er) => {
                    return Err(er);
                },
            };
            let v = match convert(e.amount, e.rebase_at_lock, settle.multiplier) {
                Ok(v) => v,
                Err(er) => {
                    return Err(er);
                },
            };
            if total > u128::MAX - v {
                return Err(ContractError::Overflow);
            }
            total = total + v;
            proof {
                lemma_sorted_drop_middle(kept@, u.skip(k as int));
            }
        } else {
            let ghost kept_before = kept@;
            kept.push(e);
            proof {
                assert(kept@ + u.skip(k as int + 1) =~= kept_before + u.skip(k as int));
                assert(kept@ + spec_keep_unmatured(u.skip(k as int + 1), now as int)
                    =~= kept_before + (seq![e] + spec_keep_unmatured(
                    u.skip(k as int + 1),
                    now as int,
                )));
            }
        }
        k = k + 1;
    }
    proof {
        assert(u.skip(n as int) =~= Seq::<UnlockEntry>::empty());
        assert(kept@ + Seq::<UnlockEntry>::empty() =~= kept@);
    }
    ledger.accounts[i].unlocks = kept;
    proof {
        assert(ledger.accounts@ =~= old(ledger).accounts@.update(
            i as int,
            ledger.accounts@[i as int],
        ));
        lemma_ledger_update_ok(*old(ledger), *ledger, i as int, owner@);
    }
    Ok(total)
}

/// The outcome of settling and clearing the single slot at `t`: its settled
/// value and the remaining slots.
pub open spec fn spec_withdraw_one(h: Seq<RebaseSnapshot>, us: Seq<UnlockEntry>, t: int) -> Result<
    (u128, Seq<UnlockEntry>),
    ContractError,
> {
    match spec_find_unlock(us, t) {
        Option::None => Err(ContractError::NoPendingUnlock),
        Option::Some(i) => match spec_settle_value(h, us[i]) {
            Result::Err(e) => Err(e),
            Result::Ok(v) => Ok((v, us.remove(i))),
        },
    }
}

/// The outcome a single-slot withdrawal commits.
pub open spec fn withdraw_at_time_post(
    pre: Ledger,
    post: Ledger,
    owner: Seq<char>,
    unlock_time: u64,
    r: Result<u128, ContractError>,
) -> bool {
    match spec_withdraw_one(pre.history@, pre.spec_unlocks_of(owner), unlock_time as int) {
        Result::Err(e) => r == Err::<u128, ContractError>(e) && ledger_unchanged(pre, post),
        Result::Ok(pair) => {
            &&& r == Ok::<u128, ContractError>(pair.0)
            &&& post.spec_lock_of(owner) == pre.spec_lock_of(owner)
            &&& post.spec_unlocks_of(owner) == pair.1
            &&& others_unchanged(pre, post, owner)
            &&& shared_unchanged(pre, post)
        },
    }
}

/// Withdraw the single unlock slot requested at `unlock_time`: the escape
/// hatch for a sweep too large to process in one call. As in the bulk sweep
/// the slot settles at its strictly-before multiplier; maturity is not
/// re-checked here — callers use it only for already-matured slots.
pub fn withdraw_at_time(ledger: &mut Ledger, owner: &String, unlock_time: u64) -> (r: Result<
    u128,
    ContractError,
>)
    requires
        old(ledger).wf(),
    ensures
        final(ledger).wf(),
        withdraw_at_time_post(*old(ledger), *final(ledger), owner@, unlock_time, r),
{
    proof {
        lemma_find_account_props(ledger.accounts@, owner@);
    }
    let i = match find_account_idx(&ledger.accounts, owner) {
        Option::Some(i) => i,
        Option::None => {
            return Err(ContractError::NoPendingUnlock);
        },
    };
    proof {
        lemma_find_unlock_props(ledger.accounts@[i as int].unlocks@, unlock_time as int);
    }
    let j = match find_unlock_idx(&ledger.accounts[i].unlocks, unlock_time) {
        Option::Some(j) => j,
        Option::None => {
            return Err(ContractError::NoPendingUnlock);
        },
    };
    let e = ledger.accounts[i].unlocks[j];
    let settle = match ledger.history.lookup_strictly_before(e.time) {
        Ok(snap) => snap,
        Err(er) => {
            return Err(er);
        },
    };
    let v = match convert(e.amount, e.rebase_at_lock, settle.multiplier) {
        Ok(v) => v,
        Err(er) => {
            return Err(er);
        },
    };
    let ghost su = ledger.accounts@[i as int].unlocks@;
    ledger.accounts[i].unlocks.remove(j);
    proof {
        assert(old(ledger).accounts@[i as int].wf());
        let nu = ledger.accounts@[i as int].unlocks@;
        assert(nu == su.remove(j as int));
        assert(unlocks_sorted(nu)) by {
            assert forall|x: int, y: int| 0 <= x < y < nu.len() implies nu[x].time < nu[y].time by {
                let mx: int = if x < j { x } else { x + 1 };
                let my: int = if y < j { y } else { y + 1 };
                assert(nu[x] == su[mx]);
                assert(nu[y] == su[my]);
            }
        }
        assert(ledger.accounts@ =~= old(ledger).accounts@.update(
            i as int,
            ledger.accounts@[i as int],
        ));
        lemma_ledger_update_ok(*old(ledger), *ledger, i as int, owner@);
    }
    Ok(v)
}

/// Route one caller message to its operation. `funds` is the asset amount
/// the execution context attached (consumed by a deposit); `price` is the
/// oracle collaborator's sample (consumed by a rebase, and positive).
pub fn execute(
    ledger: &mut Ledger,
    sender: &String,
    funds: u128,
    price: u128,
    now: u64,
    msg: ExecuteMsg,
) -> (r: Result<LedgerEffect, ContractError>)
    requires
        old(ledger).wf(),
        msg is Rebase ==> price > 0,
    ensures
        final(ledger).wf(),
        match msg {
            ExecuteMsg::Deposit {} => match r {
                Result::Ok(eff) => eff == (LedgerEffect::Burn { amount: funds })
                    && deposit_post(*old(ledger), *final(ledger), sender@, funds, now, Ok(())),
                Result::Err(e) => deposit_post(
                    *old(ledger),
                    *final(ledger),
                    sender@,
                    funds,
                    now,
                    Err(e),
                ),
            },
            ExecuteMsg::Unlock { amount } => match r {
                Result::Ok(eff) => eff == (LedgerEffect::NoTransfer {}) && unlock_post(
                    *old(ledger),
                    *final(ledger),
                    sender@,
                    amount,
                    now,
                    Ok(()),
                ),
                Result::Err(e) => unlock_post(
                    *old(ledger),
                    *final(ledger),
                    sender@,
                    amount,
                    now,
                    Err(e),
                ),
            },
            ExecuteMsg::Withdraw {} => match r {
                Result::Ok(eff) => eff matches LedgerEffect::Mint { amount } && withdraw_post(
                    *old(ledger),
                    *final(ledger),
                    sender@,
                    now,
                    Ok(amount),
                ),
                Result::Err(e) => withdraw_post(*old(ledger), *final(ledger), sender@, now, Err(e)),
            },
            ExecuteMsg::Rebase {} => match r {
                Result::Ok(eff) => eff == (LedgerEffect::NoTransfer {}) && rebase_post(
                    *old(ledger),
                    *final(ledger),
                    price,
                    now,
                    Ok(()),
                ),
                Result::Err(e) => rebase_post(*old(ledger), *final(ledger), price, now, Err(e)),
            },
        },
{
    match msg {
        ExecuteMsg::Deposit {} => match deposit(ledger, sender, funds, now) {
            Ok(_) => Ok(LedgerEffect::Burn { amount: funds }),
            Err(e) => Err(e),
        },
        ExecuteMsg::Unlock { amount } => match unlock(ledger, sender, amount, now) {
            Ok(_) => Ok(LedgerEffect::NoTransfer {}),
            Err(e) => Err(e),
        },
        ExecuteMsg::Withdraw {} => match withdraw(ledger, sender, now) {
            Ok(total) => Ok(LedgerEffect::Mint { amount: total }),
            Err(e) => Err(e),
        },
        ExecuteMsg::Rebase {} => match rebase(ledger, price, now) {
            Ok(_) => Ok(LedgerEffect::NoTransfer {}),
            Err(e) => Err(e),
        },
    }
}

/// Answer one read-only query with structured data.
pub fn query(ledger: &Ledger, msg: QueryMsg) -> (r: QueryAnswer)
    ensures
        match msg {
            QueryMsg::GetLocks { address } => r matches QueryAnswer::Locks { lock } && lock
                == ledger.spec_lock_of(address@),
            QueryMsg::GetUnlocks { address } => r matches QueryAnswer::Unlocks { unlocks }
                && unlocks@ == ledger.spec_unlocks_of(address@),
        },
{
    match msg {
        QueryMsg::GetLocks { address } => QueryAnswer::Locks {
            lock: query_locks(ledger, &address),
        },
        QueryMsg::GetUnlocks { address } => QueryAnswer::Unlocks {
            unlocks: query_unlocks(ledger, &address),
        },
    }
}

/// Re-basing idempotence: a deposit made while the multiplier is unchanged
/// from the lock's basis leaves the principal exactly additive and the basis
/// unchanged in value. (A deposit of zero is rejected outright: see
/// `deposit_post`.)
pub proof fn lemma_deposit_unchanged_multiplier(
    pre: Ledger,
    post: Ledger,
    owner: Seq<char>,
    amount: u128,
    now: u64,
    l: LockEntry,
)
    requires
        deposit_post(pre, post, owner, amount, now, Ok(())),
        amount > 0,
        pre.spec_lock_of(owner) == Some(l),
        l.rebase_at_lock > 0,
        spec_at_or_before(pre.history@, now as int) matches Some(snap) && snap.multiplier
            == l.rebase_at_lock,
        l.amount + amount <= u128::MAX,
    ensures
        post.spec_lock_of(owner) == Some(
            LockEntry {
                amount: (l.amount + amount) as u128,
                rebase_at_lock: l.rebase_at_lock,
            },
        ),
{
    crate::convert::lemma_convert_identity(l.amount, l.rebase_at_lock);
}

/// Conservation across a partial unlock into a fresh slot: the lock keeps
/// `l.amount - amount` and the new slot holds `amount`, both under the
/// lock's basis; at any one target multiplier the two parts together are
/// worth the whole original lock, up to one truncation unit, and never
/// more.
pub proof fn lemma_unlock_conserves_value(
    pre: Ledger,
    post: Ledger,
    owner: Seq<char>,
    amount: u128,
    now: u64,
    l: LockEntry,
    target: u128,
)
    requires
        unlock_post(pre, post, owner, amount, now, Ok(())),
        pre.spec_lock_of(owner) == Some(l),
        spec_find_unlock(pre.spec_unlocks_of(owner), now as int) is None,
        0 < amount < l.amount,
        l.rebase_at_lock > 0,
    ensures
        post.spec_lock_of(owner) == Some(
            LockEntry {
                amount: (l.amount - amount) as u128,
                rebase_at_lock: l.rebase_at_lock,
            },
        ),
        post.spec_unlocks_of(owner) == pre.spec_unlocks_of(owner).insert(
            unlocks_len_before(pre.spec_unlocks_of(owner), now as int),
            UnlockEntry { amount, time: now, rebase_at_lock: l.rebase_at_lock },
        ),
        conv_value((l.amount - amount) as int, l.rebase_at_lock as int, target as int)
            + conv_value(amount as int, l.rebase_at_lock as int, target as int) <= conv_value(
            l.amount as int,
            l.rebase_at_lock as int,
            target as int,
        ),
        conv_value(l.amount as int, l.rebase_at_lock as int, target as int) <= conv_value(
            (l.amount - amount) as int,
            l.rebase_at_lock as int,
            target as int,
        ) + conv_value(amount as int, l.rebase_at_lock as int, target as int) + 1,
{
    crate::convert::lemma_convert_additive(
        (l.amount - amount) as int,
        amount as int,
        l.rebase_at_lock as int,
        target as int,
    );
}

/// Conservation across a whole deposit, partial unlock and maturity sweep,
/// in the case where the settlement multiplier equals the deposit basis: the
/// withdrawn total is exactly the unlocked amount, the remaining lock holds
/// exactly the rest, and together they account for the whole deposit. (Under
/// a changed multiplier the same split holds up to one truncation unit: see
/// `lemma_unlock_conserves_value`.)
pub proof fn lemma_conservation_sequence(
    s0: Ledger,
    s1: Ledger,
    s2: Ledger,
    s3: Ledger,
    owner: Seq<char>,
    a: u128,
    u: u128,
    t0: u64,
    t1: u64,
    t2: u64,
    w: u128,
    m: u128,
)
    requires
        s0.spec_lock_of(owner) is None,
        s0.spec_unlocks_of(owner) == Seq::<UnlockEntry>::empty(),
        deposit_post(s0, s1, owner, a, t0, Ok(())),
        spec_at_or_before(s0.history@, t0 as int) matches Some(snap0) && snap0.multiplier == m,
        m > 0,
        unlock_post(s1, s2, owner, u, t1, Ok(())),
        0 < u < a,
        withdraw_post(s2, s3, owner, t2, Ok(w)),
        t1 <= t2,
        spec_strictly_before(s2.history@, t1 as int) matches Some(snap1) && snap1.multiplier == m,
    ensures
        w == u,
        s3.spec_lock_of(owner) == Some(
            LockEntry { amount: (a - u) as u128, rebase_at_lock: m },
        ),
        w + conv_value((a - u) as int, m as int, m as int) == a,
{
    let slot = UnlockEntry { amount: u, time: t1, rebase_at_lock: m };
    assert(s1.spec_lock_of(owner) == Some(LockEntry { amount: a, rebase_at_lock: m }));
    assert(s1.spec_unlocks_of(owner) == Seq::<UnlockEntry>::empty());
    assert(spec_find_unlock(Seq::<UnlockEntry>::empty(), t1 as int) is None);
    assert(Seq::<UnlockEntry>::empty().insert(0, slot) =~= seq![slot]);
    assert(s2.spec_lock_of(owner) == Some(LockEntry { amount: (a - u) as u128, rebase_at_lock: m }));
    assert(s2.spec_unlocks_of(owner) == seq![slot]);
    crate::convert::lemma_convert_identity(u, m);
    assert(seq![slot][0] == slot);
    assert(seq![slot].drop_first() =~= Seq::<UnlockEntry>::empty());
    assert(spec_settle_value(s2.history@, slot) == Ok::<u128, ContractError>(u));
    assert(spec_batch_total(s2.history@, Seq::<UnlockEntry>::empty(), t2 as int, u as int)
        == Ok::<u128, ContractError>(u));
    assert(spec_batch_total(s2.history@, seq![slot], t2 as int, 0) == Ok::<u128, ContractError>(u));
    assert(w == u);
    crate::convert::lemma_convert_identity((a - u) as u128, m);
    assert(conv_value((a - u) as int, m as int, m as int) == a - u);
}

} // verus!
