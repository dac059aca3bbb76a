use rebase_ledger::contract::{
    deposit, execute, instantiate, query, query_locks, query_unlocks, rebase, unlock, withdraw,
    withdraw_at_time, Ledger,
};
use rebase_ledger::convert::{convert, DEC_ONE};
use rebase_ledger::error::ContractError;
use rebase_ledger::history::RebaseHistory;
use rebase_ledger::msg::{ExecuteMsg, InstantiateMsg, LedgerEffect, QueryAnswer, QueryMsg};
use rebase_ledger::state::{LockEntry, UnlockEntry};

fn fresh_ledger() -> Ledger {
    instantiate(InstantiateMsg {
        rebase_interval: 60 * 60 * 24,
        unlock_interval: 60 * 60 * 24,
        denom: "FOO".to_owned(),
    })
}

#[test]
fn test() {
    let _sender = String::from("sender0001");
    let _balance = (100u128, "tokens");

    let mut ledger = fresh_ledger();
    let anyone = String::from("anyone");
    let now = 1_571_797_419u64;

    execute(&mut ledger, &anyone, 100, 1_000_000, now, ExecuteMsg::Rebase {}).unwrap();
    execute(&mut ledger, &anyone, 100, 1_000_000, now, ExecuteMsg::Deposit {}).unwrap();

    let res = query(
        &ledger,
        QueryMsg::GetLocks {
            address: anyone.clone(),
        },
    );
    println!("res: {:?}", res);
    match res {
        QueryAnswer::Locks { lock } => {
            let out = lock.unwrap();
            assert_eq!(out.amount, 100);
            // price 1_000_000 over an initial last price of 1
            assert_eq!(out.rebase_at_lock, 1_000_000 * DEC_ONE);
        }
        _ => panic!("wrong answer kind"),
    }
}

#[test]
fn convert_identity() {
    // P-style identity: convert(x, m, m) == x
    assert_eq!(convert(123, 3 * DEC_ONE / 10, 3 * DEC_ONE / 10), Ok(123));
    assert_eq!(convert(0, DEC_ONE, DEC_ONE), Ok(0));
    assert_eq!(convert(u128::MAX, 7, 7), Ok(u128::MAX));
}

#[test]
fn convert_truncates_toward_zero() {
    // 5 * 0.5 = 2.5 rounds down to 2
    assert_eq!(convert(5, DEC_ONE, DEC_ONE / 2), Ok(2));
    // ratio 3/2 = 1.5; 7 * 1.5 = 10.5 rounds down to 10
    assert_eq!(convert(7, 2 * DEC_ONE, 3 * DEC_ONE), Ok(10));
    // scaling up is exact
    assert_eq!(convert(100, DEC_ONE, 2 * DEC_ONE), Ok(200));
}

#[test]
fn convert_zero_basis_and_overflow() {
    assert_eq!(convert(1, 0, DEC_ONE), Err(ContractError::NoRebaseRecord));
    // the ratio alone exceeds the representable range
    assert_eq!(
        convert(1, 1, u128::MAX),
        Err(ContractError::Overflow)
    );
    // the product exceeds the representable range
    assert_eq!(
        convert(u128::MAX, DEC_ONE, 2 * DEC_ONE),
        Err(ContractError::Overflow)
    );
}

#[test]
fn deposit_zero_is_rejected() {
    let mut ledger = fresh_ledger();
    let a = String::from("alice");
    rebase(&mut ledger, 1, 0).unwrap();
    assert_eq!(
        deposit(&mut ledger, &a, 0, 0),
        Err(ContractError::ZeroAmount)
    );
    assert_eq!(query_locks(&ledger, &a), None);
}

#[test]
fn deposit_without_history_fails() {
    let mut ledger = fresh_ledger();
    let a = String::from("alice");
    assert_eq!(
        deposit(&mut ledger, &a, 100, 0),
        Err(ContractError::NoRebaseRecord)
    );
}

#[test]
fn deposit_unchanged_multiplier_is_additive() {
    let mut ledger = fresh_ledger();
    let a = String::from("alice");
    rebase(&mut ledger, 1, 0).unwrap();
    deposit(&mut ledger, &a, 100, 5).unwrap();
    deposit(&mut ledger, &a, 50, 7).unwrap();
    assert_eq!(
        query_locks(&ledger, &a),
        Some(LockEntry {
            amount: 150,
            rebase_at_lock: DEC_ONE,
        })
    );
}

#[test]
fn deposit_rebases_existing_lock() {
    let mut ledger = fresh_ledger();
    let a = String::from("alice");
    rebase(&mut ledger, 1, 0).unwrap();
    deposit(&mut ledger, &a, 100, 0).unwrap();
    // multiplier doubles: 2 over a last price of 1
    rebase(&mut ledger, 2, 10).unwrap();
    deposit(&mut ledger, &a, 1, 10).unwrap();
    assert_eq!(
        query_locks(&ledger, &a),
        Some(LockEntry {
            amount: 201,
            rebase_at_lock: 2 * DEC_ONE,
        })
    );
}

#[test]
fn unlock_errors() {
    let mut ledger = fresh_ledger();
    let a = String::from("alice");
    rebase(&mut ledger, 1, 0).unwrap();
    assert_eq!(
        unlock(&mut ledger, &a, 10, 5),
        Err(ContractError::NoLockEntry)
    );
    deposit(&mut ledger, &a, 100, 0).unwrap();
    assert_eq!(
        unlock(&mut ledger, &a, 200, 5),
        Err(ContractError::InsufficientFunds)
    );
    // nothing was committed by the failures
    assert_eq!(
        query_locks(&ledger, &a),
        Some(LockEntry {
            amount: 100,
            rebase_at_lock: DEC_ONE,
        })
    );
    assert!(query_unlocks(&ledger, &a).is_empty());
}

#[test]
fn unlock_partial_and_merge() {
    let mut ledger = fresh_ledger();
    let a = String::from("alice");
    rebase(&mut ledger, 1, 0).unwrap();
    deposit(&mut ledger, &a, 100, 0).unwrap();
    unlock(&mut ledger, &a, 30, 20).unwrap();
    unlock(&mut ledger, &a, 20, 20).unwrap();
    assert_eq!(
        query_locks(&ledger, &a),
        Some(LockEntry {
            amount: 50,
            rebase_at_lock: DEC_ONE,
        })
    );
    // the two requests at the same time merged into one slot
    assert_eq!(
        query_unlocks(&ledger, &a),
        vec![UnlockEntry {
            amount: 50,
            time: 20,
            rebase_at_lock: DEC_ONE,
        }]
    );
}

#[test]
fn unlock_full_removes_lock() {
    let mut ledger = fresh_ledger();
    let a = String::from("alice");
    rebase(&mut ledger, 1, 0).unwrap();
    deposit(&mut ledger, &a, 100, 0).unwrap();
    unlock(&mut ledger, &a, 100, 20).unwrap();
    assert_eq!(query_locks(&ledger, &a), None);
    assert_eq!(query_unlocks(&ledger, &a).len(), 1);
}

#[test]
fn unlocks_are_listed_in_time_order() {
    let mut ledger = fresh_ledger();
    let a = String::from("alice");
    rebase(&mut ledger, 1, 0).unwrap();
    deposit(&mut ledger, &a, 100, 0).unwrap();
    unlock(&mut ledger, &a, 10, 30).unwrap();
    unlock(&mut ledger, &a, 10, 20).unwrap();
    let slots = query_unlocks(&ledger, &a);
    assert_eq!(slots.len(), 2);
    assert_eq!(slots[0].time, 20);
    assert_eq!(slots[1].time, 30);
}

#[test]
fn withdraw_boundary_tie_break() {
    // An unlock requested at time 20 that matures, with a rebase posted at
    // exactly 20, settles with the multiplier in effect before 20.
    let mut ledger = fresh_ledger();
    let a = String::from("alice");
    rebase(&mut ledger, 1, 0).unwrap();
    deposit(&mut ledger, &a, 100, 0).unwrap();
    unlock(&mut ledger, &a, 100, 20).unwrap();
    // doubles the multiplier at exactly the request time
    rebase(&mut ledger, 2, 20).unwrap();
    let minted = withdraw(&mut ledger, &a, 20).unwrap();
    assert_eq!(minted, 100);
    assert!(query_unlocks(&ledger, &a).is_empty());
}

#[test]
fn withdraw_ignores_unmatured_slots() {
    let mut ledger = fresh_ledger();
    let a = String::from("alice");
    rebase(&mut ledger, 1, 0).unwrap();
    deposit(&mut ledger, &a, 100, 5).unwrap();
    unlock(&mut ledger, &a, 40, 20).unwrap();
    unlock(&mut ledger, &a, 60, 30).unwrap();
    let minted = withdraw(&mut ledger, &a, 25).unwrap();
    assert_eq!(minted, 40);
    // the slot at 30 is not yet matured and stays
    assert_eq!(
        query_unlocks(&ledger, &a),
        vec![UnlockEntry {
            amount: 60,
            time: 30,
            rebase_at_lock: DEC_ONE,
        }]
    );
}

#[test]
fn withdraw_without_account_is_zero() {
    let mut ledger = fresh_ledger();
    let a = String::from("nobody");
    assert_eq!(withdraw(&mut ledger, &a, 100), Ok(0));
}

#[test]
fn withdraw_unsettleable_slot_aborts_whole_batch() {
    let mut ledger = fresh_ledger();
    let a = String::from("alice");
    rebase(&mut ledger, 1, 0).unwrap();
    deposit(&mut ledger, &a, 100, 0).unwrap();
    // a slot requested at time 0 has no snapshot strictly before it
    unlock(&mut ledger, &a, 100, 0).unwrap();
    assert_eq!(
        withdraw(&mut ledger, &a, 50),
        Err(ContractError::NoRebaseRecord)
    );
    // partial settlement is not permitted: the slot is still there
    assert_eq!(query_unlocks(&ledger, &a).len(), 1);
}

#[test]
fn withdraw_at_time_settles_single_slot() {
    let mut ledger = fresh_ledger();
    let a = String::from("alice");
    rebase(&mut ledger, 1, 0).unwrap();
    deposit(&mut ledger, &a, 100, 5).unwrap();
    unlock(&mut ledger, &a, 40, 20).unwrap();
    unlock(&mut ledger, &a, 60, 30).unwrap();
    assert_eq!(
        withdraw_at_time(&mut ledger, &a, 25),
        Err(ContractError::NoPendingUnlock)
    );
    assert_eq!(withdraw_at_time(&mut ledger, &a, 30), Ok(60));
    // the slot is destroyed once withdrawn
    assert_eq!(
        withdraw_at_time(&mut ledger, &a, 30),
        Err(ContractError::NoPendingUnlock)
    );
    assert_eq!(query_unlocks(&ledger, &a).len(), 1);
}

#[test]
fn rebase_duplicate_timestamp() {
    let mut ledger = fresh_ledger();
    rebase(&mut ledger, 1, 10).unwrap();
    assert_eq!(
        rebase(&mut ledger, 2, 10),
        Err(ContractError::DuplicateTimestamp)
    );
    // relative multipliers: the second trigger is priced against the first
    rebase(&mut ledger, 2, 20).unwrap();
    rebase(&mut ledger, 3, 30).unwrap();
    let s = ledger.history.lookup_at_or_before(30).unwrap();
    // 3 over a last price of 2
    assert_eq!(s.multiplier, 3 * DEC_ONE / 2);
}

#[test]
fn rebase_overflow_commits_nothing() {
    let mut ledger = fresh_ledger();
    assert_eq!(
        rebase(&mut ledger, u128::MAX, 10),
        Err(ContractError::Overflow)
    );
    let a = String::from("alice");
    assert_eq!(
        deposit(&mut ledger, &a, 1, 10),
        Err(ContractError::NoRebaseRecord)
    );
}

#[test]
fn history_lookups_are_nearest() {
    let mut h = RebaseHistory::new();
    h.append(10, 2 * DEC_ONE).unwrap();
    h.append(5, DEC_ONE).unwrap();
    assert_eq!(
        h.append(10, 3 * DEC_ONE),
        Err(ContractError::DuplicateTimestamp)
    );
    assert_eq!(h.lookup_at_or_before(7).unwrap().effective_time, 5);
    assert_eq!(h.lookup_at_or_before(10).unwrap().effective_time, 10);
    assert_eq!(h.lookup_strictly_before(10).unwrap().effective_time, 5);
    assert_eq!(
        h.lookup_strictly_before(5),
        Err(ContractError::NoRebaseRecord)
    );
    assert_eq!(
        h.lookup_at_or_before(4),
        Err(ContractError::NoRebaseRecord)
    );
}

#[test]
fn end_to_end_scenario() {
    // history seeded at x1.0; the oracle price scale is 10
    let mut ledger = fresh_ledger();
    ledger.last_price = 10;
    let a = String::from("alice");
    rebase(&mut ledger, 10, 0).unwrap(); // x1.0
    deposit(&mut ledger, &a, 100, 0).unwrap();
    assert_eq!(
        query_locks(&ledger, &a),
        Some(LockEntry {
            amount: 100,
            rebase_at_lock: DEC_ONE,
        })
    );
    rebase(&mut ledger, 12, 10).unwrap(); // 12/10 = x1.2
    unlock(&mut ledger, &a, 100, 20).unwrap();
    assert_eq!(query_locks(&ledger, &a), None);
    // the pending slot keeps the amount under the basis fixed at deposit
    assert_eq!(
        query_unlocks(&ledger, &a),
        vec![UnlockEntry {
            amount: 100,
            time: 20,
            rebase_at_lock: DEC_ONE,
        }]
    );
    rebase(&mut ledger, 18, 30).unwrap(); // 18/12 = x1.5
    // settlement multiplier: the snapshot strictly before 20 is x1.2
    let minted = withdraw(&mut ledger, &a, 25).unwrap();
    assert_eq!(minted, 120);
    assert!(query_unlocks(&ledger, &a).is_empty());
}

#[test]
fn conservation_across_partial_unlock() {
    // deposit -> partial unlock -> withdraw: what is withdrawn plus what the
    // remaining lock is worth equals the re-based deposit, up to truncation
    let mut ledger = fresh_ledger();
    ledger.last_price = 10;
    let a = String::from("alice");
    rebase(&mut ledger, 10, 0).unwrap(); // x1.0
    deposit(&mut ledger, &a, 100, 0).unwrap();
    rebase(&mut ledger, 12, 10).unwrap(); // x1.2
    unlock(&mut ledger, &a, 40, 20).unwrap();
    let withdrawn = withdraw(&mut ledger, &a, 25).unwrap();
    // the slot settles at x1.2: 40 * 1.2 = 48
    assert_eq!(withdrawn, 48);
    let remaining = query_locks(&ledger, &a).unwrap();
    // remaining lock still holds 60 under basis x1.0; worth 72 at x1.2
    let remaining_value = convert(remaining.amount, remaining.rebase_at_lock, 12 * DEC_ONE / 10)
        .unwrap();
    let whole_value = convert(100, DEC_ONE, 12 * DEC_ONE / 10).unwrap();
    assert_eq!(remaining_value + withdrawn, whole_value);
}

#[test]
fn effects_and_messages() {
    let mut ledger = fresh_ledger();
    let a = String::from("alice");
    assert_eq!(
        execute(&mut ledger, &a, 0, 1, 0, ExecuteMsg::Rebase {}),
        Ok(LedgerEffect::NoTransfer {})
    );
    assert_eq!(
        execute(&mut ledger, &a, 70, 1, 0, ExecuteMsg::Deposit {}),
        Ok(LedgerEffect::Burn { amount: 70 })
    );
    assert_eq!(
        execute(&mut ledger, &a, 0, 1, 5, ExecuteMsg::Unlock { amount: 70 }),
        Ok(LedgerEffect::NoTransfer {})
    );
    assert_eq!(
        execute(&mut ledger, &a, 0, 1, 9, ExecuteMsg::Withdraw {}),
        Ok(LedgerEffect::Mint { amount: 70 })
    );
    assert_eq!(
        ContractError::NoRebaseRecord.message(),
        "No rebase record"
    );
    assert_eq!(ContractError::NoLockEntry.message(), "No lock entry");
    assert_eq!(
        ContractError::NoPendingUnlock.message(),
        "No pending unlock"
    );
    assert_eq!(
        ContractError::InsufficientFunds.message(),
        "Insufficient funds"
    );
    assert_eq!(
        ContractError::DuplicateTimestamp.message(),
        "Duplicate rebase timestamp"
    );
    assert_eq!(ContractError::ZeroAmount.message(), "Zero amount");
    assert_eq!(ContractError::Overflow.message(), "Overflow");
}

#[test]
fn zero_multiplier_basis_signals_no_rebase_record() {
    // A trigger can truncate to a zero multiplier; a basis taken from it is
    // unusable and surfaces as a missing rebase record, not a panic.
    let mut ledger = fresh_ledger();
    rebase(&mut ledger, 10_000_000_000_000_000_000u128, 0).unwrap();
    // 1 over a last price of 1e19 truncates to zero
    rebase(&mut ledger, 1, 10).unwrap();
    let a = String::from("alice");
    deposit(&mut ledger, &a, 5, 10).unwrap();
    assert_eq!(
        query_locks(&ledger, &a),
        Some(LockEntry {
            amount: 5,
            rebase_at_lock: 0,
        })
    );
    assert_eq!(
        deposit(&mut ledger, &a, 5, 11),
        Err(ContractError::NoRebaseRecord)
    );
}
