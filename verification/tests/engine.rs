use evm_state::state::EvmState;
use evm_state::types::{AccountState, Address, Error, StorageEntry, H256, U256};

fn addr(n: u64) -> Address {
    Address { hi: n, mid: 0, lo: 0 }
}

fn acct(balance: u64) -> AccountState {
    AccountState::with_balance(U256::from_u64(balance))
}

#[test]
fn fresh_store_is_empty_at_slot_zero() {
    let state = EvmState::default();
    assert_eq!(state.current_slot(), 0);
    assert!(state.get_account(addr(1)).is_none());
}

#[test]
fn last_write_per_address_survives_freeze() {
    let mut state = EvmState::default();
    state.set_account(addr(1), acct(10)).unwrap();
    state.set_account(addr(2), acct(20)).unwrap();
    state.set_account(addr(1), acct(11)).unwrap();
    state.freeze();
    let a1 = state.get_account(addr(1)).unwrap();
    assert_eq!(a1.balance, U256::from_u64(11));
    let a2 = state.get_account(addr(2)).unwrap();
    assert_eq!(a2.balance, U256::from_u64(20));
    assert!(state.get_account(addr(3)).is_none());
}

#[test]
fn child_write_leaves_parent_untouched() {
    let mut parent = EvmState::default();
    parent.set_account(addr(1), acct(10)).unwrap();
    parent.freeze();
    let mut child = parent.try_fork(1).unwrap();
    child.set_account(addr(1), acct(99)).unwrap();
    child.set_account(addr(2), acct(2)).unwrap();
    let p1 = parent.get_account(addr(1)).unwrap();
    assert_eq!(p1.balance, U256::from_u64(10));
    assert!(parent.get_account(addr(2)).is_none());
    let c1 = child.get_account(addr(1)).unwrap();
    assert_eq!(c1.balance, U256::from_u64(99));
}

#[test]
fn fork_must_strictly_increase_slot() {
    let mut state = EvmState::default();
    state.freeze();
    assert_eq!(state.try_fork(0).unwrap_err(), Error::SlotNotGreater);
    let state = state.try_fork(5).unwrap();
    assert_eq!(state.current_slot(), 5);
    assert_eq!(state.try_fork(5).unwrap_err(), Error::SlotNotGreater);
    assert_eq!(state.try_fork(3).unwrap_err(), Error::SlotNotGreater);
}

#[test]
fn fork_falls_back_to_source_state() {
    let mut state = EvmState::default();
    state.set_account(addr(7), acct(70)).unwrap();
    state.freeze();
    let child = state.try_fork(3).unwrap();
    let got = child.get_account(addr(7)).unwrap();
    assert_eq!(got.balance, U256::from_u64(70));
    assert!(child.get_account(addr(8)).is_none());
}

#[test]
fn frozen_slot_rejects_writes() {
    let mut state = EvmState::default();
    state.freeze();
    assert_eq!(state.set_account(addr(1), acct(1)).unwrap_err(), Error::FrozenSlot);
    assert!(state.get_account(addr(1)).is_none());
}

#[test]
fn freeze_twice_is_a_no_op() {
    let mut state = EvmState::default();
    state.set_account(addr(1), acct(1)).unwrap();
    state.freeze();
    state.freeze();
    assert_eq!(state.get_account(addr(1)).unwrap().balance, U256::from_u64(1));
}

#[test]
fn newer_slot_wins_after_squash() {
    // Create at slot 0, set A = 100, freeze, fork to 1, set A = 50,
    // freeze, fork to 2, squash: slot 1's write wins over slot 0's.
    let a = addr(0xA);
    let mut state = EvmState::default();
    state.set_account(a, acct(100)).unwrap();
    state.freeze();
    let mut state = state.try_fork(1).unwrap();
    state.set_account(a, acct(50)).unwrap();
    state.freeze();
    let mut state = state.try_fork(2).unwrap();
    state.squash().unwrap();
    assert_eq!(state.current_slot(), 2);
    let got = state.get_account(a).unwrap();
    assert_eq!(got.balance, U256::from_u64(50));
}

#[test]
fn squash_through_working_ancestor_fails() {
    let mut parent = EvmState::default();
    parent.set_account(addr(1), acct(1)).unwrap();
    // Fork from the still-working head: the parent overlay stays working.
    let mut child = parent.try_fork(1).unwrap();
    child.freeze();
    assert_eq!(child.squash().unwrap_err(), Error::SquashThroughWorking);
    // The store is untouched by the failed squash.
    assert_eq!(child.current_slot(), 1);
    assert_eq!(child.get_account(addr(1)).unwrap().balance, U256::from_u64(1));
}

#[test]
fn account_records_keep_code_and_storage() {
    let mut state = EvmState::default();
    let record = AccountState {
        balance: U256::from_u64(3),
        nonce: U256::from_u64(1),
        code: vec![0x60, 0x0a, 0x60, 0x00],
        storage: vec![StorageEntry {
            key: H256 { w3: 0, w2: 0, w1: 0, w0: 1 },
            value: H256 { w3: 0, w2: 0, w1: 0, w0: 42 },
        }],
    };
    state.set_account(addr(9), record).unwrap();
    let got = state.get_account(addr(9)).unwrap();
    assert_eq!(got.code, vec![0x60, 0x0a, 0x60, 0x00]);
    assert_eq!(got.storage.len(), 1);
    assert_eq!(got.storage[0].value.w0, 42);
    assert_eq!(got.nonce, U256::from_u64(1));
}
