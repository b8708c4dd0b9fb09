use evm_state::state::EvmState;
use evm_state::types::{AccountState, Address, U256};

fn addr(n: u64) -> Address {
    Address { hi: 0, mid: n, lo: 0 }
}

fn acct(balance: u64) -> AccountState {
    AccountState::with_balance(U256::from_u64(balance))
}

#[test]
fn squash_preserves_every_visible_account() {
    let mut state = EvmState::default();
    state.set_account(addr(1), acct(1)).unwrap();
    state.freeze();
    let mut state = state.try_fork(1).unwrap();
    state.set_account(addr(2), acct(2)).unwrap();
    state.set_account(addr(1), acct(11)).unwrap();
    state.freeze();
    state.squash().unwrap();
    assert_eq!(state.get_account(addr(1)).unwrap().balance, U256::from_u64(11));
    assert_eq!(state.get_account(addr(2)).unwrap().balance, U256::from_u64(2));
    assert!(state.get_account(addr(3)).is_none());
}

#[test]
fn squash_twice_converges() {
    let mut state = EvmState::default();
    state.set_account(addr(1), acct(1)).unwrap();
    state.freeze();
    let mut state = state.try_fork(4).unwrap();
    state.set_account(addr(2), acct(2)).unwrap();
    state.freeze();
    state.squash().unwrap();
    let image_once = state.durable_image();
    // No new frozen ancestor: the second squash changes nothing.
    state.squash().unwrap();
    let image_twice = state.durable_image();
    assert_eq!(image_once.slot, image_twice.slot);
    assert_eq!(image_once.accounts.len(), image_twice.accounts.len());
    for (a, v) in image_once.accounts.entries.iter() {
        let w = image_twice.accounts.get(*a).unwrap();
        assert_eq!(w.balance, v.balance);
        assert_eq!(w.nonce, v.nonce);
        assert_eq!(w.code, v.code);
        assert_eq!(w.storage, v.storage);
    }
    assert_eq!(state.get_account(addr(1)).unwrap().balance, U256::from_u64(1));
    assert_eq!(state.get_account(addr(2)).unwrap().balance, U256::from_u64(2));
}

#[test]
fn squash_on_a_fresh_store_is_a_no_op() {
    let mut state = EvmState::default();
    state.squash().unwrap();
    assert_eq!(state.current_slot(), 0);
    assert!(state.get_account(addr(1)).is_none());
    // The store still works as usual afterwards.
    state.set_account(addr(1), acct(5)).unwrap();
    assert_eq!(state.get_account(addr(1)).unwrap().balance, U256::from_u64(5));
}

#[test]
fn squash_moves_the_root_and_allows_further_forks() {
    let mut state = EvmState::default();
    state.freeze();
    let mut state = state.try_fork(10).unwrap();
    state.set_account(addr(1), acct(1)).unwrap();
    state.freeze();
    state.squash().unwrap();
    assert_eq!(state.current_slot(), 10);
    state.freeze();
    let state = state.try_fork(20).unwrap();
    assert_eq!(state.current_slot(), 20);
    assert_eq!(state.get_account(addr(1)).unwrap().balance, U256::from_u64(1));
}

#[test]
fn long_chain_squash_keeps_the_newest_write() {
    let a = addr(1);
    let mut state = EvmState::default();
    for slot in 1..=8u64 {
        state.set_account(a, acct(slot * 100)).unwrap();
        state.freeze();
        state = state.try_fork(slot).unwrap();
    }
    state.freeze();
    state.squash().unwrap();
    // The write closest to the head wins: the one made at slot 7's fork.
    assert_eq!(state.get_account(a).unwrap().balance, U256::from_u64(800));
}
