use evm_state::state::EvmState;
use evm_state::types::{AccountState, Address, Error, U256};

fn addr(n: u64) -> Address {
    Address { hi: 0, mid: 0, lo: n as u32 }
}

fn acct(balance: u64) -> AccountState {
    AccountState {
        balance: U256::from_u64(balance),
        nonce: U256::zero(),
        code: vec![balance as u8],
        storage: Vec::new(),
    }
}

#[test]
fn backup_round_trips_after_mutate_freeze_squash() {
    let mut state = EvmState::default();
    state.set_account(addr(1), acct(10)).unwrap();
    state.set_account(addr(2), acct(20)).unwrap();
    state.freeze();
    let mut state = state.try_fork(1).unwrap();
    state.set_account(addr(2), acct(21)).unwrap();
    state.set_account(addr(3), acct(30)).unwrap();
    state.freeze();
    state.squash().unwrap();

    let image = state.durable_image();
    let slot = state.current_slot();
    let loaded = EvmState::load_from_image(image, slot).unwrap();

    assert_eq!(loaded.current_slot(), slot);
    for n in [1u64, 2, 3] {
        let before = state.get_account(addr(n)).unwrap();
        let after = loaded.get_account(addr(n)).unwrap();
        assert_eq!(after.balance, before.balance);
        assert_eq!(after.code, before.code);
    }
    assert!(loaded.get_account(addr(4)).is_none());
}

#[test]
fn load_from_the_wrong_slot_fails() {
    let mut state = EvmState::default();
    state.freeze();
    state.squash().unwrap();
    let image = state.durable_image();
    assert_eq!(image.slot, 0);
    assert_eq!(
        EvmState::load_from_image(image, 7).unwrap_err(),
        Error::NoSuchImage
    );
}

#[test]
fn backup_twice_loads_the_same_state() {
    let mut state = EvmState::default();
    state.set_account(addr(5), acct(50)).unwrap();
    state.freeze();
    state.squash().unwrap();

    // Taking the image twice against the same store is a supported
    // pattern: both images load to the same visible state.
    let first = state.durable_image();
    let second = state.durable_image();
    let slot = state.current_slot();
    let a = EvmState::load_from_image(first, slot).unwrap();
    let b = EvmState::load_from_image(second, slot).unwrap();
    let va = a.get_account(addr(5)).unwrap();
    let vb = b.get_account(addr(5)).unwrap();
    assert_eq!(va.balance, vb.balance);
    assert_eq!(va.code, vb.code);
}

#[test]
fn backup_reads_only_the_durable_root() {
    let mut state = EvmState::default();
    state.set_account(addr(1), acct(10)).unwrap();
    state.freeze();
    state.squash().unwrap();
    // A write above the root is not part of the image.
    state.set_account(addr(2), acct(20)).unwrap();
    let image = state.durable_image();
    let loaded = EvmState::load_from_image(image, state.current_slot()).unwrap();
    assert_eq!(loaded.get_account(addr(1)).unwrap().balance, U256::from_u64(10));
    assert!(loaded.get_account(addr(2)).is_none());
}

#[test]
fn a_loaded_store_accepts_new_work() {
    let mut state = EvmState::default();
    state.set_account(addr(1), acct(10)).unwrap();
    state.freeze();
    state.squash().unwrap();
    let image = state.durable_image();
    let mut loaded = EvmState::load_from_image(image, state.current_slot()).unwrap();
    // The loaded root reopens as a working slot.
    loaded.set_account(addr(2), acct(20)).unwrap();
    loaded.freeze();
    let loaded = loaded.try_fork(9).unwrap();
    assert_eq!(loaded.get_account(addr(2)).unwrap().balance, U256::from_u64(20));
}
