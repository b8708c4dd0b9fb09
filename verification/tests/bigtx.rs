use evm_state::bigtx::seed_address;
use evm_state::state::EvmState;
use evm_state::types::{AccountState, Address, Error, H256, U256};

fn seed(n: u64) -> H256 {
    H256 { w3: n, w2: 0, w1: 0, w0: 0 }
}

#[test]
fn chunks_assemble_in_offset_order() {
    // Allocate 10 bytes, write the two halves in order, execute: the
    // 10-byte concatenation comes back and a second execute fails.
    let mut state = EvmState::default();
    let x = seed(1);
    state.allocate(x, 10).unwrap();
    state.write(x, 0, &vec![0, 1, 2, 3, 4]).unwrap();
    state.write(x, 5, &vec![5, 6, 7, 8, 9]).unwrap();
    let bytes = state.execute(x).unwrap();
    assert_eq!(bytes, vec![0, 1, 2, 3, 4, 5, 6, 7, 8, 9]);
    assert_eq!(state.execute(x).unwrap_err(), Error::NotAllocated);
}

#[test]
fn chunk_order_does_not_matter() {
    let mut state = EvmState::default();
    let x = seed(2);
    state.allocate(x, 6).unwrap();
    state.write(x, 4, &vec![50, 60]).unwrap();
    state.write(x, 0, &vec![10, 20]).unwrap();
    state.write(x, 2, &vec![30, 40]).unwrap();
    let bytes = state.execute(x).unwrap();
    assert_eq!(bytes, vec![10, 20, 30, 40, 50, 60]);
}

#[test]
fn execute_fails_while_any_byte_is_uncovered() {
    let mut state = EvmState::default();
    let x = seed(3);
    state.allocate(x, 4).unwrap();
    state.write(x, 0, &vec![1]).unwrap();
    state.write(x, 2, &vec![3, 4]).unwrap();
    // Offset 1 was never written.
    assert_eq!(state.execute(x).unwrap_err(), Error::IncompleteBuffer);
    // Covering the gap makes execute succeed.
    state.write(x, 1, &vec![2]).unwrap();
    let bytes = state.execute(x).unwrap();
    assert_eq!(bytes, vec![1, 2, 3, 4]);
}

#[test]
fn executed_code_is_observable_through_get_account() {
    let mut state = EvmState::default();
    let x = H256 { w3: 7, w2: 8, w1: 9 << 32, w0: 0 };
    state.allocate(x, 3).unwrap();
    state.write(x, 0, &vec![0xde, 0xad, 0x42]).unwrap();
    state.execute(x).unwrap();
    let target = seed_address(x);
    assert_eq!(target, Address { hi: 7, mid: 8, lo: 9 });
    let got = state.get_account(target).unwrap();
    assert_eq!(got.code, vec![0xde, 0xad, 0x42]);
    assert_eq!(got.balance, U256::zero());
}

#[test]
fn executed_code_keeps_the_existing_balance() {
    let mut state = EvmState::default();
    let x = seed(5);
    let target = seed_address(x);
    state
        .set_account(
            target,
            AccountState {
                balance: U256::from_u64(77),
                nonce: U256::from_u64(3),
                code: Vec::new(),
                storage: Vec::new(),
            },
        )
        .unwrap();
    state.allocate(x, 2).unwrap();
    state.write(x, 0, &vec![1, 2]).unwrap();
    state.execute(x).unwrap();
    let got = state.get_account(target).unwrap();
    assert_eq!(got.balance, U256::from_u64(77));
    assert_eq!(got.nonce, U256::from_u64(3));
    assert_eq!(got.code, vec![1, 2]);
}

#[test]
fn allocate_twice_fails() {
    let mut state = EvmState::default();
    let x = seed(6);
    state.allocate(x, 4).unwrap();
    assert_eq!(state.allocate(x, 4).unwrap_err(), Error::AlreadyAllocated);
}

#[test]
fn distinct_seeds_do_not_interfere() {
    let mut state = EvmState::default();
    let x = seed(7);
    let y = seed(8);
    state.allocate(x, 2).unwrap();
    state.allocate(y, 2).unwrap();
    state.write(x, 0, &vec![1, 2]).unwrap();
    state.write(y, 0, &vec![3, 4]).unwrap();
    assert_eq!(state.execute(y).unwrap(), vec![3, 4]);
    assert_eq!(state.execute(x).unwrap(), vec![1, 2]);
}

#[test]
fn write_without_allocate_fails() {
    let mut state = EvmState::default();
    assert_eq!(state.write(seed(9), 0, &vec![1]).unwrap_err(), Error::NotAllocated);
}

#[test]
fn write_beyond_the_reserved_length_fails() {
    let mut state = EvmState::default();
    let x = seed(10);
    state.allocate(x, 4).unwrap();
    assert_eq!(state.write(x, 3, &vec![1, 2]).unwrap_err(), Error::OutOfBounds);
    assert_eq!(state.write(x, 5, &vec![]).unwrap_err(), Error::OutOfBounds);
    state.write(x, 4, &vec![]).unwrap();
}

#[test]
fn overlapping_writes_take_the_last_value() {
    let mut state = EvmState::default();
    let x = seed(11);
    state.allocate(x, 3).unwrap();
    state.write(x, 0, &vec![1, 1, 1]).unwrap();
    state.write(x, 1, &vec![9]).unwrap();
    assert_eq!(state.execute(x).unwrap(), vec![1, 9, 1]);
}

#[test]
fn execute_on_a_frozen_head_fails_but_releases_the_buffer() {
    let mut state = EvmState::default();
    let x = seed(12);
    state.allocate(x, 1).unwrap();
    state.write(x, 0, &vec![5]).unwrap();
    state.freeze();
    // The account-level effect cannot land, yet the fully covered buffer
    // is consumed: a second execute finds no buffer, and the seed may be
    // allocated afresh.
    assert_eq!(state.execute(x).unwrap_err(), Error::FrozenSlot);
    assert_eq!(state.execute(x).unwrap_err(), Error::NotAllocated);
    state.allocate(x, 2).unwrap();
    // An incomplete buffer, by contrast, survives its failed execute.
    assert_eq!(state.execute(x).unwrap_err(), Error::IncompleteBuffer);
    let mut child = state.try_fork(1).unwrap();
    child.write(x, 0, &vec![6, 7]).unwrap();
    assert_eq!(child.execute(x).unwrap(), vec![6, 7]);
}

#[test]
fn execute_of_an_unknown_seed_fails() {
    let mut state = EvmState::default();
    assert_eq!(state.execute(seed(13)).unwrap_err(), Error::NotAllocated);
}
