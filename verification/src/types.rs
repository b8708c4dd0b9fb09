//! Plain value types of the store: slot numbers, 256-bit words, addresses
//! and account records.

use vstd::prelude::*;

verus! {

/// A slot number: the host ledger's unit of time. Strictly increasing along
/// any parent-to-child path of the fork tree.
pub type Slot = u64;

/// An unsigned 256-bit integer held as four 64-bit limbs, `w3` the most
/// significant.
#[derive(Clone, Copy, PartialEq, Eq, Structural, Debug)]
pub struct U256 {
    pub w3: u64,
    pub w2: u64,
    pub w1: u64,
    pub w0: u64,
}

impl U256 {
    /// The mathematical value of the four limbs.
    pub open spec fn as_nat(self) -> nat {
        (self.w0 as nat) + (self.w1 as nat) * 0x1_0000_0000_0000_0000
            + (self.w2 as nat) * 0x1_0000_0000_0000_0000_0000_0000_0000_0000
            + (self.w3 as nat)
            * 0x1_0000_0000_0000_0000_0000_0000_0000_0000_0000_0000_0000_0000
    }

    pub fn zero() -> (r: U256)
        ensures
            r.as_nat() == 0,
    {
        U256 { w3: 0, w2: 0, w1: 0, w0: 0 }
    }

    pub fn from_u64(v: u64) -> (r: U256)
        ensures
            r.as_nat() == v,
    {
        U256 { w3: 0, w2: 0, w1: 0, w0: v }
    }
}

/// What an operation of the store can fail with. Every error is surfaced
/// to the caller at once; none is retried or recovered internally.
#[derive(Clone, Copy, PartialEq, Eq, Structural, Debug)]
pub enum Error {
    /// A fork target must strictly exceed the slot it forks from.
    SlotNotGreater,
    /// A frozen slot accepts no further account writes.
    FrozenSlot,
    /// A frozen slot sits above a still-working one on the squash path.
    SquashThroughWorking,
    /// The seed already has an open big-object buffer.
    AlreadyAllocated,
    /// The seed has no open big-object buffer.
    NotAllocated,
    /// A big-object write leaves the reserved length.
    OutOfBounds,
    /// A big-object buffer still has uncovered bytes.
    IncompleteBuffer,
    /// The backup image does not carry the requested slot.
    NoSuchImage,
    /// A byte string is not a well-formed backup image.
    CorruptImage,
}

/// A 256-bit hash value, four 64-bit limbs, `w3` the most significant.
/// Identifies a big-object buffer (the caller-chosen seed) and keys a
/// contract's storage.
#[derive(Clone, Copy, PartialEq, Eq, Structural, Debug)]
pub struct H256 {
    pub w3: u64,
    pub w2: u64,
    pub w1: u64,
    pub w0: u64,
}

/// A 20-byte account identifier: the 8 + 8 + 4 bytes held in `hi`, `mid`
/// and `lo`, most significant first.
#[derive(Clone, Copy, PartialEq, Eq, Structural, Debug)]
pub struct Address {
    pub hi: u64,
    pub mid: u64,
    pub lo: u32,
}

/// One key-value pair of a contract's storage.
#[derive(Clone, Copy, PartialEq, Eq, Structural, Debug)]
pub struct StorageEntry {
    pub key: H256,
    pub value: H256,
}

/// An element-for-element copy of a vector of plain values.
pub fn dup_vec<T: Copy>(v: &Vec<T>) -> (r: Vec<T>)
    ensures
        r@ == v@,
{
    let n = v.len();
    let mut r: Vec<T> = Vec::new();
    let mut i: usize = 0;
    while i < n
        invariant
            n == v@.len(),
            i <= n,
            r@ == v@.take(i as int),
        decreases n - i,
    {
        r.push(v[i]);
        i = i + 1;
        proof {
            assert(r@ =~= v@.take(i as int));
        }
    }
    proof {
        assert(r@ =~= v@);
    }
    r
}

/// The record of one account at one version: an immutable value. Mutation
/// always installs a whole new record in a working overlay.
#[derive(Debug)]
pub struct AccountState {
    pub balance: U256,
    pub nonce: U256,
    pub code: Vec<u8>,
    pub storage: Vec<StorageEntry>,
}

/// The mathematical content of an [`AccountState`].
pub ghost struct AccountStateView {
    pub balance: U256,
    pub nonce: U256,
    pub code: Seq<u8>,
    pub storage: Seq<StorageEntry>,
}

impl View for AccountState {
    type V = AccountStateView;

    open spec fn view(&self) -> AccountStateView {
        AccountStateView {
            balance: self.balance,
            nonce: self.nonce,
            code: self.code@,
            storage: self.storage@,
        }
    }
}

impl AccountState {
    /// An account holding `balance` and nothing else.
    pub fn with_balance(balance: U256) -> (r: AccountState)
        ensures
            r@.balance == balance,
            r@.nonce.as_nat() == 0,
            r@.code == Seq::<u8>::empty(),
            r@.storage == Seq::<StorageEntry>::empty(),
    {
        let r = AccountState {
            balance,
            nonce: U256::zero(),
            code: Vec::new(),
            storage: Vec::new(),
        };
        proof {
            assert(r.code@ =~= Seq::<u8>::empty());
            assert(r.storage@ =~= Seq::<StorageEntry>::empty());
        }
        r
    }

    /// An exact copy of the record.
    pub fn duplicate(&self) -> (r: AccountState)
        ensures
            r@ == self@,
    {
        let mut code: Vec<u8> = Vec::new();
        let mut i: usize = 0;
        while i < self.code.len()
            invariant
                i <= self.code.len(),
                code@ == self.code@.take(i as int),
            decreases self.code.len() - i,
        {
            code.push(self.code[i]);
            i = i + 1;
            proof {
                assert(code@ =~= self.code@.take(i as int));
            }
        }
        let mut storage: Vec<StorageEntry> = Vec::new();
        let mut j: usize = 0;
        while j < self.storage.len()
            invariant
                j <= self.storage.len(),
                storage@ == self.storage@.take(j as int),
            decreases self.storage.len() - j,
        {
            storage.push(self.storage[j]);
            j = j + 1;
            proof {
                assert(storage@ =~= self.storage@.take(j as int));
            }
        }
        proof {
            assert(code@ =~= self.code@);
            assert(storage@ =~= self.storage@);
        }
        AccountState { balance: self.balance, nonce: self.nonce, code, storage }
    }
}

} // verus!
