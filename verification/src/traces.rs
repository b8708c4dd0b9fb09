//! The trace surface's data types: what an execution-trace query carries.
//! These are plain values over the store's own word types; producing them
//! from execution history, and serving them over RPC, is the host
//! program's concern.

use vstd::prelude::*;

use crate::types::{Address, H256, U256};

pub mod vm;

verus! {

/// The host ledger's block height.
pub type BlockNumber = u64;

/// A raw byte payload.
pub type Bytes = Vec<u8>;

/// Options of a trace replay request.
#[derive(Clone, Debug)]
pub struct TraceOptions {}

/// One trace entry of a block: what ran, what came of it, and where in
/// the call tree it sits.
#[derive(Clone, Debug)]
pub struct Trace {
    pub action: Action,
    pub result: Res,
    pub subtraces: usize,
    pub trace_address: Vec<usize>,
    pub transaction_number: Option<usize>,
    pub transaction_hash: Option<H256>,
    pub block_number: BlockNumber,
    pub block_hash: H256,
}

/// The traces of one transaction with its hash and optional replays.
#[derive(Debug)]
pub struct TraceResultsWithTransactionHash {
    pub output: Bytes,
    pub trace: Vec<Trace>,
    pub vm_trace: Option<vm::Trace>,
    pub state_diff: Option<StateDiff>,
    pub transaction_hash: H256,
}

/// Per-account differences a replay produced, keyed by address.
#[derive(Clone, Debug)]
pub struct StateDiff(pub Vec<(Address, AccountDiff)>);

/// How one account changed over a replay.
#[derive(Clone, Debug)]
pub struct AccountDiff {
    pub balance: Diff<U256>,
    pub nonce: Diff<U256>,
    pub code: Diff<Bytes>,
    pub storage: Vec<(H256, Diff<H256>)>,
}

/// How one value changed: untouched, created, destroyed, or altered.
#[derive(Clone, Debug)]
pub enum Diff<T> {
    Same,
    Born(T),
    Died(T),
    Changed(ChangedType<T>),
}

/// A value before and after a change.
#[derive(Clone, Debug)]
pub struct ChangedType<T> {
    pub from: T,
    pub to: T,
}

/// What a trace entry did.
#[derive(Clone, Debug)]
pub enum Action {
    Call {
        from: Address,
        to: Address,
        value: U256,
        gas: U256,
        input: Bytes,
        call_type: Option<CallType>,
    },
    Create {
        from: Address,
        value: U256,
        gas: U256,
        init: Bytes,
        creation_method: CreationMethod,
    },
    Suicide { address: Address, refund_address: Address, balance: U256 },
    Reward { author: Address, value: U256, reward_type: RewardType },
}

/// The flavour of a call.
#[derive(Clone, Copy, PartialEq, Eq, Structural, Debug)]
pub enum CallType {
    Call,
    CallCode,
    DelegateCall,
    StaticCall,
}

/// How a contract came to be.
#[derive(Clone, Copy, PartialEq, Eq, Structural, Debug)]
pub enum CreationMethod {
    Create,
    Create2,
}

/// Why a reward was paid.
#[derive(Clone, Copy, PartialEq, Eq, Structural, Debug)]
pub enum RewardType {
    Block,
    Uncle,
    EmptyStep,
    External,
}

/// What a trace entry came to: output on success, a typed failure
/// otherwise, carried as data inside a successful response.
#[derive(Clone, Debug)]
pub enum Res {
    CallResult { gas_used: U256, output: Bytes },
    CreateResult { gas_used: U256, code: Bytes, address: Address },
    FailedCall(TraceError),
    FailedCreate(TraceError),
    NoResult,
}

/// An execution-level failure inside a trace.
#[derive(Clone, Copy, PartialEq, Eq, Structural, Debug)]
pub enum TraceError {
    OutOfGas,
    BadJumpDestination,
    BadInstruction,
    StackUnderflow,
    OutOfStack,
    BuiltIn,
    Internal,
    MutableCallInStaticContext,
    Wasm,
    OutOfBounds,
    Reverted,
}

} // verus!
