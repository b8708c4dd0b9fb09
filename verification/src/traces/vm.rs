//! Virtual-machine level traces: the per-operation record of one
//! execution, as plain data.

use vstd::prelude::*;

use crate::traces::Bytes;
use crate::types::U256;

verus! {

/// The full trace of one code body: the code and one record per executed
/// operation.
#[derive(Debug)]
pub struct Trace {
    pub code: Bytes,
    pub ops: Vec<Operation>,
}

/// One executed operation: its program counter, its cost, what it did,
/// and the trace of a sub-call if it made one.
#[derive(Debug)]
pub struct Operation {
    pub pc: usize,
    pub cost: U256,
    pub ex: Option<ExecutedOperation>,
    pub sub: Option<Trace>,
}

/// The visible effect of one operation.
#[derive(Clone, Debug)]
pub struct ExecutedOperation {
    pub used: u64,
    pub push: Vec<U256>,
    pub mem: Option<MemoryDiff>,
    pub store: Option<StorageDiff>,
}

/// A stretch of memory an operation rewrote.
#[derive(Clone, Debug)]
pub struct MemoryDiff {
    pub offset: usize,
    pub data: Bytes,
}

/// One storage cell an operation rewrote.
#[derive(Clone, Copy, PartialEq, Eq, Structural, Debug)]
pub struct StorageDiff {
    pub key: U256,
    pub val: U256,
}

} // verus!
