use evm_state::loader::lamports_to_gwei;
use evm_state::traces::vm;
use evm_state::traces::{
    Action, CallType, ChangedType, Diff, Res, StateDiff, Trace, TraceError, TraceOptions,
    TraceResultsWithTransactionHash,
};
use evm_state::types::{Address, H256, U256};

#[test]
fn lamports_convert_exactly_to_gwei() {
    let g = lamports_to_gwei(5);
    assert_eq!(g, U256 { w3: 0, w2: 0, w1: 0, w0: 5_000_000_000 });
    let zero = lamports_to_gwei(0);
    assert_eq!(zero, U256::zero());
}

#[test]
fn lamports_conversion_crosses_the_limb_boundary() {
    // u64::MAX * 1_000_000_000 spills into the second limb:
    // the quotient by 2^64 is 999_999_999, the remainder 2^64 - 10^9.
    let g = lamports_to_gwei(u64::MAX);
    assert_eq!(g.w1, 999_999_999);
    assert_eq!(g.w0, 18_446_744_072_709_551_616);
    assert_eq!(g.w2, 0);
    assert_eq!(g.w3, 0);
}

#[test]
fn trace_values_carry_their_fields() {
    let action = Action::Call {
        from: Address { hi: 1, mid: 2, lo: 3 },
        to: Address { hi: 4, mid: 5, lo: 6 },
        value: U256::from_u64(9),
        gas: U256::from_u64(21000),
        input: vec![1, 2],
        call_type: Some(CallType::StaticCall),
    };
    let result = Res::CallResult { gas_used: U256::from_u64(20000), output: vec![7] };
    let trace = Trace {
        action,
        result,
        subtraces: 0,
        trace_address: vec![0, 1],
        transaction_number: Some(0),
        transaction_hash: None,
        block_number: 12,
        block_hash: H256 { w3: 0, w2: 0, w1: 0, w0: 99 },
    };
    assert_eq!(trace.block_number, 12);
    match &trace.action {
        Action::Call { call_type, input, .. } => {
            assert_eq!(*call_type, Some(CallType::StaticCall));
            assert_eq!(*input, vec![1, 2]);
        }
        _ => panic!("expected a call action"),
    }
    match &trace.result {
        Res::CallResult { output, .. } => assert_eq!(*output, vec![7]),
        _ => panic!("expected a call result"),
    }
}

#[test]
fn failures_are_data_not_transport_errors() {
    let failed = Res::FailedCall(TraceError::OutOfGas);
    assert!(matches!(failed, Res::FailedCall(TraceError::OutOfGas)));
    let reverted = Res::FailedCreate(TraceError::Reverted);
    assert!(matches!(reverted, Res::FailedCreate(TraceError::Reverted)));
}

#[test]
fn diffs_describe_changes() {
    let changed: Diff<U256> = Diff::Changed(ChangedType {
        from: U256::from_u64(1),
        to: U256::from_u64(2),
    });
    match changed {
        Diff::Changed(c) => {
            assert_eq!(c.from, U256::from_u64(1));
            assert_eq!(c.to, U256::from_u64(2));
        }
        _ => panic!("expected a changed diff"),
    }
    let born: Diff<Vec<u8>> = Diff::Born(vec![1]);
    assert!(matches!(born, Diff::Born(_)));
}

#[test]
fn replay_results_compose() {
    let _options = TraceOptions {};
    let vm_trace = vm::Trace {
        code: vec![0x60],
        ops: vec![vm::Operation {
            pc: 0,
            cost: U256::from_u64(3),
            ex: Some(vm::ExecutedOperation {
                used: 3,
                push: vec![U256::from_u64(1)],
                mem: Some(vm::MemoryDiff { offset: 0, data: vec![0] }),
                store: Some(vm::StorageDiff { key: U256::zero(), val: U256::from_u64(2) }),
            }),
            sub: None,
        }],
    };
    let results = TraceResultsWithTransactionHash {
        output: vec![1],
        trace: Vec::new(),
        vm_trace: Some(vm_trace),
        state_diff: Some(StateDiff(Vec::new())),
        transaction_hash: H256 { w3: 1, w2: 1, w1: 1, w0: 1 },
    };
    let inner = results.vm_trace.as_ref().unwrap();
    assert_eq!(inner.ops.len(), 1);
    assert_eq!(inner.ops[0].ex.as_ref().unwrap().used, 3);
}
