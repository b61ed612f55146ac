//! The consumer's plan, the engine's synthetic environments, and outcome
//! classification, on concrete events and canned sandbox results.

use exocortex::abi::{encode_swap_call, SwapIntent};
use exocortex::consumer::{plan_event, Action, Block, BlockId, BlockRange, ChainEvent, Transaction};
use exocortex::engine::{SimulationEngine, SIMULATION_GAS_LIMIT};
use exocortex::outcome::{encode_amounts, HaltCode, RawExecutionResult, RawOutput, SimulationOutcome};

fn w64(n: u64) -> Vec<u8> {
    let mut v = vec![0u8; 24];
    v.extend_from_slice(&n.to_be_bytes());
    v
}

fn addr(b: u8) -> Vec<u8> {
    vec![b; 20]
}

fn swap_call(amount_in: u64, path: Vec<Vec<u8>>, to: Vec<u8>, deadline: u64) -> Vec<u8> {
    encode_swap_call(&SwapIntent {
        amount_in: w64(amount_in),
        amount_out_min: w64(0),
        path,
        recipient: to,
        deadline: w64(deadline),
    })
}

fn tx(hash_byte: u8, sender: u8, recipient: Option<u8>, call_data: Vec<u8>) -> Transaction {
    Transaction {
        hash: vec![hash_byte; 32],
        sender: addr(sender),
        recipient: recipient.map(addr),
        call_data,
    }
}

#[test]
fn committed_event_plans_exactly_one_ack_and_it_is_last() {
    let matched = swap_call(1000, vec![addr(0xaa), addr(0xbb)], addr(0xcc), 0);
    let event = ChainEvent::Committed {
        blocks: vec![
            Block {
                number: 10,
                transactions: vec![
                    tx(1, 0x11, Some(0x22), matched.clone()),
                    tx(2, 0x11, Some(0x22), vec![1, 2, 3]),
                ],
            },
            Block { number: 11, transactions: vec![tx(3, 0x33, Some(0x44), matched)] },
        ],
        tip: BlockId { number: 11, hash: vec![0xee; 32] },
    };
    let plan = plan_event(&event);
    assert_eq!(plan.len(), 5);
    assert_eq!(plan[0], Action::ObtainSnapshot { block_number: 10 });
    assert!(matches!(plan[1], Action::Execute { .. }));
    assert_eq!(plan[2], Action::ObtainSnapshot { block_number: 11 });
    assert!(matches!(plan[3], Action::Execute { .. }));
    let acks: Vec<usize> = plan
        .iter()
        .enumerate()
        .filter(|(_, a)| matches!(a, Action::SendAck { .. }))
        .map(|(i, _)| i)
        .collect();
    assert_eq!(acks, vec![plan.len() - 1]);
    match &plan[4] {
        Action::SendAck { ack } => {
            assert_eq!(ack.number, 11);
            assert_eq!(ack.hash, vec![0xee; 32]);
        },
        _ => panic!("the last action must be the acknowledgment"),
    }
}

#[test]
fn matched_transactions_are_planned_in_block_order() {
    let first = tx(1, 0x11, Some(0x22), swap_call(10, vec![addr(1), addr(2)], addr(3), 0));
    let second = tx(2, 0x33, Some(0x44), swap_call(20, vec![addr(4), addr(5)], addr(6), 0));
    let event = ChainEvent::Committed {
        blocks: vec![Block { number: 5, transactions: vec![first, second] }],
        tip: BlockId { number: 5, hash: vec![0; 32] },
    };
    let plan = plan_event(&event);
    assert_eq!(plan.len(), 4);
    assert_eq!(plan[0], Action::ObtainSnapshot { block_number: 5 });
    match (&plan[1], &plan[2]) {
        (Action::Execute { tx_hash: h1, env: e1 }, Action::Execute { tx_hash: h2, env: e2 }) => {
            assert_eq!(h1, &vec![1u8; 32]);
            assert_eq!(h2, &vec![2u8; 32]);
            assert_eq!(e1.sender, addr(0x11));
            assert_eq!(e2.sender, addr(0x33));
        },
        other => panic!("expected two executions in transaction order, found {:?}", other),
    }
    assert!(matches!(plan[3], Action::SendAck { .. }));
}

#[test]
fn reorganized_and_reverted_events_plan_nothing() {
    let dropped = BlockRange { first: 5, last: 9 };
    let adopted = BlockRange { first: 5, last: 11 };
    assert_eq!(plan_event(&ChainEvent::Reorganized { dropped, adopted }), vec![]);
    assert_eq!(plan_event(&ChainEvent::Reverted { dropped }), vec![]);
}

#[test]
fn short_path_is_matched_but_never_simulated() {
    for hops in [0usize, 1] {
        let path: Vec<Vec<u8>> = (0..hops).map(|i| addr(i as u8 + 1)).collect();
        let call = swap_call(1000, path, addr(0xcc), 0);
        assert!(exocortex::abi::match_swap_call(&call).is_some());
        let event = ChainEvent::Committed {
            blocks: vec![Block { number: 7, transactions: vec![tx(1, 0x11, Some(0x22), call)] }],
            tip: BlockId { number: 7, hash: vec![0; 32] },
        };
        let plan = plan_event(&event);
        assert!(!plan.iter().any(|a| matches!(a, Action::Execute { .. })));
        assert_eq!(plan.len(), 2);
    }
}

#[test]
fn unmatched_call_data_is_skipped_silently() {
    let valid = swap_call(1000, vec![addr(0xaa), addr(0xbb)], addr(0xcc), 0);
    let truncated = valid[..valid.len() - 32].to_vec();
    let event = ChainEvent::Committed {
        blocks: vec![Block {
            number: 3,
            transactions: vec![tx(1, 0x11, Some(0x22), truncated)],
        }],
        tip: BlockId { number: 3, hash: vec![9; 32] },
    };
    let plan = plan_event(&event);
    assert_eq!(plan.len(), 2);
    assert!(!plan.iter().any(|a| matches!(a, Action::Execute { .. })));
}

fn execute_env_at(plan: &[Action], i: usize) -> exocortex::engine::CallEnvironment {
    match &plan[i] {
        Action::Execute { env, .. } => env.clone(),
        other => panic!("expected an execution, found {:?}", other),
    }
}

#[test]
fn sibling_transactions_do_not_change_each_others_environment() {
    let shared = tx(7, 0x11, Some(0x22), swap_call(1000, vec![addr(1), addr(2)], addr(3), 0));
    let sibling_a = tx(8, 0x55, Some(0x66), swap_call(5, vec![addr(4), addr(5)], addr(6), 1));
    let sibling_b = tx(8, 0x55, Some(0x66), swap_call(9999, vec![addr(7), addr(8), addr(9)], addr(6), 2));
    let mk = |sibling: Transaction| ChainEvent::Committed {
        blocks: vec![Block { number: 42, transactions: vec![sibling, shared.clone()] }],
        tip: BlockId { number: 42, hash: vec![0; 32] },
    };
    let plan_a = plan_event(&mk(sibling_a));
    let plan_b = plan_event(&mk(sibling_b));
    // The shared transaction's planned environment is the second execution
    // in both plans and identical in both, whatever its sibling did.
    assert_eq!(execute_env_at(&plan_a, 2), execute_env_at(&plan_b, 2));
    // And identical raw results classify identically.
    let engine = SimulationEngine::new(42);
    let raw = RawExecutionResult::Success {
        output: RawOutput::Call { data: encode_amounts(&vec![w64(1000), w64(980)]) },
    };
    assert_eq!(engine.classify_result(&raw), engine.classify_result(&raw));
}

#[test]
fn prepared_environment_relaxes_the_policy_guards() {
    let engine = SimulationEngine::new(99);
    let env = engine.prepare_swap(&addr(0x22), &addr(0x11), &w64(1000), &vec![addr(1), addr(2)]);
    assert_eq!(env.target, addr(0x22));
    assert_eq!(env.sender, addr(0x11));
    assert_eq!(env.value, vec![0u8; 32]);
    assert_eq!(env.gas_limit, SIMULATION_GAS_LIMIT);
    assert_eq!(env.gas_limit, 500_000);
    assert_eq!(env.block_number, 99);
    let expected = encode_swap_call(&SwapIntent {
        amount_in: w64(1000),
        amount_out_min: vec![0u8; 32],
        path: vec![addr(1), addr(2)],
        recipient: addr(0x11),
        deadline: vec![0xffu8; 32],
    });
    assert_eq!(env.call_data, expected);
    // The guards inside the re-encoded call data: minimum amount out,
    // maximum deadline.
    assert_eq!(&env.call_data[36..68], &[0u8; 32]);
    assert_eq!(&env.call_data[132..164], &[0xffu8; 32]);
}

#[test]
fn planned_environment_defaults_an_absent_recipient() {
    let call = swap_call(1, vec![addr(1), addr(2)], addr(3), 0);
    let event = ChainEvent::Committed {
        blocks: vec![Block { number: 1, transactions: vec![tx(1, 0x11, None, call)] }],
        tip: BlockId { number: 1, hash: vec![0; 32] },
    };
    let plan = plan_event(&event);
    assert_eq!(execute_env_at(&plan, 1).target, vec![0u8; 20]);
}

#[test]
fn successful_call_predicts_the_last_amount() {
    let engine = SimulationEngine::new(1);
    let raw = RawExecutionResult::Success {
        output: RawOutput::Call { data: encode_amounts(&vec![w64(1000), w64(980)]) },
    };
    assert_eq!(engine.classify_result(&raw), SimulationOutcome::Success { amount_out: w64(980) });
}

#[test]
fn empty_amounts_is_an_engine_error() {
    let engine = SimulationEngine::new(1);
    let raw = RawExecutionResult::Success {
        output: RawOutput::Call { data: encode_amounts(&vec![]) },
    };
    assert!(matches!(
        engine.classify_result(&raw),
        SimulationOutcome::EngineError { .. }
    ));
}

#[test]
fn malformed_return_data_is_an_engine_error() {
    let engine = SimulationEngine::new(1);
    for data in [vec![], vec![1, 2, 3], vec![0u8; 63], vec![7u8; 64]] {
        let raw = RawExecutionResult::Success { output: RawOutput::Call { data } };
        assert!(matches!(
            engine.classify_result(&raw),
            SimulationOutcome::EngineError { .. }
        ));
    }
}

#[test]
fn creation_output_is_an_engine_error() {
    let engine = SimulationEngine::new(1);
    let raw = RawExecutionResult::Success { output: RawOutput::Create };
    assert!(matches!(
        engine.classify_result(&raw),
        SimulationOutcome::EngineError { .. }
    ));
}

#[test]
fn reverted_execution_keeps_its_payload() {
    let engine = SimulationEngine::new(1);
    let payload = b"UniswapV2: INSUFFICIENT_LIQUIDITY".to_vec();
    let raw = RawExecutionResult::Revert { output: payload.clone() };
    assert_eq!(engine.classify_result(&raw), SimulationOutcome::Reverted { reason: payload });
    let empty = RawExecutionResult::Revert { output: vec![] };
    assert_eq!(engine.classify_result(&empty), SimulationOutcome::Reverted { reason: vec![] });
}

#[test]
fn halted_execution_reports_its_code() {
    let engine = SimulationEngine::new(1);
    let raw = RawExecutionResult::Halt { code: HaltCode::OutOfGas };
    assert_eq!(engine.classify_result(&raw), SimulationOutcome::Halted { code: HaltCode::OutOfGas });
}
