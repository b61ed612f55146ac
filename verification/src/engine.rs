//! The Simulation Engine: builds, for one matched swap, the synthetic call
//! environment handed to the execution sandbox, and classifies what the
//! sandbox reports back. One engine instance is scoped to one block's
//! snapshot and never reused for another block.

use vstd::prelude::*;

use crate::abi::encode_swap_call;
use crate::abi::swap_call_bytes;
use crate::abi::SwapIntent;
use crate::abi::SwapIntentV;
use crate::bytes::copy_bytes;
use crate::bytes::max_word;
use crate::bytes::max_word_vec;
use crate::bytes::zero_word;
use crate::bytes::zero_word_vec;
use crate::outcome::classify_execution;
use crate::outcome::spec_decode_amounts;
use crate::outcome::RawExecutionResult;
use crate::outcome::RawOutput;
use crate::outcome::SimulationOutcome;

verus! {

/// Gas ceiling of a synthetic call: generous enough that a legitimate swap
/// path never fails on gas.
pub const SIMULATION_GAS_LIMIT: u64 = 500000;

/// A synthetic call environment, to be executed against the snapshot of
/// the named block. The transferred value is the zero word.
#[derive(Clone, PartialEq, Eq, Debug)]
pub struct CallEnvironment {
    pub target: Vec<u8>,
    pub sender: Vec<u8>,
    pub value: Vec<u8>,
    pub gas_limit: u64,
    pub call_data: Vec<u8>,
    pub block_number: u64,
}

/// The mathematical value of a call environment.
pub ghost struct CallEnvironmentV {
    pub target: Seq<u8>,
    pub sender: Seq<u8>,
    pub value: Seq<u8>,
    pub gas_limit: u64,
    pub call_data: Seq<u8>,
    pub block_number: u64,
}

impl DeepView for CallEnvironment {
    type V = CallEnvironmentV;

    open spec fn deep_view(&self) -> CallEnvironmentV {
        CallEnvironmentV {
            target: self.target@,
            sender: self.sender@,
            value: self.value@,
            gas_limit: self.gas_limit,
            call_data: self.call_data@,
            block_number: self.block_number,
        }
    }
}

/// The observed intent with its policy guards relaxed: the amount-out
/// minimum drops to the minimum representable value and the deadline rises
/// to the maximum, so the prediction cannot fail on the very bound being
/// solved for; amount in, path and caller are preserved, and the proceeds
/// are directed to the caller.
pub open spec fn relaxed_intent(amount_in: Seq<u8>, path: Seq<Seq<u8>>, caller: Seq<u8>) -> SwapIntentV {
    SwapIntentV {
        amount_in: amount_in,
        amount_out_min: zero_word(),
        path: path,
        recipient: caller,
        deadline: max_word(),
    }
}

/// The synthetic environment the engine builds for one matched swap.
pub open spec fn spec_swap_env(
    block_number: u64,
    router: Seq<u8>,
    caller: Seq<u8>,
    amount_in: Seq<u8>,
    path: Seq<Seq<u8>>,
) -> CallEnvironmentV {
    CallEnvironmentV {
        target: router,
        sender: caller,
        value: zero_word(),
        gas_limit: SIMULATION_GAS_LIMIT,
        call_data: swap_call_bytes(relaxed_intent(amount_in, path, caller)),
        block_number: block_number,
    }
}

/// Orchestrates simulation of matched swaps against one block's snapshot.
pub struct SimulationEngine {
    pub block_number: u64,
}

impl SimulationEngine {
    /// A fresh engine scoped to the snapshot of one block.
    pub fn new(block_number: u64) -> (e: Self)
        ensures
            e.block_number == block_number,
    {
        SimulationEngine { block_number }
    }

    /// Builds the synthetic call environment for one matched swap: target
    /// and sender as observed, zero value, the fixed gas ceiling, and call
    /// data re-encoded with the relaxed guards. Only multi-hop paths are
    /// ever simulated.
    pub fn prepare_swap(
        &self,
        router: &Vec<u8>,
        caller: &Vec<u8>,
        amount_in: &Vec<u8>,
        path: &Vec<Vec<u8>>,
    ) -> (env: CallEnvironment)
        requires
            router@.len() == 20,
            caller@.len() == 20,
            amount_in@.len() == 32,
            path@.len() >= 2,
            forall|k: int| 0 <= k < path@.len() ==> (#[trigger] path@[k])@.len() == 20,
            crate::abi::swap_head_len() + 32 * path@.len() <= usize::MAX,
        ensures
            env.deep_view() == spec_swap_env(
                self.block_number,
                router@,
                caller@,
                amount_in@,
                path.deep_view(),
            ),
    {
        let mut path_copy: Vec<Vec<u8>> = Vec::new();
        let mut k: usize = 0;
        let n: usize = path.len();
        while k < n
            invariant
                k <= n,
                n == path@.len(),
                path_copy.deep_view() == path.deep_view().take(k as int),
            decreases n - k,
        {
            let elem = copy_bytes(&path[k]);
            let ghost prev_vec: Seq<Vec<u8>> = path_copy@;
            let ghost prev_deep: Seq<Seq<u8>> = path_copy.deep_view();
            proof {
                assert(elem.deep_view() =~= elem@);
                assert(path.deep_view()[k as int] == path@[k as int].deep_view());
                assert(path@[k as int].deep_view() =~= path@[k as int]@);
            }
            path_copy.push(elem);
            proof {
                assert(prev_deep.len() == prev_vec.len());
                assert(path_copy@ == prev_vec.push(elem));
                assert forall|i: int| 0 <= i < k + 1 implies #[trigger] path_copy.deep_view()[i]
                    == path.deep_view()[i] by {
                    assert(path_copy.deep_view()[i] == path_copy@[i].deep_view());
                    if i < k {
                        assert(path_copy@[i] == prev_vec.push(elem)[i]);
                        assert(path_copy@[i] == prev_vec[i]);
                        assert(prev_deep[i] == prev_vec[i].deep_view());
                        assert(prev_deep[i] == path.deep_view().take(k as int)[i]);
                    } else {
                        assert(path_copy@[i] == elem);
                    }
                }
                assert(path_copy.deep_view() =~= path.deep_view().take(k as int + 1));
            }
            k = k + 1;
        }
        proof {
            assert(path.deep_view().take(n as int) =~= path.deep_view());
        }
        let intent = SwapIntent {
            amount_in: copy_bytes(amount_in),
            amount_out_min: zero_word_vec(),
            path: path_copy,
            recipient: copy_bytes(caller),
            deadline: max_word_vec(),
        };
        proof {
            assert(intent.deep_view() == relaxed_intent(amount_in@, path.deep_view(), caller@));
            assert(zero_word().len() == 32);
            assert(max_word().len() == 32);
        }
        let call_data = encode_swap_call(&intent);
        CallEnvironment {
            target: copy_bytes(router),
            sender: copy_bytes(caller),
            value: zero_word_vec(),
            gas_limit: SIMULATION_GAS_LIMIT,
            call_data,
            block_number: self.block_number,
        }
    }

    /// Classifies the sandbox's raw result for one simulated swap.
    pub fn classify_result(&self, raw: &RawExecutionResult) -> (r: SimulationOutcome)
        ensures
            raw matches RawExecutionResult::Revert { output } ==> (r matches
                SimulationOutcome::Reverted { reason } && reason@ == output@),
            raw matches RawExecutionResult::Halt { code } ==> (r matches
                SimulationOutcome::Halted { code: c } && c == code),
            raw matches RawExecutionResult::Success { output: RawOutput::Create }
                ==> r is EngineError,
            raw matches RawExecutionResult::Success { output: RawOutput::Call { data } } ==> (
            match spec_decode_amounts(data@) {
                Some(amounts) => if amounts.len() > 0 {
                    r matches SimulationOutcome::Success { amount_out } && amount_out@
                        == amounts.last()
                } else {
                    r is EngineError
                },
                None => r is EngineError,
            }),
    {
        classify_execution(raw)
    }
}

} // verus!
