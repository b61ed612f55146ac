//! Classification of raw sandbox execution results into simulation
//! outcomes: a successful call returning a sequence of 256-bit amounts is a
//! prediction (the last amount), a revert or halt is reported as such, and
//! anything malformed is an engine error. No outcome aborts the pipeline.

use vstd::prelude::*;

use crate::bytes::copy_bytes;
use crate::bytes::push_bytes;
use crate::bytes::push_u64_word;
use crate::bytes::u64_word;
use crate::bytes::word_is_u64;

verus! {

/// The machine-halt codes the sandbox can report.
#[derive(Clone, Copy, PartialEq, Eq, Structural, Debug)]
pub enum HaltCode {
    OutOfGas,
    InvalidOperation,
    Other,
}

/// What a successful execution produced.
#[derive(Clone, PartialEq, Eq, Debug)]
pub enum RawOutput {
    Call { data: Vec<u8> },
    Create,
}

/// A raw execution result, as the sandbox reports it.
#[derive(Clone, PartialEq, Eq, Debug)]
pub enum RawExecutionResult {
    Success { output: RawOutput },
    Revert { output: Vec<u8> },
    Halt { code: HaltCode },
}

/// The classified outcome of simulating one matched transaction.
#[derive(Clone, PartialEq, Eq, Debug)]
pub enum SimulationOutcome {
    Success { amount_out: Vec<u8> },
    Reverted { reason: Vec<u8> },
    Halted { code: HaltCode },
    EngineError { detail: String },
}

/// Reads return data as a sequence of 32-byte amounts: the canonical
/// offset word, a length word, then the elements, with no trailing bytes.
pub open spec fn spec_decode_amounts(data: Seq<u8>) -> Option<Seq<Seq<u8>>> {
    if data.len() < 64 {
        None
    } else if (data.len() - 64) % 32 != 0 {
        None
    } else if (data.len() - 64) / 32 > u64::MAX {
        None
    } else {
        let n = (data.len() - 64) / 32;
        if data.subrange(0, 32) != u64_word(32) {
            None
        } else if data.subrange(32, 64) != u64_word(n as u64) {
            None
        } else {
            Some(Seq::new(n as nat, |k: int| data.subrange(64 + 32 * k, 64 + 32 * k + 32)))
        }
    }
}

/// The element region of an encoded amount sequence.
pub open spec fn amount_words(amounts: Seq<Seq<u8>>) -> Seq<u8>
    decreases amounts.len(),
{
    if amounts.len() == 0 {
        Seq::empty()
    } else {
        amount_words(amounts.drop_last()) + amounts.last()
    }
}

/// The unique encoding of a sequence of 32-byte amounts.
pub open spec fn amounts_bytes(amounts: Seq<Seq<u8>>) -> Seq<u8> {
    u64_word(32) + u64_word(amounts.len() as u64) + amount_words(amounts)
}

/// Well-formed, encodable amount sequences.
pub open spec fn amounts_encodable(amounts: Seq<Seq<u8>>) -> bool {
    &&& forall|k: int| 0 <= k < amounts.len() ==> (#[trigger] amounts[k]).len() == 32
    &&& 64 + 32 * amounts.len() <= usize::MAX
}

/// Encodes a sequence of 32-byte amounts as a call's return data would
/// carry it.
pub fn encode_amounts(amounts: &Vec<Vec<u8>>) -> (r: Vec<u8>)
    requires
        amounts_encodable(amounts.deep_view()),
    ensures
        r@ == amounts_bytes(amounts.deep_view()),
{
    let mut r: Vec<u8> = Vec::new();
    push_u64_word(&mut r, 32);
    let n: usize = amounts.len();
    push_u64_word(&mut r, n as u64);
    let ghost head: Seq<u8> = u64_word(32) + u64_word(amounts.deep_view().len() as u64);
    proof {
        assert(r@ =~= head + amount_words(amounts.deep_view().take(0)));
    }
    let mut k: usize = 0;
    while k < n
        invariant
            k <= n,
            n == amounts@.len(),
            amounts_encodable(amounts.deep_view()),
            head == u64_word(32) + u64_word(amounts.deep_view().len() as u64),
            r@ == head + amount_words(amounts.deep_view().take(k as int)),
        decreases n - k,
    {
        push_bytes(&mut r, &amounts[k]);
        proof {
            let a = amounts.deep_view();
            assert(amounts@[k as int]@ == a[k as int]);
            assert(a.take(k as int + 1).drop_last() =~= a.take(k as int));
            assert(a.take(k as int + 1).last() == a[k as int]);
            assert(r@ =~= head + amount_words(a.take(k as int + 1)));
        }
        k = k + 1;
    }
    proof {
        assert(amounts.deep_view().take(n as int) =~= amounts.deep_view());
    }
    r
}

/// Decodes return data as a sequence of 32-byte amounts; malformed or
/// trailing bytes read as nothing.
pub fn decode_amounts(data: &Vec<u8>) -> (r: Option<Vec<Vec<u8>>>)
    ensures
        match r {
            Some(v) => spec_decode_amounts(data@) == Some(v.deep_view()),
            None => spec_decode_amounts(data@) is None,
        },
{
    let dlen: usize = data.len();
    if dlen < 64 {
        return None;
    }
    if (dlen - 64) % 32 != 0 {
        return None;
    }
    let n: usize = (dlen - 64) / 32;
    proof {
        vstd::arithmetic::div_mod::lemma_fundamental_div_mod((dlen - 64) as int, 32);
        assert(dlen == 64 + 32 * n);
    }
    if !word_is_u64(data, 0, 32) {
        return None;
    }
    if !word_is_u64(data, 32, n as u64) {
        return None;
    }
    let mut amounts: Vec<Vec<u8>> = Vec::new();
    proof {
        assert(amounts.deep_view() =~= Seq::new(0, |i: int| data@.subrange(64 + 32 * i, 64 + 32 * i
            + 32)));
    }
    let mut k: usize = 0;
    while k < n
        invariant
            k <= n,
            dlen == data@.len(),
            dlen == 64 + 32 * n,
            amounts.deep_view() == Seq::new(
                k as nat,
                |i: int| data@.subrange(64 + 32 * i, 64 + 32 * i + 32),
            ),
        decreases n - k,
    {
        let elem = crate::bytes::copy_range(data, 64 + 32 * k, 32);
        let ghost prev_vec: Seq<Vec<u8>> = amounts@;
        let ghost prev_deep: Seq<Seq<u8>> = amounts.deep_view();
        proof {
            assert(elem.deep_view() =~= elem@);
        }
        amounts.push(elem);
        proof {
            assert(prev_deep.len() == prev_vec.len());
            assert(prev_vec.len() == k);
            assert(amounts@ == prev_vec.push(elem));
            assert forall|i: int| 0 <= i < k + 1 implies #[trigger] amounts.deep_view()[i]
                == data@.subrange(64 + 32 * i, 64 + 32 * i + 32) by {
                assert(amounts.deep_view()[i] == amounts@[i].deep_view());
                if i < k {
                    assert(amounts@[i] == prev_vec.push(elem)[i]);
                    assert(amounts@[i] == prev_vec[i]);
                    assert(prev_deep[i] == prev_vec[i].deep_view());
                } else {
                    assert(amounts@[i] == elem);
                }
            }
            assert(amounts.deep_view() =~= Seq::new((k + 1) as nat, |i: int| data@.subrange(64 + 32
                * i, 64 + 32 * i + 32)));
        }
        k = k + 1;
    }
    proof {
        let d = spec_decode_amounts(data@);
        assert(d matches Some(s) && s == amounts.deep_view());
    }
    Some(amounts)
}

/// Classifies a raw sandbox result. A successful call whose return data
/// decodes as a non-empty amount sequence predicts the last amount; an
/// empty or malformed return is an engine error; reverts and halts are
/// passed through with their payloads.
pub fn classify_execution(raw: &RawExecutionResult) -> (r: SimulationOutcome)
    ensures
        raw matches RawExecutionResult::Revert { output } ==> (r matches
            SimulationOutcome::Reverted { reason } && reason@ == output@),
        raw matches RawExecutionResult::Halt { code } ==> (r matches SimulationOutcome::Halted {
            code: c } && c == code),
        raw matches RawExecutionResult::Success { output: RawOutput::Create } ==> r is EngineError,
        raw matches RawExecutionResult::Success { output: RawOutput::Call { data } } ==> (
        match spec_decode_amounts(data@) {
            Some(amounts) => if amounts.len() > 0 {
                r matches SimulationOutcome::Success { amount_out } && amount_out@
                    == amounts.last()
            } else {
                r is EngineError
            },
            None => r is EngineError,
        }),
{
    match raw {
        RawExecutionResult::Success { output } => match output {
            RawOutput::Call { data } => {
                match decode_amounts(data) {
                    Some(mut amounts) => {
                        let ghost deep: Seq<Seq<u8>> = amounts.deep_view();
                        if amounts.len() == 0 {
                            SimulationOutcome::EngineError {
                                detail: "empty amounts in return data".to_string(),
                            }
                        } else {
                            let n: usize = amounts.len();
                            let ghost pre: Seq<Vec<u8>> = amounts@;
                            let last = match amounts.pop() {
                                Some(a) => a,
                                None => Vec::new(),
                            };
                            proof {
                                assert(last == pre[n - 1]);
                                assert(deep[n - 1] == pre[n - 1].deep_view());
                                assert(last.deep_view() =~= last@);
                                assert(deep.last() == last@);
                            }
                            SimulationOutcome::Success { amount_out: last }
                        }
                    },
                    None => SimulationOutcome::EngineError {
                        detail: "return data is not an amount sequence".to_string(),
                    },
                }
            },
            RawOutput::Create => SimulationOutcome::EngineError {
                detail: "unexpected contract creation output".to_string(),
            },
        },
        RawExecutionResult::Revert { output } => SimulationOutcome::Reverted {
            reason: copy_bytes(output),
        },
        RawExecutionResult::Halt { code } => SimulationOutcome::Halted { code: *code },
    }
}

} // verus!
