//! The Notification Consumer's decisions: for each chain event, the exact
//! ordered sequence of actions the pipeline must perform — obtain one
//! snapshot per committed block, execute one synthetic call per matched
//! multi-hop swap, and acknowledge the tip once everything before it is
//! done. Commit events end in exactly one acknowledgment; reorganization
//! and revert events plan nothing.

use vstd::prelude::*;

use crate::abi::match_swap_call;
use crate::abi::spec_decode_swap;
use crate::bytes::copy_bytes;
use crate::bytes::zero_addr;
use crate::bytes::zero_addr_vec;
use crate::engine::spec_swap_env;
use crate::engine::CallEnvironment;
use crate::engine::CallEnvironmentV;
use crate::engine::SimulationEngine;

verus! {

/// Identifies one block: its height and 32-byte hash.
#[derive(Clone, PartialEq, Eq, Debug)]
pub struct BlockId {
    pub number: u64,
    pub hash: Vec<u8>,
}

/// The mathematical value of a block id.
pub ghost struct BlockIdV {
    pub number: u64,
    pub hash: Seq<u8>,
}

impl DeepView for BlockId {
    type V = BlockIdV;

    open spec fn deep_view(&self) -> BlockIdV {
        BlockIdV { number: self.number, hash: self.hash@ }
    }
}

/// A transaction as the host materializes it: hash, recovered sender (a
/// default stands in when recovery failed), optional recipient, call data.
#[derive(Clone, PartialEq, Eq, Debug)]
pub struct Transaction {
    pub hash: Vec<u8>,
    pub sender: Vec<u8>,
    pub recipient: Option<Vec<u8>>,
    pub call_data: Vec<u8>,
}

/// The mathematical value of a transaction.
pub ghost struct TransactionV {
    pub hash: Seq<u8>,
    pub sender: Seq<u8>,
    pub recipient: Option<Seq<u8>>,
    pub call_data: Seq<u8>,
}

impl DeepView for Transaction {
    type V = TransactionV;

    open spec fn deep_view(&self) -> TransactionV {
        TransactionV {
            hash: self.hash@,
            sender: self.sender@,
            recipient: self.recipient.deep_view(),
            call_data: self.call_data@,
        }
    }
}

/// One observed block: height and ordered transactions.
#[derive(Clone, PartialEq, Eq, Debug)]
pub struct Block {
    pub number: u64,
    pub transactions: Vec<Transaction>,
}

/// The mathematical value of a block.
pub ghost struct BlockV {
    pub number: u64,
    pub transactions: Seq<TransactionV>,
}

impl DeepView for Block {
    type V = BlockV;

    open spec fn deep_view(&self) -> BlockV {
        BlockV { number: self.number, transactions: self.transactions.deep_view() }
    }
}

/// A contiguous range of block heights.
#[derive(Clone, Copy, PartialEq, Eq, Structural, Debug)]
pub struct BlockRange {
    pub first: u64,
    pub last: u64,
}

/// A state transition announced by the host, consumed in emission order.
#[derive(Clone, PartialEq, Eq, Debug)]
pub enum ChainEvent {
    Committed { blocks: Vec<Block>, tip: BlockId },
    Reorganized { dropped: BlockRange, adopted: BlockRange },
    Reverted { dropped: BlockRange },
}

/// The mathematical value of a chain event.
pub ghost enum ChainEventV {
    Committed { blocks: Seq<BlockV>, tip: BlockIdV },
    Reorganized { dropped: BlockRange, adopted: BlockRange },
    Reverted { dropped: BlockRange },
}

impl DeepView for ChainEvent {
    type V = ChainEventV;

    open spec fn deep_view(&self) -> ChainEventV {
        match self {
            ChainEvent::Committed { blocks, tip } => ChainEventV::Committed {
                blocks: blocks.deep_view(),
                tip: tip.deep_view(),
            },
            ChainEvent::Reorganized { dropped, adopted } => ChainEventV::Reorganized {
                dropped: *dropped,
                adopted: *adopted,
            },
            ChainEvent::Reverted { dropped } => ChainEventV::Reverted { dropped: *dropped },
        }
    }
}

/// Confirms to the host that every block up to a tip has been processed.
#[derive(Clone, PartialEq, Eq, Debug)]
pub struct HeightAck {
    pub number: u64,
    pub hash: Vec<u8>,
}

/// The mathematical value of a height acknowledgment.
pub ghost struct HeightAckV {
    pub number: u64,
    pub hash: Seq<u8>,
}

impl DeepView for HeightAck {
    type V = HeightAckV;

    open spec fn deep_view(&self) -> HeightAckV {
        HeightAckV { number: self.number, hash: self.hash@ }
    }
}

/// One step the pipeline performs, in plan order: obtain the snapshot of a
/// block, execute a synthetic call against the current snapshot, or send
/// an acknowledgment.
#[derive(Clone, PartialEq, Eq, Debug)]
pub enum Action {
    ObtainSnapshot { block_number: u64 },
    Execute { env: CallEnvironment, tx_hash: Vec<u8> },
    SendAck { ack: HeightAck },
}

/// The mathematical value of an action.
pub ghost enum ActionV {
    ObtainSnapshot { block_number: u64 },
    Execute { env: CallEnvironmentV, tx_hash: Seq<u8> },
    SendAck { ack: HeightAckV },
}

impl DeepView for Action {
    type V = ActionV;

    open spec fn deep_view(&self) -> ActionV {
        match self {
            Action::ObtainSnapshot { block_number } => ActionV::ObtainSnapshot {
                block_number: *block_number,
            },
            Action::Execute { env, tx_hash } => ActionV::Execute {
                env: env.deep_view(),
                tx_hash: tx_hash@,
            },
            Action::SendAck { ack } => ActionV::SendAck { ack: ack.deep_view() },
        }
    }
}

/// The router a transaction addresses: its recipient, or the zero address
/// when it has none.
pub open spec fn router_of(recipient: Option<Seq<u8>>) -> Seq<u8> {
    match recipient {
        Some(a) => a,
        None => zero_addr(),
    }
}

/// The actions one transaction contributes: one synthetic execution when
/// its call data matches a swap invocation with a multi-hop path, nothing
/// otherwise. A matched single- or zero-hop path only makes the decoded
/// intent observable; it is never simulated.
pub open spec fn spec_tx_actions(block_number: u64, tx: TransactionV) -> Seq<ActionV> {
    match spec_decode_swap(tx.call_data) {
        Some(v) => if v.path.len() >= 2 {
            seq![
                ActionV::Execute {
                    env: spec_swap_env(
                        block_number,
                        router_of(tx.recipient),
                        tx.sender,
                        v.amount_in,
                        v.path,
                    ),
                    tx_hash: tx.hash,
                },
            ]
        } else {
            Seq::empty()
        },
        None => Seq::empty(),
    }
}

/// The actions of a prefix of a block's transactions, in order.
pub open spec fn spec_txs_actions(block_number: u64, txs: Seq<TransactionV>) -> Seq<ActionV>
    decreases txs.len(),
{
    if txs.len() == 0 {
        Seq::empty()
    } else {
        spec_txs_actions(block_number, txs.drop_last()) + spec_tx_actions(block_number, txs.last())
    }
}

/// The actions of one block: obtain its snapshot, then its transactions'
/// executions in order.
pub open spec fn spec_block_actions(b: BlockV) -> Seq<ActionV> {
    seq![ActionV::ObtainSnapshot { block_number: b.number }] + spec_txs_actions(
        b.number,
        b.transactions,
    )
}

/// The actions of a sequence of blocks, in block order.
pub open spec fn spec_blocks_actions(blocks: Seq<BlockV>) -> Seq<ActionV>
    decreases blocks.len(),
{
    if blocks.len() == 0 {
        Seq::empty()
    } else {
        spec_blocks_actions(blocks.drop_last()) + spec_block_actions(blocks.last())
    }
}

/// The full plan of one event: for a commit, every block's work in order
/// followed by exactly one acknowledgment of the tip; for a
/// reorganization or revert, nothing — no acknowledgment, and no snapshot
/// of a dropped block is ever requested.
pub open spec fn spec_plan(e: ChainEventV) -> Seq<ActionV> {
    match e {
        ChainEventV::Committed { blocks, tip } => spec_blocks_actions(blocks) + seq![
            ActionV::SendAck { ack: HeightAckV { number: tip.number, hash: tip.hash } },
        ],
        _ => Seq::empty(),
    }
}

/// Transactions whose addresses have the widths the host guarantees.
pub open spec fn tx_wf(tx: TransactionV) -> bool {
    &&& tx.sender.len() == 20
    &&& tx.recipient matches Some(a) ==> a.len() == 20
}

/// Blocks whose transactions are all well-formed.
pub open spec fn block_wf(b: BlockV) -> bool {
    forall|t: int| 0 <= t < b.transactions.len() ==> tx_wf(#[trigger] b.transactions[t])
}

/// Block sequences whose transactions are all well-formed.
pub open spec fn blocks_wf(blocks: Seq<BlockV>) -> bool {
    forall|b: int| 0 <= b < blocks.len() ==> block_wf(#[trigger] blocks[b])
}

/// Events whose transactions are all well-formed.
pub open spec fn event_wf(e: ChainEventV) -> bool {
    match e {
        ChainEventV::Committed { blocks, tip } => blocks_wf(blocks),
        _ => true,
    }
}

/// Appends one action to a plan.
fn push_action(plan: &mut Vec<Action>, act: Action)
    ensures
        final(plan).deep_view() == old(plan).deep_view().push(act.deep_view()),
{
    let ghost prev_vec: Seq<Action> = plan@;
    let ghost prev_deep: Seq<ActionV> = plan.deep_view();
    plan.push(act);
    proof {
        assert(prev_deep.len() == prev_vec.len());
        assert(plan@ == prev_vec.push(act));
        assert forall|i: int| 0 <= i < prev_vec.len() + 1 implies #[trigger] plan.deep_view()[i]
            == prev_deep.push(act.deep_view())[i] by {
            assert(plan.deep_view()[i] == plan@[i].deep_view());
            if i < prev_vec.len() {
                assert(plan@[i] == prev_vec.push(act)[i]);
                assert(plan@[i] == prev_vec[i]);
                assert(prev_deep[i] == prev_vec[i].deep_view());
            } else {
                assert(plan@[i] == act);
            }
        }
        assert(plan.deep_view() =~= prev_deep.push(act.deep_view()));
    }
}

/// The Notification Consumer's decision for one event: the exact ordered
/// actions to perform. Per-transaction simulation outcomes are reported as
/// data by whoever executes the plan and never abort it; the single
/// acknowledgment of a commit stands last, after all blocks' work.
pub fn plan_event(event: &ChainEvent) -> (plan: Vec<Action>)
    requires
        event_wf(event.deep_view()),
    ensures
        plan.deep_view() == spec_plan(event.deep_view()),
        !(event is Committed) ==> plan@.len() == 0,
{
    match event {
        ChainEvent::Committed { blocks, tip } => {
            let mut plan: Vec<Action> = Vec::new();
            let ghost blocks_deep: Seq<BlockV> = blocks.deep_view();
            proof {
                assert(event.deep_view() == ChainEventV::Committed {
                    blocks: blocks_deep,
                    tip: tip.deep_view(),
                });
                assert(blocks_wf(blocks_deep));
                assert(plan.deep_view() =~= spec_blocks_actions(blocks_deep.take(0)));
            }
            let nb: usize = blocks.len();
            let mut b: usize = 0;
            while b < nb
                invariant
                    b <= nb,
                    nb == blocks@.len(),
                    blocks_deep == blocks.deep_view(),
                    blocks_wf(blocks_deep),
                    plan.deep_view() == spec_blocks_actions(blocks_deep.take(b as int)),
                decreases nb - b,
            {
                let block = &blocks[b];
                proof {
                    assert(blocks_deep[b as int] == blocks@[b as int].deep_view());
                    assert(block.deep_view() == blocks_deep[b as int]);
                }
                let engine = SimulationEngine::new(block.number);
                push_action(&mut plan, Action::ObtainSnapshot { block_number: block.number });
                let ghost base: Seq<ActionV> = spec_blocks_actions(blocks_deep.take(b as int))
                    + seq![ActionV::ObtainSnapshot { block_number: blocks_deep[b as int].number }];
                let ghost txs_deep: Seq<TransactionV> = blocks_deep[b as int].transactions;
                proof {
                    assert(plan.deep_view() =~= base + spec_txs_actions(
                        blocks_deep[b as int].number,
                        txs_deep.take(0),
                    ));
                }
                let nt: usize = block.transactions.len();
                let mut t: usize = 0;
                while t < nt
                    invariant
                        t <= nt,
                        b < nb,
                        nt == block.transactions@.len(),
                        block.deep_view() == blocks_deep[b as int],
                        blocks_deep == blocks.deep_view(),
                        nb == blocks@.len(),
                        txs_deep == blocks_deep[b as int].transactions,
                        nt == txs_deep.len(),
                        engine.block_number == blocks_deep[b as int].number,
                        blocks_wf(blocks_deep),
                        plan.deep_view() == base + spec_txs_actions(
                            blocks_deep[b as int].number,
                            txs_deep.take(t as int),
                        ),
                    decreases nt - t,
                {
                    let tx = &block.transactions[t];
                    let ghost txv: TransactionV = txs_deep[t as int];
                    proof {
                        assert(txv == block.transactions@[t as int].deep_view());
                        assert(block_wf(blocks_deep[b as int]));
                        assert(blocks_deep[b as int].transactions[t as int] == txv);
                        assert(tx_wf(blocks_deep[b as int].transactions[t as int]));
                    }
                    if let Some(intent) = match_swap_call(&tx.call_data) {
                        if intent.path.len() >= 2 {
                            let dlen: usize = tx.call_data.len();
                            proof {
                                let v = intent.deep_view();
                                assert(spec_decode_swap(txv.call_data) == Some(v));
                                assert(v.amount_in.len() == 32);
                                assert(forall|k: int|
                                    0 <= k < v.path.len() ==> (#[trigger] v.path[k]).len() == 20);
                                vstd::arithmetic::div_mod::lemma_fundamental_div_mod(
                                    dlen - 196,
                                    32,
                                );
                                assert(196 + 32 * v.path.len() <= usize::MAX);
                                assert(intent.path@.len() == v.path.len());
                                assert forall|k: int|
                                    0 <= k < intent.path@.len() implies (
                                #[trigger] intent.path@[k])@.len() == 20 by {
                                    let pk = intent.path@[k];
                                    assert(v.path[k] == intent.path.deep_view()[k]);
                                    assert(intent.path.deep_view()[k] == pk.deep_view());
                                    assert(pk.deep_view() =~= pk@);
                                }
                            }
                            let router = match &tx.recipient {
                                Some(a) => copy_bytes(a),
                                None => zero_addr_vec(),
                            };
                            let env = engine.prepare_swap(
                                &router,
                                &tx.sender,
                                &intent.amount_in,
                                &intent.path,
                            );
                            push_action(
                                &mut plan,
                                Action::Execute { env, tx_hash: copy_bytes(&tx.hash) },
                            );
                            proof {
                                assert(router@ == router_of(txv.recipient));
                                assert(env.deep_view() == spec_swap_env(
                                    blocks_deep[b as int].number,
                                    router_of(txv.recipient),
                                    txv.sender,
                                    intent.deep_view().amount_in,
                                    intent.deep_view().path,
                                ));
                                assert(spec_tx_actions(blocks_deep[b as int].number, txv)
                                    =~= seq![
                                    ActionV::Execute {
                                        env: env.deep_view(),
                                        tx_hash: txv.hash,
                                    },
                                ]);
                            }
                        } else {
                            proof {
                                assert(spec_decode_swap(txv.call_data) == Some(intent.deep_view()));
                                assert(spec_tx_actions(blocks_deep[b as int].number, txv)
                                    =~= Seq::<ActionV>::empty());
                            }
                        }
                    } else {
                        proof {
                            assert(spec_decode_swap(txv.call_data) is None);
                            assert(spec_tx_actions(blocks_deep[b as int].number, txv)
                                =~= Seq::<ActionV>::empty());
                        }
                    }
                    proof {
                        assert(txs_deep.take(t as int + 1).drop_last() =~= txs_deep.take(t as int));
                        assert(txs_deep.take(t as int + 1).last() == txs_deep[t as int]);
                        assert(plan.deep_view() =~= base + spec_txs_actions(
                            blocks_deep[b as int].number,
                            txs_deep.take(t as int + 1),
                        ));
                    }
                    t = t + 1;
                }
                proof {
                    assert(txs_deep.take(nt as int) =~= txs_deep);
                    assert(blocks_deep.take(b as int + 1).drop_last() =~= blocks_deep.take(
                        b as int,
                    ));
                    assert(blocks_deep.take(b as int + 1).last() == blocks_deep[b as int]);
                    assert(spec_block_actions(blocks_deep[b as int])
                        =~= seq![ActionV::ObtainSnapshot { block_number: blocks_deep[b as int].number }]
                        + spec_txs_actions(blocks_deep[b as int].number, txs_deep));
                    assert(plan.deep_view() =~= spec_blocks_actions(
                        blocks_deep.take(b as int + 1),
                    ));
                }
                b = b + 1;
            }
            push_action(
                &mut plan,
                Action::SendAck {
                    ack: HeightAck { number: tip.number, hash: copy_bytes(&tip.hash) },
                },
            );
            proof {
                assert(blocks_deep.take(nb as int) =~= blocks_deep);
                assert(plan.deep_view() =~= spec_plan(event.deep_view()));
            }
            plan
        },
        ChainEvent::Reorganized { .. } => {
            let plan: Vec<Action> = Vec::new();
            proof {
                assert(plan.deep_view() =~= spec_plan(event.deep_view()));
            }
            plan
        },
        ChainEvent::Reverted { .. } => {
            let plan: Vec<Action> = Vec::new();
            proof {
                assert(plan.deep_view() =~= spec_plan(event.deep_view()));
            }
            plan
        },
    }
}


/// No action a transaction contributes is an acknowledgment.
proof fn lemma_tx_actions_no_ack(number: u64, tx: TransactionV)
    ensures
        forall|i: int|
            0 <= i < spec_tx_actions(number, tx).len() ==> !((
            #[trigger] spec_tx_actions(number, tx)[i]) is SendAck),
{
}

/// No action a block's transactions contribute is an acknowledgment.
proof fn lemma_txs_actions_no_ack(number: u64, txs: Seq<TransactionV>)
    ensures
        forall|i: int|
            0 <= i < spec_txs_actions(number, txs).len() ==> !((
            #[trigger] spec_txs_actions(number, txs)[i]) is SendAck),
    decreases txs.len(),
{
    if txs.len() > 0 {
        lemma_txs_actions_no_ack(number, txs.drop_last());
        lemma_tx_actions_no_ack(number, txs.last());
    }
}

/// No action a sequence of blocks contributes is an acknowledgment.
proof fn lemma_blocks_actions_no_ack(blocks: Seq<BlockV>)
    ensures
        forall|i: int|
            0 <= i < spec_blocks_actions(blocks).len() ==> !((
            #[trigger] spec_blocks_actions(blocks)[i]) is SendAck),
    decreases blocks.len(),
{
    if blocks.len() > 0 {
        lemma_blocks_actions_no_ack(blocks.drop_last());
        lemma_txs_actions_no_ack(blocks.last().number, blocks.last().transactions);
    }
}

/// A commit of any number of blocks plans exactly one acknowledgment: it
/// identifies the event's tip, stands last — only after every block's
/// snapshot and every matched transaction's execution — and no other
/// acknowledgment appears anywhere in the plan.
pub proof fn lemma_committed_single_ack(blocks: Seq<BlockV>, tip: BlockIdV)
    ensures
        ({
            let plan = spec_plan(ChainEventV::Committed { blocks, tip });
            &&& plan.len() == spec_blocks_actions(blocks).len() + 1
            &&& plan.last() == (ActionV::SendAck {
                ack: HeightAckV { number: tip.number, hash: tip.hash },
            })
            &&& forall|i: int| 0 <= i < plan.len() - 1 ==> !((#[trigger] plan[i]) is SendAck)
        }),
{
    lemma_blocks_actions_no_ack(blocks);
    let plan = spec_plan(ChainEventV::Committed { blocks, tip });
    assert forall|i: int| 0 <= i < plan.len() - 1 implies !((#[trigger] plan[i]) is SendAck) by {
        assert(plan[i] == spec_blocks_actions(blocks)[i]);
    }
}

/// Reorganization and revert events plan nothing at all: no snapshot of a
/// dropped block is requested and no acknowledgment is ever produced for
/// them.
pub proof fn lemma_no_ack_without_commit(e: ChainEventV)
    requires
        !(e is Committed),
    ensures
        spec_plan(e) == Seq::<ActionV>::empty(),
{
}

/// A matched swap whose path has fewer than two hops is never handed to
/// the Simulation Engine: its decoded intent is observable, but it
/// contributes no action.
pub proof fn lemma_short_path_never_simulated(block_number: u64, tx: TransactionV)
    requires
        spec_decode_swap(tx.call_data) matches Some(v) && v.path.len() < 2,
    ensures
        spec_tx_actions(block_number, tx) == Seq::<ActionV>::empty(),
{
}

/// Simulations of distinct transactions in one block are independent: the
/// synthetic environment planned for a transaction is a function of that
/// transaction and the block height alone, so altering the other
/// transactions of the block cannot change it. The raw result is produced
/// against the block's shared read-only base state with a per-execution
/// private overlay, and its classification (`classify_result`) is a
/// function of that raw result alone.
pub proof fn lemma_simulations_independent(b1: BlockV, b2: BlockV, k: int)
    requires
        b1.number == b2.number,
        0 <= k < b1.transactions.len(),
        0 <= k < b2.transactions.len(),
        b1.transactions[k] == b2.transactions[k],
    ensures
        spec_tx_actions(b1.number, b1.transactions[k]) == spec_tx_actions(
            b2.number,
            b2.transactions[k],
        ),
{
}

} // verus!
