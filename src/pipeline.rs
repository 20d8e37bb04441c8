use vstd::prelude::*;

use crate::event::{decode_event, parse_event, EventView};
use crate::retry::{
    supervisor_step, AttemptEvent, AttemptState, RetryPolicy, Supervisor, SupervisorAction,
    SupervisorView,
};
use crate::store::{
    apply_writes, checkpoint_le, init_spec, lemma_apply_writes_facts, lemma_checkpoint_monotone,
    new_writes_ordered, write_spec, Checkpoint, Row, Store, StoreError, StoreView,
};
use crate::types::{position_le, ContractAddress, EventKey, KeyView, Sha256};

verus! {

/// A raw event as the chain reports it: the contract that logged it and its
/// payload bytes.
#[derive(Debug)]
pub struct RawEvent {
    pub contract: ContractAddress,
    pub payload: Vec<u8>,
}

/// A transaction of the stream with its events in log order.
#[derive(Debug)]
pub struct StreamTransaction {
    pub hash: Sha256,
    pub events: Vec<RawEvent>,
}

/// A block of the stream with the transactions that touched the contract.
#[derive(Debug)]
pub struct Block {
    pub height: u64,
    pub transactions: Vec<StreamTransaction>,
}

/// Mathematical form of a [`RawEvent`].
pub struct RawEventView {
    pub contract: ContractAddress,
    pub payload: Seq<u8>,
}

/// Mathematical form of a [`StreamTransaction`].
pub struct StreamTransactionView {
    pub hash: Seq<u8>,
    pub events: Seq<RawEventView>,
}

/// Mathematical form of a [`Block`].
pub struct BlockView {
    pub height: u64,
    pub transactions: Seq<StreamTransactionView>,
}

impl View for RawEvent {
    type V = RawEventView;

    open spec fn view(&self) -> RawEventView {
        RawEventView { contract: self.contract, payload: self.payload@ }
    }
}

impl View for StreamTransaction {
    type V = StreamTransactionView;

    open spec fn view(&self) -> StreamTransactionView {
        StreamTransactionView { hash: self.hash@, events: self.events@.map_values(|e: RawEvent| e@) }
    }
}

impl View for Block {
    type V = BlockView;

    open spec fn view(&self) -> BlockView {
        BlockView {
            height: self.height,
            transactions: self.transactions@.map_values(|t: StreamTransaction| t@),
        }
    }
}

/// Why the pipeline stopped.
#[derive(Clone, Copy, Debug, PartialEq, Eq, Structural)]
pub enum PipelineError {
    /// The store was set up for another contract.
    ContractMismatch { stored: ContractAddress, configured: ContractAddress },
    /// The stream delivered an event of a contract other than the configured one.
    ForeignContract { expected: ContractAddress, found: ContractAddress },
    /// An event payload matched no known schema.
    Malformed { block_height: u64, transaction_index: u64, event_index: u64 },
    /// No storage connection could be had.
    PoolUnavailable,
    /// The store refused a write.
    Storage(StoreError),
}

/// The row for the `i`-th event of transaction `t` (the `ti`-th of its block), or why
/// there is none.
pub open spec fn plan_event(
    c: ContractAddress,
    height: u64,
    ti: int,
    tx: Seq<u8>,
    i: int,
    ev: RawEventView,
) -> Result<(KeyView, EventView), PipelineError> {
    if ev.contract != c {
        Err(PipelineError::ForeignContract { expected: c, found: ev.contract })
    } else {
        match parse_event(ev.payload) {
            Some(e) => Ok((KeyView { height, tx, index: i as u64 }, e)),
            None => Err(
                PipelineError::Malformed {
                    block_height: height,
                    transaction_index: ti as u64,
                    event_index: i as u64,
                },
            ),
        }
    }
}

/// The rows for the events of a transaction, in log order; the first event
/// that has none decides the error.
pub open spec fn plan_events(
    c: ContractAddress,
    height: u64,
    ti: int,
    tx: Seq<u8>,
    evs: Seq<RawEventView>,
) -> Result<Seq<(KeyView, EventView)>, PipelineError>
    decreases evs.len(),
{
    if evs.len() == 0 {
        Ok(Seq::empty())
    } else {
        match plan_events(c, height, ti, tx, evs.drop_last()) {
            Err(e) => Err(e),
            Ok(ws) => match plan_event(c, height, ti, tx, evs.len() - 1, evs.last()) {
                Err(e) => Err(e),
                Ok(w) => Ok(ws.push(w)),
            },
        }
    }
}

/// The rows for the events of the transactions, in stream order.
pub open spec fn plan_transactions(
    c: ContractAddress,
    height: u64,
    txs: Seq<StreamTransactionView>,
) -> Result<Seq<(KeyView, EventView)>, PipelineError>
    decreases txs.len(),
{
    if txs.len() == 0 {
        Ok(Seq::empty())
    } else {
        match plan_transactions(c, height, txs.drop_last()) {
            Err(e) => Err(e),
            Ok(ws) => match plan_events(
                c,
                height,
                txs.len() - 1,
                txs.last().hash,
                txs.last().events,
            ) {
                Err(e) => Err(e),
                Ok(vs) => Ok(ws + vs),
            },
        }
    }
}

/// The rows that a block asks to store, in stream order, or why it cannot
/// be indexed.
pub open spec fn plan_spec(c: ContractAddress, b: BlockView) -> Result<
    Seq<(KeyView, EventView)>,
    PipelineError,
> {
    plan_transactions(c, b.height, b.transactions)
}

proof fn lemma_plan_events_err_prefix(
    c: ContractAddress,
    height: u64,
    ti: int,
    tx: Seq<u8>,
    evs: Seq<RawEventView>,
    k: int,
)
    requires
        0 <= k <= evs.len(),
        plan_events(c, height, ti, tx, evs.take(k)) is Err,
    ensures
        plan_events(c, height, ti, tx, evs) == plan_events(c, height, ti, tx, evs.take(k)),
    decreases evs.len(),
{
    if k == evs.len() {
        assert(evs.take(k) =~= evs);
    } else {
        assert(evs.drop_last().take(k) =~= evs.take(k));
        lemma_plan_events_err_prefix(c, height, ti, tx, evs.drop_last(), k);
    }
}

proof fn lemma_plan_transactions_err_prefix(
    c: ContractAddress,
    height: u64,
    txs: Seq<StreamTransactionView>,
    k: int,
)
    requires
        0 <= k <= txs.len(),
        plan_transactions(c, height, txs.take(k)) is Err,
    ensures
        plan_transactions(c, height, txs) == plan_transactions(c, height, txs.take(k)),
    decreases txs.len(),
{
    if k == txs.len() {
        assert(txs.take(k) =~= txs);
    } else {
        assert(txs.drop_last().take(k) =~= txs.take(k));
        lemma_plan_transactions_err_prefix(c, height, txs.drop_last(), k);
    }
}

/// An error among the first `i` events of the `t`-th transaction, after the
/// earlier transactions planned well, is the error of the whole block.
proof fn lemma_block_err(c: ContractAddress, b: BlockView, t: int, i: int)
    requires
        0 <= t < b.transactions.len(),
        0 <= i <= b.transactions[t].events.len(),
        plan_transactions(c, b.height, b.transactions.take(t)) is Ok,
        plan_events(c, b.height, t, b.transactions[t].hash, b.transactions[t].events.take(i)) is Err,
    ensures
        plan_spec(c, b) == plan_events(
            c,
            b.height,
            t,
            b.transactions[t].hash,
            b.transactions[t].events.take(i),
        ),
{
    let tx = b.transactions[t];
    lemma_plan_events_err_prefix(c, b.height, t, tx.hash, tx.events, i);
    let p = b.transactions.take(t + 1);
    assert(p.drop_last() =~= b.transactions.take(t));
    assert(p.last() == tx);
    lemma_plan_transactions_err_prefix(c, b.height, b.transactions, t + 1);
}

proof fn lemma_plan_events_keys(
    c: ContractAddress,
    height: u64,
    ti: int,
    tx: Seq<u8>,
    evs: Seq<RawEventView>,
)
    requires
        evs.len() <= u64::MAX,
        plan_events(c, height, ti, tx, evs) is Ok,
    ensures
        ({
            let ws = plan_events(c, height, ti, tx, evs)->Ok_0;
            &&& ws.len() == evs.len()
            &&& forall|k: int|
                0 <= k < ws.len() ==> #[trigger] ws[k].0 == (KeyView { height, tx, index: k as u64 })
        }),
    decreases evs.len(),
{
    if evs.len() > 0 {
        lemma_plan_events_keys(c, height, ti, tx, evs.drop_last());
    }
}

/// The rows of a block with one transaction carry the block's height and the
/// event indices `0, 1, 2, ...` in order, so they come in checkpoint order.
pub proof fn lemma_single_transaction_rows_ordered(c: ContractAddress, b: BlockView)
    requires
        b.transactions.len() == 1,
        b.transactions[0].events.len() <= u64::MAX,
        plan_spec(c, b) is Ok,
    ensures
        ({
            let ws = plan_spec(c, b)->Ok_0;
            &&& forall|k: int|
                0 <= k < ws.len() ==> #[trigger] ws[k].0.height == b.height && ws[k].0.index == k
            &&& forall|j: int, k: int|
                0 <= j < k < ws.len() ==> position_le(#[trigger] ws[j].0, #[trigger] ws[k].0)
                    && ws[j].0.index < ws[k].0.index
        }),
{
    let tx = b.transactions[0];
    assert(b.transactions.drop_last() =~= Seq::<StreamTransactionView>::empty());
    let vs = plan_events(c, b.height, 0, tx.hash, tx.events);
    lemma_plan_events_keys(c, b.height, 0, tx.hash, tx.events);
    assert(plan_transactions(c, b.height, b.transactions.drop_last()) == Ok::<
        Seq<(KeyView, EventView)>,
        PipelineError,
    >(Seq::empty()));
    assert(b.transactions.last() == tx);
    assert(Seq::<(KeyView, EventView)>::empty() + vs->Ok_0 =~= vs->Ok_0);
}

pub open spec fn rows_view(rows: Seq<Row>) -> Seq<(KeyView, EventView)> {
    rows.map_values(|r: Row| r@)
}

/// Classifies the events of a block: each must come from the configured
/// contract and decode to a domain event. Gives the rows to store, keyed by
/// block height, transaction hash and position in the transaction's log.
pub fn plan_block(contract: ContractAddress, block: &Block) -> (r: Result<
    Vec<Row>,
    PipelineError,
>)
    ensures
        match r {
            Ok(rows) => plan_spec(contract, block@) == Ok::<_, PipelineError>(rows_view(rows@)),
            Err(e) => plan_spec(contract, block@) == Err::<Seq<(KeyView, EventView)>, _>(e),
        },
{
    let ghost bv = block@;
    let mut out: Vec<Row> = Vec::new();
    let mut t: usize = 0;
    proof {
        assert(bv.transactions.take(0) =~= Seq::<StreamTransactionView>::empty());
        assert(rows_view(out@) =~= Seq::<(KeyView, EventView)>::empty());
    }
    while t < block.transactions.len()
        invariant
            bv == block@,
            t <= block.transactions@.len(),
            plan_transactions(contract, bv.height, bv.transactions.take(t as int)) == Ok::<
                _,
                PipelineError,
            >(rows_view(out@)),
        decreases block.transactions@.len() - t,
    {
        let tx = &block.transactions[t];
        let ghost before = rows_view(out@);
        let mut i: usize = 0;
        proof {
            assert(tx@.events.take(0) =~= Seq::<RawEventView>::empty());
            assert(rows_view(out@).skip(before.len() as int) =~= Seq::<
                (KeyView, EventView),
            >::empty());
            assert(rows_view(out@).take(before.len() as int) =~= before);
        }
        while i < tx.events.len()
            invariant
                bv == block@,
                t < block.transactions@.len(),
                tx == block.transactions@[t as int],
                i <= tx.events@.len(),
                plan_events(
                    contract,
                    bv.height,
                    t as int,
                    tx.hash@,
                    tx@.events.take(i as int),
                ) == Ok::<_, PipelineError>(rows_view(out@).skip(before.len() as int)),
                before.len() <= out@.len(),
                rows_view(out@).take(before.len() as int) == before,
                plan_transactions(contract, bv.height, bv.transactions.take(t as int)) == Ok::<
                    _,
                    PipelineError,
                >(before),
            decreases tx.events@.len() - i,
        {
            let ev = &tx.events[i];
            proof {
                assert(tx@.events.take(i + 1).drop_last() =~= tx@.events.take(i as int));
                assert(tx@.events.take(i + 1).last() == ev@);
            }
            if !(ev.contract == contract) {
                proof {
                    lemma_block_err(contract, bv, t as int, i + 1);
                }
                return Err(PipelineError::ForeignContract { expected: contract, found: ev.contract });
            }
            match decode_event(ev.payload.as_slice()) {
                Err(_) => {
                    proof {
                        lemma_block_err(contract, bv, t as int, i + 1);
                    }
                    return Err(
                        PipelineError::Malformed {
                            block_height: block.height,
                            transaction_index: t as u64,
                            event_index: i as u64,
                        },
                    );
                },
                Ok(event) => {
                    let key = EventKey {
                        block_height: block.height,
                        transaction_hash: tx.hash,
                        event_index: i as u64,
                    };
                    let ghost prev = rows_view(out@);
                    out.push(Row { key, event });
                    proof {
                        assert(rows_view(out@) =~= prev.push(rows_view(out@).last()));
                        assert(rows_view(out@).skip(before.len() as int) =~= prev.skip(
                            before.len() as int,
                        ).push(rows_view(out@).last()));
                        assert(rows_view(out@).take(before.len() as int) =~= prev.take(
                            before.len() as int,
                        ));
                    }
                },
            }
            i += 1;
        }
        proof {
            assert(tx@.events.take(i as int) =~= tx@.events);
            assert(bv.transactions.take(t + 1).drop_last() =~= bv.transactions.take(t as int));
            assert(bv.transactions.take(t + 1).last() == tx@);
            assert(rows_view(out@) =~= before + rows_view(out@).skip(before.len() as int));
        }
        t += 1;
    }
    proof {
        assert(bv.transactions.take(t as int) =~= bv.transactions);
    }
    Ok(out)
}

/// Where the pipeline stands between two inputs.
#[derive(Clone, Copy, Debug, PartialEq, Eq, Structural)]
pub enum Phase {
    /// Waiting for the next block of the stream.
    AwaitingItem,
    /// Writing the rows of the current block, one at a time.
    Writing,
    /// Stopped after the stream closed or cancellation was asked for.
    Finished,
    /// Stopped on a fatal error.
    Failed,
}

/// What the pipeline asks of the loop that drives it.
#[derive(Clone, Copy, Debug, PartialEq, Eq, Structural)]
pub enum Action {
    /// Take the next block of the stream (or report that it closed).
    FetchNext,
    /// Write [`Pipeline::current`] in one storage transaction.
    Write,
    /// Sleep this many milliseconds, then report `BackoffElapsed`.
    Sleep { delay_ms: u64 },
    /// Take a fresh storage connection from the pool.
    Reconnect,
    /// Stop; everything committed so far stays.
    Stop,
    /// Stop with a fatal error.
    Abort(PipelineError),
    /// The input does not fit the current phase; nothing changed.
    Rejected,
}

/// The orchestrator: it takes blocks in stream order, classifies their events
/// and has each row written, serially, under the retry supervisor.
#[derive(Debug)]
pub struct Pipeline {
    contract: ContractAddress,
    pending: Vec<Row>,
    next: usize,
    supervisor: Supervisor,
    phase: Phase,
}

/// Mathematical form of a [`Pipeline`].
pub struct PipelineView {
    pub contract: ContractAddress,
    pub pending: Seq<(KeyView, EventView)>,
    pub next: int,
    pub supervisor: SupervisorView,
    pub phase: Phase,
}

impl View for Pipeline {
    type V = PipelineView;

    closed spec fn view(&self) -> PipelineView {
        PipelineView {
            contract: self.contract,
            pending: rows_view(self.pending@),
            next: self.next as int,
            supervisor: self.supervisor@,
            phase: self.phase,
        }
    }
}

/// A supervisor ready for the first attempt of a new row.
pub open spec fn fresh_supervisor(policy: RetryPolicy) -> SupervisorView {
    SupervisorView { policy, failures: 0, state: AttemptState::Attempting }
}

/// The pipeline's invariant.
pub open spec fn pipeline_wf(p: PipelineView) -> bool {
    &&& p.supervisor.policy.wf()
    &&& 0 <= p.next <= p.pending.len()
    &&& p.phase == Phase::Writing ==> p.next < p.pending.len()
}

/// A block arrives.
pub open spec fn item_step(p: PipelineView, b: BlockView) -> (PipelineView, Action) {
    if p.phase != Phase::AwaitingItem {
        (p, Action::Rejected)
    } else {
        match plan_spec(p.contract, b) {
            Err(e) => (PipelineView { phase: Phase::Failed, ..p }, Action::Abort(e)),
            Ok(ws) => (
                PipelineView {
                    pending: ws,
                    next: 0,
                    supervisor: fresh_supervisor(p.supervisor.policy),
                    phase: if ws.len() == 0 {
                        Phase::AwaitingItem
                    } else {
                        Phase::Writing
                    },
                    ..p
                },
                if ws.len() == 0 {
                    Action::FetchNext
                } else {
                    Action::Write
                },
            ),
        }
    }
}

/// The stream closed, or cancellation was asked for: both are honoured only
/// between blocks.
pub open spec fn stop_step(p: PipelineView) -> (PipelineView, Action) {
    if p.phase == Phase::AwaitingItem {
        (PipelineView { phase: Phase::Finished, ..p }, Action::Stop)
    } else {
        (p, Action::Rejected)
    }
}

/// The outcome of a write, a backoff or a reconnection arrives.
pub open spec fn attempt_step(p: PipelineView, ev: AttemptEvent) -> (PipelineView, Action) {
    if p.phase != Phase::Writing {
        (p, Action::Rejected)
    } else {
        let (sv, a) = supervisor_step(p.supervisor, ev);
        match a {
            SupervisorAction::Proceed => if p.next + 1 < p.pending.len() {
                (
                    PipelineView {
                        next: p.next + 1,
                        supervisor: fresh_supervisor(p.supervisor.policy),
                        ..p
                    },
                    Action::Write,
                )
            } else {
                (
                    PipelineView { next: p.next + 1, supervisor: sv, phase: Phase::AwaitingItem, ..p },
                    Action::FetchNext,
                )
            },
            SupervisorAction::Wait { delay_ms } => (
                PipelineView { supervisor: sv, ..p },
                Action::Sleep { delay_ms },
            ),
            SupervisorAction::AcquireConnection => (
                PipelineView { supervisor: sv, ..p },
                Action::Reconnect,
            ),
            SupervisorAction::Attempt => (PipelineView { supervisor: sv, ..p }, Action::Write),
            SupervisorAction::Abort => (
                PipelineView { supervisor: sv, phase: Phase::Failed, ..p },
                Action::Abort(PipelineError::PoolUnavailable),
            ),
            SupervisorAction::Rejected => (p, Action::Rejected),
        }
    }
}

impl Pipeline {
    /// Starts the pipeline against the stored settings record. A record of
    /// another contract is fatal, before any block is taken.
    pub fn start(contract: ContractAddress, policy: RetryPolicy, stored: &Checkpoint) -> (r: Result<
        Pipeline,
        PipelineError,
    >)
        requires
            policy.wf(),
        ensures
            stored.contract_address != contract <==> r is Err,
            r matches Err(e) ==> e == (PipelineError::ContractMismatch {
                stored: stored.contract_address,
                configured: contract,
            }),
            r matches Ok(p) ==> pipeline_wf(p@) && p@ == (PipelineView {
                contract,
                pending: Seq::empty(),
                next: 0,
                supervisor: fresh_supervisor(policy),
                phase: Phase::AwaitingItem,
            }),
    {
        if !(stored.contract_address == contract) {
            return Err(
                PipelineError::ContractMismatch { stored: stored.contract_address, configured: contract },
            );
        }
        let p = Pipeline {
            contract,
            pending: Vec::new(),
            next: 0,
            supervisor: Supervisor::new(policy),
            phase: Phase::AwaitingItem,
        };
        proof {
            assert(p@.pending =~= Seq::<(KeyView, EventView)>::empty());
        }
        Ok(p)
    }

    /// The current phase.
    pub fn phase(&self) -> (r: Phase)
        ensures
            r == self@.phase,
    {
        self.phase
    }

    /// The retry supervisor of the current row.
    pub fn supervisor(&self) -> (r: Supervisor)
        ensures
            r@ == self@.supervisor,
    {
        self.supervisor
    }

    /// The row to write now.
    pub fn current(&self) -> (r: &Row)
        requires
            pipeline_wf(self@),
            self@.phase == Phase::Writing,
        ensures
            r@ == self@.pending[self@.next],
    {
        &self.pending[self.next]
    }

    /// Takes the next block of the stream (see [`item_step`]).
    pub fn on_item(&mut self, block: &Block) -> (r: Action)
        requires
            pipeline_wf(old(self)@),
        ensures
            pipeline_wf(final(self)@),
            (final(self)@, r) == item_step(old(self)@, block@),
    {
        if self.phase != Phase::AwaitingItem {
            return Action::Rejected;
        }
        match plan_block(self.contract, block) {
            Err(e) => {
                self.phase = Phase::Failed;
                Action::Abort(e)
            },
            Ok(rows) => {
                let empty = rows.len() == 0;
                self.pending = rows;
                self.next = 0;
                self.supervisor = Supervisor::new(self.supervisor.policy());
                if empty {
                    Action::FetchNext
                } else {
                    self.phase = Phase::Writing;
                    Action::Write
                }
            },
        }
    }

    /// The stream closed (see [`stop_step`]).
    pub fn on_closed(&mut self) -> (r: Action)
        requires
            pipeline_wf(old(self)@),
        ensures
            pipeline_wf(final(self)@),
            (final(self)@, r) == stop_step(old(self)@),
    {
        self.stop()
    }

    /// Cancellation was asked for (see [`stop_step`]).
    pub fn on_cancelled(&mut self) -> (r: Action)
        requires
            pipeline_wf(old(self)@),
        ensures
            pipeline_wf(final(self)@),
            (final(self)@, r) == stop_step(old(self)@),
    {
        self.stop()
    }

    fn stop(&mut self) -> (r: Action)
        requires
            pipeline_wf(old(self)@),
        ensures
            pipeline_wf(final(self)@),
            (final(self)@, r) == stop_step(old(self)@),
    {
        if self.phase == Phase::AwaitingItem {
            self.phase = Phase::Finished;
            Action::Stop
        } else {
            Action::Rejected
        }
    }

    /// Reports what became of the last write, backoff or reconnection (see
    /// [`attempt_step`]).
    pub fn on_attempt(&mut self, ev: AttemptEvent) -> (r: Action)
        requires
            pipeline_wf(old(self)@),
        ensures
            pipeline_wf(final(self)@),
            (final(self)@, r) == attempt_step(old(self)@, ev),
    {
        if self.phase != Phase::Writing {
            return Action::Rejected;
        }
        let policy = self.supervisor.policy();
        match self.supervisor.step(ev) {
            SupervisorAction::Proceed => {
                let len = self.pending.len();
                assert(self.next < len);
                self.next = self.next + 1;
                if self.next < len {
                    self.supervisor = Supervisor::new(policy);
                    Action::Write
                } else {
                    self.phase = Phase::AwaitingItem;
                    Action::FetchNext
                }
            },
            SupervisorAction::Wait { delay_ms } => Action::Sleep { delay_ms },
            SupervisorAction::AcquireConnection => Action::Reconnect,
            SupervisorAction::Attempt => Action::Write,
            SupervisorAction::Abort => {
                self.phase = Phase::Failed;
                Action::Abort(PipelineError::PoolUnavailable)
            },
            SupervisorAction::Rejected => Action::Rejected,
        }
    }
}

pub open spec fn blocks_view(blocks: Seq<Block>) -> Seq<BlockView> {
    blocks.map_values(|b: Block| b@)
}

/// The store after indexing `blocks` in order, and whether all of them could
/// be indexed; indexing stops at the first block that cannot.
pub open spec fn index_spec(s: StoreView, c: ContractAddress, blocks: Seq<BlockView>) -> (
    StoreView,
    Result<(), PipelineError>,
)
    decreases blocks.len(),
{
    if blocks.len() == 0 {
        (s, Ok(()))
    } else {
        let (t, r) = index_spec(s, c, blocks.drop_last());
        match r {
            Err(e) => (t, Err(e)),
            Ok(_) => match plan_spec(c, blocks.last()) {
                Err(e) => (t, Err(e)),
                Ok(ws) => (apply_writes(t, ws), Ok(())),
            },
        }
    }
}

/// Running the pipeline on a store: set up the settings record, refuse a
/// record of another contract before taking any block, then index the blocks.
pub open spec fn run_spec(
    s: StoreView,
    c: ContractAddress,
    start_height: u64,
    blocks: Seq<BlockView>,
) -> (StoreView, Result<(), PipelineError>) {
    let s1 = init_spec(s, c, start_height);
    let stored = s1.settings->0.contract;
    if stored != c {
        (s1, Err(PipelineError::ContractMismatch { stored, configured: c }))
    } else {
        index_spec(s1, c, blocks)
    }
}

proof fn lemma_apply_writes_step(s: StoreView, ws: Seq<(KeyView, EventView)>, k: int)
    requires
        0 <= k < ws.len(),
    ensures
        apply_writes(s, ws.take(k + 1)) == write_spec(
            apply_writes(s, ws.take(k)),
            ws[k].0,
            ws[k].1,
        ).0,
{
    assert(ws.take(k + 1).drop_last() =~= ws.take(k));
    assert(ws.take(k + 1).last() == ws[k]);
}

/// Runs the pipeline over `blocks` against the in-memory store, writing each
/// row through the store's transactional writer.
pub fn index_blocks(
    store: &mut Store,
    contract: ContractAddress,
    start_height: u64,
    policy: RetryPolicy,
    blocks: &Vec<Block>,
) -> (r: Result<(), PipelineError>)
    requires
        old(store).wf(),
        policy.wf(),
    ensures
        final(store).wf(),
        (final(store)@, r) == run_spec(
            old(store)@,
            contract,
            start_height,
            blocks_view(blocks@),
        ),
{
    let ghost bvs = blocks_view(blocks@);
    let ghost s0 = store@;
    let stored = store.init(contract, start_height);
    let ghost s1 = store@;
    let mut p = match Pipeline::start(contract, policy, &stored) {
        Ok(p) => p,
        Err(e) => return Err(e),
    };
    let mut b: usize = 0;
    proof {
        assert(bvs.take(0) =~= Seq::<BlockView>::empty());
    }
    while b < blocks.len()
        invariant
            store.wf(),
            pipeline_wf(p@),
            p@.phase == Phase::AwaitingItem,
            p@.contract == contract,
            p@.supervisor.policy == policy,
            b <= blocks@.len(),
            bvs == blocks_view(blocks@),
            s1 == init_spec(s0, contract, start_height),
            s0 == old(store)@,
            s1.settings is Some,
            s1.settings->0.contract == contract,
            index_spec(s1, contract, bvs.take(b as int)) == (store@, Ok::<(), PipelineError>(())),
        decreases blocks@.len() - b,
    {
        let ghost base = store@;
        proof {
            assert(bvs.take(b + 1).drop_last() =~= bvs.take(b as int));
            assert(bvs.take(b + 1).last() == blocks@[b as int]@);
            lemma_index_keeps_settings(s1, contract, bvs.take(b as int));
        }
        let mut action = p.on_item(&blocks[b]);
        let ghost ws = p@.pending;
        while action == Action::Write
            invariant
                store.wf(),
                pipeline_wf(p@),
                p@.contract == contract,
                p@.supervisor.policy == policy,
                p@.pending == ws,
                base.settings is Some,
                action == Action::Write ==> plan_spec(contract, blocks@[b as int]@) == Ok::<
                    _,
                    PipelineError,
                >(ws),
                action == Action::Write ==> p@.phase == Phase::Writing && p@.supervisor.state
                    == AttemptState::Attempting && store@ == apply_writes(base, ws.take(p@.next)),
                action == Action::FetchNext ==> p@.phase == Phase::AwaitingItem && store@
                    == apply_writes(base, ws) && plan_spec(contract, blocks@[b as int]@) == Ok::<
                    _,
                    PipelineError,
                >(ws),
                action != Action::Write && action != Action::FetchNext ==> store@ == base
                    && action is Abort && plan_spec(contract, blocks@[b as int]@) == Err::<
                    Seq<(KeyView, EventView)>,
                    _,
                >(action->Abort_0),
            decreases ws.len() - p@.next,
        {
            let row = p.current();
            let ghost k = p@.next;
            let res = store.insert_event(row.key, row.event.duplicate());
            proof {
                lemma_apply_writes_step(base, ws, k);
                lemma_apply_writes_keeps_settings(base, ws.take(k));
            }
            match res {
                Ok(_) => {
                    action = p.on_attempt(AttemptEvent::Committed);
                    proof {
                        if action == Action::FetchNext {
                            assert(ws.take(k + 1) =~= ws);
                        }
                    }
                },
                Err(e) => {
                    return Err(PipelineError::Storage(e));
                },
            }
        }
        match action {
            Action::Abort(e) => {
                proof {
                    let pre = bvs.take(b + 1);
                    assert(pre.drop_last() =~= bvs.take(b as int));
                    assert(pre.last() == blocks@[b as int]@);
                    assert(plan_spec(contract, pre.last()) == Err::<Seq<(KeyView, EventView)>, _>(e));
                    assert(index_spec(s1, contract, pre) == (base, Err::<(), PipelineError>(e)));
                    lemma_index_err_prefix(s1, contract, bvs, b + 1);
                }
                return Err(e);
            },
            _ => {},
        }
        b += 1;
    }
    proof {
        assert(bvs.take(b as int) =~= bvs);
    }
    Ok(())
}

/// A store whose settings record belongs to contract `a` makes a pipeline
/// configured for another contract `b` fail with a mismatch before it takes
/// any block: the outcome is the same whatever the stream holds, and the store
/// is left as it was.
pub proof fn lemma_mismatch_fails_fast(
    s: StoreView,
    b: ContractAddress,
    start_height: u64,
    blocks: Seq<BlockView>,
)
    requires
        s.settings is Some,
        s.settings->0.contract != b,
    ensures
        run_spec(s, b, start_height, blocks) == (s, Err::<(), PipelineError>(
            PipelineError::ContractMismatch { stored: s.settings->0.contract, configured: b },
        )),
{
}

proof fn lemma_index_err_prefix(s: StoreView, c: ContractAddress, blocks: Seq<BlockView>, k: int)
    requires
        0 <= k <= blocks.len(),
        index_spec(s, c, blocks.take(k)).1 is Err,
    ensures
        index_spec(s, c, blocks) == index_spec(s, c, blocks.take(k)),
    decreases blocks.len(),
{
    if k == blocks.len() {
        assert(blocks.take(k) =~= blocks);
    } else {
        assert(blocks.drop_last().take(k) =~= blocks.take(k));
        lemma_index_err_prefix(s, c, blocks.drop_last(), k);
    }
}

proof fn lemma_apply_writes_keeps_settings(s: StoreView, ws: Seq<(KeyView, EventView)>)
    requires
        s.settings is Some,
    ensures
        apply_writes(s, ws).settings is Some,
        apply_writes(s, ws).settings->0.contract == s.settings->0.contract,
    decreases ws.len(),
{
    if ws.len() > 0 {
        lemma_apply_writes_keeps_settings(s, ws.drop_last());
    }
}

proof fn lemma_index_keeps_settings(s: StoreView, c: ContractAddress, blocks: Seq<BlockView>)
    requires
        s.settings is Some,
    ensures
        index_spec(s, c, blocks).0.settings is Some,
    decreases blocks.len(),
{
    if blocks.len() > 0 {
        lemma_index_keeps_settings(s, c, blocks.drop_last());
        let t = index_spec(s, c, blocks.drop_last()).0;
        match plan_spec(c, blocks.last()) {
            Ok(ws) => lemma_apply_writes_keeps_settings(t, ws),
            Err(_) => {},
        }
    }
}

/// Blocks of at most one transaction each, in strictly increasing height.
pub open spec fn single_transaction_blocks_ascending(blocks: Seq<BlockView>) -> bool {
    &&& forall|i: int|
        0 <= i < blocks.len() ==> #[trigger] blocks[i].transactions.len() <= 1 && (
        blocks[i].transactions.len() == 1 ==> blocks[i].transactions[0].events.len() <= u64::MAX)
    &&& forall|i: int, j: int|
        0 <= i < j < blocks.len() ==> #[trigger] blocks[i].height < #[trigger] blocks[j].height
}

/// The checkpoint of `t` lies in a block below height `h`, or there is none.
pub open spec fn latest_below(t: StoreView, h: u64) -> bool {
    t.settings->0.latest is None || t.settings->0.latest->0.height < h
}

proof fn lemma_block_rows_at_height(c: ContractAddress, b: BlockView)
    requires
        b.transactions.len() <= 1,
        b.transactions.len() == 1 ==> b.transactions[0].events.len() <= u64::MAX,
        plan_spec(c, b) is Ok,
    ensures
        ({
            let ws = plan_spec(c, b)->Ok_0;
            &&& forall|k: int| 0 <= k < ws.len() ==> #[trigger] ws[k].0.height == b.height
            &&& forall|j: int, k: int|
                0 <= j < k < ws.len() ==> position_le(#[trigger] ws[j].0, #[trigger] ws[k].0)
        }),
{
    if b.transactions.len() == 1 {
        lemma_single_transaction_rows_ordered(c, b);
    } else {
        assert(plan_spec(c, b)->Ok_0 == Seq::<(KeyView, EventView)>::empty());
    }
}

proof fn lemma_index_block_step(s: StoreView, c: ContractAddress, blocks: Seq<BlockView>, k: int)
    requires
        s.settings is Some,
        single_transaction_blocks_ascending(blocks),
        0 <= k < blocks.len(),
        latest_below(index_spec(s, c, blocks.take(k)).0, blocks[k].height),
    ensures
        index_spec(s, c, blocks.take(k)).0.settings is Some,
        checkpoint_le(index_spec(s, c, blocks.take(k)).0, index_spec(s, c, blocks.take(k + 1)).0),
        k + 1 < blocks.len() ==> latest_below(
            index_spec(s, c, blocks.take(k + 1)).0,
            blocks[k + 1].height,
        ),
{
    let p = blocks.take(k);
    let q = blocks.take(k + 1);
    assert(q.drop_last() =~= p);
    assert(q.last() == blocks[k]);
    lemma_index_keeps_settings(s, c, p);
    let t = index_spec(s, c, p).0;
    if index_spec(s, c, p).1 is Ok {
        match plan_spec(c, blocks[k]) {
            Ok(ws) => {
                let b = blocks[k];
                lemma_block_rows_at_height(c, b);
                assert(new_writes_ordered(t, ws));
                lemma_checkpoint_monotone(t, ws);
                assert(ws.take(0) =~= Seq::<(KeyView, EventView)>::empty());
                assert(ws.take(ws.len() as int) =~= ws);
                assert(checkpoint_le(apply_writes(t, ws.take(0)), apply_writes(t, ws.take(ws.len() as int))));
                lemma_apply_writes_facts(t, ws);
                if k + 1 < blocks.len() {
                    assert(b.height < blocks[k + 1].height);
                }
            },
            Err(_) => {
                if k + 1 < blocks.len() {
                    assert(blocks[k].height < blocks[k + 1].height);
                }
            },
        }
    } else {
        if k + 1 < blocks.len() {
            assert(blocks[k].height < blocks[k + 1].height);
        }
    }
}

proof fn lemma_index_latest_below(s: StoreView, c: ContractAddress, blocks: Seq<BlockView>, k: int)
    requires
        s.settings is Some,
        single_transaction_blocks_ascending(blocks),
        0 <= k < blocks.len(),
        latest_below(s, blocks[0].height),
    ensures
        latest_below(index_spec(s, c, blocks.take(k)).0, blocks[k].height),
    decreases k,
{
    if k == 0 {
        assert(blocks.take(0) =~= Seq::<BlockView>::empty());
    } else {
        lemma_index_latest_below(s, c, blocks, k - 1);
        lemma_index_block_step(s, c, blocks, k - 1);
    }
}

proof fn lemma_index_checkpoint_from(
    s: StoreView,
    c: ContractAddress,
    blocks: Seq<BlockView>,
    j: int,
    k: int,
)
    requires
        s.settings is Some,
        single_transaction_blocks_ascending(blocks),
        blocks.len() > 0 ==> latest_below(s, blocks[0].height),
        0 <= j <= k <= blocks.len(),
    ensures
        checkpoint_le(index_spec(s, c, blocks.take(j)).0, index_spec(s, c, blocks.take(k)).0),
    decreases k - j,
{
    lemma_index_keeps_settings(s, c, blocks.take(j));
    if j < k {
        lemma_index_checkpoint_from(s, c, blocks, j, k - 1);
        lemma_index_latest_below(s, c, blocks, k - 1);
        lemma_index_block_step(s, c, blocks, k - 1);
        lemma_index_keeps_settings(s, c, blocks.take(k - 1));
        lemma_index_keeps_settings(s, c, blocks.take(k));
    }
}

/// Indexing blocks of at most one transaction each, in increasing height and
/// above the stored checkpoint, never moves the checkpoint back: after any
/// block it is at or after where it was after any earlier block.
pub proof fn lemma_pipeline_checkpoint_monotone(
    s: StoreView,
    c: ContractAddress,
    blocks: Seq<BlockView>,
)
    requires
        s.settings is Some,
        single_transaction_blocks_ascending(blocks),
        blocks.len() > 0 ==> latest_below(s, blocks[0].height),
    ensures
        forall|j: int, k: int|
            0 <= j <= k <= blocks.len() ==> checkpoint_le(
                #[trigger] index_spec(s, c, blocks.take(j)).0,
                #[trigger] index_spec(s, c, blocks.take(k)).0,
            ),
{
    assert forall|j: int, k: int| 0 <= j <= k <= blocks.len() implies checkpoint_le(
        index_spec(s, c, blocks.take(j)).0,
        index_spec(s, c, blocks.take(k)).0,
    ) by {
        lemma_index_checkpoint_from(s, c, blocks, j, k);
    }
}

} // verus!
