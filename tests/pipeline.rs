use indexer::event::{encode_event, DomainEvent, MetadataUrl, Status};
use indexer::pipeline::{
    index_blocks, plan_block, Action, Block, Phase, Pipeline, PipelineError, RawEvent,
    StreamTransaction,
};
use indexer::retry::{AttemptEvent, RetryPolicy};
use indexer::store::Store;
use indexer::types::{ContractAddress, Sha256};

const A: ContractAddress = ContractAddress { index: 7, subindex: 0 };
const B: ContractAddress = ContractAddress { index: 8, subindex: 0 };
const POLICY: RetryPolicy = RetryPolicy { base_delay_ms: 500, cap: 8 };
const T1: Sha256 = Sha256([0x11; 32]);
const T2: Sha256 = Sha256([0x22; 32]);

fn created(item_id: u64) -> DomainEvent {
    DomainEvent::ItemCreated {
        item_id,
        metadata_url: Some(MetadataUrl { url: b"https://some.example/".to_vec(), hash: None }),
    }
}

fn changed(item_id: u64, new_status: Status) -> DomainEvent {
    DomainEvent::ItemStatusChanged { item_id, new_status, additional_data: vec![] }
}

fn raw(contract: ContractAddress, e: &DomainEvent) -> RawEvent {
    RawEvent { contract, payload: encode_event(e) }
}

fn block(height: u64, txs: Vec<(Sha256, Vec<RawEvent>)>) -> Block {
    Block {
        height,
        transactions: txs.into_iter().map(|(hash, events)| StreamTransaction { hash, events }).collect(),
    }
}

fn block5() -> Block {
    block(5, vec![(T1, vec![raw(A, &created(0)), raw(A, &changed(0, Status::InTransit))])])
}

fn latest(store: &Store) -> Option<(u64, [u8; 32], u64)> {
    store
        .checkpoint()
        .and_then(|c| c.latest)
        .map(|k| (k.block_height, k.transaction_hash.0, k.event_index))
}

#[test]
fn end_to_end_fresh_store_then_restart() {
    let mut store = Store::new();
    assert_eq!(index_blocks(&mut store, A, 0, POLICY, &vec![block5()]), Ok(()));
    assert_eq!(store.row_count(), 2);
    assert_eq!(latest(&store), Some((5, [0x11; 32], 1)));
    assert_eq!(format!("{:?}", store.row(0).event), format!("{:?}", created(0)));
    assert_eq!(format!("{:?}", store.row(1).event), format!("{:?}", changed(0, Status::InTransit)));
    let after_first = format!("{:?}", store);

    assert_eq!(index_blocks(&mut store, A, 0, POLICY, &vec![block5()]), Ok(()));
    assert_eq!(store.row_count(), 2);
    assert_eq!(latest(&store), Some((5, [0x11; 32], 1)));
    assert_eq!(format!("{:?}", store), after_first);
}

#[test]
fn mismatched_store_fails_before_any_block() {
    let mut store = Store::new();
    store.init(A, 0);
    let before = format!("{:?}", store);
    let blocks = vec![block(5, vec![(T1, vec![raw(B, &created(0))])])];
    assert_eq!(
        index_blocks(&mut store, B, 0, POLICY, &blocks),
        Err(PipelineError::ContractMismatch { stored: A, configured: B })
    );
    assert_eq!(format!("{:?}", store), before);
    let stored = store.checkpoint().unwrap();
    assert_eq!(
        Pipeline::start(B, POLICY, &stored).unwrap_err(),
        PipelineError::ContractMismatch { stored: A, configured: B }
    );
}

#[test]
fn foreign_contract_event_aborts() {
    let b = block(5, vec![(T1, vec![raw(A, &created(0)), raw(B, &created(1))])]);
    assert_eq!(
        plan_block(A, &b).unwrap_err(),
        PipelineError::ForeignContract { expected: A, found: B }
    );
    let mut store = Store::new();
    let blocks = vec![block5(), b];
    assert_eq!(
        index_blocks(&mut store, A, 0, POLICY, &blocks),
        Err(PipelineError::ForeignContract { expected: A, found: B })
    );
    assert_eq!(store.row_count(), 2);
}

#[test]
fn malformed_event_aborts() {
    let bad = RawEvent { contract: A, payload: vec![9, 9, 9] };
    let b = block(6, vec![(T1, vec![raw(A, &created(0))]), (T2, vec![raw(A, &created(1)), bad])]);
    assert_eq!(
        plan_block(A, &b).unwrap_err(),
        PipelineError::Malformed { block_height: 6, transaction_index: 1, event_index: 1 }
    );
}

#[test]
fn plan_keys_events_by_transaction_position() {
    let b = block(
        6,
        vec![(T1, vec![raw(A, &created(0))]), (T2, vec![raw(A, &created(1)), raw(A, &changed(1, Status::Sold))])],
    );
    let rows = plan_block(A, &b).unwrap();
    let keys: Vec<(u64, [u8; 32], u64)> =
        rows.iter().map(|r| (r.key.block_height, r.key.transaction_hash.0, r.key.event_index)).collect();
    assert_eq!(keys, vec![(6, [0x11; 32], 0), (6, [0x22; 32], 0), (6, [0x22; 32], 1)]);
}

#[test]
fn empty_block_asks_for_the_next() {
    let stored = Store::new().init(A, 0);
    let mut p = Pipeline::start(A, POLICY, &stored).unwrap();
    assert_eq!(p.on_item(&block(3, vec![])), Action::FetchNext);
    assert_eq!(p.phase(), Phase::AwaitingItem);
}

#[test]
fn pipeline_retries_then_moves_on() {
    let stored = Store::new().init(A, 0);
    let mut p = Pipeline::start(A, POLICY, &stored).unwrap();
    assert_eq!(p.on_item(&block5()), Action::Write);
    assert_eq!(p.current().key.event_index, 0);
    assert_eq!(p.on_attempt(AttemptEvent::TransientFailure), Action::Sleep { delay_ms: 1000 });
    assert_eq!(p.on_attempt(AttemptEvent::BackoffElapsed), Action::Reconnect);
    assert_eq!(p.on_attempt(AttemptEvent::ConnectionAcquired), Action::Write);
    assert_eq!(p.on_attempt(AttemptEvent::TransientFailure), Action::Sleep { delay_ms: 2000 });
    assert_eq!(p.on_attempt(AttemptEvent::BackoffElapsed), Action::Reconnect);
    assert_eq!(p.on_attempt(AttemptEvent::ConnectionAcquired), Action::Write);
    assert_eq!(p.on_attempt(AttemptEvent::Committed), Action::Write);
    assert_eq!(p.current().key.event_index, 1);
    assert_eq!(p.supervisor().failures(), 0);
    assert_eq!(p.on_attempt(AttemptEvent::TransientFailure), Action::Sleep { delay_ms: 1000 });
    assert_eq!(p.on_attempt(AttemptEvent::BackoffElapsed), Action::Reconnect);
    assert_eq!(p.on_attempt(AttemptEvent::ConnectionAcquired), Action::Write);
    assert_eq!(p.on_attempt(AttemptEvent::Committed), Action::FetchNext);
    assert_eq!(p.phase(), Phase::AwaitingItem);
    assert_eq!(p.on_closed(), Action::Stop);
    assert_eq!(p.phase(), Phase::Finished);
}

#[test]
fn pool_loss_aborts_pipeline() {
    let stored = Store::new().init(A, 0);
    let mut p = Pipeline::start(A, POLICY, &stored).unwrap();
    p.on_item(&block5());
    p.on_attempt(AttemptEvent::TransientFailure);
    p.on_attempt(AttemptEvent::BackoffElapsed);
    assert_eq!(p.on_attempt(AttemptEvent::PoolUnavailable), Action::Abort(PipelineError::PoolUnavailable));
    assert_eq!(p.phase(), Phase::Failed);
    assert_eq!(p.on_item(&block5()), Action::Rejected);
}

#[test]
fn cancellation_only_between_blocks() {
    let stored = Store::new().init(A, 0);
    let mut p = Pipeline::start(A, POLICY, &stored).unwrap();
    p.on_item(&block5());
    assert_eq!(p.on_cancelled(), Action::Rejected);
    assert_eq!(p.phase(), Phase::Writing);
    p.on_attempt(AttemptEvent::Committed);
    p.on_attempt(AttemptEvent::Committed);
    assert_eq!(p.on_cancelled(), Action::Stop);
    assert_eq!(p.phase(), Phase::Finished);
}

#[test]
fn attempt_outcome_while_waiting_is_rejected() {
    let stored = Store::new().init(A, 0);
    let mut p = Pipeline::start(A, POLICY, &stored).unwrap();
    assert_eq!(p.on_attempt(AttemptEvent::Committed), Action::Rejected);
    assert_eq!(p.phase(), Phase::AwaitingItem);
}

#[test]
fn checkpoint_follows_stream_order_across_transactions() {
    let mut store = Store::new();
    let b = block(
        5,
        vec![(T1, vec![raw(A, &created(0)), raw(A, &created(1))]), (T2, vec![raw(A, &created(2))])],
    );
    assert_eq!(index_blocks(&mut store, A, 0, POLICY, &vec![b]), Ok(()));
    assert_eq!(store.row_count(), 3);
    assert_eq!(latest(&store), Some((5, [0x22; 32], 0)));
}

#[test]
fn later_blocks_move_checkpoint_forward() {
    let mut store = Store::new();
    let blocks = vec![
        block5(),
        block(6, vec![]),
        block(9, vec![(T2, vec![raw(A, &changed(0, Status::Sold))])]),
    ];
    assert_eq!(index_blocks(&mut store, A, 0, POLICY, &blocks), Ok(()));
    assert_eq!(store.row_count(), 3);
    assert_eq!(latest(&store), Some((9, [0x22; 32], 0)));
}
