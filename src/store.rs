use vstd::prelude::*;

use crate::event::{DomainEvent, EventView};
use crate::types::{position_le, ContractAddress, EventKey, KeyView};

verus! {

/// The singleton settings record: which contract is indexed, from where, and
/// the last event that was stored.
#[derive(Clone, Copy, Debug)]
pub struct Checkpoint {
    pub contract_address: ContractAddress,
    pub start_height: u64,
    pub latest: Option<EventKey>,
}

/// Mathematical form of a [`Checkpoint`].
pub struct CheckpointView {
    pub contract: ContractAddress,
    pub start_height: u64,
    pub latest: Option<KeyView>,
}

impl View for Checkpoint {
    type V = CheckpointView;

    open spec fn view(&self) -> CheckpointView {
        CheckpointView {
            contract: self.contract_address,
            start_height: self.start_height,
            latest: match self.latest {
                Some(k) => Some(k@),
                None => None,
            },
        }
    }
}

/// A stored event with its key.
#[derive(Debug)]
pub struct Row {
    pub key: EventKey,
    pub event: DomainEvent,
}

impl View for Row {
    type V = (KeyView, EventView);

    open spec fn view(&self) -> (KeyView, EventView) {
        (self.key@, self.event@)
    }
}

/// Why the store refused an operation.
#[derive(Clone, Copy, Debug, PartialEq, Eq, Structural)]
pub enum StoreError {
    /// The settings record has not been created.
    NotInitialized,
    /// The settings record belongs to another contract.
    ContractMismatch { stored: ContractAddress, configured: ContractAddress },
    /// A transaction did not both advance the checkpoint and insert the event
    /// with the same key.
    IncompleteTransaction,
}

/// What a committed write did.
#[derive(Clone, Copy, Debug, PartialEq, Eq, Structural)]
pub enum WriteOutcome {
    /// The event was new: it was stored and the checkpoint moved to it.
    Inserted,
    /// An event with this key was already stored: nothing changed.
    Duplicate,
}

/// Mathematical form of a [`Store`]: the settings record, and the event rows
/// in the order in which they were stored.
pub struct StoreView {
    pub settings: Option<CheckpointView>,
    pub rows: Seq<(KeyView, EventView)>,
}

/// Whether a row with key `k` is stored.
pub open spec fn stored(rows: Seq<(KeyView, EventView)>, k: KeyView) -> bool {
    exists|i: int| 0 <= i < rows.len() && rows[i].0 == k
}

/// No two rows share a key.
pub open spec fn keys_unique(rows: Seq<(KeyView, EventView)>) -> bool {
    forall|i: int, j: int| 0 <= i < j < rows.len() ==> rows[i].0 != rows[j].0
}

/// An in-memory store with the persisted schema: one settings record and
/// append-only event rows, unique by key.
#[derive(Debug)]
pub struct Store {
    settings: Option<Checkpoint>,
    rows: Vec<Row>,
}

impl View for Store {
    type V = StoreView;

    closed spec fn view(&self) -> StoreView {
        StoreView {
            settings: match self.settings {
                Some(c) => Some(c@),
                None => None,
            },
            rows: self.rows@.map_values(|r: Row| r@),
        }
    }
}

/// The staged writes of one storage transaction. Nothing reaches the store
/// before [`Store::commit`]; a transaction that is dropped is rolled back.
#[derive(Debug)]
pub struct Transaction {
    checkpoint: Option<EventKey>,
    row: Option<Row>,
}

/// Mathematical form of a [`Transaction`].
pub struct TransactionView {
    pub checkpoint: Option<KeyView>,
    pub row: Option<(KeyView, EventView)>,
}

impl View for Transaction {
    type V = TransactionView;

    closed spec fn view(&self) -> TransactionView {
        TransactionView {
            checkpoint: match self.checkpoint {
                Some(k) => Some(k@),
                None => None,
            },
            row: match self.row {
                Some(r) => Some(r@),
                None => None,
            },
        }
    }
}

/// The store after `init`: the settings record is created if absent.
pub open spec fn init_spec(s: StoreView, contract: ContractAddress, start: u64) -> StoreView {
    match s.settings {
        Some(_) => s,
        None => StoreView {
            settings: Some(CheckpointView { contract, start_height: start, latest: None }),
            rows: s.rows,
        },
    }
}

/// The result of reading the settings record for the configured contract.
pub open spec fn get_spec(s: StoreView, configured: ContractAddress) -> Result<
    CheckpointView,
    StoreError,
> {
    match s.settings {
        None => Err(StoreError::NotInitialized),
        Some(c) => if c.contract == configured {
            Ok(c)
        } else {
            Err(StoreError::ContractMismatch { stored: c.contract, configured })
        },
    }
}

/// Committing a transaction: all of it or nothing. A complete transaction
/// advances the checkpoint and inserts its event, unless the key is already
/// stored, in which case it changes nothing.
pub open spec fn commit_spec(s: StoreView, t: TransactionView) -> (StoreView, Result<
    WriteOutcome,
    StoreError,
>) {
    match s.settings {
        None => (s, Err(StoreError::NotInitialized)),
        Some(c) => match (t.checkpoint, t.row) {
            (Some(k), Some(r)) => if k != r.0 {
                (s, Err(StoreError::IncompleteTransaction))
            } else if stored(s.rows, k) {
                (s, Ok(WriteOutcome::Duplicate))
            } else {
                (
                    StoreView {
                        settings: Some(CheckpointView { latest: Some(k), ..c }),
                        rows: s.rows.push(r),
                    },
                    Ok(WriteOutcome::Inserted),
                )
            },
            _ => (s, Err(StoreError::IncompleteTransaction)),
        },
    }
}

/// Writing one event: a transaction that advances the checkpoint to `k` and
/// inserts `(k, e)`, then commits.
pub open spec fn write_spec(s: StoreView, k: KeyView, e: EventView) -> (StoreView, Result<
    WriteOutcome,
    StoreError,
>) {
    commit_spec(s, TransactionView { checkpoint: Some(k), row: Some((k, e)) })
}

impl Transaction {
    /// Stages the move of the checkpoint to `key`.
    pub fn set_latest_checkpoint(&mut self, key: EventKey)
        ensures
            final(self)@ == (TransactionView { checkpoint: Some(key@), ..old(self)@ }),
    {
        self.checkpoint = Some(key);
    }

    /// Stages the insertion of `event` under `key`.
    pub fn insert_event(&mut self, key: EventKey, event: DomainEvent)
        ensures
            final(self)@ == (TransactionView { row: Some((key@, event@)), ..old(self)@ }),
    {
        self.row = Some(Row { key, event });
    }
}

impl Store {
    pub open spec fn wf(&self) -> bool {
        keys_unique(self@.rows)
    }

    /// A store with no settings record and no rows.
    pub fn new() -> (r: Store)
        ensures
            r.wf(),
            r@.settings is None,
            r@.rows.len() == 0,
    {
        let r = Store { settings: None, rows: Vec::new() };
        proof {
            assert(r@.rows =~= Seq::<(KeyView, EventView)>::empty());
        }
        r
    }

    /// Creates the settings record if it is absent; never overwrites it.
    /// Returns the record that is then stored.
    pub fn init(&mut self, contract_address: ContractAddress, start_height: u64) -> (r: Checkpoint)
        requires
            old(self).wf(),
        ensures
            final(self).wf(),
            final(self)@ == init_spec(old(self)@, contract_address, start_height),
            final(self)@.settings == Some(r@),
    {
        match self.settings {
            Some(c) => c,
            None => {
                let c = Checkpoint { contract_address, start_height, latest: None };
                self.settings = Some(c);
                c
            },
        }
    }

    /// Reads the settings record; it must belong to the configured contract.
    pub fn get(&self, configured: ContractAddress) -> (r: Result<Checkpoint, StoreError>)
        ensures
            match r {
                Ok(c) => get_spec(self@, configured) == Ok::<CheckpointView, StoreError>(c@),
                Err(e) => get_spec(self@, configured) == Err::<CheckpointView, StoreError>(e),
            },
    {
        match self.settings {
            None => Err(StoreError::NotInitialized),
            Some(c) => if c.contract_address == configured {
                Ok(c)
            } else {
                Err(StoreError::ContractMismatch { stored: c.contract_address, configured })
            },
        }
    }

    /// The settings record, if it was created.
    pub fn checkpoint(&self) -> (r: Option<Checkpoint>)
        ensures
            match r {
                Some(c) => self@.settings == Some(c@),
                None => self@.settings is None,
            },
    {
        self.settings
    }

    /// The number of stored events.
    pub fn row_count(&self) -> (r: usize)
        ensures
            r == self@.rows.len(),
    {
        self.rows.len()
    }

    /// The `i`-th stored event, in the order of storage.
    pub fn row(&self, i: usize) -> (r: &Row)
        requires
            i < self@.rows.len(),
        ensures
            r@ == self@.rows[i as int],
    {
        &self.rows[i]
    }

    /// Whether an event with this key is stored.
    pub fn contains(&self, key: &EventKey) -> (r: bool)
        ensures
            r == stored(self@.rows, key@),
    {
        let mut i: usize = 0;
        while i < self.rows.len()
            invariant
                i <= self.rows@.len(),
                forall|j: int| 0 <= j < i ==> self@.rows[j].0 != key@,
            decreases self.rows@.len() - i,
        {
            if self.rows[i].key == *key {
                assert(self@.rows[i as int].0 == key@);
                return true;
            }
            i += 1;
        }
        false
    }

    /// Opens a storage transaction with nothing staged.
    pub fn begin(&self) -> (r: Transaction)
        ensures
            r@.checkpoint is None,
            r@.row is None,
    {
        Transaction { checkpoint: None, row: None }
    }

    /// Commits a transaction atomically (see [`commit_spec`]).
    pub fn commit(&mut self, tx: Transaction) -> (r: Result<WriteOutcome, StoreError>)
        requires
            old(self).wf(),
        ensures
            final(self).wf(),
            (final(self)@, r) == commit_spec(old(self)@, tx@),
    {
        let c = match self.settings {
            None => return Err(StoreError::NotInitialized),
            Some(c) => c,
        };
        match (tx.checkpoint, tx.row) {
            (Some(k), Some(row)) => {
                if !(k == row.key) {
                    return Err(StoreError::IncompleteTransaction);
                }
                if self.contains(&k) {
                    return Ok(WriteOutcome::Duplicate);
                }
                let ghost old_rows = self@.rows;
                self.settings = Some(Checkpoint { latest: Some(k), ..c });
                self.rows.push(row);
                proof {
                    assert(self@.rows =~= old_rows.push(tx@.row->0));
                    assert forall|i: int, j: int|
                        0 <= i < j < self@.rows.len() implies self@.rows[i].0
                        != self@.rows[j].0 by {
                        if j == old_rows.len() {
                            assert(old_rows[i].0 != k@);
                        }
                    }
                }
                Ok(WriteOutcome::Inserted)
            },
            _ => Err(StoreError::IncompleteTransaction),
        }
    }

    /// Stores one event: in one transaction, advances the checkpoint to `key`
    /// and inserts the event unless its key is already stored. A duplicate is
    /// a success that changes nothing.
    pub fn insert_event(&mut self, key: EventKey, event: DomainEvent) -> (r: Result<
        WriteOutcome,
        StoreError,
    >)
        requires
            old(self).wf(),
        ensures
            final(self).wf(),
            (final(self)@, r) == write_spec(old(self)@, key@, event@),
    {
        let mut tx = self.begin();
        tx.set_latest_checkpoint(key);
        tx.insert_event(key, event);
        self.commit(tx)
    }
}

/// Storing the same event twice leaves the store as storing it once.
pub proof fn lemma_write_idempotent(s: StoreView, k: KeyView, e: EventView)
    ensures
        write_spec(write_spec(s, k, e).0, k, e).0 == write_spec(s, k, e).0,
{
    let t = write_spec(s, k, e).0;
    if t != s {
        assert(t.rows[s.rows.len() as int].0 == k);
        assert(stored(t.rows, k));
    }
}

/// A commit persists both the checkpoint move and the event, or neither: in
/// particular a transaction that stopped after advancing the checkpoint and
/// before inserting the event leaves the store as it was.
pub proof fn lemma_commit_all_or_nothing(s: StoreView, t: TransactionView)
    ensures
        t.row is None ==> commit_spec(s, t).0 == s,
        commit_spec(s, t).0 == s || ({
            let after = commit_spec(s, t).0;
            &&& t.checkpoint is Some && t.row is Some
            &&& after.rows == s.rows.push(t.row->0)
            &&& after.settings is Some
            &&& after.settings->0.latest == t.checkpoint
            &&& (t.row->0).0 == t.checkpoint->0
        }),
{
}

/// The store after the writes of `ws`, in order.
pub open spec fn apply_writes(s: StoreView, ws: Seq<(KeyView, EventView)>) -> StoreView
    decreases ws.len(),
{
    if ws.len() == 0 {
        s
    } else {
        write_spec(apply_writes(s, ws.drop_last()), ws.last().0, ws.last().1).0
    }
}

/// The checkpoint of `a` is not after the checkpoint of `b`.
pub open spec fn checkpoint_le(a: StoreView, b: StoreView) -> bool {
    match (a.settings, b.settings) {
        (Some(x), Some(y)) => match (x.latest, y.latest) {
            (None, _) => true,
            (Some(p), Some(q)) => position_le(p, q),
            (Some(_), None) => false,
        },
        _ => false,
    }
}

/// The writes of `ws` that are new to `s` come in checkpoint order, none of
/// them before the checkpoint of `s`.
pub open spec fn new_writes_ordered(s: StoreView, ws: Seq<(KeyView, EventView)>) -> bool {
    &&& forall|j: int, k: int|
        0 <= j < k < ws.len() && !stored(s.rows, ws[j].0) && !stored(s.rows, ws[k].0)
            ==> position_le(ws[j].0, ws[k].0)
    &&& forall|k: int|
        0 <= k < ws.len() && !stored(s.rows, ws[k].0) && s.settings is Some
            && s.settings->0.latest is Some ==> position_le(s.settings->0.latest->0, ws[k].0)
}

pub(crate) proof fn lemma_apply_writes_facts(s: StoreView, ws: Seq<(KeyView, EventView)>)
    requires
        s.settings is Some,
    ensures
        ({
            let t = apply_writes(s, ws);
            &&& t.settings is Some
            &&& s.rows.len() <= t.rows.len()
            &&& t.rows.take(s.rows.len() as int) == s.rows
            &&& t.settings->0.latest == s.settings->0.latest || exists|j: int|
                0 <= j < ws.len() && !stored(s.rows, ws[j].0) && t.settings->0.latest == Some(
                    ws[j].0,
                )
        }),
    decreases ws.len(),
{
    if ws.len() > 0 {
        let p = ws.drop_last();
        lemma_apply_writes_facts(s, p);
        let u = apply_writes(s, p);
        let t = apply_writes(s, ws);
        let w = ws.last();
        if t != u {
            assert(t.rows == u.rows.push(w));
            assert(t.rows.take(s.rows.len() as int) =~= u.rows.take(s.rows.len() as int));
            if stored(s.rows, w.0) {
                let i = choose|i: int| 0 <= i < s.rows.len() && s.rows[i].0 == w.0;
                assert(u.rows.take(s.rows.len() as int)[i] == u.rows[i]);
                assert(stored(u.rows, w.0));
            }
            assert(t.settings->0.latest == Some(ws[ws.len() - 1].0));
        } else if u.settings->0.latest != s.settings->0.latest {
            let j = choose|j: int|
                0 <= j < p.len() && !stored(s.rows, p[j].0) && u.settings->0.latest == Some(
                    p[j].0,
                );
            assert(ws[j] == p[j]);
        }
    }
}

proof fn lemma_checkpoint_step(s: StoreView, ws: Seq<(KeyView, EventView)>, k: int)
    requires
        s.settings is Some,
        new_writes_ordered(s, ws),
        0 <= k < ws.len(),
    ensures
        checkpoint_le(apply_writes(s, ws.take(k)), apply_writes(s, ws.take(k + 1))),
{
    let p = ws.take(k);
    let q = ws.take(k + 1);
    assert(q.drop_last() =~= p);
    lemma_apply_writes_facts(s, p);
    let u = apply_writes(s, p);
    let t = apply_writes(s, q);
    let w = ws[k];
    assert(q.last() == w);
    if t != u {
        assert(!stored(u.rows, w.0));
        if stored(s.rows, w.0) {
            let i = choose|i: int| 0 <= i < s.rows.len() && s.rows[i].0 == w.0;
            assert(u.rows.take(s.rows.len() as int)[i] == u.rows[i]);
            assert(stored(u.rows, w.0));
        }
        if u.settings->0.latest != s.settings->0.latest {
            let j = choose|j: int|
                0 <= j < p.len() && !stored(s.rows, p[j].0) && u.settings->0.latest == Some(
                    p[j].0,
                );
            assert(p[j] == ws[j]);
        }
    }
}

proof fn lemma_checkpoint_from(s: StoreView, ws: Seq<(KeyView, EventView)>, j: int, k: int)
    requires
        s.settings is Some,
        new_writes_ordered(s, ws),
        0 <= j <= k <= ws.len(),
    ensures
        checkpoint_le(apply_writes(s, ws.take(j)), apply_writes(s, ws.take(k))),
    decreases k - j,
{
    lemma_apply_writes_facts(s, ws.take(j));
    if j < k {
        lemma_checkpoint_from(s, ws, j, k - 1);
        lemma_checkpoint_step(s, ws, k - 1);
        lemma_apply_writes_facts(s, ws.take(k - 1));
        lemma_apply_writes_facts(s, ws.take(k));
    }
}

/// Along a sequence of writes whose new events come in checkpoint order, the
/// stored checkpoint never moves back: `(height, event index)` does not
/// decrease from one write to any later one.
pub proof fn lemma_checkpoint_monotone(s: StoreView, ws: Seq<(KeyView, EventView)>)
    requires
        s.settings is Some,
        new_writes_ordered(s, ws),
    ensures
        forall|j: int, k: int|
            0 <= j <= k <= ws.len() ==> checkpoint_le(
                #[trigger] apply_writes(s, ws.take(j)),
                #[trigger] apply_writes(s, ws.take(k)),
            ),
{
    assert forall|j: int, k: int| 0 <= j <= k <= ws.len() implies checkpoint_le(
        apply_writes(s, ws.take(j)),
        apply_writes(s, ws.take(k)),
    ) by {
        lemma_checkpoint_from(s, ws, j, k);
    }
}

} // verus!
