//! The store of lap slots and the reconciliation of incoming records
//! against it.
//!
//! A pending slot is a row with its registration marker set and no time:
//! it was created by the race-registration process and awaits a lap time.
//! Reconciling one record performs exactly one of two writes: when a
//! pending slot exists, the one with the smallest id is completed from the
//! record (first registered, first timed); otherwise a brand-new row is
//! inserted carrying the record's fields. A store failure drops the
//! record: it is never retried, and no slot is altered.
//!
//! [`SlotStore`] is the verified model of that store, one row per slot,
//! with a connection flag standing for the health of the underlying
//! connection; the production gateway issues one SQL statement per
//! operation against the relational store and is driven by the same
//! decision path.

use vstd::prelude::*;

use crate::timer::{decimal_string, spec_decimal, Channel, LapTime, LapTimeV};

verus! {

/// A failure surfaced by a store operation.
#[derive(Debug)]
pub enum DbError {
    /// A driver-level error, carrying the driver's message.
    Internal(String),
    /// No pending slot exists; routes the record to the insert path.
    NoId,
    /// An operation failed without a driver message.
    Message(String),
}

impl DbError {
    /// The message the failure is reported with.
    pub fn describe(&self) -> (r: String)
        ensures
            match self {
                DbError::Internal(m) => r@ == "Inner: "@ + m@,
                DbError::NoId => r@ == "No Id found"@,
                DbError::Message(m) => r@ == "Message: "@ + m@,
            },
    {
        match self {
            DbError::Internal(m) => {
                let mut s = "Inner: ".to_owned();
                s.append(m.as_str());
                s
            },
            DbError::NoId => "No Id found".to_owned(),
            DbError::Message(m) => {
                let mut s = "Message: ".to_owned();
                s.append(m.as_str());
                s
            },
        }
    }
}

/// The mathematical content of one slot row.
pub ghost struct SlotRowV {
    pub id: nat,
    pub registered: bool,
    pub seq_number: Option<nat>,
    pub channel: Option<Channel>,
    pub time: Option<Seq<char>>,
}

/// One row of the slot store.
#[derive(Debug)]
pub struct SlotRow {
    pub id: usize,
    pub registered: bool,
    pub seq_number: Option<usize>,
    pub channel: Option<Channel>,
    pub time: Option<String>,
}

impl View for SlotRow {
    type V = SlotRowV;

    open spec fn view(&self) -> SlotRowV {
        SlotRowV {
            id: self.id as nat,
            registered: self.registered,
            seq_number: match self.seq_number {
                Some(n) => Some(n as nat),
                None => None,
            },
            channel: self.channel,
            time: match self.time {
                Some(t) => Some(t@),
                None => None,
            },
        }
    }
}

/// The mathematical content of the slot store.
pub ghost struct SlotStoreV {
    pub rows: Seq<SlotRowV>,
    pub next_id: nat,
    pub connected: bool,
}

/// The store of lap slots: rows identified by a numeric id, an
/// autoincrement counter for inserted rows, and the health of the
/// connection through which the rows are reached.
#[derive(Debug)]
pub struct SlotStore {
    rows: Vec<SlotRow>,
    next_id: usize,
    connected: bool,
}

impl View for SlotStore {
    type V = SlotStoreV;

    closed spec fn view(&self) -> SlotStoreV {
        SlotStoreV {
            rows: self.rows@.map_values(|r: SlotRow| r@),
            next_id: self.next_id as nat,
            connected: self.connected,
        }
    }
}

/// Whether a row is a pending slot: registered, and not yet timed.
pub open spec fn spec_pending(r: SlotRowV) -> bool {
    r.registered && r.time is None
}

/// The smallest id among the pending slots, if any slot is pending.
pub open spec fn spec_min_pending(rows: Seq<SlotRowV>) -> Option<nat>
    decreases rows.len(),
{
    if rows.len() == 0 {
        None
    } else {
        let m0 = spec_min_pending(rows.drop_last());
        let h = rows.last();
        if spec_pending(h) {
            match m0 {
                None => Some(h.id),
                Some(m) => if h.id < m {
                    Some(h.id)
                } else {
                    Some(m)
                },
            }
        } else {
            m0
        }
    }
}

/// `spec_min_pending` finds the smallest pending id exactly when a pending
/// slot exists.
pub proof fn lemma_min_pending_characterized(rows: Seq<SlotRowV>)
    ensures
        match spec_min_pending(rows) {
            None => forall|i: int| 0 <= i < rows.len() ==> !spec_pending(#[trigger] rows[i]),
            Some(m) => (exists|i: int|
                0 <= i < rows.len() && spec_pending(#[trigger] rows[i]) && rows[i].id == m)
                && (forall|i: int|
                0 <= i < rows.len() && spec_pending(#[trigger] rows[i]) ==> m <= rows[i].id),
        },
    decreases rows.len(),
{
    if rows.len() > 0 {
        lemma_min_pending_characterized(rows.drop_last());
        let t = rows.drop_last();
        let last = rows.len() - 1;
        assert forall|i: int| 0 <= i < t.len() implies #[trigger] t[i] == rows[i] by {}
        match spec_min_pending(rows) {
            None => {
                assert(!spec_pending(rows[last]));
                assert(spec_min_pending(t) is None);
                assert forall|i: int| 0 <= i < rows.len() implies !spec_pending(
                    #[trigger] rows[i],
                ) by {
                    if i < last {
                        assert(t[i] == rows[i]);
                        assert(!spec_pending(t[i]));
                    }
                }
            },
            Some(m) => {
                let from_last = spec_pending(rows[last]) && rows[last].id == m;
                if !from_last {
                    assert(spec_min_pending(t) == Some(m));
                    let w = choose|i: int|
                        0 <= i < t.len() && spec_pending(#[trigger] t[i]) && t[i].id == m;
                    assert(spec_pending(rows[w]) && rows[w].id == m);
                }
                assert forall|i: int|
                    0 <= i < rows.len() && spec_pending(#[trigger] rows[i]) implies m
                    <= rows[i].id by {
                    if i < last {
                        assert(t[i] == rows[i]);
                        match spec_min_pending(t) {
                            None => {
                                assert(!spec_pending(t[i]));
                            },
                            Some(m0) => {
                                assert(m <= m0);
                            },
                        }
                    }
                }
            },
        }
    }
}

/// A row after the update statement for slot `id`: the row's time,
/// sequence number and channel are overwritten from the record when its id
/// matches, and the row is untouched otherwise.
pub open spec fn spec_update_row(r: SlotRowV, id: nat, lap: LapTimeV) -> SlotRowV {
    if r.id == id {
        SlotRowV {
            id: r.id,
            registered: r.registered,
            seq_number: Some(lap.seq_number),
            channel: Some(lap.channel),
            time: Some(lap.time),
        }
    } else {
        r
    }
}

/// The brand-new row inserted for a record when no slot is pending.
pub open spec fn spec_new_row(id: nat, lap: LapTimeV) -> SlotRowV {
    SlotRowV {
        id: id,
        registered: false,
        seq_number: Some(lap.seq_number),
        channel: Some(lap.channel),
        time: Some(lap.time),
    }
}

impl SlotStore {
    /// A fresh, empty, connected store.
    pub fn new() -> (r: Self)
        ensures
            r@.rows == Seq::<SlotRowV>::empty(),
            r@.next_id == 1,
            r@.connected,
    {
        let s = SlotStore { rows: Vec::new(), next_id: 1, connected: true };
        proof {
            assert(s@.rows =~= Seq::<SlotRowV>::empty());
        }
        s
    }

    /// Create a pending slot at `id`, as the race-registration process
    /// does: the registration marker set, no time, no record fields.
    pub fn add_pending_slot(&mut self, id: usize)
        ensures
            final(self)@.rows == old(self)@.rows.push(
                SlotRowV {
                    id: id as nat,
                    registered: true,
                    seq_number: None,
                    channel: None,
                    time: None,
                },
            ),
            final(self)@.next_id == old(self)@.next_id,
            final(self)@.connected == old(self)@.connected,
    {
        self.rows.push(
            SlotRow { id, registered: true, seq_number: None, channel: None, time: None },
        );
        proof {
            assert(self@.rows =~= old(self)@.rows.push(
                SlotRowV {
                    id: id as nat,
                    registered: true,
                    seq_number: None,
                    channel: None,
                    time: None,
                },
            ));
        }
    }

    /// Set the health of the store connection; a lost connection makes
    /// every operation fail until it is restored.
    pub fn set_connected(&mut self, up: bool)
        ensures
            final(self)@.rows == old(self)@.rows,
            final(self)@.next_id == old(self)@.next_id,
            final(self)@.connected == up,
    {
        self.connected = up;
    }

    /// The store's rows, for inspection.
    pub fn slots(&self) -> (r: &Vec<SlotRow>)
        ensures
            r@.map_values(|row: SlotRow| row@) == self@.rows,
    {
        &self.rows
    }
}

/// Query the store for the pending slot with the smallest id.
///
/// Returns `Ok` with the smallest pending id exactly when the store is
/// reachable and some slot is pending, `Err(NoId)` when it is reachable
/// and none is, and a typed failure when the connection is down.
pub fn fetch_id(store: &SlotStore) -> (r: Result<usize, DbError>)
    ensures
        match r {
            Ok(id) => store@.connected && spec_min_pending(store@.rows) == Some(id as nat),
            Err(e) => match e {
                DbError::NoId => store@.connected && spec_min_pending(store@.rows) is None,
                DbError::Message(m) => !store@.connected && m@ == "Unable to fetch Id"@,
                DbError::Internal(_) => false,
            },
        },
{
    if !store.connected {
        return Err(DbError::Message("Unable to fetch Id".to_owned()));
    }
    let n = store.rows.len();
    let mut best: Option<usize> = None;
    let mut i: usize = 0;
    while i < n
        invariant
            0 <= i <= n,
            n == store.rows@.len(),
            store@.rows == store.rows@.map_values(|row: SlotRow| row@),
            match best {
                Some(b) => spec_min_pending(store@.rows.take(i as int)) == Some(b as nat),
                None => spec_min_pending(store@.rows.take(i as int)) is None,
            },
        decreases n - i,
    {
        let row = &store.rows[i];
        let pending = row.registered && row.time.is_none();
        proof {
            assert(store@.rows.take(i + 1).drop_last() =~= store@.rows.take(i as int));
            assert(store@.rows.take(i + 1).last() == store@.rows[i as int]);
            assert(store@.rows[i as int] == store.rows@[i as int]@);
            assert(pending == spec_pending(store@.rows[i as int]));
        }
        if pending {
            best = match best {
                None => Some(row.id),
                Some(b) => if row.id < b {
                    Some(row.id)
                } else {
                    Some(b)
                },
            };
        }
        i += 1;
    }
    proof {
        assert(store@.rows.take(n as int) =~= store@.rows);
    }
    match best {
        Some(b) => Ok(b),
        None => Err(DbError::NoId),
    }
}

/// Issue the update for slot `id`: every row whose id matches has its
/// time, sequence number and channel overwritten from the record; every
/// other row is untouched. Succeeds exactly when the store is reachable.
pub fn update_lap(store: &mut SlotStore, id: usize, lap: &LapTime) -> (r: Result<(), DbError>)
    ensures
        ({
            let so = old(store)@;
            let sn = final(store)@;
            match r {
                Ok(()) => so.connected && sn.rows == so.rows.map_values(
                    |row: SlotRowV| spec_update_row(row, id as nat, lap@),
                ),
                Err(e) => !so.connected && sn.rows == so.rows && (e matches DbError::Internal(_)),
            }
        }),
        final(store)@.next_id == old(store)@.next_id,
        final(store)@.connected == old(store)@.connected,
{
    if !store.connected {
        return Err(DbError::Internal("Unable to reach the store".to_owned()));
    }
    let n = store.rows.len();
    let mut i: usize = 0;
    let mut new_rows: Vec<SlotRow> = Vec::new();
    while i < n
        invariant
            0 <= i <= n,
            n == store.rows@.len(),
            store@.rows == store.rows@.map_values(|row: SlotRow| row@),
            new_rows@.len() == i,
            forall|j: int|
                0 <= j < i ==> #[trigger] new_rows@[j]@ == spec_update_row(
                    store@.rows[j],
                    id as nat,
                    lap@,
                ),
        decreases n - i,
    {
        let row = &store.rows[i];
        proof {
            assert(store@.rows[i as int] == store.rows@[i as int]@);
        }
        if row.id == id {
            new_rows.push(
                SlotRow {
                    id: row.id,
                    registered: row.registered,
                    seq_number: Some(lap.seq_number),
                    channel: Some(lap.channel),
                    time: Some(lap.time.clone()),
                },
            );
        } else {
            let time = match &row.time {
                Some(t) => Some(t.clone()),
                None => None,
            };
            new_rows.push(
                SlotRow {
                    id: row.id,
                    registered: row.registered,
                    seq_number: row.seq_number,
                    channel: row.channel,
                    time,
                },
            );
        }
        i += 1;
    }
    store.rows = new_rows;
    proof {
        assert(store@.rows =~= old(store)@.rows.map_values(
            |row: SlotRowV| spec_update_row(row, id as nat, lap@),
        ));
    }
    Ok(())
}

/// Insert the brand-new row for a record when no slot is pending. The row
/// carries the record's fields verbatim under a fresh id and is not
/// pending. Succeeds exactly when the store is reachable and a fresh id
/// remains.
pub fn create_laptime(store: &mut SlotStore, lap: &LapTime) -> (r: Result<(), DbError>)
    ensures
        ({
            let so = old(store)@;
            let sn = final(store)@;
            match r {
                Ok(()) => so.connected && so.next_id < usize::MAX && sn.rows == so.rows.push(
                    spec_new_row(so.next_id, lap@),
                ) && sn.next_id == so.next_id + 1,
                Err(e) => (!so.connected || so.next_id == usize::MAX) && sn == so && (
                e matches DbError::Message(m) && m@ == "Unable to insert lap"@),
            }
        }),
        final(store)@.connected == old(store)@.connected,
{
    if !store.connected || store.next_id == usize::MAX {
        return Err(DbError::Message("Unable to insert lap".to_owned()));
    }
    let id = store.next_id;
    store.next_id = store.next_id + 1;
    store.rows.push(
        SlotRow {
            id,
            registered: false,
            seq_number: Some(lap.seq_number),
            channel: Some(lap.channel),
            time: Some(lap.time.clone()),
        },
    );
    proof {
        assert(store@.rows =~= old(store)@.rows.push(spec_new_row(old(store)@.next_id, lap@)));
    }
    Ok(())
}

/// The SELECT the pending-slot query issues: the smallest id among rows
/// with a registration and no time.
pub fn fetch_id_statement() -> (r: String)
    ensures
        r@ == "select top 1 ID from tbZeit where Nr is not null and Zeit is null order by ID asc"@,
{
    "select top 1 ID from tbZeit where Nr is not null and Zeit is null order by ID asc".to_owned()
}

/// The INSERT for a brand-new row carrying the record's fields verbatim.
pub fn insert_statement(lap: &LapTime) -> (r: String)
    ensures
        r@ == "insert into tbZeit (LfdNr,Kennung,Zeit) values ('"@ + spec_decimal(
            lap@.seq_number,
        ) + "','"@ + lap@.channel.code_spec() + "','"@ + lap@.time + "')"@,
{
    let mut s = "insert into tbZeit (LfdNr,Kennung,Zeit) values ('".to_owned();
    s.append(decimal_string(lap.seq_number).as_str());
    s.append("','");
    s.append(lap.channel.code());
    s.append("','");
    s.append(lap.time.as_str());
    s.append("')");
    proof {
        assert(s@ =~= "insert into tbZeit (LfdNr,Kennung,Zeit) values ('"@ + spec_decimal(
            lap@.seq_number,
        ) + "','"@ + lap@.channel.code_spec() + "','"@ + lap@.time + "')"@);
    }
    s
}

/// The UPDATE that completes slot `id` from the record's fields.
pub fn update_statement(id: usize, lap: &LapTime) -> (r: String)
    ensures
        r@ == "update tbZeit set Zeit = '"@ + lap@.time + "', LfdNr = "@ + spec_decimal(
            lap@.seq_number,
        ) + ", Kennung = '"@ + lap@.channel.code_spec() + "' where ID = "@ + spec_decimal(
            id as nat,
        ),
{
    let mut s = "update tbZeit set Zeit = '".to_owned();
    s.append(lap.time.as_str());
    s.append("', LfdNr = ");
    s.append(decimal_string(lap.seq_number).as_str());
    s.append(", Kennung = '");
    s.append(lap.channel.code());
    s.append("' where ID = ");
    s.append(decimal_string(id).as_str());
    proof {
        assert(s@ =~= "update tbZeit set Zeit = '"@ + lap@.time + "', LfdNr = "@ + spec_decimal(
            lap@.seq_number,
        ) + ", Kennung = '"@ + lap@.channel.code_spec() + "' where ID = "@ + spec_decimal(
            id as nat,
        ));
    }
    s
}

/// The write the reconciler decides on, from the outcome of the
/// pending-slot query and before any write is issued.
#[derive(Clone, Copy, Debug, PartialEq, Eq, Structural)]
pub enum PersistAction {
    /// Complete the pending slot with this id from the record.
    Update(usize),
    /// No slot is pending: insert a brand-new row.
    Insert,
    /// The query failed: drop the record and touch nothing.
    Drop,
}

/// The reconciliation decision as a function of the query's outcome.
pub open spec fn spec_decide(fetch: Result<usize, DbError>) -> PersistAction {
    match fetch {
        Ok(id) => PersistAction::Update(id),
        Err(DbError::NoId) => PersistAction::Insert,
        Err(_) => PersistAction::Drop,
    }
}

/// Decide what one record does to the store, from the outcome of the
/// pending-slot query: a found id is updated, no pending slot means an
/// insert, and any query failure drops the record.
pub fn decide_action(fetch: &Result<usize, DbError>) -> (r: PersistAction)
    ensures
        r == spec_decide(*fetch),
{
    match fetch {
        Ok(id) => PersistAction::Update(*id),
        Err(DbError::NoId) => PersistAction::Insert,
        Err(_) => PersistAction::Drop,
    }
}

/// How reconciling one record ended.
#[derive(Clone, Copy, Debug, PartialEq, Eq, Structural)]
pub enum PersistOutcome {
    /// The pending slot with this id was completed from the record.
    Updated(usize),
    /// No slot was pending; a brand-new row was inserted.
    Inserted,
    /// A store failure; the record was dropped, nothing was altered.
    Dropped,
}

/// The reconciliation transition: what one record does to the store.
///
/// Exactly one of three things happens. When the store is unreachable the
/// record is dropped and nothing changes. Otherwise, when some slot is
/// pending, the one with the smallest id is completed from the record;
/// when none is, a brand-new row is inserted (unless the id space is
/// exhausted, which fails like any other store write).
pub open spec fn spec_persist(s: SlotStoreV, lap: LapTimeV) -> (SlotStoreV, PersistOutcome) {
    if !s.connected {
        (s, PersistOutcome::Dropped)
    } else {
        match spec_min_pending(s.rows) {
            Some(k) => (
                SlotStoreV {
                    rows: s.rows.map_values(|r: SlotRowV| spec_update_row(r, k, lap)),
                    next_id: s.next_id,
                    connected: s.connected,
                },
                PersistOutcome::Updated(k as usize),
            ),
            None => if s.next_id < usize::MAX {
                (
                    SlotStoreV {
                        rows: s.rows.push(spec_new_row(s.next_id, lap)),
                        next_id: s.next_id + 1,
                        connected: s.connected,
                    },
                    PersistOutcome::Inserted,
                )
            } else {
                (s, PersistOutcome::Dropped)
            },
        }
    }
}

/// Reconcile one record against the store: complete the pending slot with
/// the smallest id when one exists, insert a brand-new row when none does,
/// and drop the record on a store failure, altering nothing. The store
/// after the call and the reported outcome are exactly what
/// [`spec_persist`] says.
pub fn persist_lap(store: &mut SlotStore, lap: LapTime) -> (r: PersistOutcome)
    ensures
        final(store)@ == spec_persist(old(store)@, lap@).0,
        r == spec_persist(old(store)@, lap@).1,
{
    let fetch = fetch_id(store);
    match decide_action(&fetch) {
        PersistAction::Update(id) => {
            let r = update_lap(store, id, &lap);
            proof {
                let so = old(store)@;
                assert(store@.rows =~= so.rows.map_values(
                    |r2: SlotRowV| spec_update_row(r2, id as nat, lap@),
                ));
                assert(store@ == spec_persist(so, lap@).0);
            }
            match r {
                Ok(()) => PersistOutcome::Updated(id),
                Err(_) => {
                    proof {
                        assert(false);
                    }
                    PersistOutcome::Dropped
                },
            }
        },
        PersistAction::Insert => match create_laptime(store, &lap) {
            Ok(()) => PersistOutcome::Inserted,
            Err(_) => PersistOutcome::Dropped,
        },
        PersistAction::Drop => PersistOutcome::Dropped,
    }
}

/// The decision agrees with the transition: on any faithful outcome of
/// the pending-slot query — found id, no pending slot, or a failure of a
/// down connection, as `fetch_id` reports them — the action names exactly
/// the branch `spec_persist` takes on the same store.
pub proof fn lemma_decide_matches_persist(
    s: SlotStoreV,
    lap: LapTimeV,
    fetch: Result<usize, DbError>,
)
    requires
        match fetch {
            Ok(id) => s.connected && spec_min_pending(s.rows) == Some(id as nat),
            Err(e) => match e {
                DbError::NoId => s.connected && spec_min_pending(s.rows) is None,
                DbError::Message(_) => !s.connected,
                DbError::Internal(_) => false,
            },
        },
    ensures
        match spec_decide(fetch) {
            PersistAction::Update(id) => spec_persist(s, lap).1 == PersistOutcome::Updated(id),
            PersistAction::Insert => s.next_id < usize::MAX ==> spec_persist(s, lap).1
                == PersistOutcome::Inserted,
            PersistAction::Drop => spec_persist(s, lap).1 == PersistOutcome::Dropped
                && spec_persist(s, lap).0 == s,
        },
{
}

/// Dropped on failure: when the store cannot be reached, reconciling a
/// record drops it and alters no slot — the store is left exactly as it
/// was, so any later record is evaluated independently against that same
/// state, with no retry of the dropped one.
pub proof fn lemma_dropped_on_failure(s: SlotStoreV, lap: LapTimeV)
    requires
        !s.connected,
    ensures
        spec_persist(s, lap).0 == s,
        spec_persist(s, lap).1 == PersistOutcome::Dropped,
{
}

/// Reconciliation matches the smallest pending id: when the store is
/// reachable and `k` is the smallest pending id, the record completes
/// exactly the rows at id `k` — which stop being pending — and every other
/// row is untouched; ids, row count and connection are preserved.
pub proof fn lemma_persist_matches_min(s: SlotStoreV, k: nat, lap: LapTimeV)
    requires
        s.connected,
        k <= usize::MAX,
        spec_min_pending(s.rows) == Some(k),
    ensures
        spec_persist(s, lap).1 == PersistOutcome::Updated(k as usize),
        ({
            let s1 = spec_persist(s, lap).0;
            &&& s1.connected
            &&& s1.next_id == s.next_id
            &&& s1.rows.len() == s.rows.len()
            &&& forall|i: int| 0 <= i < s.rows.len() ==> #[trigger] s1.rows[i].id == s.rows[i].id
            &&& forall|i: int|
                0 <= i < s.rows.len() ==> (spec_pending(#[trigger] s1.rows[i]) <==> spec_pending(
                    s.rows[i],
                ) && s.rows[i].id != k)
            &&& forall|i: int|
                0 <= i < s.rows.len() && s.rows[i].id != k ==> #[trigger] s1.rows[i] == s.rows[i]
            &&& forall|i: int|
                0 <= i < s.rows.len() && s.rows[i].id == k ==> #[trigger] s1.rows[i]
                    == spec_update_row(s.rows[i], k, lap)
        }),
{
    let s1 = spec_persist(s, lap).0;
    assert(s1.rows == s.rows.map_values(|r: SlotRowV| spec_update_row(r, k, lap)));
    assert forall|i: int| 0 <= i < s.rows.len() implies #[trigger] s1.rows[i] == spec_update_row(
        s.rows[i],
        k,
        lap,
    ) by {}
}

/// The update path: given a store whose only pending slots sit at id `k`,
/// reconciling any record reports `Updated(k)`, overwrites those slots
/// from the record — after which they are no longer pending — leaves every
/// other row untouched, and leaves no pending slot behind.
pub proof fn lemma_update_path(s: SlotStoreV, k: nat, lap: LapTimeV)
    requires
        s.connected,
        k <= usize::MAX,
        exists|i: int|
            0 <= i < s.rows.len() && spec_pending(#[trigger] s.rows[i]) && s.rows[i].id == k,
        forall|i: int|
            0 <= i < s.rows.len() && spec_pending(#[trigger] s.rows[i]) ==> s.rows[i].id == k,
    ensures
        spec_persist(s, lap).1 == PersistOutcome::Updated(k as usize),
        ({
            let s1 = spec_persist(s, lap).0;
            &&& s1.rows.len() == s.rows.len()
            &&& forall|i: int|
                0 <= i < s.rows.len() && s.rows[i].id == k ==> #[trigger] s1.rows[i]
                    == spec_update_row(s.rows[i], k, lap)
            &&& forall|i: int|
                0 <= i < s.rows.len() && s.rows[i].id != k ==> #[trigger] s1.rows[i] == s.rows[i]
            &&& forall|i: int| 0 <= i < s1.rows.len() ==> !spec_pending(#[trigger] s1.rows[i])
            &&& spec_min_pending(s1.rows) is None
        }),
{
    lemma_min_pending_characterized(s.rows);
    let w = choose|i: int|
        0 <= i < s.rows.len() && spec_pending(#[trigger] s.rows[i]) && s.rows[i].id == k;
    match spec_min_pending(s.rows) {
        None => {
            assert(!spec_pending(s.rows[w]));
        },
        Some(m) => {
            let wm = choose|i: int|
                0 <= i < s.rows.len() && spec_pending(#[trigger] s.rows[i]) && s.rows[i].id == m;
            assert(s.rows[wm].id == k);
            assert(m <= s.rows[w].id);
            assert(spec_min_pending(s.rows) == Some(k));
        },
    }
    lemma_persist_matches_min(s, k, lap);
    let s1 = spec_persist(s, lap).0;
    lemma_min_pending_characterized(s1.rows);
    match spec_min_pending(s1.rows) {
        None => {},
        Some(m) => {
            let wp = choose|i: int|
                0 <= i < s1.rows.len() && spec_pending(#[trigger] s1.rows[i]) && s1.rows[i].id
                    == m;
            assert(spec_pending(s.rows[wp]) && s.rows[wp].id != k);
        },
    }
}

/// The insert path: given a store with no pending slot, reconciling a
/// record reports `Inserted` and appends exactly one brand-new row
/// carrying the record's fields verbatim; the new row is itself not
/// pending, and every existing row is untouched.
pub proof fn lemma_insert_path(s: SlotStoreV, lap: LapTimeV)
    requires
        s.connected,
        s.next_id < usize::MAX,
        forall|i: int| 0 <= i < s.rows.len() ==> !spec_pending(#[trigger] s.rows[i]),
    ensures
        spec_persist(s, lap).1 == PersistOutcome::Inserted,
        ({
            let s1 = spec_persist(s, lap).0;
            &&& s1.rows == s.rows.push(spec_new_row(s.next_id, lap))
            &&& s1.rows.len() == s.rows.len() + 1
            &&& s1.rows.last().seq_number == Some(lap.seq_number)
            &&& s1.rows.last().channel == Some(lap.channel)
            &&& s1.rows.last().time == Some(lap.time)
            &&& !spec_pending(s1.rows.last())
            &&& forall|i: int| 0 <= i < s.rows.len() ==> #[trigger] s1.rows[i] == s.rows[i]
            &&& s1.next_id == s.next_id + 1
        }),
{
    lemma_min_pending_characterized(s.rows);
    match spec_min_pending(s.rows) {
        None => {},
        Some(m) => {
            let wm = choose|i: int|
                0 <= i < s.rows.len() && spec_pending(#[trigger] s.rows[i]) && s.rows[i].id == m;
            assert(!spec_pending(s.rows[wm]));
        },
    }
}

/// First-in-first-out matching: with pending slots present, the first
/// record completes the smallest pending id `k1`; the second completes
/// `k2`, the smallest id still pending afterwards — a strictly larger id
/// that was already pending before and is the least such besides `k1`.
pub proof fn lemma_fifo_matching(s: SlotStoreV, k1: nat, k2: nat, lap1: LapTimeV, lap2: LapTimeV)
    requires
        s.connected,
        k1 <= usize::MAX,
        k2 <= usize::MAX,
        spec_min_pending(s.rows) == Some(k1),
        spec_min_pending(spec_persist(s, lap1).0.rows) == Some(k2),
    ensures
        spec_persist(s, lap1).1 == PersistOutcome::Updated(k1 as usize),
        spec_persist(spec_persist(s, lap1).0, lap2).1 == PersistOutcome::Updated(k2 as usize),
        k1 < k2,
        exists|i: int|
            0 <= i < s.rows.len() && spec_pending(#[trigger] s.rows[i]) && s.rows[i].id == k2,
        forall|i: int|
            0 <= i < s.rows.len() && spec_pending(#[trigger] s.rows[i]) && s.rows[i].id != k1
                ==> k2 <= s.rows[i].id,
{
    lemma_persist_matches_min(s, k1, lap1);
    let s1 = spec_persist(s, lap1).0;
    lemma_persist_matches_min(s1, k2, lap2);
    lemma_min_pending_characterized(s.rows);
    lemma_min_pending_characterized(s1.rows);
    let w = choose|i: int|
        0 <= i < s1.rows.len() && spec_pending(#[trigger] s1.rows[i]) && s1.rows[i].id == k2;
    assert(spec_pending(s.rows[w]) && s.rows[w].id != k1);
    assert(s.rows[w].id == k2);
    assert(k1 <= k2);
    assert forall|i: int|
        0 <= i < s.rows.len() && spec_pending(#[trigger] s.rows[i]) && s.rows[i].id != k1 implies k2
        <= s.rows[i].id by {
        assert(spec_pending(s1.rows[i]));
        assert(s1.rows[i].id == s.rows[i].id);
    }
}

} // verus!
