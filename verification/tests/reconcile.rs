use frontrunner::db::{
    create_laptime, decide_action, fetch_id, fetch_id_statement, insert_statement, persist_lap,
    update_lap, update_statement, DbError, PersistAction, PersistOutcome, SlotStore,
};
use frontrunner::timer::{decimal_string, Channel, LapTime};

fn record(seq: usize, channel: Channel, time: &str) -> LapTime {
    LapTime { seq_number: seq, channel, time: time.to_string() }
}

#[test]
fn update_path_completes_the_single_pending_slot() {
    let mut store = SlotStore::new();
    store.add_pending_slot(5);
    let outcome = persist_lap(&mut store, record(123, Channel::A, "10:15:30.250"));
    assert_eq!(outcome, PersistOutcome::Updated(5));
    let rows = store.slots();
    assert_eq!(rows.len(), 1);
    assert_eq!(rows[0].id, 5);
    assert_eq!(rows[0].seq_number, Some(123));
    assert_eq!(rows[0].channel, Some(Channel::A));
    assert_eq!(rows[0].time.as_deref(), Some("10:15:30.250"));
    // The slot is no longer pending: a second record goes to the insert path.
    let outcome = persist_lap(&mut store, record(124, Channel::B, "10:16:02.125"));
    assert_eq!(outcome, PersistOutcome::Inserted);
}

#[test]
fn insert_path_adds_one_row_verbatim() {
    let mut store = SlotStore::new();
    let outcome = persist_lap(&mut store, record(7, Channel::C, "00:00:01.000"));
    assert_eq!(outcome, PersistOutcome::Inserted);
    let rows = store.slots();
    assert_eq!(rows.len(), 1);
    assert_eq!(rows[0].seq_number, Some(7));
    assert_eq!(rows[0].channel, Some(Channel::C));
    assert_eq!(rows[0].time.as_deref(), Some("00:00:01.000"));
    assert!(!rows[0].registered);
}

#[test]
fn fifo_matching_takes_smallest_pending_ids_in_turn() {
    let mut store = SlotStore::new();
    store.add_pending_slot(9);
    store.add_pending_slot(3);
    store.add_pending_slot(7);
    let o1 = persist_lap(&mut store, record(1, Channel::A, "00:01:00.000"));
    let o2 = persist_lap(&mut store, record(2, Channel::A, "00:02:00.000"));
    let o3 = persist_lap(&mut store, record(3, Channel::A, "00:03:00.000"));
    assert_eq!(o1, PersistOutcome::Updated(3));
    assert_eq!(o2, PersistOutcome::Updated(7));
    assert_eq!(o3, PersistOutcome::Updated(9));
    // All slots are timed now; the next record is inserted.
    let o4 = persist_lap(&mut store, record(4, Channel::A, "00:04:00.000"));
    assert_eq!(o4, PersistOutcome::Inserted);
}

#[test]
fn store_failure_drops_the_record_and_alters_nothing() {
    let mut store = SlotStore::new();
    store.add_pending_slot(5);
    store.set_connected(false);
    let outcome = persist_lap(&mut store, record(123, Channel::A, "10:15:30.250"));
    assert_eq!(outcome, PersistOutcome::Dropped);
    let rows = store.slots();
    assert_eq!(rows.len(), 1);
    assert_eq!(rows[0].time, None);
    assert_eq!(rows[0].seq_number, None);
    // A later identical record is evaluated against the current state.
    store.set_connected(true);
    let outcome = persist_lap(&mut store, record(123, Channel::A, "10:15:30.250"));
    assert_eq!(outcome, PersistOutcome::Updated(5));
}

#[test]
fn fetch_id_reports_the_smallest_pending_id() {
    let mut store = SlotStore::new();
    match fetch_id(&store) {
        Err(DbError::NoId) => {},
        other => panic!("expected NoId, got {:?}", other),
    }
    store.add_pending_slot(9);
    store.add_pending_slot(3);
    assert_eq!(fetch_id(&store).unwrap(), 3);
    store.set_connected(false);
    match fetch_id(&store) {
        Err(DbError::Message(m)) => assert_eq!(m, "Unable to fetch Id"),
        other => panic!("expected a failure, got {:?}", other),
    }
}

#[test]
fn update_lap_overwrites_only_the_matching_row() {
    let mut store = SlotStore::new();
    store.add_pending_slot(2);
    store.add_pending_slot(4);
    update_lap(&mut store, 4, &record(11, Channel::B, "00:10:00.000")).unwrap();
    let rows = store.slots();
    assert_eq!(rows[0].id, 2);
    assert_eq!(rows[0].time, None);
    assert_eq!(rows[1].id, 4);
    assert_eq!(rows[1].time.as_deref(), Some("00:10:00.000"));
    assert_eq!(rows[1].seq_number, Some(11));
    assert_eq!(rows[1].channel, Some(Channel::B));
}

#[test]
fn decision_follows_the_query_outcome() {
    assert_eq!(decide_action(&Ok(5)), PersistAction::Update(5));
    assert_eq!(decide_action(&Err(DbError::NoId)), PersistAction::Insert);
    assert_eq!(decide_action(&Err(DbError::Message("gone".to_string()))), PersistAction::Drop);
    assert_eq!(decide_action(&Err(DbError::Internal("gone".to_string()))), PersistAction::Drop);
}

#[test]
fn numbers_render_in_decimal() {
    assert_eq!(decimal_string(0), "0");
    assert_eq!(decimal_string(7), "7");
    assert_eq!(decimal_string(10), "10");
    assert_eq!(decimal_string(90100), "90100");
    assert_eq!(decimal_string(usize::MAX), usize::MAX.to_string());
}

#[test]
fn sql_statements_spell_the_gateway_operations() {
    let lap = record(123, Channel::A, "10:15:30.250");
    assert_eq!(
        fetch_id_statement(),
        "select top 1 ID from tbZeit where Nr is not null and Zeit is null order by ID asc"
    );
    assert_eq!(
        insert_statement(&lap),
        "insert into tbZeit (LfdNr,Kennung,Zeit) values ('123','A','10:15:30.250')"
    );
    assert_eq!(
        update_statement(5, &lap),
        "update tbZeit set Zeit = '10:15:30.250', LfdNr = 123, Kennung = 'A' where ID = 5"
    );
}

#[test]
fn db_errors_describe_themselves() {
    assert_eq!(DbError::NoId.describe(), "No Id found");
    assert_eq!(DbError::Internal("driver gone".to_string()).describe(), "Inner: driver gone");
    assert_eq!(DbError::Message("no row".to_string()).describe(), "Message: no row");
}

#[test]
fn create_laptime_fails_without_a_connection() {
    let mut store = SlotStore::new();
    store.set_connected(false);
    match create_laptime(&mut store, &record(1, Channel::A, "00:00:01.000")) {
        Err(DbError::Message(m)) => assert_eq!(m, "Unable to insert lap"),
        other => panic!("expected a failure, got {:?}", other),
    }
    assert_eq!(store.slots().len(), 0);
}
