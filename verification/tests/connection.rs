use httpcore::connection::{ConnFsm, ConnState, RequestBody};
use httpcore::headers::{HeaderSpan, HeaderStore};
use httpcore::Error;

#[test]
fn send_twice_without_cycle_is_already_sent() {
    let mut fsm = ConnFsm::new();
    assert_eq!(fsm.start_request(RequestBody::ContentLength(0)), Ok(()));
    let before = fsm.state;
    assert_eq!(
        fsm.start_request(RequestBody::ContentLength(0)),
        Err(Error::AlreadySent)
    );
    assert_eq!(fsm.state, before);
    assert_eq!(fsm.written, 0);
}

#[test]
fn full_cycle_permits_reuse() {
    let mut fsm = ConnFsm::new();
    fsm.start_request(RequestBody::ContentLength(2)).unwrap();
    fsm.note_body_written(2).unwrap();
    fsm.finish_send().unwrap();
    fsm.start_reading();
    fsm.headers_received();
    fsm.body_complete();
    assert_eq!(fsm.state, ConnState::Complete);
    fsm.finish_cycle(true);
    assert_eq!(fsm.state, ConnState::Idle);
    assert_eq!(fsm.start_request(RequestBody::Chunked), Ok(()));
}

#[test]
fn finish_cycle_without_keep_alive_closes() {
    let mut fsm = ConnFsm::new();
    fsm.start_request(RequestBody::ContentLength(0)).unwrap();
    fsm.finish_send().unwrap();
    fsm.start_reading();
    fsm.headers_received();
    fsm.body_complete();
    fsm.finish_cycle(false);
    assert_eq!(fsm.state, ConnState::Closed);
    assert_eq!(fsm.start_request(RequestBody::Chunked), Err(Error::AlreadySent));
}

#[test]
fn under_written_body_is_incorrect_body_written() {
    let mut fsm = ConnFsm::new();
    fsm.start_request(RequestBody::ContentLength(5)).unwrap();
    fsm.note_body_written(3).unwrap();
    assert_eq!(fsm.finish_send(), Err(Error::IncorrectBodyWritten));
    assert_eq!(fsm.state, ConnState::Closed);
}

#[test]
fn over_written_body_is_incorrect_body_written() {
    let mut fsm = ConnFsm::new();
    fsm.start_request(RequestBody::ContentLength(5)).unwrap();
    fsm.note_body_written(3).unwrap();
    assert_eq!(fsm.note_body_written(3), Err(Error::IncorrectBodyWritten));
    assert_eq!(fsm.state, ConnState::Closed);
}

#[test]
fn chunked_request_body_counts_freely() {
    let mut fsm = ConnFsm::new();
    fsm.start_request(RequestBody::Chunked).unwrap();
    fsm.note_body_written(100).unwrap();
    fsm.note_body_written(23).unwrap();
    assert_eq!(fsm.written, 123);
    assert_eq!(fsm.finish_send(), Ok(()));
}

#[test]
fn close_from_any_state() {
    let mut fsm = ConnFsm::new();
    fsm.start_request(RequestBody::ContentLength(0)).unwrap();
    fsm.close();
    assert_eq!(fsm.state, ConnState::Closed);
}

#[test]
fn header_store_capacity_and_order() {
    let mut store = HeaderStore::new(2);
    let a = HeaderSpan { name_start: 0, name_end: 1, value_start: 2, value_end: 3 };
    let b = HeaderSpan { name_start: 4, name_end: 5, value_start: 6, value_end: 7 };
    let c = HeaderSpan { name_start: 8, name_end: 9, value_start: 10, value_end: 11 };
    assert_eq!(store.insert(a), Ok(()));
    assert_eq!(store.insert(b), Ok(()));
    assert_eq!(store.insert(c), Err(Error::BufferTooSmall));
    assert_eq!(store.len(), 2);
    assert_eq!(store.get(0), a);
    assert_eq!(store.get(1), b);
}

#[test]
fn header_store_lookup_is_case_insensitive_first_match() {
    let arena = b"Host example HOST other";
    let mut store = HeaderStore::new(4);
    store
        .insert(HeaderSpan { name_start: 0, name_end: 4, value_start: 5, value_end: 12 })
        .unwrap();
    store
        .insert(HeaderSpan { name_start: 13, name_end: 17, value_start: 18, value_end: 23 })
        .unwrap();
    assert_eq!(store.find(arena, b"hOsT"), Some(0));
    assert_eq!(store.find(arena, b"missing"), None);
}
