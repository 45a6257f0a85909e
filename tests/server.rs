use echo_server::connection::{Drain, ReadOutcome};
use echo_server::event_set::EventSet;
use echo_server::server::{Action, Closed, FollowUp, Server, FIRST_CONNECTION_TOKEN, SERVER_TOKEN, TOKEN_SPACE};

fn events(readable: bool, writable: bool, error: bool, hup: bool) -> EventSet {
    EventSet { readable, writable, error, hup }
}

#[test]
fn new_server_is_empty() {
    let s = Server::new();
    assert_eq!(s.token(), SERVER_TOKEN);
    assert_eq!(s.count(), 0);
    assert!(!s.contains(FIRST_CONNECTION_TOKEN));
    assert_eq!(s.register(), EventSet::readable());
    assert_eq!(s.reregister(), EventSet::readable());
}

#[test]
fn accept_stores_registered_connection() {
    let mut s = Server::new();
    let t = s.accept().unwrap();
    assert_eq!(t, FIRST_CONNECTION_TOKEN);
    assert!(s.contains(t));
    assert_eq!(s.count(), 1);
    let i = s.interest_of(t).unwrap();
    assert!(i.readable && i.hup && !i.writable);
    let u = s.accept().unwrap();
    assert_ne!(t, u);
    assert_eq!(s.count(), 2);
}

#[test]
fn full_table_rejects_accept() {
    let mut s = Server::with_capacity(3);
    let a = s.accept().unwrap();
    let b = s.accept().unwrap();
    let c = s.accept().unwrap();
    assert_eq!(s.accept(), None);
    assert_eq!(s.count(), 3);
    // the connections already open keep echoing
    assert_eq!(s.readable(b, ReadOutcome::Data(b"still".to_vec())), Ok(Drain::Complete));
    assert_eq!(s.writable(b), Some(b"still".to_vec()));
    assert!(s.contains(a) && s.contains(c));
}

#[test]
fn whole_token_space_fills_then_rejects() {
    let mut s = Server::new();
    let capacity = TOKEN_SPACE - FIRST_CONNECTION_TOKEN;
    for _ in 0..capacity {
        let t = s.accept().unwrap();
        assert!(t >= FIRST_CONNECTION_TOKEN && t < TOKEN_SPACE);
    }
    assert_eq!(s.count(), capacity);
    assert_eq!(s.accept(), None);
    assert_eq!(s.count(), capacity);
}

#[test]
fn closed_token_is_reused() {
    let mut s = Server::with_capacity(2);
    let a = s.accept().unwrap();
    let _b = s.accept().unwrap();
    assert_eq!(s.accept(), None);
    assert_eq!(s.close_connection(a), Closed::Removed);
    assert!(!s.contains(a));
    assert_eq!(s.count(), 1);
    assert_eq!(s.accept(), Some(a));
    assert_eq!(s.count(), 2);
}

#[test]
fn close_of_server_token_shuts_down() {
    let mut s = Server::new();
    s.accept().unwrap();
    assert_eq!(s.close_connection(SERVER_TOKEN), Closed::Shutdown);
    assert_eq!(s.count(), 1);
}

#[test]
fn close_of_unknown_token_is_absent() {
    let mut s = Server::new();
    assert_eq!(s.close_connection(40), Closed::Absent);
    assert_eq!(s.count(), 0);
}

#[test]
fn remove_connection_rolls_back_accept() {
    let mut s = Server::new();
    let t = s.accept().unwrap();
    assert!(s.remove_connection(t));
    assert!(!s.remove_connection(t));
    assert_eq!(s.count(), 0);
    assert_eq!(s.interest_of(t), None);
}

#[test]
fn hangup_closes_connection() {
    let mut s = Server::new();
    let a = s.accept().unwrap();
    let b = s.accept().unwrap();
    let plan = s.ready(a, events(true, false, false, true));
    assert_eq!(plan, vec![Action::Close(a)]);
    assert_eq!(s.close_connection(a), Closed::Removed);
    assert_eq!(s.count(), 1);
    assert!(s.contains(b));
}

#[test]
fn error_on_server_token_shuts_down() {
    let s = Server::new();
    assert_eq!(s.ready(SERVER_TOKEN, events(false, false, true, false)), vec![Action::Shutdown]);
}

#[test]
fn readable_server_token_accepts() {
    let s = Server::new();
    assert_eq!(s.ready(SERVER_TOKEN, events(true, false, false, false)), vec![Action::Accept]);
}

#[test]
fn write_comes_before_read() {
    let s = Server::new();
    assert_eq!(s.ready(5, events(true, true, false, false)), vec![Action::Write(5), Action::Read(5)]);
    assert_eq!(s.ready(5, events(false, true, false, false)), vec![Action::Write(5)]);
    assert_eq!(s.ready(5, events(false, false, false, false)), vec![]);
}

#[test]
fn server_echoes_hello() {
    let mut s = Server::new();
    let t = s.accept().unwrap();
    assert_eq!(s.readable(t, ReadOutcome::Data(b"hello".to_vec())), Ok(Drain::Complete));
    assert!(s.interest_of(t).unwrap().writable);
    assert_eq!(s.writable(t), Some(b"hello".to_vec()));
    let i = s.interest_of(t).unwrap();
    assert!(i.readable && !i.writable);
}

#[test]
fn server_echoes_in_last_in_first_out_order() {
    let mut s = Server::new();
    let t = s.accept().unwrap();
    assert_eq!(s.readable(t, ReadOutcome::Data(b"AA".to_vec())), Ok(Drain::Complete));
    assert_eq!(s.readable(t, ReadOutcome::Data(b"BB".to_vec())), Ok(Drain::Complete));
    assert_eq!(s.writable(t), Some(b"BB".to_vec()));
    assert_eq!(s.writable(t), Some(b"AA".to_vec()));
    assert_eq!(s.writable(t), None);
}

#[test]
fn finish_event_rearms_with_readable() {
    let mut s = Server::new();
    let t = s.accept().unwrap();
    assert_eq!(s.readable(t, ReadOutcome::Data(b"hey".to_vec())), Ok(Drain::Complete));
    match s.finish_event(t, true) {
        FollowUp::Rearm(i) => assert!(i.readable && i.writable && i.hup),
        other => panic!("unexpected {:?}", other),
    }
    assert_eq!(s.writable(t), Some(b"hey".to_vec()));
    match s.finish_event(t, true) {
        FollowUp::Rearm(i) => assert!(i.readable && !i.writable),
        other => panic!("unexpected {:?}", other),
    }
    assert_eq!(s.count(), 1);
}

#[test]
fn finish_event_closes_on_failure() {
    let mut s = Server::new();
    let t = s.accept().unwrap();
    assert_eq!(s.finish_event(t, false), FollowUp::Close(Closed::Removed));
    assert_eq!(s.count(), 0);
    assert_eq!(s.finish_event(t, true), FollowUp::Close(Closed::Absent));
    assert_eq!(s.finish_event(SERVER_TOKEN, true), FollowUp::Close(Closed::Shutdown));
}

#[test]
fn failed_registration_is_rolled_back() {
    let mut s = Server::new();
    let t = s.accept().unwrap();
    assert!(s.settle_registration(t, true));
    assert_eq!(s.count(), 1);
    let u = s.accept().unwrap();
    assert!(!s.settle_registration(u, false));
    assert!(!s.contains(u));
    assert!(s.contains(t));
    assert_eq!(s.count(), 1);
}
