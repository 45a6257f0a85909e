use echo_server::connection::{Connection, Drain, ReadFailed, ReadOutcome, CHUNK_SIZE};
use echo_server::event_set::EventSet;

fn drain_all(c: &mut Connection, reads: Vec<ReadOutcome>) -> Vec<Result<Drain, ReadFailed>> {
    let mut out = Vec::new();
    for r in reads {
        out.push(c.readable(r));
    }
    out
}

#[test]
fn new_connection_wants_hangup_only() {
    let c = Connection::new(7);
    assert_eq!(c.token(), 7);
    assert_eq!(c.interest(), EventSet::hup());
    assert_eq!(c.queue_len(), 0);
}

#[test]
fn register_asserts_readable() {
    let mut c = Connection::new(3);
    let i = c.register();
    assert!(i.readable && i.hup && !i.writable);
    assert_eq!(c.reregister(), i);
}

#[test]
fn reregister_asserts_readable() {
    let mut c = Connection::new(5);
    let i = c.reregister();
    assert!(i.readable && i.hup && !i.writable);
    assert_eq!(c.interest(), i);
    c.send_message(b"q".to_vec());
    let j = c.reregister();
    assert!(j.readable && j.writable);
}

#[test]
fn non_utf8_bytes_are_echoed() {
    let mut c = Connection::new(2);
    assert_eq!(c.readable(ReadOutcome::Data(vec![0xFF, 0xFE, 0x00])), Ok(Drain::Complete));
    assert_eq!(c.writable(), Some(vec![0xFF, 0xFE, 0x00]));
}

#[test]
fn hello_is_echoed() {
    let mut c = Connection::new(2);
    c.register();
    let r = c.readable(ReadOutcome::Data(b"hello".to_vec()));
    assert_eq!(r, Ok(Drain::Complete));
    assert!(c.interest().writable);
    assert_eq!(c.writable(), Some(b"hello".to_vec()));
    assert!(!c.interest().writable);
    assert!(c.interest().readable);
}

#[test]
fn two_messages_leave_last_in_first_out() {
    let mut c = Connection::new(2);
    assert_eq!(c.readable(ReadOutcome::Data(b"AA".to_vec())), Ok(Drain::Complete));
    assert_eq!(c.readable(ReadOutcome::Data(b"BB".to_vec())), Ok(Drain::Complete));
    assert_eq!(c.queue_len(), 2);
    assert_eq!(c.writable(), Some(b"BB".to_vec()));
    assert!(c.interest().writable);
    assert_eq!(c.writable(), Some(b"AA".to_vec()));
    assert!(!c.interest().writable);
}

#[test]
fn long_burst_is_echoed_whole() {
    let burst: Vec<u8> = (0..2500u32).map(|i| (i % 251) as u8).collect();
    let mut c = Connection::new(2);
    let reads = vec![
        ReadOutcome::Data(burst[0..1024].to_vec()),
        ReadOutcome::Data(burst[1024..2048].to_vec()),
        ReadOutcome::Data(burst[2048..].to_vec()),
    ];
    let steps = drain_all(&mut c, reads);
    assert_eq!(steps, vec![Ok(Drain::ReadMore), Ok(Drain::ReadMore), Ok(Drain::Complete)]);
    assert_eq!(c.writable(), Some(burst));
}

#[test]
fn exact_chunk_multiple_ends_on_would_block() {
    let burst: Vec<u8> = (0..2 * CHUNK_SIZE).map(|i| (i % 7) as u8).collect();
    let mut c = Connection::new(2);
    let reads = vec![
        ReadOutcome::Data(burst[0..CHUNK_SIZE].to_vec()),
        ReadOutcome::Data(burst[CHUNK_SIZE..].to_vec()),
        ReadOutcome::WouldBlock,
    ];
    let steps = drain_all(&mut c, reads);
    assert_eq!(steps, vec![Ok(Drain::ReadMore), Ok(Drain::ReadMore), Ok(Drain::Complete)]);
    assert_eq!(c.queue_len(), 1);
    assert_eq!(c.writable(), Some(burst));
}

#[test]
fn exact_chunk_multiple_ends_on_empty_read() {
    let burst: Vec<u8> = vec![9u8; CHUNK_SIZE];
    let mut c = Connection::new(2);
    assert_eq!(c.readable(ReadOutcome::Data(burst.clone())), Ok(Drain::ReadMore));
    assert_eq!(c.queue_len(), 0);
    assert_eq!(c.readable(ReadOutcome::Data(Vec::new())), Ok(Drain::Complete));
    assert_eq!(c.writable(), Some(burst));
}

#[test]
fn failed_read_queues_nothing() {
    let mut c = Connection::new(2);
    assert_eq!(c.readable(ReadOutcome::Data(vec![1u8; CHUNK_SIZE])), Ok(Drain::ReadMore));
    assert_eq!(c.readable(ReadOutcome::Failed), Err(ReadFailed));
    assert_eq!(c.queue_len(), 0);
    assert!(!c.interest().writable);
    // the next drain starts afresh
    assert_eq!(c.readable(ReadOutcome::Data(b"x".to_vec())), Ok(Drain::Complete));
    assert_eq!(c.writable(), Some(b"x".to_vec()));
}

#[test]
fn writable_with_empty_queue_does_nothing() {
    let mut c = Connection::new(4);
    c.register();
    let before = c.interest();
    assert_eq!(c.writable(), None);
    assert_eq!(c.interest(), before);
}

#[test]
fn send_message_asserts_writable() {
    let mut c = Connection::new(4);
    assert!(!c.interest().writable);
    c.send_message(b"abc".to_vec());
    assert!(c.interest().writable);
    assert_eq!(c.queue_len(), 1);
    assert_eq!(c.writable(), Some(b"abc".to_vec()));
    assert!(!c.interest().writable);
}

#[test]
fn event_set_error_or_hup() {
    assert!(EventSet::hup().is_error_or_hup());
    assert!(!EventSet::readable().is_error_or_hup());
    assert!(!EventSet::writable().is_error_or_hup());
    assert!(!EventSet::none().is_error_or_hup());
    let e = EventSet { readable: false, writable: false, error: true, hup: false };
    assert!(e.is_error_or_hup());
}
