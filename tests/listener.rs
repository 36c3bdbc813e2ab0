use read_jeelink::{Action, Incoming, ReadEvent};

fn bytes(s: &str) -> ReadEvent {
    ReadEvent::Bytes(s.as_bytes().to_vec())
}

#[test]
fn end_to_end_drops_malformed_frames() {
    let mut incoming = Incoming::new();
    assert_eq!(incoming.next_action(), Action::Read);
    let first = incoming.on_read(bytes("OK 9 50 1 4 193 65\r\n"));
    let Action::Deliver(f) = first else { panic!("expected a reading, got {:?}", first) };
    assert_eq!(f.id, 50);
    assert_eq!(incoming.next_action(), Action::Read);
    assert_eq!(incoming.on_read(bytes("OK 9 junk")), Action::Read);
    assert_eq!(incoming.on_read(bytes("\r\n")), Action::Read);
    let last = incoming.on_read(bytes("OK 9 1 1 4 189 65\r\n"));
    let Action::Deliver(f) = last else { panic!("expected a reading, got {:?}", last) };
    assert_eq!(f.id, 1);
    assert_eq!(incoming.next_action(), Action::Read);
}

#[test]
fn readings_come_out_in_order() {
    let mut incoming = Incoming::new();
    let first = incoming.on_read(bytes("OK 9 50 1 4 193 65\r\nOK 9 junk\r\nOK 9 1 1 4 189 65\r\nOK 9 58 1 4 189 67\r\n"));
    let mut ids = Vec::new();
    let mut action = first;
    while let Action::Deliver(f) = action {
        ids.push(f.id);
        action = incoming.next_action();
    }
    assert_eq!(ids, vec![50, 1, 58]);
    assert_eq!(action, Action::Read);
}

#[test]
fn timeout_reads_again() {
    let mut incoming = Incoming::new();
    assert_eq!(incoming.on_read(bytes("OK 9 50 1 4")), Action::Read);
    assert_eq!(incoming.on_read(ReadEvent::TimedOut), Action::Read);
    assert_eq!(incoming.on_read(ReadEvent::TimedOut), Action::Read);
    let rest = incoming.on_read(bytes(" 193 65\r\n"));
    let Action::Deliver(f) = rest else { panic!("expected a reading, got {:?}", rest) };
    assert_eq!(f.temperature_tenths, 217);
}

#[test]
fn empty_read_reads_again() {
    let mut incoming = Incoming::new();
    assert_eq!(incoming.on_read(ReadEvent::Bytes(Vec::new())), Action::Read);
}

#[test]
fn failure_is_reported_once() {
    let mut incoming = Incoming::new();
    assert_eq!(incoming.on_read(bytes("OK 9 50 1")), Action::Read);
    assert_eq!(incoming.on_read(ReadEvent::Failed), Action::Fail);
    assert_eq!(incoming.next_action(), Action::End);
    assert_eq!(incoming.next_action(), Action::End);
}

#[test]
fn bytes_stand_for_latin1_characters() {
    let mut incoming = Incoming::new();
    let data = b"OK 9 \xe9\r\nOK 9 9 1 4 193 65\r\n".to_vec();
    let got = incoming.on_read(ReadEvent::Bytes(data));
    let Action::Deliver(f) = got else { panic!("expected a reading, got {:?}", got) };
    assert_eq!(f.id, 9);
}

#[test]
fn accepted_bytes_are_queued() {
    let mut incoming = Incoming::new();
    incoming.accept_bytes(b"OK 9 58 1 4 189 67\r\nOK 9 18 1 4 193 61\r\n");
    let Action::Deliver(a) = incoming.next_action() else { panic!("expected a reading") };
    let Action::Deliver(b) = incoming.next_action() else { panic!("expected a reading") };
    assert_eq!((a.id, a.humidity), (58, 67));
    assert_eq!((b.id, b.humidity), (18, 61));
    assert_eq!(incoming.next_action(), Action::Read);
}
