use serial_session::registry::{PollStep, ReadOutcome, Registry, SessionError, SessionState};

fn id(s: &str) -> String {
    s.to_string()
}

#[test]
fn connect_send_disconnect_twice() {
    let mut reg: Registry<u32> = Registry::new();
    let com3 = id("COM3");
    assert!(reg.check_open(&com3).is_ok());
    let r = reg.open(&com3, 9600, Ok(1)).unwrap();
    assert_eq!(r.identifier, "COM3");
    assert_eq!(reg.baud_rate_of(&com3), Some(9600));
    let (handle, bytes) = reg.dispatch(&com3, "PING").unwrap();
    assert_eq!(*handle, 1);
    assert_eq!(bytes, b"PING\r".to_vec());
    assert!(bytes.ends_with(b"\r") && !bytes[..bytes.len() - 1].ends_with(b"\r"));
    let closed = reg.close(&com3).unwrap();
    assert_eq!(closed.state, SessionState::Closing);
    assert_eq!(closed.handle, 1);
    assert_eq!(closed.baud_rate, 9600);
    assert_eq!(reg.close(&com3).unwrap_err(), SessionError::NotOpen);
    assert_eq!(reg.len(), 0);
}

#[test]
fn open_twice_fails_and_keeps_the_first_session() {
    let mut reg: Registry<u32> = Registry::new();
    let com3 = id("COM3");
    let first = reg.open(&com3, 9600, Ok(1)).unwrap();
    assert_eq!(reg.check_open(&com3), Err(SessionError::AlreadyOpen));
    assert_eq!(reg.open(&com3, 115200, Ok(2)).unwrap_err(), SessionError::AlreadyOpen);
    assert_eq!(reg.baud_rate_of(&com3), Some(9600));
    assert_eq!(*reg.handle_of(&com3).unwrap(), 1);
    assert!(reg.is_live(&first));
    assert_eq!(reg.len(), 1);
}

#[test]
fn send_and_disconnect_on_unknown_port_fail() {
    let mut reg: Registry<u32> = Registry::new();
    reg.open(&id("COM1"), 9600, Ok(1)).unwrap();
    let com9 = id("COM9");
    assert_eq!(reg.dispatch(&com9, "PING").unwrap_err(), SessionError::NotOpen);
    assert_eq!(reg.handle_of(&com9).unwrap_err(), SessionError::NotOpen);
    assert_eq!(reg.close(&com9).unwrap_err(), SessionError::NotOpen);
    assert_eq!(reg.len(), 1);
}

#[test]
fn failed_open_leaves_the_registry_alone() {
    let mut reg: Registry<u32> = Registry::new();
    let com4 = id("COM4");
    let err = reg.open(&com4, 9600, Err(id("no such device"))).unwrap_err();
    assert_eq!(err, SessionError::OpenFailed(id("no such device")));
    assert!(!reg.contains(&com4));
    assert!(reg.open(&com4, 9600, Ok(4)).is_ok());
}

#[test]
fn sessions_of_different_ports_are_independent() {
    let mut reg: Registry<u32> = Registry::new();
    let a = reg.open(&id("COM1"), 9600, Ok(1)).unwrap();
    let b = reg.open(&id("COM2"), 19200, Ok(2)).unwrap();
    assert_ne!(a.generation, b.generation);
    assert_eq!(
        reg.absorb(&a, ReadOutcome::Bytes(b"one\r\ntw".to_vec())),
        PollStep::Emit(vec![b"one".to_vec()])
    );
    assert_eq!(
        reg.absorb(&b, ReadOutcome::Bytes(b"x\n".to_vec())),
        PollStep::Emit(vec![b"x".to_vec()])
    );
    assert_eq!(
        reg.absorb(&a, ReadOutcome::Bytes(b"o\r\n".to_vec())),
        PollStep::Emit(vec![b"two".to_vec()])
    );
    reg.close(&id("COM1")).unwrap();
    assert!(!reg.is_live(&a));
    assert!(reg.is_live(&b));
}

#[test]
fn poll_stops_after_disconnect() {
    let mut reg: Registry<u32> = Registry::new();
    let com3 = id("COM3");
    let r = reg.open(&com3, 9600, Ok(3)).unwrap();
    assert!(reg.is_live(&r));
    reg.close(&com3).unwrap();
    assert!(!reg.is_live(&r));
    assert_eq!(reg.absorb(&r, ReadOutcome::Bytes(b"late\r\n".to_vec())), PollStep::Stop);
    assert_eq!(reg.absorb(&r, ReadOutcome::TimedOut), PollStep::Stop);
}

#[test]
fn stale_poll_loop_does_not_adopt_a_reopened_session() {
    let mut reg: Registry<u32> = Registry::new();
    let com3 = id("COM3");
    let old = reg.open(&com3, 9600, Ok(3)).unwrap();
    reg.close(&com3).unwrap();
    let new = reg.open(&com3, 9600, Ok(4)).unwrap();
    assert_ne!(old.generation, new.generation);
    assert!(!reg.is_live(&old));
    assert!(reg.is_live(&new));
    assert_eq!(reg.absorb(&old, ReadOutcome::Bytes(b"x\r\n".to_vec())), PollStep::Stop);
    assert_eq!(
        reg.absorb(&new, ReadOutcome::Bytes(b"x\r\n".to_vec())),
        PollStep::Emit(vec![b"x".to_vec()])
    );
}

#[test]
fn timeout_emits_nothing_and_keeps_the_buffer() {
    let mut reg: Registry<u32> = Registry::new();
    let r = reg.open(&id("COM3"), 9600, Ok(3)).unwrap();
    assert_eq!(reg.absorb(&r, ReadOutcome::Bytes(b"AB".to_vec())), PollStep::Emit(vec![]));
    assert_eq!(reg.absorb(&r, ReadOutcome::TimedOut), PollStep::Emit(vec![]));
    assert_eq!(reg.absorb(&r, ReadOutcome::Bytes(Vec::new())), PollStep::Emit(vec![]));
    assert_eq!(
        reg.absorb(&r, ReadOutcome::Bytes(b"C\r\n".to_vec())),
        PollStep::Emit(vec![b"ABC".to_vec()])
    );
}

#[test]
fn read_failure_ends_the_loop_and_frees_the_port() {
    let mut reg: Registry<u32> = Registry::new();
    let com3 = id("COM3");
    let r = reg.open(&com3, 9600, Ok(3)).unwrap();
    assert_eq!(
        reg.absorb(&r, ReadOutcome::Failed(id("device unplugged"))),
        PollStep::Fatal(id("device unplugged"))
    );
    assert!(!reg.contains(&com3));
    assert!(reg.open(&com3, 9600, Ok(5)).is_ok());
}
