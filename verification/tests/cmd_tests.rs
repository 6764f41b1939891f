use my_redis::cmd::{handle_request, Command, DecodeError};
use my_redis::db::State;
use my_redis::frame::Frame;

fn bulk(text: &str) -> Frame {
    Frame::Bulk(text.as_bytes().to_vec())
}

fn request(words: &[&str]) -> Frame {
    Frame::Array(words.iter().map(|w| bulk(w)).collect())
}

#[test]
fn test_set_arity() {
    let mut db = State::new();

    // Well-formed expiry clauses succeed.
    let (reply, _) = handle_request(request(&["SET", "k", "v", "EX", "10"]), &mut db, 0).unwrap();
    assert_eq!(reply, Frame::Simple("OK".to_string()));
    let (reply, _) = handle_request(request(&["SET", "k2", "v2", "PX", "100"]), &mut db, 0)
        .unwrap();
    assert_eq!(reply, Frame::Simple("OK".to_string()));
    assert_eq!(db.get(&"k".to_string(), 0).unwrap(), b"v".to_vec());
    assert_eq!(db.get(&"k".to_string(), 10_000), None);
    assert_eq!(db.get(&"k2".to_string(), 99).unwrap(), b"v2".to_vec());
    assert_eq!(db.get(&"k2".to_string(), 100), None);

    // A bad expiry keyword and a missing value come back as Error
    // frames, not dropped connections.
    let (reply, _) = handle_request(request(&["SET", "k", "v", "FOO", "10"]), &mut db, 0)
        .unwrap();
    assert!(matches!(reply, Frame::Error(_)));
    let (reply, _) = handle_request(request(&["SET", "k"]), &mut db, 0).unwrap();
    assert!(matches!(reply, Frame::Error(_)));

    // The connection is still usable afterwards.
    let (reply, _) = handle_request(request(&["PING"]), &mut db, 0).unwrap();
    assert_eq!(reply, Frame::Simple("PONG".to_string()));
}

#[test]
fn test_unknown_command() {
    let mut db = State::new();
    let (reply, woke) = handle_request(request(&["FOO"]), &mut db, 0).unwrap();
    assert_eq!(reply, Frame::Error("ERR unknown command 'foo'".to_string()));
    assert!(!woke);

    // A subsequent valid PING still goes through.
    let (reply, _) = handle_request(request(&["PING"]), &mut db, 0).unwrap();
    assert_eq!(reply, Frame::Simple("PONG".to_string()));
}

#[test]
fn test_get_and_set_round() {
    let mut db = State::new();
    let (reply, _) = handle_request(request(&["SET", "name", "tide"]), &mut db, 7).unwrap();
    assert_eq!(reply, Frame::Simple("OK".to_string()));
    let (reply, _) = handle_request(request(&["GET", "name"]), &mut db, 8).unwrap();
    assert_eq!(reply, Frame::Bulk(b"tide".to_vec()));
    let (reply, _) = handle_request(request(&["GET", "missing"]), &mut db, 8).unwrap();
    assert_eq!(reply, Frame::Null);
}

#[test]
fn test_command_name_case_folds() {
    let mut db = State::new();
    let (reply, _) = handle_request(request(&["SeT", "k", "v", "px", "50"]), &mut db, 0)
        .unwrap();
    assert_eq!(reply, Frame::Simple("OK".to_string()));
    let (reply, _) = handle_request(request(&["gEt", "k"]), &mut db, 0).unwrap();
    assert_eq!(reply, Frame::Bulk(b"v".to_vec()));
    let (reply, _) = handle_request(request(&["ping"]), &mut db, 10).unwrap();
    assert_eq!(reply, Frame::Simple("PONG".to_string()));
}

#[test]
fn test_from_frame_variants() {
    match Command::from_frame(request(&["GET", "foo"])).unwrap() {
        Command::Get(g) => assert_eq!(g.key, "foo"),
        _ => assert!(false),
    }
    match Command::from_frame(request(&["SET", "a", "b", "EX", "2"])).unwrap() {
        Command::SetCmd(s) => {
            assert_eq!(s.key, "a");
            assert_eq!(s.value, "b");
            assert_eq!(s.expire, Some(2000));
        },
        _ => assert!(false),
    }
    match Command::from_frame(request(&["SET", "a", "b"])).unwrap() {
        Command::SetCmd(s) => assert_eq!(s.expire, None),
        _ => assert!(false),
    }
    match Command::from_frame(request(&["PING"])).unwrap() {
        Command::Ping(_) => assert!(true),
        _ => assert!(false),
    }
    match Command::from_frame(request(&["WHAT"])).unwrap() {
        Command::Unknown(u) => assert_eq!(u.command_name, "what"),
        _ => assert!(false),
    }
}

#[test]
fn test_from_frame_protocol_errors() {
    // Not an array at all.
    assert!(matches!(
        Command::from_frame(Frame::Simple("GET".to_string())),
        Err(DecodeError::Protocol(_))
    ));
    // An empty array has no command name.
    assert!(matches!(
        Command::from_frame(Frame::Array(vec![])),
        Err(DecodeError::Protocol(_))
    ));
    // Leftover elements after a command's parser are malformed arity.
    assert!(matches!(
        Command::from_frame(request(&["PING", "extra"])),
        Err(DecodeError::Protocol(_))
    ));
    assert!(matches!(
        Command::from_frame(request(&["GET", "k", "extra"])),
        Err(DecodeError::Protocol(_))
    ));
}

#[test]
fn test_set_rejects_bad_durations() {
    let mut db = State::new();
    let (reply, _) = handle_request(request(&["SET", "k", "v", "EX", "ten"]), &mut db, 0)
        .unwrap();
    assert!(matches!(reply, Frame::Error(_)));
    let (reply, _) = handle_request(request(&["SET", "k", "v", "PX", "-5"]), &mut db, 0)
        .unwrap();
    assert!(matches!(reply, Frame::Error(_)));
    let (reply, _) = handle_request(request(&["SET", "k", "v", "EX"]), &mut db, 0).unwrap();
    assert!(matches!(reply, Frame::Error(_)));
    assert_eq!(db.get(&"k".to_string(), 0), None);
}

#[test]
fn test_set_wakes_reaper_on_earliest_deadline() {
    let mut db = State::new();
    let (_, woke) = handle_request(request(&["SET", "a", "1", "PX", "1000"]), &mut db, 0)
        .unwrap();
    assert!(woke);
    let (_, woke) = handle_request(request(&["SET", "b", "2", "PX", "2000"]), &mut db, 0)
        .unwrap();
    assert!(!woke);
    let (_, woke) = handle_request(request(&["SET", "c", "3", "PX", "100"]), &mut db, 0)
        .unwrap();
    assert!(woke);
}
