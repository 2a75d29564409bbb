use miniredis::command::Expiry;
use miniredis::command::handle_command;
use miniredis::command::handle_set_command;
use miniredis::database::Db;
use miniredis::database::DbEntry;
use miniredis::resp::RespError;
use miniredis::resp::RespValue;

fn bulk(s: &[u8]) -> RespValue {
    RespValue::new_bulk(s.to_vec())
}

fn request(words: &[&[u8]]) -> RespValue {
    let mut items = Vec::new();
    for w in words {
        items.push(bulk(w));
    }
    RespValue::array_with(items)
}

fn run(db: &mut Db, words: &[&[u8]]) -> (RespValue, Option<Expiry>) {
    handle_command(request(words), db).expect("the request is well-shaped")
}

fn expect_simple(v: &RespValue, text: &[u8]) {
    match v {
        RespValue::Simple(s) => assert_eq!(s, &text.to_vec()),
        other => panic!("expected a simple string, got {:?}", other),
    }
}

fn expect_error_reply(v: &RespValue, text: &[u8]) {
    match v {
        RespValue::Error(s) => assert_eq!(s, &text.to_vec()),
        other => panic!("expected an error value, got {:?}", other),
    }
}

#[test]
fn ping_answers_pong() {
    let mut db = Db::new();
    let (resp, sched) = run(&mut db, &[b"PING"]);
    expect_simple(&resp, b"PONG");
    assert!(sched.is_none());
}

#[test]
fn echo_returns_the_argument() {
    let mut db = Db::new();
    let (resp, _) = run(&mut db, &[b"ECHO", b"hello there"]);
    match resp {
        RespValue::Bulk(s) => assert_eq!(s, b"hello there".to_vec()),
        other => panic!("expected a bulk string, got {:?}", other),
    }
}

#[test]
fn set_then_get_round_trip() {
    let mut db = Db::new();
    let (resp, sched) = run(&mut db, &[b"SET", b"k", b"v"]);
    expect_simple(&resp, b"OK");
    assert!(sched.is_none());
    let (got, _) = run(&mut db, &[b"GET", b"k"]);
    expect_simple(&got, b"v");
}

#[test]
fn get_of_a_missing_key_is_null() {
    let mut db = Db::new();
    let (resp, _) = run(&mut db, &[b"GET", b"nope"]);
    assert!(matches!(resp, RespValue::Null));
}

#[test]
fn command_names_match_case_insensitively() {
    let mut db = Db::new();
    let (resp, _) = run(&mut db, &[b"ping"]);
    expect_simple(&resp, b"PONG");
    let (resp, _) = run(&mut db, &[b"set", b"k", b"v", b"px", b"50"]);
    expect_simple(&resp, b"OK");
    let (resp, _) = run(&mut db, &[b"gEt", b"k"]);
    expect_simple(&resp, b"v");
}

#[test]
fn expiry_fires_and_removes_the_key() {
    let mut db = Db::new();
    let (resp, sched) = run(&mut db, &[b"SET", b"k", b"v", b"PX", b"50"]);
    expect_simple(&resp, b"OK");
    let ex = sched.expect("SET with PX must hand back an expiry to schedule");
    assert_eq!(ex.key, b"k".to_vec());
    assert_eq!(ex.ms, 50);
    // The timer elapsing is the caller's business; once it has, the
    // expiry task performs exactly this step.
    assert!(db.expire(&ex.key, ex.token));
    let (resp, _) = run(&mut db, &[b"GET", b"k"]);
    assert!(matches!(resp, RespValue::Null));
}

#[test]
fn overwrite_cancels_a_pending_expiry() {
    let mut db = Db::new();
    let (_, sched) = run(&mut db, &[b"SET", b"k", b"v1", b"PX", b"50"]);
    let ex = sched.unwrap();
    let (resp, sched2) = run(&mut db, &[b"SET", b"k", b"v2"]);
    expect_simple(&resp, b"OK");
    assert!(sched2.is_none());
    // The stale expiry finds its token gone and removes nothing.
    assert!(!db.expire(&ex.key, ex.token));
    let (resp, _) = run(&mut db, &[b"GET", b"k"]);
    expect_simple(&resp, b"v2");
}

#[test]
fn rescheduling_hands_out_a_fresh_token() {
    let mut db = Db::new();
    let (_, sched1) = run(&mut db, &[b"SET", b"k", b"v1", b"PX", b"50"]);
    let ex1 = sched1.unwrap();
    let (_, sched2) = run(&mut db, &[b"SET", b"k", b"v2", b"PX", b"90"]);
    let ex2 = sched2.unwrap();
    assert_ne!(ex1.token, ex2.token);
    assert!(!db.expire(&ex1.key, ex1.token));
    let (resp, _) = run(&mut db, &[b"GET", b"k"]);
    expect_simple(&resp, b"v2");
    assert!(db.expire(&ex2.key, ex2.token));
    let (resp, _) = run(&mut db, &[b"GET", b"k"]);
    assert!(matches!(resp, RespValue::Null));
}

#[test]
fn expire_of_an_absent_key_removes_nothing() {
    let mut db = Db::new();
    assert!(!db.expire(&b"ghost".to_vec(), 0));
}

#[test]
fn serialized_writers_last_one_wins() {
    let mut db = Db::new();
    for i in 0..10u8 {
        let val = vec![b'0' + i];
        let (resp, _) = run(&mut db, &[b"SET", b"k", &val]);
        expect_simple(&resp, b"OK");
        // Every read between writes sees the whole last value written.
        let (got, _) = run(&mut db, &[b"GET", b"k"]);
        expect_simple(&got, &val);
    }
    let (got, _) = run(&mut db, &[b"GET", b"k"]);
    expect_simple(&got, b"9");
}

#[test]
fn unknown_command_answers_an_error_and_the_store_lives_on() {
    let mut db = Db::new();
    let (resp, sched) = run(&mut db, &[b"FOOX"]);
    expect_error_reply(&resp, b"ERR unknown command");
    assert!(sched.is_none());
    let (resp, _) = run(&mut db, &[b"PING"]);
    expect_simple(&resp, b"PONG");
}

#[test]
fn wrong_argument_counts_answer_an_error() {
    let mut db = Db::new();
    let (resp, _) = run(&mut db, &[b"PING", b"extra"]);
    expect_error_reply(&resp, b"ERR unknown command");
    let (resp, _) = run(&mut db, &[b"GET"]);
    expect_error_reply(&resp, b"ERR unknown command");
    let (resp, _) = run(&mut db, &[b"SET", b"only-key"]);
    expect_error_reply(&resp, b"ERR unknown command");
}

#[test]
fn set_with_an_unknown_option_answers_an_error() {
    let mut db = Db::new();
    let (resp, sched) = run(&mut db, &[b"SET", b"k", b"v", b"EX", b"10"]);
    expect_error_reply(&resp, b"ERR unknown command");
    assert!(sched.is_none());
}

#[test]
fn set_with_a_non_numeric_deadline_answers_an_error() {
    let mut db = Db::new();
    let (resp, _) = run(&mut db, &[b"SET", b"k", b"v", b"PX", b"soon"]);
    expect_error_reply(&resp, b"ERR unknown command");
}

#[test]
fn a_request_that_is_not_an_array_is_refused() {
    let mut db = Db::new();
    match handle_command(RespValue::new_simple(b"PING".to_vec()), &mut db) {
        Err(RespError::WrongKind { expected, got }) => {
            assert_eq!(expected, "array");
            assert_eq!(got, "simple string");
        }
        other => panic!("expected a wrong-kind error, got {:?}", other),
    }
}

#[test]
fn a_request_with_a_non_bulk_element_is_refused() {
    let mut db = Db::new();
    let req = RespValue::array_with(vec![bulk(b"SET"), RespValue::new_integer(1), bulk(b"v")]);
    assert!(matches!(
        handle_command(req, &mut db),
        Err(RespError::WrongKind { .. })
    ));
}

#[test]
fn handle_set_command_takes_the_arguments_alone() {
    let mut db = Db::new();
    let (resp, sched) =
        handle_set_command(vec![bulk(b"k"), bulk(b"v")], &mut db).unwrap();
    expect_simple(&resp, b"OK");
    assert!(sched.is_none());
    assert_eq!(db.get(&b"k".to_vec()), Some(b"v".to_vec()));
}

#[test]
fn store_reads_return_whole_values() {
    let mut db = Db::new();
    db.set(b"key".to_vec(), b"a longer value".to_vec());
    assert_eq!(db.get(&b"key".to_vec()), Some(b"a longer value".to_vec()));
    assert_eq!(db.get(&b"other".to_vec()), None);
}

#[test]
fn entries_carry_their_expiry_token() {
    let plain = DbEntry::new(b"v".to_vec());
    assert_eq!(plain.value, b"v".to_vec());
    assert!(plain.timeout_token.is_none());
    let timed = DbEntry::with_timeout(b"v".to_vec(), 7);
    assert_eq!(timed.timeout_token, Some(7));
}
