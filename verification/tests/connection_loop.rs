use bytes::BytesMut;
use miniredis::connection::ConnAction;
use miniredis::connection::connection_step;
use miniredis::database::Db;

#[test]
fn a_session_over_wire_bytes() {
    let mut db = Db::new();
    let mut data = BytesMut::new();

    // An empty buffer asks for more bytes.
    assert!(matches!(connection_step(&mut data, &mut db), ConnAction::NeedMore));

    // SET arrives split across two reads.
    data.extend_from_slice(b"*3\r\n$3\r\nSET\r\n$1\r\nk");
    assert!(matches!(connection_step(&mut data, &mut db), ConnAction::NeedMore));
    data.extend_from_slice(b"\r\n$1\r\nv\r\n");
    match connection_step(&mut data, &mut db) {
        ConnAction::Reply(resp, sched) => {
            assert_eq!(resp.encode(), b"+OK\r\n".to_vec());
            assert!(sched.is_none());
        }
        _ => panic!("a whole SET must be answered"),
    }
    assert_eq!(data.len(), 0);

    // GET k answers the stored value.
    data.extend_from_slice(b"*2\r\n$3\r\nGET\r\n$1\r\nk\r\n");
    match connection_step(&mut data, &mut db) {
        ConnAction::Reply(resp, _) => assert_eq!(resp.encode(), b"+v\r\n".to_vec()),
        _ => panic!("a whole GET must be answered"),
    }
}

#[test]
fn an_unknown_command_keeps_the_session_alive() {
    let mut db = Db::new();
    let mut data = BytesMut::new();
    data.extend_from_slice(b"*1\r\n$4\r\nFOOX\r\n");
    match connection_step(&mut data, &mut db) {
        ConnAction::Reply(resp, _) => {
            assert_eq!(resp.encode(), b"-ERR unknown command\r\n".to_vec());
        }
        _ => panic!("an unknown command is answered, not dropped"),
    }
    data.extend_from_slice(b"*1\r\n$4\r\nPING\r\n");
    match connection_step(&mut data, &mut db) {
        ConnAction::Reply(resp, _) => assert_eq!(resp.encode(), b"+PONG\r\n".to_vec()),
        _ => panic!("the connection must still answer PING"),
    }
}

#[test]
fn a_malformed_message_closes_the_connection() {
    let mut db = Db::new();
    let mut data = BytesMut::new();
    data.extend_from_slice(b"!bad\r\n");
    assert!(matches!(connection_step(&mut data, &mut db), ConnAction::Close));
}

#[test]
fn a_request_that_is_not_an_array_closes_the_connection() {
    let mut db = Db::new();
    let mut data = BytesMut::new();
    data.extend_from_slice(b"+PING\r\n");
    assert!(matches!(connection_step(&mut data, &mut db), ConnAction::Close));
}

#[test]
fn set_with_expiry_hands_the_timer_back() {
    let mut db = Db::new();
    let mut data = BytesMut::new();
    data.extend_from_slice(b"*5\r\n$3\r\nSET\r\n$1\r\nk\r\n$1\r\nv\r\n$2\r\nPX\r\n$2\r\n50\r\n");
    match connection_step(&mut data, &mut db) {
        ConnAction::Reply(resp, sched) => {
            assert_eq!(resp.encode(), b"+OK\r\n".to_vec());
            let ex = sched.expect("SET with PX hands back an expiry");
            assert_eq!(ex.key, b"k".to_vec());
            assert_eq!(ex.ms, 50);
            assert!(db.expire(&ex.key, ex.token));
        }
        _ => panic!("a whole SET with PX must be answered"),
    }
}
