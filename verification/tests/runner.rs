use mini_redis::connection::{after_read, parse_frame, ConnectionError, ErrorKind, ReadStep};
use mini_redis::db::DB;
use mini_redis::frame::{Frame, FrameError};
use mini_redis::runner::{word_of, Runner, RunnerError, Word};
use std::collections::VecDeque;

fn string(text: &str) -> Frame {
    Frame::SimpleString(text.to_string())
}

fn array(items: Vec<Frame>) -> Frame {
    Frame::Array(VecDeque::from(items))
}

/// One connection: the bytes that came in, and the bytes that go back.
fn serve(db: &mut DB, request: &[u8], now: u32) -> Vec<u8> {
    let (frame, taken) = parse_frame(request).unwrap().unwrap();
    assert_eq!(taken, request.len());
    Runner::new(db).respond_at(frame, now).to_bytes()
}

#[test]
fn ping_is_answered_with_pong() {
    let mut db = DB::new();
    assert_eq!(serve(&mut db, b"+PING\r\n", 0), b"+PONG\r\n".to_vec());
}

#[test]
fn ping_in_any_case() {
    let mut db = DB::new();
    assert_eq!(serve(&mut db, b"+ping\r\n", 0), b"+PONG\r\n".to_vec());
    assert_eq!(serve(&mut db, b"+PiNg\r\n", 0), b"+PONG\r\n".to_vec());
}

#[test]
fn set_then_get_in_two_connections() {
    let mut db = DB::new();
    let reply = serve(&mut db, b"*3\r\n+SET\r\n+user\r\n+kariuki\r\n", 0);
    assert_eq!(reply, b"+OK\r\n".to_vec());
    let reply = serve(&mut db, b"*2\r\n+GET\r\n+user\r\n", 5);
    assert_eq!(reply, b"+kariuki\r\n".to_vec());
}

#[test]
fn set_with_ttl_expires() {
    let mut db = DB::new();
    let start = 1_000;
    let reply = serve(&mut db, b"*5\r\n+SET\r\n+k\r\n+v\r\n+EX\r\n:1\r\n", start);
    assert_eq!(reply, b"+OK\r\n".to_vec());
    db.delete_entries_at(start);
    assert_eq!(serve(&mut db, b"*2\r\n+GET\r\n+k\r\n", start), b"+v\r\n".to_vec());
    db.delete_entries_at(start + 2);
    assert_eq!(serve(&mut db, b"*2\r\n+GET\r\n+k\r\n", start + 2), b"-Nill\r\n".to_vec());
}

#[test]
fn get_of_missing_key_is_nil() {
    let mut db = DB::new();
    assert_eq!(serve(&mut db, b"*2\r\n+GET\r\n+absent\r\n", 0), b"-Nill\r\n".to_vec());
}

#[test]
fn unknown_command_is_unsupported() {
    let mut db = DB::new();
    let reply = serve(&mut db, b"*1\r\n+FOO\r\n", 0);
    assert_eq!(reply, b"-Protocol Error: Unsupported usage of command or values\r\n".to_vec());
}

#[test]
fn commands_in_lower_case() {
    let mut db = DB::new();
    let set = array(vec![string("set"), string("user-1"), string("kariuki"), string("ex"), Frame::Integer(40)]);
    let mut runner = Runner::new(&mut db);
    assert_eq!(runner.run_at(set, 100).unwrap(), string("OK"));
    let get = array(vec![string("get"), string("user-1")]);
    assert_eq!(runner.run_at(get, 100).unwrap(), string("kariuki"));
    assert_eq!(db.store().entry_at(0).unwrap().1.expires_at, Some(140));
}

#[test]
fn run_counts_ttl_from_the_clock() {
    let mut db = DB::new();
    let before = mini_redis::clock::now();
    let set = array(vec![string("SET"), string("k"), string("v"), string("EX"), Frame::Integer(10)]);
    assert_eq!(Runner::new(&mut db).run(set).unwrap(), string("OK"));
    let after = mini_redis::clock::now();
    let expires_at = db.store().entry_at(0).unwrap().1.expires_at.unwrap();
    assert!(before + 10 <= expires_at && expires_at <= after + 10);
    assert_eq!(Runner::new(&mut db).run(string("PING")).unwrap(), string("PONG"));
}

#[test]
fn set_without_ttl_clears_the_ttl() {
    let mut db = DB::new();
    let mut runner = Runner::new(&mut db);
    let timed = array(vec![string("SET"), string("k"), string("v"), string("EX"), Frame::Integer(1)]);
    assert!(runner.run_at(timed, 100).is_ok());
    let plain = array(vec![string("SET"), string("k"), string("w")]);
    assert!(runner.run_at(plain, 100).is_ok());
    db.delete_entries_at(1_000);
    assert_eq!(db.get("k"), Some(b"w".to_vec()));
}

#[test]
fn ttl_larger_than_a_second_count_saturates() {
    let mut db = DB::new();
    let set = array(vec![string("SET"), string("k"), string("v"), string("EX"), Frame::Integer(u64::MAX)]);
    assert!(Runner::new(&mut db).run_at(set, 5).is_ok());
    assert_eq!(db.store().entry_at(0).unwrap().1.expires_at, Some(u32::MAX));
}

#[test]
fn empty_array_is_incomplete() {
    let mut db = DB::new();
    let res = Runner::new(&mut db).run_at(array(vec![]), 0);
    assert!(matches!(res, Err(RunnerError::Incomplete)));
    let reply = serve(&mut db, b"*0\r\n", 0);
    assert_eq!(reply, b"-Protocol Error: Incorrect usage of command\r\n".to_vec());
}

#[test]
fn command_must_be_a_string() {
    let mut db = DB::new();
    let mut runner = Runner::new(&mut db);
    let res = runner.run_at(array(vec![Frame::Integer(1), string("k")]), 0);
    assert!(matches!(res, Err(RunnerError::Unsupported)));
    assert!(matches!(runner.run_at(Frame::Integer(1), 0), Err(RunnerError::Unsupported)));
    let error = Frame::SimpleError("PING".to_string());
    assert!(matches!(runner.run_at(error, 0), Err(RunnerError::Unsupported)));
    assert!(matches!(runner.run_at(string("SET"), 0), Err(RunnerError::Unsupported)));
}

#[test]
fn set_checks_arity_and_types() {
    let mut db = DB::new();
    let mut runner = Runner::new(&mut db);
    let res = runner.run_at(array(vec![string("SET")]), 0);
    assert!(matches!(res, Err(RunnerError::Incomplete)));
    let res = runner.run_at(array(vec![string("SET"), string("k")]), 0);
    assert!(matches!(res, Err(RunnerError::Incomplete)));
    let res = runner.run_at(array(vec![string("SET"), Frame::Integer(1), string("v")]), 0);
    assert!(matches!(res, Err(RunnerError::Unsupported)));
    let res = runner.run_at(array(vec![string("SET"), string("k"), Frame::Integer(1)]), 0);
    assert!(matches!(res, Err(RunnerError::Unsupported)));
    let res = runner.run_at(array(vec![string("SET"), string("k"), string("v"), string("PX"), Frame::Integer(1)]), 0);
    assert!(matches!(res, Err(RunnerError::Unsupported)));
    let res = runner.run_at(array(vec![string("SET"), string("k"), string("v"), Frame::Integer(1)]), 0);
    assert!(matches!(res, Err(RunnerError::Unsupported)));
    let res = runner.run_at(array(vec![string("SET"), string("k"), string("v"), string("EX")]), 0);
    assert!(matches!(res, Err(RunnerError::Incomplete)));
    let res = runner.run_at(array(vec![string("SET"), string("k"), string("v"), string("EX"), string("1")]), 0);
    assert!(matches!(res, Err(RunnerError::Other(text)) if text == "Incorrect ttl data type. Should be an integer"));
    let res = runner.run_at(
        array(vec![string("SET"), string("k"), string("v"), string("EX"), Frame::Integer(1), string("x")]),
        0,
    );
    assert!(matches!(res, Err(RunnerError::Unsupported)));
    assert_eq!(db.store().len(), 0);
}

#[test]
fn get_checks_arity_and_types() {
    let mut db = DB::new();
    let mut runner = Runner::new(&mut db);
    let res = runner.run_at(array(vec![string("GET")]), 0);
    assert!(matches!(res, Err(RunnerError::Incomplete)));
    let res = runner.run_at(array(vec![string("GET"), Frame::Integer(1)]), 0);
    assert!(matches!(res, Err(RunnerError::Unsupported)));
    let res = runner.run_at(array(vec![string("GET"), string("a"), string("b")]), 0);
    assert!(matches!(res, Err(RunnerError::Unsupported)));
}

#[test]
fn get_renders_bytes_lossily() {
    let mut db = DB::new();
    db.set_at("k".to_string(), vec![b'a', 0xff, b'b'], None, 0);
    let res = Runner::new(&mut db).run_at(array(vec![string("GET"), string("k")]), 0);
    assert_eq!(res.unwrap(), string("a\u{fffd}b"));
}

#[test]
fn refusals_have_their_replies() {
    let reply = RunnerError::Incomplete.reply();
    assert_eq!(reply, Frame::SimpleError("Protocol Error: Incorrect usage of command".to_string()));
    let reply = RunnerError::Unsupported.reply();
    assert_eq!(
        reply,
        Frame::SimpleError("Protocol Error: Unsupported usage of command or values".to_string())
    );
    let reply = RunnerError::Other("why".to_string()).reply();
    assert_eq!(reply, Frame::SimpleError("why".to_string()));
}

#[test]
fn words_are_told_apart() {
    assert_eq!(word_of("PING"), Word::Ping);
    assert_eq!(word_of("SET"), Word::SetKey);
    assert_eq!(word_of("GET"), Word::GetKey);
    assert_eq!(word_of("EX"), Word::Expire);
    assert_eq!(word_of("ping"), Word::Unknown);
    assert_eq!(word_of(""), Word::Unknown);
    assert_eq!(word_of("SETS"), Word::Unknown);
}

#[test]
fn connection_errors_have_their_replies() {
    let err = ConnectionError::FrameError(FrameError::Other("Protocol Error: Invalid input ".to_string()));
    assert_eq!(err.reply(), Some(Frame::SimpleError("Protocol Error: Invalid input ".to_string())));
    assert_eq!(ConnectionError::FrameError(FrameError::Incomplete).reply(), None);
    let err = ConnectionError::IOError(ErrorKind::ConnectionReset);
    assert_eq!(err.reply(), Some(Frame::SimpleError("connection reset".to_string())));
    let err = ConnectionError::IOError(ErrorKind::InvalidInput);
    assert_eq!(err.reply(), Some(Frame::SimpleError("invalid input parameter".to_string())));
    assert_eq!(ErrorKind::ConnectionReset.description(), "connection reset");
}

#[test]
fn read_steps() {
    assert!(matches!(after_read(Some(10), 10), ReadStep::Again));
    assert!(matches!(after_read(Some(1), 100), ReadStep::Again));
    assert!(matches!(after_read(Some(0), 0), ReadStep::Closed));
    assert!(matches!(
        after_read(Some(0), 3),
        ReadStep::Failed(ConnectionError::IOError(ErrorKind::ConnectionReset))
    ));
    assert!(matches!(
        after_read(None, 0),
        ReadStep::Failed(ConnectionError::IOError(ErrorKind::InvalidInput))
    ));
}

#[test]
fn malformed_request_is_answered_with_its_reason() {
    let err = parse_frame(b"?\r\n").unwrap_err();
    let reply = ConnectionError::FrameError(err).reply().unwrap();
    assert_eq!(reply.to_bytes(), b"-Protocol Error: Invalid input \r\n".to_vec());
}

#[test]
fn commands_run_on_words() {
    let mut db = DB::new();
    let mut runner = Runner::new(&mut db);
    let args = VecDeque::from(vec![string("k"), string("v"), string("whatever"), Frame::Integer(9)]);
    assert_eq!(runner.run_cmd(Word::SetKey, Word::Expire, args, 1).unwrap(), string("OK"));
    let args = VecDeque::from(vec![string("k")]);
    assert_eq!(runner.run_cmd(Word::GetKey, Word::Unknown, args, 1).unwrap(), string("v"));
    let args = VecDeque::from(vec![string("k")]);
    assert!(matches!(
        runner.run_cmd(Word::Ping, Word::Unknown, args, 1),
        Err(RunnerError::Unsupported)
    ));
    let args = VecDeque::from(vec![string("k"), string("v"), string("EX"), Frame::Integer(9)]);
    assert!(matches!(runner.run_set(args, Word::Unknown, 1), Err(RunnerError::Unsupported)));
    let args = VecDeque::from(vec![string("other"), string("w")]);
    assert_eq!(runner.run_set(args, Word::Unknown, 1).unwrap(), string("OK"));
    let args = VecDeque::from(vec![string("other")]);
    assert_eq!(runner.run_get(args).unwrap(), string("w"));
    let args = VecDeque::from(vec![string("none")]);
    assert_eq!(runner.run_get(args).unwrap(), Frame::SimpleError("Nill".to_string()));
    assert_eq!(db.store().entry_at(0).unwrap().1.expires_at, Some(10));
    assert_eq!(Runner::run_word(Word::Ping).unwrap(), string("PONG"));
    assert!(matches!(Runner::run_word(Word::SetKey), Err(RunnerError::Unsupported)));
    assert!(matches!(Runner::run_word(Word::Unknown), Err(RunnerError::Unsupported)));
}

#[test]
fn default_database_is_empty() {
    let db = DB::default();
    assert_eq!(db.store().len(), 0);
    assert_eq!(db.get("k"), None);
}

#[test]
fn respond_counts_ttl_from_the_clock() {
    let mut db = DB::new();
    let before = mini_redis::clock::now();
    let set = array(vec![string("SET"), string("k"), string("v"), string("EX"), Frame::Integer(10)]);
    assert_eq!(Runner::new(&mut db).respond(set), string("OK"));
    let after = mini_redis::clock::now();
    let expires_at = db.store().entry_at(0).unwrap().1.expires_at.unwrap();
    assert!(before + 10 <= expires_at && expires_at <= after + 10);
    let reply = Runner::new(&mut db).respond(array(vec![string("DEL"), string("k")]));
    let text = "Protocol Error: Unsupported usage of command or values".to_string();
    assert_eq!(reply, Frame::SimpleError(text));
}
