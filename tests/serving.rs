use resp_server::codec::{encode, Decoded};
use resp_server::connection::{Action, Connection, Event, Phase};
use resp_server::dispatch::{dispatch, lookup, Command};
use resp_server::frame::FrameReader;
use resp_server::lines::process_array;
use resp_server::pool::WorkerPool;
use resp_server::value::Value;

fn request(parts: &[&[u8]]) -> Value {
    Value::Array(parts.iter().map(|p| Value::BulkString(p.to_vec())).collect())
}

fn reply_bytes(parts: &[&[u8]]) -> Vec<u8> {
    encode(&dispatch(&request(parts)))
}

fn written(a: Action) -> Vec<u8> {
    match a {
        Action::Write(b) => b,
        other => panic!("expected a write, got {:?}", other),
    }
}

#[test]
fn ping_answers_pong() {
    assert_eq!(reply_bytes(&[b"PING"]), b"+PONG\r\n".to_vec());
    assert_eq!(reply_bytes(&[b"ping"]), b"+PONG\r\n".to_vec());
}

#[test]
fn ping_with_argument_echoes_it() {
    assert_eq!(reply_bytes(&[b"ping", b"yo"]), b"$2\r\nyo\r\n".to_vec());
}

#[test]
fn echo_answers_bulk_string() {
    assert_eq!(reply_bytes(&[b"ECHO", b"hey"]), b"$3\r\nhey\r\n".to_vec());
    assert_eq!(
        reply_bytes(&[b"echo", &[0, 255, 13, 10]]),
        vec![b'$', b'4', 13, 10, 0, 255, 13, 10, 13, 10]
    );
}

#[test]
fn dispatch_errors() {
    assert_eq!(reply_bytes(&[b"nope"]), b"-ERR unknown command\r\n".to_vec());
    assert_eq!(reply_bytes(&[b"echo"]), b"-ERR wrong number of arguments\r\n".to_vec());
    assert_eq!(reply_bytes(&[b"ping", b"a", b"b"]), b"-ERR wrong number of arguments\r\n".to_vec());
    assert_eq!(reply_bytes(&[]), b"-ERR invalid request\r\n".to_vec());
    assert_eq!(
        encode(&dispatch(&Value::Integer(3))),
        b"-ERR invalid request\r\n".to_vec()
    );
    let mixed = Value::Array(vec![Value::BulkString(b"ping".to_vec()), Value::Integer(1)]);
    assert_eq!(encode(&dispatch(&mixed)), b"-ERR invalid request\r\n".to_vec());
}

#[test]
fn lookup_ignores_case() {
    assert_eq!(lookup(&b"PiNg".to_vec()), Some(Command::Ping));
    assert_eq!(lookup(&b"ECHO".to_vec()), Some(Command::Echo));
    assert_eq!(lookup(&b"echoo".to_vec()), None);
}

#[test]
fn chunks_decode_like_the_whole() {
    let whole = b"*2\r\n$4\r\necho\r\n$3\r\nhey\r\n";
    for cut in 1..whole.len() {
        let mut r = FrameReader::new();
        r.feed(&whole[..cut]);
        assert!(matches!(r.next_frame(), Decoded::Incomplete));
        r.feed(&whole[cut..]);
        match r.next_frame() {
            Decoded::Complete(v, n) => {
                assert_eq!(n, whole.len());
                assert_eq!(encode(&v), whole.to_vec());
            }
            other => panic!("cut {}: {:?}", cut, other),
        }
        assert_eq!(r.buffered(), 0);
    }
}

#[test]
fn reader_keeps_pipelined_bytes() {
    let mut r = FrameReader::new();
    r.feed(b"+a\r\n+b");
    assert!(matches!(r.next_frame(), Decoded::Complete(_, 4)));
    assert_eq!(r.buffered(), 2);
    assert!(matches!(r.next_frame(), Decoded::Incomplete));
    r.feed(b"\r\n");
    assert!(matches!(r.next_frame(), Decoded::Complete(Value::SimpleString(ref t), 4) if t == b"b"));
}

#[test]
fn scenario_ping_echo_and_bad_length() {
    let mut c = Connection::new();
    let a = c.step(Event::Received(b"*1\r\n$4\r\nping\r\n".to_vec()));
    assert_eq!(written(a), b"+PONG\r\n".to_vec());
    assert!(matches!(c.step(Event::WriteDone), Action::Read));

    let a = c.step(Event::Received(b"*2\r\n$4\r\necho\r\n$2\r\nhi\r\n".to_vec()));
    assert_eq!(written(a), b"$2\r\nhi\r\n".to_vec());
    assert!(matches!(c.step(Event::WriteDone), Action::Read));

    let a = c.step(Event::Received(b"*1\r\n$7\r\nbadcmd\r\n".to_vec()));
    let reply = written(a);
    assert_eq!(reply[0], b'-');
    assert!(matches!(c.step(Event::WriteDone), Action::Read));
    assert_eq!(c.phase(), Phase::Reading);

    let a = c.step(Event::Received(b"*1\r\n$4\r\nPING\r\n".to_vec()));
    assert_eq!(written(a), b"+PONG\r\n".to_vec());
}

#[test]
fn unknown_command_keeps_connection_open() {
    let mut c = Connection::new();
    let a = c.step(Event::Received(b"*1\r\n$6\r\nbadcmd\r\n".to_vec()));
    assert_eq!(written(a), b"-ERR unknown command\r\n".to_vec());
    assert!(matches!(c.step(Event::WriteDone), Action::Read));
    let a = c.step(Event::Received(b"*2\r\n$4\r\necho\r\n$3\r\nhey\r\n".to_vec()));
    assert_eq!(written(a), b"$3\r\nhey\r\n".to_vec());
}

#[test]
fn connection_reads_on_partial_frames_and_closes() {
    let mut c = Connection::new();
    assert!(matches!(c.step(Event::Received(b"*1\r\n$4\r\npi".to_vec())), Action::Read));
    let a = c.step(Event::Received(b"ng\r\n*1\r\n$4\r\nping\r\n".to_vec()));
    assert_eq!(written(a), b"+PONG\r\n".to_vec());
    let a = c.step(Event::WriteDone);
    assert_eq!(written(a), b"+PONG\r\n".to_vec());
    assert!(matches!(c.step(Event::WriteDone), Action::Read));
    assert!(matches!(c.step(Event::PeerClosed), Action::Close));
    assert_eq!(c.phase(), Phase::Closed);
    assert!(matches!(c.step(Event::Received(b"+x\r\n".to_vec())), Action::Close));
}

#[test]
fn oversized_frame_closes_connection() {
    let mut c = Connection::new();
    assert!(matches!(c.step(Event::Received(b"$900000000\r\n".to_vec())), Action::Close));
    assert_eq!(c.phase(), Phase::Closed);
    let mut d = Connection::new();
    assert!(matches!(d.step(Event::Received(b"$99999999999999999999\r\n".to_vec())), Action::Close));
    assert_eq!(d.phase(), Phase::Closed);
}

#[test]
fn pool_of_two_makes_third_client_wait() {
    let mut p = WorkerPool::new(2);
    p.enqueue(1);
    p.enqueue(2);
    p.enqueue(3);
    assert_eq!(p.claim(), Some(1));
    assert_eq!(p.claim(), Some(2));
    assert_eq!(p.claim(), None);
    assert_eq!(p.in_service(), 2);
    assert_eq!(p.queued(), 1);
    assert!(p.release(1));
    assert!(!p.release(1));
    assert_eq!(p.claim(), Some(3));
    assert_eq!(p.claim(), None);
    assert!(p.release(2));
    assert!(p.release(3));
    assert_eq!(p.in_service(), 0);
    assert_eq!(p.queued(), 0);
    assert_eq!(p.size(), 2);
}

#[test]
fn process_array_answers_decoded_requests() {
    assert_eq!(process_array(&request(&[b"PING"])), b"+PONG\r\n".to_vec());
    assert_eq!(process_array(&request(&[b"echo", b"hey"])), b"$3\r\nhey\r\n".to_vec());
    assert_eq!(process_array(&request(&[b"foo"])), b"-ERR unknown command\r\n".to_vec());
    assert_eq!(process_array(&request(&[b"echo"])), b"-ERR wrong number of arguments\r\n".to_vec());
    assert_eq!(process_array(&request(&[b"PING", b"x"])), b"$1\r\nx\r\n".to_vec());
    let mixed = Value::Array(vec![Value::Integer(5)]);
    assert_eq!(process_array(&mixed), b"-ERR invalid request\r\n".to_vec());
}
