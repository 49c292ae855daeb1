use vstd::prelude::*;
use crate::codec::copy_range;
use crate::value::{Resp, Value, is_text, well_formed};

verus! {

/// The bytes of an ASCII text.
pub open spec fn ascii_bytes(s: Seq<char>) -> Seq<u8> {
    s.map_values(|c: char| c as u8)
}

/// A byte with ASCII upper-case letters made lower-case.
pub open spec fn ascii_lower(c: u8) -> u8 {
    if 65 <= c <= 90 {
        (c + 32) as u8
    } else {
        c
    }
}

/// Two byte texts equal but for the case of ASCII letters.
pub open spec fn same_ignoring_case(a: Seq<u8>, b: Seq<u8>) -> bool {
    a.len() == b.len() && forall|i: int|
        0 <= i < a.len() ==> ascii_lower(#[trigger] a[i]) == ascii_lower(b[i])
}

/// The commands the server knows.
#[derive(Debug, Clone, Copy, PartialEq, Eq, Structural)]
pub enum Command {
    Ping,
    Echo,
}

/// The command a request name selects, regardless of case.
pub open spec fn command_named(name: Seq<u8>) -> Option<Command> {
    if same_ignoring_case(name, ascii_bytes("ping"@)) {
        Some(Command::Ping)
    } else if same_ignoring_case(name, ascii_bytes("echo"@)) {
        Some(Command::Echo)
    } else {
        None
    }
}

pub open spec fn all_bulk(items: Seq<Resp>) -> bool {
    forall|i: int| 0 <= i < items.len() ==> (#[trigger] items[i]) is Bulk
}

pub open spec fn invalid_request() -> Resp {
    Resp::Error(ascii_bytes("ERR invalid request"@))
}

pub open spec fn unknown_command() -> Resp {
    Resp::Error(ascii_bytes("ERR unknown command"@))
}

pub open spec fn wrong_arity() -> Resp {
    Resp::Error(ascii_bytes("ERR wrong number of arguments"@))
}

/// The reply to a frame the codec rejected.
pub open spec fn protocol_error_reply() -> Resp {
    Resp::Error(ascii_bytes("ERR protocol error"@))
}

/// The reply a command gives to its arguments. `PING` answers `PONG`, or,
/// given one argument, that argument; `ECHO` answers its one argument.
pub open spec fn command_reply(c: Command, args: Seq<Resp>) -> Resp {
    match c {
        Command::Ping => if args.len() == 0 {
            Resp::Simple(ascii_bytes("PONG"@))
        } else if args.len() == 1 {
            Resp::Bulk(args[0]->Bulk_0)
        } else {
            wrong_arity()
        },
        Command::Echo => if args.len() == 1 {
            Resp::Bulk(args[0]->Bulk_0)
        } else {
            wrong_arity()
        },
    }
}

/// The reply to a decoded request: a non-empty array of bulk strings names
/// a command and its arguments; anything else is an invalid request.
pub open spec fn reply_for(request: Resp) -> Resp {
    match request {
        Resp::Array(items) => if items.len() == 0 || !all_bulk(items) {
            invalid_request()
        } else {
            match command_named(items[0]->Bulk_0) {
                Some(c) => command_reply(c, items.drop_first()),
                None => unknown_command(),
            }
        },
        _ => invalid_request(),
    }
}

/// The bytes of an ASCII literal.
pub(crate) fn ascii_text(s: &str) -> (r: Vec<u8>)
    requires
        s.is_ascii(),
    ensures
        r@ == ascii_bytes(s@),
{
    let b = s.as_bytes();
    proof {
        vstd::string::is_ascii_spec_bytes(s);
    }
    let r = copy_range(b, 0, b.len());
    assert(r@ =~= ascii_bytes(s@));
    r
}

/// Whether `a` and `b` are equal but for the case of ASCII letters.
pub fn bytes_same_ignoring_case(a: &[u8], b: &[u8]) -> (r: bool)
    ensures
        r == same_ignoring_case(a@, b@),
{
    if a.len() != b.len() {
        return false;
    }
    let mut i: usize = 0;
    while i < a.len()
        invariant
            i <= a.len(),
            a.len() == b.len(),
            forall|j: int| 0 <= j < i ==> ascii_lower(#[trigger] a@[j]) == ascii_lower(b@[j]),
        decreases a.len() - i,
    {
        let x = a[i];
        let y = b[i];
        let lx = if 65 <= x && x <= 90 {
            x + 32
        } else {
            x
        };
        let ly = if 65 <= y && y <= 90 {
            y + 32
        } else {
            y
        };
        if lx != ly {
            return false;
        }
        i = i + 1;
    }
    true
}

/// Looks a request name up in the command table.
pub fn lookup(name: &Vec<u8>) -> (r: Option<Command>)
    ensures
        r == command_named(name@),
{
    let ping = "ping";
    let echo = "echo";
    proof {
        reveal_strlit("ping");
        reveal_strlit("echo");
    }
    if bytes_same_ignoring_case(name.as_slice(), ascii_text(ping).as_slice()) {
        Some(Command::Ping)
    } else if bytes_same_ignoring_case(name.as_slice(), ascii_text(echo).as_slice()) {
        Some(Command::Echo)
    } else {
        None
    }
}

fn error_reply(text: &str) -> (r: Value)
    requires
        text.is_ascii(),
    ensures
        r@ == Resp::Error(ascii_bytes(text@)),
{
    Value::Error(ascii_text(text))
}

fn invalid_request_reply() -> (r: Value)
    ensures
        r@ == invalid_request(),
{
    let t = "ERR invalid request";
    proof {
        reveal_strlit("ERR invalid request");
    }
    error_reply(t)
}

fn wrong_arity_reply() -> (r: Value)
    ensures
        r@ == wrong_arity(),
{
    let t = "ERR wrong number of arguments";
    proof {
        reveal_strlit("ERR wrong number of arguments");
    }
    error_reply(t)
}

/// The error value answered to a rejected frame.
pub fn protocol_error_value() -> (r: Value)
    ensures
        r@ == protocol_error_reply(),
{
    let t = "ERR protocol error";
    proof {
        reveal_strlit("ERR protocol error");
    }
    error_reply(t)
}

/// Every reply, and the reply to a rejected frame, can be written to the wire.
pub proof fn lemma_reply_well_formed(request: Resp)
    ensures
        well_formed(reply_for(request)),
        well_formed(protocol_error_reply()),
{
    reveal_strlit("ERR invalid request");
    reveal_strlit("ERR wrong number of arguments");
    reveal_strlit("ERR unknown command");
    reveal_strlit("ERR protocol error");
    reveal_strlit("PONG");
    assert(is_text(ascii_bytes("ERR invalid request"@)));
    assert(is_text(ascii_bytes("ERR wrong number of arguments"@)));
    assert(is_text(ascii_bytes("ERR unknown command"@)));
    assert(is_text(ascii_bytes("ERR protocol error"@)));
    assert(is_text(ascii_bytes("PONG"@)));
}

fn unknown_command_reply() -> (r: Value)
    ensures
        r@ == unknown_command(),
{
    let t = "ERR unknown command";
    proof {
        reveal_strlit("ERR unknown command");
    }
    error_reply(t)
}

/// The argument at `i` as a bulk reply.
fn bulk_copy(items: &Vec<Value>, i: usize) -> (r: Value)
    requires
        i < items.len(),
        items[i as int] is BulkString,
    ensures
        r@ == Resp::Bulk(items[i as int]@->Bulk_0),
{
    match &items[i] {
        Value::BulkString(a) => {
            assert(items[i as int]@ == Resp::Bulk(a@));
            let c = copy_range(a.as_slice(), 0, a.len());
            assert(c@ =~= a@);
            Value::BulkString(c)
        },
        _ => Value::NullBulkString,
    }
}

/// Answers one decoded request.
pub fn dispatch(request: &Value) -> (r: Value)
    ensures
        r@ == reply_for(request@),
{
    match request {
        Value::Array(items) => {
            let ghost model = request@->Array_0;
            assert(model.len() == items.len());
            if items.len() == 0 {
                return invalid_request_reply();
            }
            let mut i: usize = 0;
            while i < items.len()
                invariant
                    i <= items.len(),
                    model.len() == items.len(),
                    request@ == Resp::Array(model),
                    forall|j: int| 0 <= j < items.len() ==> model[j] == (#[trigger] items[j])@,
                    forall|j: int| 0 <= j < i ==> (#[trigger] model[j]) is Bulk,
                decreases items.len() - i,
            {
                match &items[i] {
                    Value::BulkString(_) => {},
                    _ => {
                        assert(!(model[i as int] is Bulk));
                        return invalid_request_reply();
                    },
                }
                i = i + 1;
            }
            assert(all_bulk(model));
            let cmd = match &items[0] {
                Value::BulkString(name) => lookup(name),
                _ => None,
            };
            let ghost args = model.drop_first();
            match cmd {
                Some(Command::Ping) => {
                    if items.len() == 1 {
                        let t = "PONG";
                        proof {
                            reveal_strlit("PONG");
                        }
                        Value::SimpleString(ascii_text(t))
                    } else if items.len() == 2 {
                        bulk_copy(items, 1)
                    } else {
                        wrong_arity_reply()
                    }
                },
                Some(Command::Echo) => {
                    if items.len() == 2 {
                        bulk_copy(items, 1)
                    } else {
                        wrong_arity_reply()
                    }
                },
                None => unknown_command_reply(),
            }
        },
        _ => invalid_request_reply(),
    }
}

} // verus!
