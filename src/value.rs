use vstd::prelude::*;
use vstd::utf8::valid_utf8;

verus! {

/// Largest bulk-string payload the codec accepts, in bytes.
pub const MAX_BULK_LEN: usize = 536870912;

/// Largest element count the codec accepts for one array.
pub const MAX_ARRAY_LEN: usize = 1048576;

/// Deepest nesting of arrays the codec accepts below a top-level frame.
pub const MAX_DEPTH: usize = 32;

/// Mathematical model of a protocol value.
pub enum Resp {
    Array(Seq<Resp>),
    Bulk(Seq<u8>),
    NullBulk,
    Simple(Seq<u8>),
    Error(Seq<u8>),
    Integer(int),
}

/// A protocol value. Simple-string and error payloads are UTF-8 texts,
/// kept as bytes, that in a well-formed value hold neither `\r` nor `\n`.
#[derive(Debug)]
pub enum Value {
    Array(Vec<Value>),
    BulkString(Vec<u8>),
    NullBulkString,
    SimpleString(Vec<u8>),
    Error(Vec<u8>),
    Integer(i64),
}

impl View for Value {
    type V = Resp;

    open spec fn view(&self) -> Resp
        decreases self,
    {
        match self {
            Value::Array(items) => Resp::Array(
                Seq::new(
                    items.len() as nat,
                    |i: int|
                        if 0 <= i < items.len() {
                            items[i]@
                        } else {
                            Resp::NullBulk
                        },
                ),
            ),
            Value::BulkString(b) => Resp::Bulk(b@),
            Value::NullBulkString => Resp::NullBulk,
            Value::SimpleString(t) => Resp::Simple(t@),
            Value::Error(t) => Resp::Error(t@),
            Value::Integer(n) => Resp::Integer(*n as int),
        }
    }
}

pub open spec fn is_line_byte(c: u8) -> bool {
    c != 13 && c != 10
}

/// A text that can stand on one protocol line: no carriage return, no line feed.
pub open spec fn is_text(t: Seq<u8>) -> bool {
    forall|i: int| 0 <= i < t.len() ==> is_line_byte(#[trigger] t[i])
}

/// `v` is within the codec's limits when arrays may nest `depth` levels deep.
pub open spec fn representable(v: Resp, depth: nat) -> bool
    decreases v,
{
    match v {
        Resp::Array(items) => {
            &&& depth > 0
            &&& items.len() <= MAX_ARRAY_LEN
            &&& forall|i: int|
                0 <= i < items.len() ==> representable(#[trigger] items[i], (depth - 1) as nat)
        },
        Resp::Bulk(b) => b.len() <= MAX_BULK_LEN,
        Resp::NullBulk => true,
        Resp::Simple(t) => is_text(t) && valid_utf8(t),
        Resp::Error(t) => is_text(t) && valid_utf8(t),
        Resp::Integer(n) => i64::MIN <= n <= i64::MAX,
    }
}

/// Every simple-string and error text in `v` stands on one line.
pub open spec fn well_formed(v: Resp) -> bool
    decreases v,
{
    match v {
        Resp::Array(items) => forall|i: int|
            0 <= i < items.len() ==> well_formed(#[trigger] items[i]),
        Resp::Simple(t) => is_text(t),
        Resp::Error(t) => is_text(t),
        _ => true,
    }
}

/// A value that a top-level frame can carry.
pub open spec fn representable_frame(v: Resp) -> bool {
    representable(v, MAX_DEPTH as nat)
}

/// Views of a sequence of values.
pub open spec fn views(items: Seq<Value>) -> Seq<Resp> {
    items.map_values(|x: Value| x@)
}

/// The model of an array is the sequence of its items' models.
pub proof fn lemma_array_view(items: Vec<Value>)
    ensures
        Value::Array(items)@ == Resp::Array(views(items@)),
{
    let m = Value::Array(items)@;
    assert(m->Array_0 =~= views(items@));
}

} // verus!
