use vstd::prelude::*;
use vstd::utf8::encode_utf8;
use crate::codec::{Decoded, Parse, decode, encode, encoding, parse_frame};
use crate::dispatch::{
    all_bulk, bytes_same_ignoring_case, dispatch, same_ignoring_case, lemma_reply_well_formed, protocol_error_reply,
    protocol_error_value, reply_for,
};
use crate::value::{Resp, Value, lemma_array_view, views, well_formed};

verus! {

/// The type a leading character announces.
#[derive(Debug, Clone, Copy, PartialEq, Eq, Structural)]
pub enum RESPType {
    Array,
    String,
    BulkString,
    Integer,
    Error,
    /// No type starts with this character.
    Unknown,
}

pub open spec fn type_of_char(c: char) -> RESPType {
    if c == '+' {
        RESPType::String
    } else if c == '-' {
        RESPType::Error
    } else if c == ':' {
        RESPType::Integer
    } else if c == '$' {
        RESPType::BulkString
    } else if c == '*' {
        RESPType::Array
    } else {
        RESPType::Unknown
    }
}

pub fn char_to_type(c: char) -> (r: RESPType)
    ensures
        r == type_of_char(c),
{
    match c {
        '+' => RESPType::String,
        '-' => RESPType::Error,
        ':' => RESPType::Integer,
        '$' => RESPType::BulkString,
        '*' => RESPType::Array,
        _ => RESPType::Unknown,
    }
}

/// The wire bytes of the reply to a decoded request.
pub fn process_array(request: &Value) -> (r: Vec<u8>)
    ensures
        r@ == encoding(reply_for(request@)),
{
    let reply = dispatch(request);
    proof {
        lemma_reply_well_formed(request@);
    }
    encode(&reply)
}

/// What is answered to a buffer that starts at a frame boundary: the reply
/// to the decoded request, an error reply to a rejected frame, and nothing
/// yet to an unfinished one.
pub open spec fn reply_to_frame(b: Seq<u8>) -> Option<Seq<u8>> {
    match parse_frame(b) {
        Parse::Done(v, _) => Some(encoding(reply_for(v))),
        Parse::Incomplete => None,
        Parse::Invalid(_) => Some(encoding(protocol_error_reply())),
    }
}

/// Answers the request at the start of `input`; `None` asks for more data.
pub fn parse_req(input: &[u8]) -> (r: Option<Vec<u8>>)
    ensures
        match r {
            Some(x) => reply_to_frame(input@) == Some(x@),
            None => reply_to_frame(input@) is None,
        },
{
    match decode(input) {
        Decoded::Complete(v, _) => Some(process_array(&v)),
        Decoded::Incomplete => None,
        Decoded::Invalid(_) => {
            let reply = protocol_error_value();
            proof {
                lemma_reply_well_formed(Resp::NullBulk);
            }
            Some(encode(&reply))
        },
    }
}

/// The UTF-8 bytes of a text.
pub open spec fn text_bytes(s: Seq<char>) -> Seq<u8> {
    encode_utf8(s)
}

/// The items of the array of bulk strings that `b` starts with.
pub open spec fn bulk_array(b: Seq<u8>) -> Option<Seq<Resp>> {
    match parse_frame(b) {
        Parse::Done(Resp::Array(items), _) => if all_bulk(items) {
            Some(items)
        } else {
            None
        },
        _ => None,
    }
}

/// Index of the first item, from `from` on, that spells `cmd` in either case.
pub open spec fn first_named(items: Seq<Resp>, cmd: Seq<u8>, from: int) -> Option<int>
    decreases items.len() - from,
{
    if from < 0 || from >= items.len() {
        None
    } else if same_ignoring_case(items[from]->Bulk_0, cmd) {
        Some(from)
    } else {
        first_named(items, cmd, from + 1)
    }
}

/// The items after the first one that spells `cmd`; none when no item does.
pub open spec fn items_after(items: Seq<Resp>, cmd: Seq<u8>) -> Seq<Resp> {
    match first_named(items, cmd, 0) {
        Some(k) => items.subrange(k + 1, items.len() as int),
        None => Seq::empty(),
    }
}

fn bytes_of(s: &String) -> (r: &[u8])
    ensures
        r@ == text_bytes(s@),
{
    s.as_str().as_bytes()
}

/// The items of the array of bulk strings at the start of `buf`.
fn decode_bulk_array(buf: &[u8]) -> (r: Option<Vec<Value>>)
    ensures
        match r {
            Some(items) => bulk_array(buf@) == Some(views(items@)),
            None => bulk_array(buf@) is None,
        },
{
    match decode(buf) {
        Decoded::Complete(Value::Array(items), n) => {
            proof {
                lemma_array_view(items);
            }
            assert(parse_frame(buf@) == Parse::Done(Resp::Array(views(items@)), n as int));
            let mut i: usize = 0;
            while i < items.len()
                invariant
                    i <= items.len(),
                    parse_frame(buf@) == Parse::Done(Resp::Array(views(items@)), n as int),
                    forall|j: int| 0 <= j < i ==> (#[trigger] views(items@)[j]) is Bulk,
                decreases items.len() - i,
            {
                match &items[i] {
                    Value::BulkString(_) => {},
                    _ => {
                        assert(!(views(items@)[i as int] is Bulk));
                        return None;
                    },
                }
                i = i + 1;
            }
            Some(items)
        },
        _ => None,
    }
}

fn find_named(items: &Vec<Value>, cmd: &[u8]) -> (r: Option<usize>)
    requires
        all_bulk(views(items@)),
    ensures
        match r {
            Some(k) => first_named(views(items@), cmd@, 0) == Some(k as int) && k < items.len(),
            None => first_named(views(items@), cmd@, 0) is None,
        },
{
    let ghost v = views(items@);
    let mut k: usize = 0;
    while k < items.len()
        invariant
            v == views(items@),
            all_bulk(v),
            k <= items.len(),
            first_named(v, cmd@, 0) == first_named(v, cmd@, k as int),
        decreases items.len() - k,
    {
        assert(v[k as int] is Bulk);
        match &items[k] {
            Value::BulkString(name) => {
                if bytes_same_ignoring_case(name.as_slice(), cmd) {
                    return Some(k);
                }
            },
            _ => {},
        }
        k = k + 1;
    }
    None
}

/// Whether an item of the request in `total_str` spells `cmd`, ignoring
/// ASCII case; false when the text is no array of bulk strings.
pub fn has_cmd(total_str: String, cmd: String) -> (r: bool)
    ensures
        r == (bulk_array(text_bytes(total_str@)) matches Some(items) && first_named(
            items,
            text_bytes(cmd@),
            0,
        ) is Some),
{
    match decode_bulk_array(bytes_of(&total_str)) {
        Some(items) => find_named(&items, bytes_of(&cmd)).is_some(),
        None => false,
    }
}

/// The command name of the request in `total_str`: its first item.
pub fn get_cmd(total_str: String) -> (r: Option<Vec<u8>>)
    ensures
        match r {
            Some(x) => bulk_array(text_bytes(total_str@)) matches Some(items) && items.len() > 0
                && x@ == items[0]->Bulk_0,
            None => !(bulk_array(text_bytes(total_str@)) matches Some(items) && items.len() > 0),
        },
{
    match decode_bulk_array(bytes_of(&total_str)) {
        Some(mut items) => {
            if items.len() == 0 {
                return None;
            }
            let ghost v = views(items@);
            assert(v[0] is Bulk);
            match items.swap_remove(0) {
                Value::BulkString(name) => Some(name),
                _ => None,
            }
        },
        None => None,
    }
}

/// The wire bytes of the array of the items that follow the one spelling
/// `cmd` in the request in `total_str`; `None` when the text is no array of
/// bulk strings.
pub fn get_string_after_cmd(total_str: String, cmd: String) -> (r: Option<Vec<u8>>)
    ensures
        match r {
            Some(x) => bulk_array(text_bytes(total_str@)) matches Some(items) && x@ == encoding(
                Resp::Array(items_after(items, text_bytes(cmd@))),
            ),
            None => bulk_array(text_bytes(total_str@)) is None,
        },
{
    match decode_bulk_array(bytes_of(&total_str)) {
        Some(mut items) => {
            let ghost v = views(items@);
            let start = match find_named(&items, bytes_of(&cmd)) {
                Some(k) => k + 1,
                None => items.len(),
            };
            let tail = items.split_off(start);
            assert(views(tail@) =~= items_after(v, text_bytes(cmd@)));
            proof {
                lemma_array_view(tail);
                assert forall|i: int| 0 <= i < views(tail@).len() implies well_formed(
                    #[trigger] views(tail@)[i],
                ) by {
                    assert(views(tail@)[i] == v[start + i]);
                    assert(v[start + i] is Bulk);
                }
            }
            let rest = Value::Array(tail);
            Some(encode(&rest))
        },
        None => None,
    }
}

} // verus!
