use vstd::prelude::*;
use vstd::utf8::*;
use crate::value::{
    Resp, Value, MAX_ARRAY_LEN, MAX_BULK_LEN, MAX_DEPTH, lemma_array_view, views, well_formed,
};

verus! {

/// Why a frame was rejected.
#[derive(Debug, Clone, Copy, PartialEq, Eq, Structural)]
pub enum ProtocolError {
    /// The first byte names no known type.
    UnknownType,
    /// A length, count or integer field is not a signed decimal, or an
    /// integer does not fit in 64 bits.
    BadNumber,
    /// A negative array count.
    BadLength,
    /// A stray carriage return or line feed, or a bulk payload not followed by CRLF.
    BadTerminator,
    /// A simple-string or error text that is not valid UTF-8.
    BadText,
    /// A declared length or count beyond the codec's limits, however many
    /// digits it has.
    TooLarge,
    /// Arrays nested deeper than the codec's limit.
    TooDeep,
}

/// Outcome of reading one item at a position of a byte sequence.
pub enum Parse<T> {
    /// The item, and the position just after it.
    Done(T, int),
    /// The bytes are a valid but unfinished start of an item.
    Incomplete,
    Invalid(ProtocolError),
}

pub open spec fn is_digit(c: u8) -> bool {
    48 <= c <= 57
}

pub open spec fn all_digits(s: Seq<u8>) -> bool {
    s.len() > 0 && forall|i: int| 0 <= i < s.len() ==> is_digit(#[trigger] s[i])
}

/// The number written by a sequence of decimal digits.
pub open spec fn digits_value(s: Seq<u8>) -> int
    decreases s.len(),
{
    if s.len() == 0 {
        0
    } else {
        digits_value(s.drop_last()) * 10 + (s.last() - 48)
    }
}

/// The number written by an optional minus sign and one or more decimal digits.
pub open spec fn decimal_value(s: Seq<u8>) -> Option<int> {
    if s.len() > 0 && s[0] == 45 {
        if all_digits(s.drop_first()) {
            Some(-digits_value(s.drop_first()))
        } else {
            None
        }
    } else if all_digits(s) {
        Some(digits_value(s))
    } else {
        None
    }
}

/// Finds the CRLF that ends the line starting at `pos`: `Done(e, e + 2)` where
/// `e` is the position of its carriage return.
pub open spec fn line_end(b: Seq<u8>, pos: int) -> Parse<int>
    decreases b.len() - pos,
{
    if pos < 0 || pos >= b.len() {
        Parse::Incomplete
    } else if b[pos] == 13 {
        if pos + 1 >= b.len() {
            Parse::Incomplete
        } else if b[pos + 1] == 10 {
            Parse::Done(pos, pos + 2)
        } else {
            Parse::Invalid(ProtocolError::BadTerminator)
        }
    } else if b[pos] == 10 {
        Parse::Invalid(ProtocolError::BadTerminator)
    } else {
        line_end(b, pos + 1)
    }
}

/// Expects CRLF at `pos`.
pub open spec fn crlf_at(b: Seq<u8>, pos: int) -> Parse<int> {
    if pos >= b.len() {
        Parse::Incomplete
    } else if b[pos] != 13 {
        Parse::Invalid(ProtocolError::BadTerminator)
    } else if pos + 1 >= b.len() {
        Parse::Incomplete
    } else if b[pos + 1] != 10 {
        Parse::Invalid(ProtocolError::BadTerminator)
    } else {
        Parse::Done(pos, pos + 2)
    }
}

/// The value whose encoding starts at `pos`, with arrays allowed to nest
/// `depth` levels.
pub open spec fn parse_value(b: Seq<u8>, pos: int, depth: nat) -> Parse<Resp>
    decreases b.len() - pos, 0nat, 0nat,
{
    if pos < 0 || pos >= b.len() {
        Parse::Incomplete
    } else {
        let t = b[pos];
        if t != 43 && t != 45 && t != 58 && t != 36 && t != 42 {
            Parse::Invalid(ProtocolError::UnknownType)
        } else {
            match line_end(b, pos + 1) {
                Parse::Incomplete => Parse::Incomplete,
                Parse::Invalid(e) => Parse::Invalid(e),
                Parse::Done(e, next) => {
                    let field = b.subrange(pos + 1, e);

                    if (t == 43 || t == 45) && !valid_utf8(field) {
                        Parse::Invalid(ProtocolError::BadText)
                    } else if t == 43 {
                        Parse::Done(Resp::Simple(field), next)
                    } else if t == 45 {
                        Parse::Done(Resp::Error(field), next)
                    } else {
                        match decimal_value(field) {
                            None => Parse::Invalid(ProtocolError::BadNumber),
                            Some(n) => if t == 58 {
                                if i64::MIN <= n <= i64::MAX {
                                    Parse::Done(Resp::Integer(n), next)
                                } else {
                                    Parse::Invalid(ProtocolError::BadNumber)
                                }
                            } else if t == 36 {
                                parse_bulk_body(b, next, n)
                            } else if n < 0 {
                                Parse::Invalid(ProtocolError::BadLength)
                            } else if n > MAX_ARRAY_LEN {
                                Parse::Invalid(ProtocolError::TooLarge)
                            } else if depth == 0 {
                                Parse::Invalid(ProtocolError::TooDeep)
                            } else if next <= pos || next > b.len() {
                                Parse::Invalid(ProtocolError::BadLength)
                            } else {
                                array_of(parse_items(b, next, n as nat, (depth - 1) as nat))
                            },
                        }
                    }
                },
            }
        }
    }
}

/// The payload of a bulk string of declared length `n` starting at `pos`.
pub open spec fn parse_bulk_body(b: Seq<u8>, pos: int, n: int) -> Parse<Resp> {
    if n < 0 {
        Parse::Done(Resp::NullBulk, pos)
    } else if n > MAX_BULK_LEN {
        Parse::Invalid(ProtocolError::TooLarge)
    } else if pos + n > b.len() {
        Parse::Incomplete
    } else {
        match crlf_at(b, pos + n) {
            Parse::Done(_, end) => Parse::Done(Resp::Bulk(b.subrange(pos, pos + n)), end),
            Parse::Incomplete => Parse::Incomplete,
            Parse::Invalid(e) => Parse::Invalid(e),
        }
    }
}

/// `n` values one after another from `pos`.
pub open spec fn parse_items(b: Seq<u8>, pos: int, n: nat, depth: nat) -> Parse<Seq<Resp>>
    decreases b.len() - pos, 1nat, n,
{
    if n == 0 {
        Parse::Done(Seq::empty(), pos)
    } else if pos < 0 || pos >= b.len() {
        Parse::Incomplete
    } else {
        match parse_value(b, pos, depth) {
            Parse::Done(v, p) => if p < pos || p > b.len() {
                Parse::Invalid(ProtocolError::BadLength)
            } else {
                match parse_items(b, p, (n - 1) as nat, depth) {
                    Parse::Done(rest, end) => Parse::Done(seq![v] + rest, end),
                    Parse::Incomplete => Parse::Incomplete,
                    Parse::Invalid(e) => Parse::Invalid(e),
                }
            },
            Parse::Incomplete => Parse::Incomplete,
            Parse::Invalid(e) => Parse::Invalid(e),
        }
    }
}

/// What the codec makes of a buffer that starts at a frame boundary.
pub open spec fn parse_frame(b: Seq<u8>) -> Parse<Resp> {
    parse_value(b, 0, MAX_DEPTH as nat)
}

} // verus!

verus! {

/// What `decode` made of a buffer.
#[derive(Debug)]
pub enum Decoded {
    /// A whole value, and how many bytes of the buffer it took.
    Complete(Value, usize),
    /// The buffer is a valid but unfinished start of a frame: read more.
    Incomplete,
    Invalid(ProtocolError),
}

impl View for Decoded {
    type V = Parse<Resp>;

    open spec fn view(&self) -> Parse<Resp> {
        match self {
            Decoded::Complete(v, n) => Parse::Done(v@, *n as int),
            Decoded::Incomplete => Parse::Incomplete,
            Decoded::Invalid(e) => Parse::Invalid(*e),
        }
    }
}


/// `r` with `prefix` put before the items it holds.
pub open spec fn glue(prefix: Seq<Resp>, r: Parse<Seq<Resp>>) -> Parse<Seq<Resp>> {
    match r {
        Parse::Done(rest, end) => Parse::Done(prefix + rest, end),
        Parse::Incomplete => Parse::Incomplete,
        Parse::Invalid(e) => Parse::Invalid(e),
    }
}

pub open spec fn array_of(r: Parse<Seq<Resp>>) -> Parse<Resp> {
    match r {
        Parse::Done(items, end) => Parse::Done(Resp::Array(items), end),
        Parse::Incomplete => Parse::Incomplete,
        Parse::Invalid(e) => Parse::Invalid(e),
    }
}

enum Scan {
    Found(usize),
    Incomplete,
    Invalid(ProtocolError),
}

spec fn scan_agrees(r: Scan, s: Parse<int>) -> bool {
    match r {
        Scan::Found(e) => s == Parse::<int>::Done(e as int, e + 2),
        Scan::Incomplete => s is Incomplete,
        Scan::Invalid(k) => s == Parse::<int>::Invalid(k),
    }
}

fn find_line_end(buf: &[u8], pos: usize) -> (r: Scan)
    ensures
        scan_agrees(r, line_end(buf@, pos as int)),
        r matches Scan::Found(e) ==> pos <= e && e + 2 <= buf.len(),
{
    let mut i: usize = pos;
    while i < buf.len()
        invariant
            pos <= i,
            line_end(buf@, pos as int) == line_end(buf@, i as int),
        decreases buf.len() - i,
    {
        let c = buf[i];
        if c == 13 {
            if i + 1 >= buf.len() {
                return Scan::Incomplete;
            } else if buf[i + 1] == 10 {
                return Scan::Found(i);
            } else {
                return Scan::Invalid(ProtocolError::BadTerminator);
            }
        } else if c == 10 {
            return Scan::Invalid(ProtocolError::BadTerminator);
        }
        i = i + 1;
    }
    Scan::Incomplete
}

proof fn lemma_digits_value_nonneg(s: Seq<u8>)
    requires
        forall|i: int| 0 <= i < s.len() ==> is_digit(#[trigger] s[i]),
    ensures
        digits_value(s) >= 0,
    decreases s.len(),
{
    if s.len() > 0 {
        lemma_digits_value_nonneg(s.drop_last());
    }
}

const TENTH_OF_LIMIT: u64 = 922337203685477580;

const MAGNITUDE_LIMIT: u64 = 9223372036854775808;

/// A signed decimal field as read into an `i64`.
enum Decimal {
    Fits(i64),
    /// Below `i64::MIN`.
    Below,
    /// Above `i64::MAX`.
    Above,
    Malformed,
}

/// Reads the signed decimal field `buf[start..end]`.
fn parse_decimal(buf: &[u8], start: usize, end: usize) -> (r: Decimal)
    requires
        start <= end <= buf.len(),
    ensures
        match r {
            Decimal::Fits(n) => decimal_value(buf@.subrange(start as int, end as int)) == Some(
                n as int,
            ),
            Decimal::Below => decimal_value(buf@.subrange(start as int, end as int)) matches Some(
                v,
            ) && v < i64::MIN,
            Decimal::Above => decimal_value(buf@.subrange(start as int, end as int)) matches Some(
                v,
            ) && v > i64::MAX,
            Decimal::Malformed => decimal_value(buf@.subrange(start as int, end as int)) is None,
        },
{
    let ghost s = buf@.subrange(start as int, end as int);
    let neg = start < end && buf[start] == 45;
    let d0: usize = if neg {
        start + 1
    } else {
        start
    };
    let ghost d = buf@.subrange(d0 as int, end as int);
    assert(neg == (s.len() > 0 && s[0] == 45));
    assert(neg ==> d =~= s.drop_first());
    assert(!neg ==> d =~= s);
    if d0 == end {
        return Decimal::Malformed;
    }
    let mut acc: u64 = 0;
    let mut big = false;
    let mut i: usize = d0;
    while i < end
        invariant
            d0 <= i <= end <= buf.len(),
            d == buf@.subrange(d0 as int, end as int),
            s == buf@.subrange(start as int, end as int),
            neg == (s.len() > 0 && s[0] == 45),
            neg ==> d == s.drop_first(),
            !neg ==> d == s,
            forall|j: int| d0 <= j < i ==> is_digit(#[trigger] buf@[j]),
            !big ==> acc as int == digits_value(buf@.subrange(d0 as int, i as int)),
            !big ==> acc <= MAGNITUDE_LIMIT,
            big ==> digits_value(buf@.subrange(d0 as int, i as int)) > MAGNITUDE_LIMIT,
        decreases end - i,
    {
        let c = buf[i];
        if c < 48 || c > 57 {
            assert(d[i - d0] == c);
            assert(!all_digits(d));
            assert(decimal_value(s) is None);
            return Decimal::Malformed;
        }
        let ghost prev = buf@.subrange(d0 as int, i as int);
        let ghost next = buf@.subrange(d0 as int, i + 1);
        assert(next.drop_last() =~= prev);
        assert(digits_value(next) == digits_value(prev) * 10 + (c - 48));
        proof {
            lemma_digits_value_nonneg(prev);
        }
        if !big {
            if acc > TENTH_OF_LIMIT {
                big = true;
                assert(digits_value(prev) * 10 > MAGNITUDE_LIMIT) by (nonlinear_arith)
                    requires
                        digits_value(prev) > TENTH_OF_LIMIT,
                ;
            } else {
                acc = acc * 10 + (c - 48) as u64;
                if acc > MAGNITUDE_LIMIT {
                    big = true;
                }
            }
        } else {
            assert(digits_value(prev) * 10 >= digits_value(prev)) by (nonlinear_arith)
                requires
                    digits_value(prev) >= 0,
            ;
        }
        i = i + 1;
    }
    assert(buf@.subrange(d0 as int, end as int) =~= d);
    assert(all_digits(d)) by {
        assert forall|j: int| 0 <= j < d.len() implies is_digit(#[trigger] d[j]) by {
            assert(d[j] == buf@[d0 + j]);
        }
    }
    if big {
        if neg {
            Decimal::Below
        } else {
            Decimal::Above
        }
    } else if neg {
        if acc == MAGNITUDE_LIMIT {
            Decimal::Fits(i64::MIN)
        } else {
            Decimal::Fits(-(acc as i64))
        }
    } else if acc > 9223372036854775807 {
        Decimal::Above
    } else {
        Decimal::Fits(acc as i64)
    }
}

/// Length of the UTF-8 scalar that starts `buf[i..end]`, when it is well formed.
fn first_scalar_len(buf: &[u8], i: usize, end: usize) -> (r: Option<usize>)
    requires
        i < end <= buf.len(),
    ensures
        match r {
            Some(l) => valid_first_scalar(buf@.subrange(i as int, end as int)) && l
                == length_of_first_scalar(buf@.subrange(i as int, end as int)),
            None => !valid_first_scalar(buf@.subrange(i as int, end as int)),
        },
{
    let ghost x = buf@.subrange(i as int, end as int);
    let b0 = buf[i];
    assert(x[0] == b0);
    if b0 <= 0x7f {
        assert((b0 & 0x7F) as u32 <= 0x7f) by (bit_vector);
        return Some(1);
    }
    let cont = |b: u8| -> (c: bool)
        ensures
            c == is_continuation_byte(b),
        { 0x80 <= b && b <= 0xbf };
    let n = end - i;
    if 0xc0 <= b0 && b0 <= 0xdf {
        if n < 2 || !cont(buf[i + 1]) {
            assert(n >= 2 ==> x[1] == buf@[i + 1]);
            return None;
        }
        assert(x[1] == buf@[i + 1]);
        let cp = (((b0 & 0x1F) as u32) << 6) | ((buf[i + 1] & 0x3f) as u32);
        if cp >= 0x80 && !(0xD800 <= cp && cp <= 0xDFFF) {
            return Some(2);
        }
        return None;
    }
    if 0xe0 <= b0 && b0 <= 0xef {
        if n < 3 || !cont(buf[i + 1]) || !cont(buf[i + 2]) {
            assert(n >= 3 ==> x[1] == buf@[i + 1] && x[2] == buf@[i + 2]);
            return None;
        }
        assert(x[1] == buf@[i + 1] && x[2] == buf@[i + 2]);
        let cp = (((b0 & 0x0F) as u32) << 12) | (((buf[i + 1] & 0x3f) as u32) << 6) | ((buf[i
            + 2] & 0x3f) as u32);
        if cp >= 0x800 && !(0xD800 <= cp && cp <= 0xDFFF) {
            return Some(3);
        }
        return None;
    }
    if 0xf0 <= b0 && b0 <= 0xf7 {
        if n < 4 || !cont(buf[i + 1]) || !cont(buf[i + 2]) || !cont(buf[i + 3]) {
            assert(n >= 4 ==> x[1] == buf@[i + 1] && x[2] == buf@[i + 2] && x[3] == buf@[i + 3]);
            return None;
        }
        assert(x[1] == buf@[i + 1] && x[2] == buf@[i + 2] && x[3] == buf@[i + 3]);
        let cp = (((b0 & 0x07) as u32) << 18) | (((buf[i + 1] & 0x3f) as u32) << 12) | (((buf[i
            + 2] & 0x3f) as u32) << 6) | ((buf[i + 3] & 0x3f) as u32);
        if 0x10000 <= cp && cp <= 0x10ffff && !(0xD800 <= cp && cp <= 0xDFFF) {
            return Some(4);
        }
        return None;
    }
    None
}

/// Whether `buf[start..end]` is valid UTF-8.
fn valid_text(buf: &[u8], start: usize, end: usize) -> (r: bool)
    requires
        start <= end <= buf.len(),
    ensures
        r == valid_utf8(buf@.subrange(start as int, end as int)),
{
    let mut i: usize = start;
    while i < end
        invariant
            start <= i <= end <= buf.len(),
            valid_utf8(buf@.subrange(start as int, end as int)) == valid_utf8(
                buf@.subrange(i as int, end as int),
            ),
        decreases end - i,
    {
        let ghost x = buf@.subrange(i as int, end as int);
        match first_scalar_len(buf, i, end) {
            Some(l) => {
                assert(pop_first_scalar(x) =~= buf@.subrange(i + l, end as int));
                i = i + l;
            },
            None => {
                return false;
            },
        }
    }
    assert(buf@.subrange(i as int, end as int).len() == 0);
    true
}

/// Copies `buf[start..end]`.
pub(crate) fn copy_range(buf: &[u8], start: usize, end: usize) -> (r: Vec<u8>)
    requires
        start <= end <= buf.len(),
    ensures
        r@ == buf@.subrange(start as int, end as int),
{
    let mut out: Vec<u8> = Vec::new();
    let mut i: usize = start;
    while i < end
        invariant
            start <= i <= end <= buf.len(),
            out@ == buf@.subrange(start as int, i as int),
        decreases end - i,
    {
        out.push(buf[i]);
        i = i + 1;
        assert(out@ =~= buf@.subrange(start as int, i as int));
    }
    out
}

/// Decodes the value that starts at `pos`, with arrays allowed to nest
/// `depth` levels.
pub fn decode_at(buf: &[u8], pos: usize, depth: usize) -> (r: Decoded)
    ensures
        r@ == parse_value(buf@, pos as int, depth as nat),
    decreases buf.len() - pos,
{
    if pos >= buf.len() {
        return Decoded::Incomplete;
    }
    let t = buf[pos];
    if t != 43 && t != 45 && t != 58 && t != 36 && t != 42 {
        return Decoded::Invalid(ProtocolError::UnknownType);
    }
    let e = match find_line_end(buf, pos + 1) {
        Scan::Found(e) => e,
        Scan::Incomplete => {
            return Decoded::Incomplete;
        },
        Scan::Invalid(k) => {
            return Decoded::Invalid(k);
        },
    };
    let next = e + 2;
    if (t == 43 || t == 45) && !valid_text(buf, pos + 1, e) {
        return Decoded::Invalid(ProtocolError::BadText);
    }
    if t == 43 {
        return Decoded::Complete(Value::SimpleString(copy_range(buf, pos + 1, e)), next);
    }
    if t == 45 {
        return Decoded::Complete(Value::Error(copy_range(buf, pos + 1, e)), next);
    }
    let n = match parse_decimal(buf, pos + 1, e) {
        Decimal::Fits(n) => n,
        Decimal::Malformed => {
            return Decoded::Invalid(ProtocolError::BadNumber);
        },
        Decimal::Below => {
            if t == 58 {
                return Decoded::Invalid(ProtocolError::BadNumber);
            } else if t == 36 {
                return Decoded::Complete(Value::NullBulkString, next);
            } else {
                return Decoded::Invalid(ProtocolError::BadLength);
            }
        },
        Decimal::Above => {
            if t == 58 {
                return Decoded::Invalid(ProtocolError::BadNumber);
            } else {
                return Decoded::Invalid(ProtocolError::TooLarge);
            }
        },
    };
    if t == 58 {
        return Decoded::Complete(Value::Integer(n), next);
    }
    if t == 36 {
        if n < 0 {
            return Decoded::Complete(Value::NullBulkString, next);
        }
        if n as u64 > MAX_BULK_LEN as u64 {
            return Decoded::Invalid(ProtocolError::TooLarge);
        }
        let len = n as usize;
        if len > buf.len() - next {
            return Decoded::Incomplete;
        }
        let stop = next + len;
        if stop >= buf.len() {
            return Decoded::Incomplete;
        }
        if buf[stop] != 13 {
            return Decoded::Invalid(ProtocolError::BadTerminator);
        }
        if stop + 1 >= buf.len() {
            return Decoded::Incomplete;
        }
        if buf[stop + 1] != 10 {
            return Decoded::Invalid(ProtocolError::BadTerminator);
        }
        return Decoded::Complete(Value::BulkString(copy_range(buf, next, stop)), stop + 2);
    }
    if n < 0 {
        return Decoded::Invalid(ProtocolError::BadLength);
    }
    if n as u64 > MAX_ARRAY_LEN as u64 {
        return Decoded::Invalid(ProtocolError::TooLarge);
    }
    if depth == 0 {
        return Decoded::Invalid(ProtocolError::TooDeep);
    }
    let count = n as usize;
    let ghost b = buf@;
    let ghost d = (depth - 1) as nat;
    let mut items: Vec<Value> = Vec::new();
    let mut p: usize = next;
    let mut k: usize = 0;
    assert(glue(Seq::empty(), parse_items(b, next as int, count as nat, d)) == parse_items(
        b,
        next as int,
        count as nat,
        d,
    )) by {
        match parse_items(b, next as int, count as nat, d) {
            Parse::Done(rest, end) => {
                assert(Seq::<Resp>::empty() + rest =~= rest);
            },
            _ => {},
        }
    }
    assert(parse_value(b, pos as int, depth as nat) == array_of(
        parse_items(b, next as int, count as nat, d),
    ));
    while k < count
        invariant
            b == buf@,
            parse_value(b, pos as int, depth as nat) == array_of(
                parse_items(b, next as int, count as nat, d),
            ),
            pos < next <= p <= buf.len(),
            k <= count,
            d == depth - 1,
            items@.len() == k,
            parse_items(b, next as int, count as nat, d) == glue(
                views(items@),
                parse_items(b, p as int, (count - k) as nat, d),
            ),
        decreases count - k,
    {
        if p >= buf.len() {
            return Decoded::Incomplete;
        }
        match decode_at(buf, p, depth - 1) {
            Decoded::Complete(v, q) => {
                if q < p || q > buf.len() {
                    return Decoded::Invalid(ProtocolError::BadLength);
                }
                let ghost old_items = items@;
                let ghost vv = v@;
                proof {
                    match parse_items(b, q as int, (count - k - 1) as nat, d) {
                        Parse::Done(rest, end) => {
                            assert(views(old_items) + (seq![vv] + rest) =~= views(
                                old_items.push(v),
                            ) + rest);
                        },
                        _ => {},
                    }
                }
                items.push(v);
                assert(views(items@) =~= views(old_items).push(vv));
                p = q;
                k = k + 1;
            },
            Decoded::Incomplete => {
                return Decoded::Incomplete;
            },
            Decoded::Invalid(e) => {
                return Decoded::Invalid(e);
            },
        }
    }
    assert(parse_items(b, p as int, 0, d) == Parse::<Seq<Resp>>::Done(Seq::empty(), p as int));
    assert(views(items@) + Seq::<Resp>::empty() =~= views(items@));
    proof {
        lemma_array_view(items);
    }
    let r = Value::Array(items);
    Decoded::Complete(r, p)
}

/// Decodes the frame at the start of `buf`.
pub fn decode(buf: &[u8]) -> (r: Decoded)
    ensures
        r@ == parse_frame(buf@),
        r matches Decoded::Complete(_, end) ==> 0 < end <= buf.len(),
{
    proof {
        crate::laws::lemma_parse_bounds(buf@, 0, MAX_DEPTH as nat);
    }
    decode_at(buf, 0, MAX_DEPTH)
}

} // verus!

verus! {

pub open spec fn crlf() -> Seq<u8> {
    seq![13u8, 10u8]
}

/// Decimal digits of `m`, most significant first, without leading zeros.
pub open spec fn digits(m: nat) -> Seq<u8>
    decreases m,
{
    if m < 10 {
        seq![(48 + m) as u8]
    } else {
        digits(m / 10) + seq![(48 + m % 10) as u8]
    }
}

/// `n` written in decimal, with a leading minus sign when negative.
pub open spec fn decimal(n: int) -> Seq<u8> {
    if n < 0 {
        seq![45u8] + digits((-n) as nat)
    } else {
        digits(n as nat)
    }
}

/// The wire bytes of a value.
pub open spec fn encoding(v: Resp) -> Seq<u8>
    decreases v, 0nat,
{
    match v {
        Resp::Simple(t) => seq![43u8] + t + crlf(),
        Resp::Error(t) => seq![45u8] + t + crlf(),
        Resp::Integer(n) => seq![58u8] + decimal(n) + crlf(),
        Resp::Bulk(d) => seq![36u8] + decimal(d.len() as int) + crlf() + d + crlf(),
        Resp::NullBulk => seq![36u8, 45u8, 49u8] + crlf(),
        Resp::Array(items) => seq![42u8] + decimal(items.len() as int) + crlf() + encoding_all(
            items,
        ),
    }
}

/// The wire bytes of each value in turn.
pub open spec fn encoding_all(items: Seq<Resp>) -> Seq<u8>
    decreases items,
{
    if items.len() == 0 {
        Seq::empty()
    } else {
        encoding(items[0]) + encoding_all(items.subrange(1, items.len() as int))
    }
}

proof fn lemma_encoding_all_push(s: Seq<Resp>, x: Resp)
    ensures
        encoding_all(s.push(x)) == encoding_all(s) + encoding(x),
    decreases s.len(),
{
    if s.len() == 0 {
        assert(s.push(x).subrange(1, 1) =~= Seq::<Resp>::empty());
        assert(s.push(x)[0] == x);
        assert(encoding_all(Seq::<Resp>::empty()) == Seq::<u8>::empty());
        assert(encoding(x) + Seq::<u8>::empty() =~= encoding(x));
        assert(encoding_all(s.push(x)) == encoding(x) + encoding_all(s.push(x).subrange(1, 1)));
        assert(encoding_all(s) == Seq::<u8>::empty());
    } else {
        let t = s.subrange(1, s.len() as int);
        lemma_encoding_all_push(t, x);
        assert(s.push(x).subrange(1, s.len() as int + 1) =~= t.push(x));
        assert(s.push(x)[0] == s[0]);
        assert(encoding_all(s.push(x)) =~= encoding_all(s) + encoding(x));
    }
}

pub(crate) fn push_digits(m: u64, out: &mut Vec<u8>)
    ensures
        final(out)@ == old(out)@ + digits(m as nat),
    decreases m,
{
    if m >= 10 {
        push_digits(m / 10, out);
    }
    out.push((48 + m % 10) as u8);
    assert(final(out)@ =~= old(out)@ + digits(m as nat)) by {
        if m >= 10 {
            assert(old(out)@ + digits(m as nat) =~= old(out)@ + digits((m / 10) as nat) + seq![(48 + m % 10) as u8]);
        }
    }
}

fn push_decimal(n: i64, out: &mut Vec<u8>)
    ensures
        final(out)@ == old(out)@ + decimal(n as int),
{
    if n < 0 {
        out.push(45);
        let mag: u64 = if n == i64::MIN {
            9223372036854775808
        } else {
            (-n) as u64
        };
        push_digits(mag, out);
        assert(final(out)@ =~= old(out)@ + decimal(n as int));
    } else {
        push_digits(n as u64, out);
    }
}

fn push_bytes(src: &Vec<u8>, out: &mut Vec<u8>)
    ensures
        final(out)@ == old(out)@ + src@,
{
    let mut i: usize = 0;
    while i < src.len()
        invariant
            i <= src.len(),
            out@ == old(out)@ + src@.subrange(0, i as int),
        decreases src.len() - i,
    {
        out.push(src[i]);
        i = i + 1;
        assert(out@ =~= old(out)@ + src@.subrange(0, i as int));
    }
    assert(src@.subrange(0, i as int) =~= src@);
}

fn push_crlf(out: &mut Vec<u8>)
    ensures
        final(out)@ == old(out)@ + crlf(),
{
    out.push(13);
    out.push(10);
    assert(out@ =~= old(out)@ + crlf());
}

/// Appends the wire bytes of `v` to `out`.
pub fn encode_into(v: &Value, out: &mut Vec<u8>)
    requires
        well_formed(v@),
    ensures
        final(out)@ == old(out)@ + encoding(v@),
    decreases v@,
{
    match v {
        Value::SimpleString(t) => {
            out.push(43);
            push_bytes(t, out);
            push_crlf(out);
            assert(out@ =~= old(out)@ + encoding(v@));
        },
        Value::Error(t) => {
            out.push(45);
            push_bytes(t, out);
            push_crlf(out);
            assert(out@ =~= old(out)@ + encoding(v@));
        },
        Value::Integer(n) => {
            out.push(58);
            push_decimal(*n, out);
            push_crlf(out);
            assert(out@ =~= old(out)@ + encoding(v@));
        },
        Value::BulkString(d) => {
            out.push(36);
            push_digits(d.len() as u64, out);
            push_crlf(out);
            push_bytes(d, out);
            push_crlf(out);
            assert(out@ =~= old(out)@ + encoding(v@));
        },
        Value::NullBulkString => {
            out.push(36);
            out.push(45);
            out.push(49);
            push_crlf(out);
            assert(out@ =~= old(out)@ + encoding(v@));
        },
        Value::Array(items) => {
            let ghost model = v@->Array_0;
            out.push(42);
            push_digits(items.len() as u64, out);
            push_crlf(out);
            let ghost head = out@;
            assert(model.subrange(0, 0) =~= Seq::<Resp>::empty());
            assert(head =~= old(out)@ + seq![42u8] + decimal(model.len() as int) + crlf());
            let mut i: usize = 0;
            while i < items.len()
                invariant
                    *v == Value::Array(*items),
                    v@ == Resp::Array(model),
                    well_formed(v@),
                    i <= items.len(),
                    model.len() == items.len(),
                    forall|j: int| 0 <= j < items.len() ==> model[j] == (#[trigger] items[j])@,
                    out@ == head + encoding_all(model.subrange(0, i as int)),
                decreases items.len() - i,
            {
                proof {
                    vstd::seq::axiom_seq_index_decreases(model, i as int);
                    assert(decreases_to!(v@ => v@->Array_0));
                }
                encode_into(&items[i], out);
                proof {
                    lemma_encoding_all_push(model.subrange(0, i as int), model[i as int]);
                    assert(model.subrange(0, i as int).push(model[i as int]) =~= model.subrange(
                        0,
                        i + 1,
                    ));
                }
                i = i + 1;
            }
            assert(model.subrange(0, i as int) =~= model);
            assert(out@ =~= old(out)@ + encoding(v@));
        },
    }
}

/// The wire bytes of `v`.
pub fn encode(v: &Value) -> (r: Vec<u8>)
    requires
        well_formed(v@),
    ensures
        r@ == encoding(v@),
{
    let mut out: Vec<u8> = Vec::new();
    encode_into(v, &mut out);
    assert(out@ =~= encoding(v@));
    out
}

} // verus!
