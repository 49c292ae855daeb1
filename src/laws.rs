use vstd::prelude::*;
use crate::codec::{
    Parse, all_digits, crlf, crlf_at, decimal, decimal_value, digits, digits_value,
    encoding, encoding_all, is_digit, line_end, parse_bulk_body, parse_frame, parse_items,
    parse_value,
};
use crate::value::{MAX_ARRAY_LEN, MAX_BULK_LEN, MAX_DEPTH, Resp, is_line_byte, is_text, representable, representable_frame};

verus! {

proof fn lemma_digits(m: nat)
    ensures
        all_digits(digits(m)),
        digits_value(digits(m)) == m,
    decreases m,
{
    let s = digits(m);
    if m < 10 {
        assert(s.drop_last() =~= Seq::<u8>::empty());
        assert(((48 + m) as u8) - 48 == m);
        assert(digits_value(Seq::<u8>::empty()) == 0);
        assert(digits_value(s) == digits_value(s.drop_last()) * 10 + (s.last() - 48));
    } else {
        assert((m / 10) * 10 + m % 10 == m) by (nonlinear_arith);
        assert(((48 + m % 10) as u8) - 48 == m % 10);
        lemma_digits(m / 10);
        let last = seq![(48 + m % 10) as u8];
        assert(s.drop_last() =~= digits(m / 10));
        assert(s.last() == (48 + m % 10) as u8);
        assert(digits_value(s) == digits_value(s.drop_last()) * 10 + (s.last() - 48));
        assert forall|i: int| 0 <= i < s.len() implies is_digit(#[trigger] s[i]) by {
            if i < digits(m / 10).len() {
                assert(s[i] == digits(m / 10)[i]);
            }
        }
    }
}

proof fn lemma_decimal(n: int)
    requires
        i64::MIN <= n <= i64::MAX,
    ensures
        decimal_value(decimal(n)) == Some(n),
        is_text(decimal(n)),
        decimal(n).len() >= 1,
{
    let s = decimal(n);
    if n < 0 {
        lemma_digits((-n) as nat);
        assert(s.drop_first() =~= digits((-n) as nat));
        assert forall|i: int| 0 <= i < s.len() implies is_line_byte(#[trigger] s[i]) by {
            if i > 0 {
                assert(s[i] == digits((-n) as nat)[i - 1]);
            }
        }
    } else {
        lemma_digits(n as nat);
        assert(is_digit(s[0]));
        assert forall|i: int| 0 <= i < s.len() implies is_line_byte(#[trigger] s[i]) by {
            assert(is_digit(s[i]));
        }
    }
}

proof fn lemma_window(b: Seq<u8>, pos: int, enc: Seq<u8>, lo: int, hi: int)
    requires
        0 <= pos,
        0 <= lo <= hi <= enc.len(),
        pos + enc.len() <= b.len(),
        b.subrange(pos, pos + enc.len()) == enc,
    ensures
        b.subrange(pos + lo, pos + hi) == enc.subrange(lo, hi),
{
    assert forall|j: int| 0 <= j < hi - lo implies b.subrange(pos + lo, pos + hi)[j] == enc.subrange(lo, hi)[j] by {
        assert(b.subrange(pos, pos + enc.len())[lo + j] == enc[lo + j]);
    }
    assert(b.subrange(pos + lo, pos + hi) =~= enc.subrange(lo, hi));
}

proof fn lemma_line_end(b: Seq<u8>, pos: int, e: int)
    requires
        0 <= pos <= e,
        e + 1 < b.len(),
        forall|j: int| pos <= j < e ==> is_line_byte(#[trigger] b[j]),
        b[e] == 13,
        b[e + 1] == 10,
    ensures
        line_end(b, pos) == Parse::<int>::Done(e, e + 2),
    decreases e - pos,
{
    if pos < e {
        assert(is_line_byte(b[pos]));
        lemma_line_end(b, pos + 1, e);
    }
}

/// Reading a line `t` ending in CRLF, written at `pos` after one type byte.
proof fn lemma_header(b: Seq<u8>, pos: int, t: Seq<u8>, rest_len: int)
    requires
        0 <= pos,
        is_text(t),
        0 <= rest_len,
        pos + 1 + t.len() + 2 + rest_len <= b.len(),
        b.subrange(pos + 1, pos + 1 + t.len() as int + 2) == t + crlf(),
    ensures
        line_end(b, pos + 1) == Parse::<int>::Done(pos + 1 + t.len(), pos + 1 + t.len() as int + 2),
        b.subrange(pos + 1, pos + 1 + t.len()) == t,
{
    let e = pos + 1 + t.len();
    let w = b.subrange(pos + 1, e + 2);
    assert forall|j: int| pos + 1 <= j < e implies is_line_byte(#[trigger] b[j]) by {
        assert(b[j] == w[j - pos - 1]);
        assert(w[j - pos - 1] == t[j - pos - 1]);
    }
    assert(b[e] == w[t.len() as int]);
    assert(b[e + 1] == w[t.len() as int + 1]);
    lemma_line_end(b, pos + 1, e);
    assert(b.subrange(pos + 1, e) =~= t) by {
        assert forall|j: int| 0 <= j < t.len() implies b.subrange(pos + 1, e)[j] == t[j] by {
            assert(b[pos + 1 + j] == w[j]);
        }
    }
}

#[verifier::rlimit(60)]
proof fn lemma_parse_encoding(v: Resp, b: Seq<u8>, pos: int, depth: nat)
    requires
        representable(v, depth),
        0 <= pos,
        pos + encoding(v).len() <= b.len(),
        b.subrange(pos, pos + encoding(v).len()) == encoding(v),
    ensures
        parse_value(b, pos, depth) == Parse::Done(v, pos + encoding(v).len()),
    decreases v, 0nat,
{
    let enc = encoding(v);
    let w = b.subrange(pos, pos + enc.len());
    assert(b[pos] == w[0]);
    match v {
        Resp::Simple(t) => {
            lemma_window(b, pos, enc, 1, 1 + t.len() as int + 2);
            assert(enc.subrange(1, 1 + t.len() as int + 2) =~= t + crlf());
            lemma_header(b, pos, t, 0);
        },
        Resp::Error(t) => {
            lemma_window(b, pos, enc, 1, 1 + t.len() as int + 2);
            assert(enc.subrange(1, 1 + t.len() as int + 2) =~= t + crlf());
            lemma_header(b, pos, t, 0);
        },
        Resp::Integer(n) => {
            let t = decimal(n);
            lemma_decimal(n);
            lemma_window(b, pos, enc, 1, 1 + t.len() as int + 2);
            assert(enc.subrange(1, 1 + t.len() as int + 2) =~= t + crlf());
            lemma_header(b, pos, t, 0);
        },
        Resp::NullBulk => {
            let t = seq![45u8, 49u8];
            assert(is_text(t));
            lemma_window(b, pos, enc, 1, 1 + t.len() as int + 2);
            assert(enc.subrange(1, 1 + t.len() as int + 2) =~= t + crlf());
            lemma_header(b, pos, t, 0);
            assert(t.drop_first() =~= seq![49u8]);
            assert(seq![49u8].drop_last() =~= Seq::<u8>::empty());
            assert(all_digits(seq![49u8]));
            assert(digits_value(Seq::<u8>::empty()) == 0);
            assert(seq![49u8].last() == 49u8);
            assert(digits_value(seq![49u8]) == 1);
            assert(decimal_value(t) == Some(-1int));
        },
        Resp::Bulk(d) => {
            let t = decimal(d.len() as int);
            lemma_decimal(d.len() as int);
            let rest = d.len() as int + 2;
            lemma_window(b, pos, enc, 1, 1 + t.len() as int + 2);
            assert(enc.subrange(1, 1 + t.len() as int + 2) =~= t + crlf());
            lemma_header(b, pos, t, rest);
            let next = pos + 1 + t.len() + 2;
            let stop = next + d.len();
            assert(b[stop] == w[stop - pos]);
            assert(b[stop + 1] == w[stop + 1 - pos]);
            assert(crlf_at(b, stop) == Parse::<int>::Done(stop, stop + 2));
            assert(b.subrange(next, stop) =~= d) by {
                assert forall|j: int| 0 <= j < d.len() implies b.subrange(next, stop)[j] == d[j] by {
                    assert(b[next + j] == w[next + j - pos]);
                }
            }
            assert(parse_bulk_body(b, next, d.len() as int) == Parse::Done(v, stop + 2));
        },
        Resp::Array(items) => {
            let t = decimal(items.len() as int);
            lemma_decimal(items.len() as int);
            let body = encoding_all(items);
            lemma_window(b, pos, enc, 1, 1 + t.len() as int + 2);
            assert(enc.subrange(1, 1 + t.len() as int + 2) =~= t + crlf());
            lemma_header(b, pos, t, body.len() as int);
            let next = pos + 1 + t.len() + 2;
            assert(b.subrange(next, next + body.len()) =~= body) by {
                assert forall|j: int| 0 <= j < body.len() implies b.subrange(next, next + body.len())[j] == body[j] by {
                    assert(b[next + j] == w[next + j - pos]);
                }
            }
            lemma_parse_all(items, b, next, (depth - 1) as nat);
        },
    }
}

proof fn lemma_parse_all(items: Seq<Resp>, b: Seq<u8>, pos: int, depth: nat)
    requires
        forall|i: int| 0 <= i < items.len() ==> representable(#[trigger] items[i], depth),
        0 <= pos,
        pos + encoding_all(items).len() <= b.len(),
        b.subrange(pos, pos + encoding_all(items).len()) == encoding_all(items),
    ensures
        parse_items(b, pos, items.len(), depth) == Parse::Done(items, pos + encoding_all(items).len()),
    decreases items,
{
    if items.len() == 0 {
        assert(items =~= Seq::<Resp>::empty());
    } else {
        let all = encoding_all(items);
        let first = encoding(items[0]);
        let tail = items.subrange(1, items.len() as int);
        let rest = encoding_all(tail);
        assert(all == first + rest);
        let p = pos + first.len();
        assert(b.subrange(pos, p) =~= first) by {
            assert forall|j: int| 0 <= j < first.len() implies b.subrange(pos, p)[j] == first[j] by {
                assert(b.subrange(pos, pos + all.len())[j] == all[j]);
            }
        }
        assert(b.subrange(p, p + rest.len()) =~= rest) by {
            assert forall|j: int| 0 <= j < rest.len() implies b.subrange(p, p + rest.len())[j] == rest[j] by {
                assert(b.subrange(pos, pos + all.len())[first.len() + j] == all[first.len() + j]);
            }
        }
        assert(representable(items[0], depth));
        lemma_parse_encoding(items[0], b, pos, depth);
        assert(first.len() >= 1) by {
            lemma_encoding_nonempty(items[0]);
        }
        assert forall|i: int| 0 <= i < tail.len() implies representable(#[trigger] tail[i], depth) by {
            assert(tail[i] == items[i + 1]);
        }
        lemma_parse_all(tail, b, p, depth);
        assert(seq![items[0]] + tail =~= items);
    }
}

proof fn lemma_encoding_nonempty(v: Resp)
    ensures
        encoding(v).len() >= 1,
{
    match v {
        Resp::Array(items) => {},
        _ => {},
    }
}

/// Decoding the encoding of any value within the codec's limits gives back
/// that value, and takes every byte of the encoding.
pub proof fn lemma_decode_encode(v: Resp)
    requires
        representable_frame(v),
    ensures
        parse_frame(encoding(v)) == Parse::Done(v, encoding(v).len() as int),
{
    let e = encoding(v);
    assert(e.subrange(0, e.len() as int) =~= e);
    lemma_parse_encoding(v, e, 0, MAX_DEPTH as nat);
}

} // verus!

verus! {

/// `b` is a prefix of `c`.
pub open spec fn is_prefix(b: Seq<u8>, c: Seq<u8>) -> bool {
    b.len() <= c.len() && forall|i: int| 0 <= i < b.len() ==> c[i] == b[i]
}

proof fn lemma_line_end_bounds(b: Seq<u8>, pos: int)
    ensures
        line_end(b, pos) matches Parse::Done(e, next) ==> pos <= e && next == e + 2 && next <= b.len(),
    decreases b.len() - pos,
{
    if 0 <= pos < b.len() && b[pos] != 13 && b[pos] != 10 {
        lemma_line_end_bounds(b, pos + 1);
    }
}

/// A decoded value ends after its start and within the buffer.
pub proof fn lemma_parse_bounds(b: Seq<u8>, pos: int, depth: nat)
    ensures
        parse_value(b, pos, depth) matches Parse::Done(v, end) ==> pos < end <= b.len(),
    decreases b.len() - pos, 0nat, 0nat,
{
    if 0 <= pos < b.len() {
        lemma_line_end_bounds(b, pos + 1);
        match line_end(b, pos + 1) {
            Parse::Done(e, next) => {
                let t = b[pos];
                if t == 42 {
                    match decimal_value(b.subrange(pos + 1, e)) {
                        Some(n) => {
                            if 0 <= n <= MAX_ARRAY_LEN && depth > 0 && pos < next <= b.len() {
                                lemma_items_bounds(b, next, n as nat, (depth - 1) as nat);
                            }
                        },
                        None => {},
                    }
                }
            },
            _ => {},
        }
    }
}

proof fn lemma_items_bounds(b: Seq<u8>, pos: int, n: nat, depth: nat)
    requires
        pos <= b.len(),
    ensures
        parse_items(b, pos, n, depth) matches Parse::Done(items, end) ==> pos <= end <= b.len(),
    decreases b.len() - pos, 1nat, n,
{
    if n > 0 && 0 <= pos < b.len() {
        lemma_parse_bounds(b, pos, depth);
        match parse_value(b, pos, depth) {
            Parse::Done(v, p) => {
                if pos <= p <= b.len() {
                    lemma_items_bounds(b, p, (n - 1) as nat, depth);
                }
            },
            _ => {},
        }
    }
}

proof fn lemma_line_end_extend(b: Seq<u8>, c: Seq<u8>, pos: int)
    requires
        is_prefix(b, c),
        !(line_end(b, pos) is Incomplete),
    ensures
        line_end(c, pos) == line_end(b, pos),
    decreases b.len() - pos,
{
    if b[pos] != 13 && b[pos] != 10 {
        lemma_line_end_extend(b, c, pos + 1);
    }
}

proof fn lemma_parse_extend(b: Seq<u8>, c: Seq<u8>, pos: int, depth: nat)
    requires
        is_prefix(b, c),
        !(parse_value(b, pos, depth) is Incomplete),
    ensures
        parse_value(c, pos, depth) == parse_value(b, pos, depth),
    decreases b.len() - pos, 0nat, 0nat,
{
    let t = b[pos];
    if t == 43 || t == 45 || t == 58 || t == 36 || t == 42 {
        lemma_line_end_extend(b, c, pos + 1);
        lemma_line_end_bounds(b, pos + 1);
        match line_end(b, pos + 1) {
            Parse::Done(e, next) => {
                assert(c.subrange(pos + 1, e) =~= b.subrange(pos + 1, e));
                if t == 36 {
                    let n = decimal_value(b.subrange(pos + 1, e));
                    if n is Some && n->0 >= 0 && n->0 <= MAX_BULK_LEN {
                        let m = n->0;
                        assert(c.subrange(next, next + m) =~= b.subrange(next, next + m));
                    }
                } else if t == 42 {
                    match decimal_value(b.subrange(pos + 1, e)) {
                        Some(n) => {
                            if 0 <= n <= MAX_ARRAY_LEN && depth > 0 && pos < next <= b.len() {
                                lemma_items_extend(b, c, next, n as nat, (depth - 1) as nat);
                            }
                        },
                        None => {},
                    }
                }
            },
            _ => {},
        }
    }
}

proof fn lemma_items_extend(b: Seq<u8>, c: Seq<u8>, pos: int, n: nat, depth: nat)
    requires
        is_prefix(b, c),
        pos <= b.len(),
        !(parse_items(b, pos, n, depth) is Incomplete),
    ensures
        parse_items(c, pos, n, depth) == parse_items(b, pos, n, depth),
    decreases b.len() - pos, 1nat, n,
{
    if n > 0 {
        lemma_parse_extend(b, c, pos, depth);
        lemma_parse_bounds(b, pos, depth);
        match parse_value(b, pos, depth) {
            Parse::Done(v, p) => {
                lemma_items_extend(b, c, p, (n - 1) as nat, depth);
            },
            _ => {},
        }
    }
}

/// Once a buffer decodes to a value or to an error, more bytes after it do
/// not change the outcome.
pub proof fn lemma_decode_extend(b: Seq<u8>, c: Seq<u8>)
    requires
        !(parse_frame(b) is Incomplete),
    ensures
        parse_frame(b + c) == parse_frame(b),
{
    assert(is_prefix(b, b + c));
    lemma_parse_extend(b, b + c, 0, MAX_DEPTH as nat);
}

/// Every proper prefix of an encoding asks for more data: it is never taken
/// for a value or for an error.
pub proof fn lemma_prefix_incomplete(v: Resp, k: int)
    requires
        representable_frame(v),
        0 <= k < encoding(v).len(),
    ensures
        parse_frame(encoding(v).subrange(0, k)) is Incomplete,
{
    let e = encoding(v);
    let p = e.subrange(0, k);
    lemma_decode_encode(v);
    if !(parse_frame(p) is Incomplete) {
        assert(is_prefix(p, e));
        lemma_parse_extend(p, e, 0, MAX_DEPTH as nat);
        lemma_parse_bounds(p, 0, MAX_DEPTH as nat);
    }
}

/// Every proper prefix of a frame that decodes, whatever its bytes, asks for
/// more data: it is never taken for a value or for an error.
pub proof fn lemma_frame_prefix_incomplete(b: Seq<u8>, k: int)
    requires
        parse_frame(b) is Done,
        0 <= k < parse_frame(b)->Done_1,
    ensures
        parse_frame(b.subrange(0, k)) is Incomplete,
{
    let p = b.subrange(0, k);
    lemma_parse_bounds(b, 0, MAX_DEPTH as nat);
    if !(parse_frame(p) is Incomplete) {
        assert(is_prefix(p, b));
        lemma_parse_extend(p, b, 0, MAX_DEPTH as nat);
        lemma_parse_bounds(p, 0, MAX_DEPTH as nat);
    }
}

} // verus!
