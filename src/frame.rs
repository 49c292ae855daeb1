use vstd::prelude::*;
use crate::codec::{Decoded, Parse, decode, encoding, parse_frame};
use crate::laws::{lemma_decode_encode, lemma_decode_extend};
use crate::value::{Resp, representable_frame};

verus! {

/// Accumulates the bytes of one connection and cuts them into frames.
pub struct FrameReader {
    buf: Vec<u8>,
}

/// The bytes once the frame that `buf` starts with has been handled: what
/// follows a decoded frame stays for the next one, an unfinished frame stays
/// whole, and a rejected buffer is dropped.
pub open spec fn after_frame(buf: Seq<u8>) -> Seq<u8> {
    match parse_frame(buf) {
        Parse::Done(_, end) => buf.subrange(end, buf.len() as int),
        Parse::Incomplete => buf,
        Parse::Invalid(_) => Seq::empty(),
    }
}

impl FrameReader {
    /// The bytes received and not yet taken by a frame.
    pub closed spec fn pending(&self) -> Seq<u8> {
        self.buf@
    }

    pub fn new() -> (r: FrameReader)
        ensures
            r.pending() == Seq::<u8>::empty(),
    {
        FrameReader { buf: Vec::new() }
    }

    /// Number of bytes waiting.
    pub fn buffered(&self) -> (r: usize)
        ensures
            r == self.pending().len(),
    {
        self.buf.len()
    }

    /// Appends bytes read from the connection.
    pub fn feed(&mut self, chunk: &[u8])
        ensures
            final(self).pending() == old(self).pending() + chunk@,
    {
        let mut i: usize = 0;
        while i < chunk.len()
            invariant
                i <= chunk.len(),
                self.buf@ == old(self).buf@ + chunk@.subrange(0, i as int),
            decreases chunk.len() - i,
        {
            self.buf.push(chunk[i]);
            i = i + 1;
            assert(self.buf@ =~= old(self).buf@ + chunk@.subrange(0, i as int));
        }
        assert(chunk@.subrange(0, i as int) =~= chunk@);
    }

    /// Tries to take one frame from the front of the pending bytes.
    pub fn next_frame(&mut self) -> (r: Decoded)
        ensures
            r@ == parse_frame(old(self).pending()),
            final(self).pending() == after_frame(old(self).pending()),
    {
        let r = decode(self.buf.as_slice());
        match &r {
            Decoded::Complete(_, end) => {
                let mut rest: Vec<u8> = Vec::new();
                let mut i: usize = *end;
                assert(rest@ =~= self.buf@.subrange(*end as int, i as int));
                while i < self.buf.len()
                    invariant
                        *end <= i <= self.buf.len(),
                        rest@ == self.buf@.subrange(*end as int, i as int),
                    decreases self.buf.len() - i,
                {
                    rest.push(self.buf[i]);
                    i = i + 1;
                    assert(rest@ =~= self.buf@.subrange(*end as int, i as int));
                }
                self.buf = rest;
            },
            Decoded::Incomplete => {},
            Decoded::Invalid(_) => {
                self.buf = Vec::new();
            },
        }
        r
    }
}

/// What a reader reports when, having `seen` some bytes, it receives the
/// chunks one at a time and tries to take a frame after each.
pub open spec fn outcome_by_chunks(seen: Seq<u8>, chunks: Seq<Seq<u8>>) -> Parse<Resp>
    decreases chunks.len(),
{
    if chunks.len() == 0 {
        parse_frame(seen)
    } else {
        let now = seen + chunks[0];
        if !(parse_frame(now) is Incomplete) {
            parse_frame(now)
        } else {
            outcome_by_chunks(now, chunks.drop_first())
        }
    }
}

/// The chunks joined in order.
pub open spec fn joined(chunks: Seq<Seq<u8>>) -> Seq<u8>
    decreases chunks.len(),
{
    if chunks.len() == 0 {
        Seq::empty()
    } else {
        chunks[0] + joined(chunks.drop_first())
    }
}

proof fn lemma_chunks_from(seen: Seq<u8>, chunks: Seq<Seq<u8>>)
    ensures
        outcome_by_chunks(seen, chunks) == parse_frame(seen + joined(chunks)),
    decreases chunks.len(),
{
    if chunks.len() == 0 {
        assert(seen + joined(chunks) =~= seen);
    } else {
        let now = seen + chunks[0];
        let rest = joined(chunks.drop_first());
        assert(seen + joined(chunks) =~= now + rest);
        if !(parse_frame(now) is Incomplete) {
            lemma_decode_extend(now, rest);
        } else {
            lemma_chunks_from(now, chunks.drop_first());
        }
    }
}

/// However a byte stream is cut into chunks, a reader that tries after each
/// chunk reports what decoding the whole stream at once gives.
pub proof fn lemma_chunk_independence(chunks: Seq<Seq<u8>>)
    ensures
        outcome_by_chunks(Seq::empty(), chunks) == parse_frame(joined(chunks)),
{
    lemma_chunks_from(Seq::empty(), chunks);
    assert(Seq::<u8>::empty() + joined(chunks) =~= joined(chunks));
}

/// Requests sent back to back are taken one at a time: the first frame of a
/// buffer that starts with the encoding of `v` is `v`, and exactly the bytes
/// after that encoding stay for the next frame.
pub proof fn lemma_frames_in_sequence(v: Resp, rest: Seq<u8>)
    requires
        representable_frame(v),
    ensures
        parse_frame(encoding(v) + rest) == Parse::Done(v, encoding(v).len() as int),
        after_frame(encoding(v) + rest) == rest,
{
    let e = encoding(v);
    lemma_decode_encode(v);
    lemma_decode_extend(e, rest);
    assert((e + rest).subrange(e.len() as int, (e + rest).len() as int) =~= rest);
}

} // verus!
