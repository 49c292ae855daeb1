use vstd::prelude::*;
use crate::codec::{Decoded, Parse, ProtocolError, encode, encoding, parse_frame};
use crate::dispatch::{
    dispatch, lemma_reply_well_formed, protocol_error_reply, protocol_error_value, reply_for,
};
use crate::frame::{FrameReader, after_frame};
use crate::laws::lemma_decode_encode;
use crate::value::{Resp, representable_frame};

verus! {

/// Most bytes a connection may hold while a frame is unfinished. This bounds
/// a whole frame, where the codec's limits bound each length field: a frame
/// that grows past it, though each of its fields is within the codec's
/// limits, closes the connection as a resource limit.
pub const MAX_PENDING: usize = 1073741824;

/// Where a connection stands.
#[derive(Debug, Clone, Copy, PartialEq, Eq, Structural)]
pub enum Phase {
    /// Waiting for bytes from the peer.
    Reading,
    /// A reply is being written; nothing more is read until it is out.
    Writing,
    Closed,
}

/// What the transport reports to a connection.
#[derive(Debug)]
pub enum Event {
    /// Bytes read from the peer (never empty: an empty read is `PeerClosed`).
    Received(Vec<u8>),
    PeerClosed,
    ReadFailed,
    /// The whole reply was written.
    WriteDone,
    WriteFailed,
}

/// What the transport must do next for a connection.
#[derive(Debug)]
pub enum Action {
    Read,
    Write(Vec<u8>),
    Close,
}

pub enum EventView {
    Received(Seq<u8>),
    PeerClosed,
    ReadFailed,
    WriteDone,
    WriteFailed,
}

pub enum ActionView {
    Read,
    Write(Seq<u8>),
    Close,
}

impl View for Event {
    type V = EventView;

    open spec fn view(&self) -> EventView {
        match self {
            Event::Received(b) => EventView::Received(b@),
            Event::PeerClosed => EventView::PeerClosed,
            Event::ReadFailed => EventView::ReadFailed,
            Event::WriteDone => EventView::WriteDone,
            Event::WriteFailed => EventView::WriteFailed,
        }
    }
}

impl View for Action {
    type V = ActionView;

    open spec fn view(&self) -> ActionView {
        match self {
            Action::Read => ActionView::Read,
            Action::Write(b) => ActionView::Write(b@),
            Action::Close => ActionView::Close,
        }
    }
}

/// Phase, pending bytes and action once the connection has looked for a
/// frame in `buf`. A decoded request is answered; an unfinished frame is
/// read on, unless it has grown past the bound; a rejected frame is answered
/// with an error, unless its declared size was beyond the limits, which
/// closes the connection.
pub open spec fn serve(buf: Seq<u8>) -> (Phase, Seq<u8>, ActionView) {
    match parse_frame(buf) {
        Parse::Done(v, _) => (Phase::Writing, after_frame(buf), ActionView::Write(encoding(reply_for(v)))),
        Parse::Incomplete => if buf.len() > MAX_PENDING {
            (Phase::Closed, buf, ActionView::Close)
        } else {
            (Phase::Reading, buf, ActionView::Read)
        },
        Parse::Invalid(e) => if e == ProtocolError::TooLarge {
            (Phase::Closed, after_frame(buf), ActionView::Close)
        } else {
            (Phase::Writing, after_frame(buf), ActionView::Write(encoding(protocol_error_reply())))
        },
    }
}

/// The connection's next phase, pending bytes and action after an event.
pub open spec fn transition(phase: Phase, pending: Seq<u8>, ev: EventView) -> (Phase, Seq<u8>, ActionView) {
    if phase == Phase::Closed {
        (Phase::Closed, pending, ActionView::Close)
    } else {
        match ev {
            EventView::Received(b) => if phase == Phase::Reading {
                serve(pending + b)
            } else {
                (Phase::Closed, pending, ActionView::Close)
            },
            EventView::WriteDone => if phase == Phase::Writing {
                serve(pending)
            } else {
                (Phase::Closed, pending, ActionView::Close)
            },
            _ => (Phase::Closed, pending, ActionView::Close),
        }
    }
}

/// One client connection: its buffered bytes and where it stands.
pub struct Connection {
    reader: FrameReader,
    phase: Phase,
}

impl Connection {
    pub closed spec fn phase_of(&self) -> Phase {
        self.phase
    }

    pub closed spec fn pending(&self) -> Seq<u8> {
        self.reader.pending()
    }

    pub fn new() -> (r: Connection)
        ensures
            r.phase_of() == Phase::Reading,
            r.pending() == Seq::<u8>::empty(),
    {
        Connection { reader: FrameReader::new(), phase: Phase::Reading }
    }

    pub fn phase(&self) -> (r: Phase)
        ensures
            r == self.phase_of(),
    {
        self.phase
    }

    fn serve_pending(&mut self) -> (a: Action)
        ensures
            (final(self).phase_of(), final(self).pending(), a@) == serve(old(self).pending()),
    {
        let ghost buf = self.reader.pending();
        let r = self.reader.next_frame();
        match r {
            Decoded::Complete(v, _) => {
                let reply = dispatch(&v);
                proof {
                    lemma_reply_well_formed(v@);
                }
                self.phase = Phase::Writing;
                Action::Write(encode(&reply))
            },
            Decoded::Incomplete => {
                if self.reader.buffered() > MAX_PENDING {
                    self.phase = Phase::Closed;
                    Action::Close
                } else {
                    self.phase = Phase::Reading;
                    Action::Read
                }
            },
            Decoded::Invalid(e) => {
                if e == ProtocolError::TooLarge {
                    self.phase = Phase::Closed;
                    Action::Close
                } else {
                    let reply = protocol_error_value();
                    proof {
                        lemma_reply_well_formed(Resp::NullBulk);
                    }
                    self.phase = Phase::Writing;
                    Action::Write(encode(&reply))
                }
            },
        }
    }

    /// Takes one event from the transport and says what to do next.
    pub fn step(&mut self, ev: Event) -> (a: Action)
        ensures
            (final(self).phase_of(), final(self).pending(), a@) == transition(
                old(self).phase_of(),
                old(self).pending(),
                ev@,
            ),
    {
        if self.phase == Phase::Closed {
            return Action::Close;
        }
        match ev {
            Event::Received(b) => {
                if self.phase == Phase::Reading {
                    self.reader.feed(b.as_slice());
                    self.serve_pending()
                } else {
                    self.phase = Phase::Closed;
                    Action::Close
                }
            },
            Event::WriteDone => {
                if self.phase == Phase::Writing {
                    self.serve_pending()
                } else {
                    self.phase = Phase::Closed;
                    Action::Close
                }
            },
            _ => {
                self.phase = Phase::Closed;
                Action::Close
            },
        }
    }
}

/// Any request within the codec's limits, a known command or not, is
/// answered with its reply, and once the reply is written the connection is
/// back to reading, open for the next request.
pub proof fn lemma_request_keeps_connection(request: Resp)
    requires
        representable_frame(request),
    ensures
        ({
            let b = encoding(request);
            let (next_phase, rest, act) = transition(Phase::Reading, Seq::empty(), EventView::Received(b));
            &&& next_phase == Phase::Writing
            &&& act == ActionView::Write(encoding(reply_for(request)))
            &&& transition(next_phase, rest, EventView::WriteDone) == (
                Phase::Reading,
                Seq::<u8>::empty(),
                ActionView::Read,
            )
        }),
{
    let b = encoding(request);
    lemma_decode_encode(request);
    assert(Seq::<u8>::empty() + b =~= b);
    assert(b.subrange(b.len() as int, b.len() as int) =~= Seq::<u8>::empty());
    assert(parse_frame(Seq::<u8>::empty()) is Incomplete);
}

} // verus!
