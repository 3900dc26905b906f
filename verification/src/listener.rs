//! Decisions of the listening side: where an incoming datagram goes, how a
//! connection that a peer establishes is opened, and how the answer to a
//! connection request is taken.

use vstd::prelude::*;

use crate::segment::decode;
use crate::segment::segment_summary;
use crate::segment::Segment;
use crate::segment::SegmentView;
use crate::segment::SeqNumber;
use crate::segment::SeqSegment;
use crate::segment::SeqSegmentView;
use crate::stream::inner::Connection;
use crate::stream::inner::ConnView;
use crate::stream::inner::Failure;
use crate::stream::recv::RecvView;
use crate::stream::send::SendView;
use crate::util::MdswpError;

verus! {

/// Sequence number of the `ESTABLISH` segment that opens a connection.
pub const ESTABLISH_SEQ_NUM: SeqNumber = 128;

/// Calls `rand::random::<u8>()`: a number drawn by the generator of the
/// current thread. Nothing is stated of it: it is random.
#[verifier::external_body]
fn random_seq_num() -> (n: u8) {
    rand::random::<u8>()
}

/// Attempts made to connect to one address before giving up.
pub const CONNECT_ATTEMPTS: u8 = 3;

/// What to do after an attempt to connect.
#[derive(Clone, Copy, PartialEq, Eq, Structural, Debug)]
pub enum AttemptStep {
    /// Return the outcome of the attempt made last.
    Return,
    /// Make another attempt.
    TryAgain,
}

/// After the `made`-th attempt to connect to one address: its outcome is
/// returned once it succeeded or all [`CONNECT_ATTEMPTS`] attempts have been
/// made; otherwise another attempt follows.
pub fn after_attempt(made: u8, succeeded: bool) -> (s: AttemptStep)
    requires
        1 <= made <= CONNECT_ATTEMPTS,
    ensures
        s == (if succeeded || made == CONNECT_ATTEMPTS {
            AttemptStep::Return
        } else {
            AttemptStep::TryAgain
        }),
{
    if succeeded || made == CONNECT_ATTEMPTS {
        AttemptStep::Return
    } else {
        AttemptStep::TryAgain
    }
}

/// After connecting to one of several addresses, with `left` addresses not
/// tried yet: the outcome is returned once a connection succeeded or no
/// address is left (then the error of the last one); otherwise the next
/// address is tried.
pub fn after_address(left: usize, succeeded: bool) -> (s: AttemptStep)
    ensures
        s == (if succeeded || left == 0 {
            AttemptStep::Return
        } else {
            AttemptStep::TryAgain
        }),
{
    if succeeded || left == 0 {
        AttemptStep::Return
    } else {
        AttemptStep::TryAgain
    }
}

/// Where a datagram that arrived at a listener goes.
pub enum Route {
    /// To the connection of the sender.
    Deliver { segment: Segment },
    /// The connection of the sender fails with this error and owes `RESET`.
    FailConnection { error: MdswpError },
    /// The sender establishes a new connection.
    Open { establish_seq_num: SeqNumber },
    /// `RESET` is sent back: the sender has no connection and does not
    /// establish one.
    Reject,
}

/// Mathematical value of a [`Route`].
pub enum RouteView {
    Deliver(SegmentView),
    FailConnection(MdswpError),
    Open(u8),
    Reject,
}

impl View for Route {
    type V = RouteView;

    open spec fn view(&self) -> RouteView {
        match self {
            Route::Deliver { segment } => RouteView::Deliver(segment@),
            Route::FailConnection { error } => RouteView::FailConnection(*error),
            Route::Open { establish_seq_num } => RouteView::Open(*establish_seq_num),
            Route::Reject => RouteView::Reject,
        }
    }
}

/// Where the datagram `data` goes, given whether its sender has a connection.
pub open spec fn route(data: Seq<u8>, has_connection: bool) -> RouteView {
    match decode(data) {
        Ok(s) => if has_connection {
            RouteView::Deliver(s)
        } else {
            match s {
                SegmentView::Establish(n) => RouteView::Open(n),
                _ => RouteView::Reject,
            }
        },
        Err(fault) => if has_connection {
            RouteView::FailConnection(MdswpError::MalformedSegment { fault })
        } else {
            RouteView::Reject
        },
    }
}

/// Decides where a datagram that arrived at a listener goes: to the
/// connection of its sender if there is one (a malformed datagram makes that
/// connection fail), else to a new connection if it is `ESTABLISH`, else it is
/// answered with `RESET`.
pub fn route_datagram(data: &[u8], has_connection: bool) -> (r: Route)
    ensures
        r@ == route(data@, has_connection),
{
    match Segment::try_from(data) {
        Ok(segment) => if has_connection {
            Route::Deliver { segment }
        } else {
            match segment {
                Segment::Establish { start_seq_num } => Route::Open {
                    establish_seq_num: start_seq_num,
                },
                _ => Route::Reject,
            }
        },
        Err(error) => if has_connection {
            Route::FailConnection { error }
        } else {
            Route::Reject
        },
    }
}

/// Reads a datagram received while waiting for the answer to a connection
/// request: nothing when it is empty, else the segment it holds.
pub fn read_datagram(data: &[u8]) -> (r: Result<Option<Segment>, MdswpError>)
    ensures
        data@.len() == 0 ==> r == Ok::<Option<Segment>, MdswpError>(None),
        data@.len() > 0 ==> match decode(data@) {
            Ok(v) => r matches Ok(Some(s)) && s@ == v,
            Err(fault) => r == Err::<Option<Segment>, MdswpError>(
                MdswpError::MalformedSegment { fault },
            ),
        },
{
    if data.len() == 0 {
        return Ok(None);
    }
    match Segment::try_from(data) {
        Ok(s) => Ok(Some(s)),
        Err(e) => Err(e),
    }
}

/// The state of a connection just opened by the side that accepted
/// `ESTABLISH` numbered `establish_seq_num` and answers with `ACCEPT` numbered
/// `accept_seq_num`.
pub open spec fn opened_by_peer(establish_seq_num: u8, accept_seq_num: u8) -> ConnView {
    ConnView {
        state: None,
        send_buffer: Seq::empty(),
        send: SendView {
            sent: Seq::empty(),
            unsent: seq![SeqSegmentView::Accept],
            next_unsent: accept_seq_num,
            finish_pushed: false,
        },
        write_closed: false,
        send_finished: false,
        recv_buffer: Seq::empty(),
        recv: RecvView {
            segments: Map::empty(),
            pop_queue: Seq::empty(),
            window: establish_seq_num.wrapping_add(1),
            lower_bound: establish_seq_num.wrapping_add(1),
            highest: Some(establish_seq_num),
            next_pop: establish_seq_num.wrapping_add(1),
            last_ack: None,
            urgent_ack: false,
        },
        recv_finished: false,
    }
}

/// The state of a connection just opened by the side that sent `ESTABLISH`
/// numbered `establish_seq_num`, once the peer answered with `ACCEPT`
/// numbered `accept_seq_num`.
pub open spec fn opened_by_local(establish_seq_num: u8, accept_seq_num: u8) -> ConnView {
    ConnView {
        state: None,
        send_buffer: Seq::empty(),
        send: SendView {
            sent: Seq::empty(),
            unsent: Seq::empty(),
            next_unsent: establish_seq_num.wrapping_add(1),
            finish_pushed: false,
        },
        write_closed: false,
        send_finished: false,
        recv_buffer: Seq::empty(),
        recv: RecvView {
            segments: map![accept_seq_num => SeqSegmentView::Accept],
            pop_queue: Seq::empty(),
            window: accept_seq_num.wrapping_add(1),
            lower_bound: accept_seq_num,
            highest: Some(accept_seq_num),
            next_pop: accept_seq_num.wrapping_add(1),
            last_ack: None,
            urgent_ack: true,
        },
        recv_finished: false,
    }
}

/// Opens the connection that a peer establishes with `ESTABLISH` numbered
/// `establish_seq_num`. The sequence number of its `ACCEPT` is drawn at
/// random and returned with the connection.
pub fn open_by_peer(establish_seq_num: SeqNumber) -> (r: (Connection, SeqNumber))
    ensures
        r.0@ == opened_by_peer(establish_seq_num, r.1),
        r.0@.wf(),
        r.0@.send.sent_are_latest(),
        r.0@.recv.complete(),
{
    let accept_seq_num = random_seq_num();
    let c = Connection::new_by_peer(establish_seq_num, accept_seq_num);
    (c, accept_seq_num)
}

/// Mathematical value of the answer to a connection request.
pub open spec fn handshake(establish_seq_num: u8, reply: SegmentView) -> Result<ConnView, Failure> {
    match reply {
        SegmentView::Reset => Err(Failure { error: MdswpError::ResetByPeer, send_reset: false }),
        SegmentView::Sequential(n, SeqSegmentView::Accept) => Ok(
            opened_by_local(establish_seq_num, n),
        ),
        other => Err(
            Failure {
                error: MdswpError::UnexpectedSegment { segment: segment_summary(other) },
                send_reset: true,
            },
        ),
    }
}

/// Takes the peer's answer to `ESTABLISH` numbered `establish_seq_num`:
/// `ACCEPT` opens the connection, `RESET` refuses it, and any other segment
/// is answered with `RESET` and fails the attempt.
pub fn handshake_reply(establish_seq_num: SeqNumber, reply: Segment) -> (r: Result<
    Connection,
    Failure,
>)
    ensures
        match handshake(establish_seq_num, reply@) {
            Ok(v) => r matches Ok(c) && c@ == v && c@.wf() && c@.send.sent_are_latest()
                && c@.recv.complete(),
            Err(f) => r matches Err(g) && g == f,
        },
{
    match reply {
        Segment::Reset => Err(Failure { error: MdswpError::ResetByPeer, send_reset: false }),
        Segment::Sequential { seq_num, variant: SeqSegment::Accept } => Ok(
            Connection::new_by_local(establish_seq_num, seq_num),
        ),
        other => {
            let segment = other.summary();
            Err(Failure { error: MdswpError::UnexpectedSegment { segment }, send_reset: true })
        },
    }
}

} // verus!
