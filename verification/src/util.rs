//! Protocol constants and the errors that the protocol logic reports.

use vstd::prelude::*;

verus! {

/// Number of sequential segments that may be in flight without being
/// acknowledged, and the size of the receiving window.
pub const WINDOW_SIZE: u8 = 10;

/// Time after which a connection attempt is given up, in milliseconds. Half of
/// it is the time after which an unacknowledged segment is sent again and after
/// which an acknowledgement is repeated.
pub const CONN_TIMEOUT_MILLIS: u64 = 3000;

/// Half of the connection timeout, in nanoseconds.
pub const HALF_TIMEOUT_NANOS: u128 = 1_500_000_000;

/// How many sequence numbers `seq` lies before `next`, counting modulo 256.
pub open spec fn age(next: u8, seq: u8) -> int {
    if next >= seq {
        next - seq
    } else {
        next - seq + 256
    }
}

/// The sequence number `j` places after `w`, counting modulo 256.
pub open spec fn seq_add(w: u8, j: int) -> u8 {
    ((w as int + j) % 256) as u8
}

/// Counting `j` places on from `w` adds `j` to every age, as long as no age
/// goes round.
pub proof fn lemma_age_add(w: u8, base: u8, j: int)
    requires
        0 <= j,
        age(w, base) + j < 256,
    ensures
        age(seq_add(w, j), base) == age(w, base) + j,
        age(seq_add(w, j), w) == j,
{
}

/// Adding one more place.
pub proof fn lemma_seq_add_step(w: u8, j: int)
    ensures
        seq_add(w, j).wrapping_add(1) == seq_add(w, j + 1),
        seq_add(w, 0) == w,
{
}

/// Sequence numbers obey the ordering that the specification of `BTreeMap`
/// relies on.
pub open spec fn u8_keys_ordered() -> bool {
    vstd::laws_cmp::obeys_cmp::<u8>()
}

pub proof fn lemma_u8_keys_ordered()
    ensures
        u8_keys_ordered(),
{
}

/// Kind of an error reported by the transport (the UDP socket) underneath.
#[derive(Clone, Copy, PartialEq, Eq, Structural, Debug)]
pub enum IoKind {
    NotFound,
    PermissionDenied,
    ConnectionRefused,
    ConnectionReset,
    ConnectionAborted,
    NotConnected,
    AddrInUse,
    AddrNotAvailable,
    BrokenPipe,
    AlreadyExists,
    WouldBlock,
    InvalidInput,
    InvalidData,
    TimedOut,
    WriteZero,
    Interrupted,
    Unsupported,
    UnexpectedEof,
    OutOfMemory,
    Other,
}

/// Which check a byte sequence failed when it was read as a segment.
#[derive(Clone, Copy, PartialEq, Eq, Structural, Debug)]
pub enum SegmentFault {
    /// Empty, or longer than a segment may be.
    Length,
    /// `ESTABLISH` code, but not followed by exactly a sequence number.
    Establish,
    /// `RESET` code followed by further bytes.
    Reset,
    /// `ACCEPT` code, but not followed by exactly a sequence number.
    Accept,
    /// `FINISH` code, but not followed by exactly a sequence number.
    Finish,
    /// `ACKNOWLEDGE` code, but not followed by exactly a sequence number.
    Acknowledge,
    /// `DATA` code, but no sequence number after it.
    Data,
    /// Unknown instruction code.
    UnknownType,
}

/// Why a sequential segment arrived out of order.
#[derive(Clone, Copy, PartialEq, Eq, Structural, Debug)]
pub enum OrderFault {
    /// `ACCEPT` after other segments.
    AcceptInMiddle,
    /// `DATA` or `FINISH` numbered after a `FINISH`.
    AfterFinish,
    /// `DATA` or `FINISH` numbered before the `ACCEPT`.
    BeforeAccept,
}

/// What kind of sequential segment an error message speaks of.
#[derive(Clone, Copy, PartialEq, Eq, Structural, Debug)]
pub enum SeqSegmentKind {
    Accept,
    Finish,
    /// A `DATA` segment, with the number of bytes that it carries.
    Data { len: usize },
}

/// What kind of segment an error message speaks of.
#[derive(Clone, Copy, PartialEq, Eq, Structural, Debug)]
pub enum SegmentSummary {
    Establish { start_seq_num: u8 },
    Reset,
    Acknowledge { seq_num: u8 },
    Sequential { seq_num: u8, kind: SeqSegmentKind },
}

/// Errors of the protocol.
#[derive(Clone, Copy, PartialEq, Eq, Structural, Debug)]
pub enum MdswpError {
    /// A segment arrived whose sequence number lies outside of
    /// `[lower_bound; upper_bound)`.
    InvalidSeqNum { seq_num: u8, lower_bound: u8, upper_bound: u8 },
    /// The peer has sent all of its data.
    ReadFinished,
    /// The peer reset the connection.
    ResetByPeer,
    /// The connection was reset locally.
    ResetLocal,
    /// The peer did not answer in time.
    TimedOut,
    /// The peer sent `ESTABLISH` in the middle of a connection.
    UnexpectedEstablish,
    /// The peer acknowledged a sequence number that was never sent.
    InvalidAckNum { ack_num: u8 },
    /// An acknowledgement named no segment that a data storage keeps in its
    /// window.
    AckNotFound { ack_num: u8 },
    /// The peer sent a segment that was not expected at this point.
    UnexpectedSegment { segment: SegmentSummary },
    /// The peer sent a segment under a sequence number that already carried
    /// another segment.
    Unreliable { actual: SeqSegmentKind, expected: SeqSegmentKind },
    /// The peer sent a sequential segment out of order.
    OutOfOrder { seq_num: u8, kind: SeqSegmentKind, fault: OrderFault },
    /// Sending data to the peer has already been finished.
    WriteFinished,
    /// A datagram could not be read as a segment.
    MalformedSegment { fault: SegmentFault },
    /// More data than one `DATA` segment can carry.
    DataTooLong,
    /// The transport underneath failed.
    Io { kind: IoKind },
}

/// The kind of transport error under which an error of the protocol is
/// reported: a broken connection for every fault of the peer, an end of file
/// once the peer has finished, a reset, a time-out, not found for an
/// acknowledgement that a data storage does not know, an aborted connection for
/// writing after finishing, invalid input for a malformed segment or too much
/// data, and the transport's own kind for its own errors.
pub open spec fn error_kind(e: MdswpError) -> IoKind {
    match e {
        MdswpError::InvalidSeqNum { .. } => IoKind::BrokenPipe,
        MdswpError::ReadFinished => IoKind::UnexpectedEof,
        MdswpError::ResetByPeer => IoKind::ConnectionReset,
        MdswpError::ResetLocal => IoKind::ConnectionReset,
        MdswpError::TimedOut => IoKind::TimedOut,
        MdswpError::UnexpectedEstablish => IoKind::BrokenPipe,
        MdswpError::InvalidAckNum { .. } => IoKind::BrokenPipe,
        MdswpError::AckNotFound { .. } => IoKind::NotFound,
        MdswpError::UnexpectedSegment { .. } => IoKind::BrokenPipe,
        MdswpError::Unreliable { .. } => IoKind::BrokenPipe,
        MdswpError::OutOfOrder { .. } => IoKind::BrokenPipe,
        MdswpError::WriteFinished => IoKind::ConnectionAborted,
        MdswpError::MalformedSegment { .. } => IoKind::InvalidInput,
        MdswpError::DataTooLong => IoKind::InvalidInput,
        MdswpError::Io { kind } => kind,
    }
}

impl MdswpError {
    /// The kind of transport error under which this error is reported.
    pub fn io_kind(&self) -> (k: IoKind)
        ensures
            k == error_kind(*self),
    {
        match self {
            MdswpError::InvalidSeqNum { .. } => IoKind::BrokenPipe,
            MdswpError::ReadFinished => IoKind::UnexpectedEof,
            MdswpError::ResetByPeer => IoKind::ConnectionReset,
            MdswpError::ResetLocal => IoKind::ConnectionReset,
            MdswpError::TimedOut => IoKind::TimedOut,
            MdswpError::UnexpectedEstablish => IoKind::BrokenPipe,
            MdswpError::InvalidAckNum { .. } => IoKind::BrokenPipe,
            MdswpError::AckNotFound { .. } => IoKind::NotFound,
            MdswpError::UnexpectedSegment { .. } => IoKind::BrokenPipe,
            MdswpError::Unreliable { .. } => IoKind::BrokenPipe,
            MdswpError::OutOfOrder { .. } => IoKind::BrokenPipe,
            MdswpError::WriteFinished => IoKind::ConnectionAborted,
            MdswpError::MalformedSegment { .. } => IoKind::InvalidInput,
            MdswpError::DataTooLong => IoKind::InvalidInput,
            MdswpError::Io { kind } => *kind,
        }
    }
}

} // verus!
