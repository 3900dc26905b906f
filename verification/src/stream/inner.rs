//! The state of one connection and the decisions taken on it: buffering and
//! cutting written data into segments, handing received data out in order,
//! finishing and resetting, and reacting to the segments that the peer sends.
//!
//! The caller performs what these decisions ask for (sending a segment,
//! sending `RESET`, waiting) and feeds back what happens.

use vstd::prelude::*;

use crate::segment::DataSegment;
use crate::segment::Segment;
use crate::segment::SegmentView;
use crate::segment::SeqNumber;
use crate::segment::SeqSegment;
use crate::segment::SeqSegmentView;
use crate::segment::MAX_DATA_LEN;
use crate::stream::recv::RecvStorage;
use crate::stream::recv::RecvView;
use crate::stream::send::SendStorage;
use crate::stream::send::SendView;
use crate::util::MdswpError;

verus! {

/// Appends the bytes of `s` to `v`.
pub fn append_bytes(v: &mut Vec<u8>, s: &[u8])
    ensures
        final(v)@ == old(v)@ + s@,
{
    let mut i: usize = 0;
    while i < s.len()
        invariant
            i <= s@.len(),
            v@ == old(v)@ + s@.subrange(0, i as int),
        decreases s@.len() - i,
    {
        v.push(s[i]);
        i = i + 1;
        proof {
            assert(old(v)@ + s@.subrange(0, i as int) =~= (old(v)@ + s@.subrange(0, i - 1)).push(
                s@[i - 1],
            ));
        }
    }
    proof {
        assert(s@.subrange(0, s@.len() as int) =~= s@);
    }
}

/// Copies `src[from..to]` into a new vector.
fn copy_bytes(src: &Vec<u8>, from: usize, to: usize) -> (out: Vec<u8>)
    requires
        from <= to <= src@.len(),
    ensures
        out@ == src@.subrange(from as int, to as int),
{
    let mut out: Vec<u8> = Vec::new();
    let mut i: usize = from;
    while i < to
        invariant
            from <= i <= to <= src@.len(),
            out@ == src@.subrange(from as int, i as int),
        decreases to - i,
    {
        out.push(src[i]);
        i = i + 1;
    }
    out
}

/// The `DATA` segments that `bytes` is cut into, each of [`MAX_DATA_LEN`]
/// bytes, leaving out the last bytes that do not fill a segment.
pub open spec fn full_chunks(bytes: Seq<u8>) -> Seq<SeqSegmentView> {
    Seq::new(
        bytes.len() / (MAX_DATA_LEN as nat),
        |i: int|
            SeqSegmentView::Data(
                bytes.subrange(i * MAX_DATA_LEN as int, (i + 1) * MAX_DATA_LEN as int),
            ),
    )
}

/// The bytes left over after the full chunks.
pub open spec fn chunk_rest(bytes: Seq<u8>) -> Seq<u8> {
    bytes.skip((bytes.len() / (MAX_DATA_LEN as nat)) * MAX_DATA_LEN as int)
}

/// The bytes that a sequence of sequential segments carries, in order.
pub open spec fn carried(segs: Seq<SeqSegmentView>) -> Seq<u8>
    decreases segs.len(),
{
    if segs.len() == 0 {
        Seq::empty()
    } else {
        carried(segs.drop_last()) + match segs.last() {
            SeqSegmentView::Data(d) => d,
            _ => Seq::empty(),
        }
    }
}

/// Whether a sequence of sequential segments holds `FINISH`.
pub open spec fn holds_finish(segs: Seq<SeqSegmentView>) -> bool {
    exists|i: int| 0 <= i < segs.len() && segs[i] == SeqSegmentView::Finish
}

/// Taking segments ready to be read until some data is buffered, `FINISH`
/// arrives or no segment is ready: the buffer, whether `FINISH` arrived, and
/// the segments left.
pub open spec fn pull(buffer: Seq<u8>, finished: bool, queue: Seq<SeqSegmentView>) -> (
    Seq<u8>,
    bool,
    Seq<SeqSegmentView>,
)
    decreases queue.len(),
{
    if !(buffer.len() == 0 && !finished) || queue.len() == 0 {
        (buffer, finished, queue)
    } else {
        match queue[0] {
            SeqSegmentView::Finish => (buffer, true, queue.drop_first()),
            SeqSegmentView::Data(d) => pull(buffer + d, finished, queue.drop_first()),
            SeqSegmentView::Accept => pull(buffer, finished, queue.drop_first()),
        }
    }
}

/// Mathematical value of the result of a read attempt.
pub open spec fn read_view(r: Result<Option<Vec<u8>>, MdswpError>) -> Result<Option<Seq<u8>>, MdswpError> {
    match r {
        Ok(Some(v)) => Ok(Some(v@)),
        Ok(None) => Ok(None),
        Err(e) => Err(e),
    }
}

/// What must happen when a connection fails: `RESET` is sent to the peer or
/// not.
pub struct Failure {
    pub error: MdswpError,
    pub send_reset: bool,
}

/// Mathematical value of a [`Connection`].
#[verifier::ext_equal]
pub struct ConnView {
    /// The error that shut the connection down, if any.
    pub state: Option<MdswpError>,
    /// Bytes written and not yet cut into segments.
    pub send_buffer: Seq<u8>,
    pub send: SendView,
    /// Whether `FINISH` has been queued: no more data may be written.
    pub write_closed: bool,
    /// Whether every segment up to `FINISH` has been acknowledged.
    pub send_finished: bool,
    /// Bytes received and not yet read.
    pub recv_buffer: Seq<u8>,
    pub recv: RecvView,
    /// Whether the peer's `FINISH` has been read.
    pub recv_finished: bool,
}

impl ConnView {
    /// Both storages are well formed, no `FINISH` is queued before the write
    /// side is closed, and writing counts as finished only once it is closed.
    pub open spec fn wf(self) -> bool {
        &&& self.send_finished ==> self.write_closed
        &&& self.send.wf()
        &&& self.recv.wf()
        &&& self.send_buffer.len() < MAX_DATA_LEN
        &&& !self.write_closed ==> !self.send.finish_pushed
        &&& !self.write_closed ==> !holds_finish(self.send.unsent) && (forall|i: int|
            0 <= i < self.send.sent.len() ==> #[trigger] self.send.sent[i].1
                != SeqSegmentView::Finish)
    }

    /// Failing with `error` unless the connection failed already: what must
    /// happen (`None` when nothing changes, else whether `RESET` is owed) and
    /// the connection afterwards.
    pub open spec fn failing(self, error: MdswpError, send_reset: bool) -> (Option<bool>, ConnView) {
        if self.state is Some {
            (None, self)
        } else {
            (Some(send_reset), self.fail(error))
        }
    }

    /// Reacting to a segment that the peer sent.
    pub open spec fn recv_segment(self, seg: SegmentView) -> (Option<bool>, ConnView) {
        match seg {
            SegmentView::Reset => self.failing(MdswpError::ResetByPeer, false),
            SegmentView::Establish(_) => self.failing(MdswpError::UnexpectedEstablish, true),
            SegmentView::Acknowledge(n) => {
                let (r, send) = self.send.acknowledge(n);
                match r {
                    Ok(()) => (None, ConnView { send, ..self }),
                    Err(e) => self.failing(e, true),
                }
            },
            SegmentView::Sequential(n, v) => {
                let (r, recv) = self.recv.recv(n, v);
                match r {
                    Ok(()) => (None, ConnView { recv, ..self }),
                    Err(e) => self.failing(e, true),
                }
            },
        }
    }

    /// Writing `buf`: refused by a failed connection and once writing was
    /// finished; otherwise the bytes join the buffer, and every full
    /// `MAX_DATA_LEN` bytes of it are queued as `DATA` segments.
    pub open spec fn write(self, buf: Seq<u8>) -> (Result<usize, MdswpError>, ConnView) {
        match self.state {
            Some(e) => (Err(e), self),
            None => if self.write_closed {
                (Err(MdswpError::WriteFinished), self)
            } else {
                let all = self.send_buffer + buf;
                (
                    Ok(buf.len() as usize),
                    ConnView {
                        send_buffer: chunk_rest(all),
                        send: SendView { unsent: self.send.unsent + full_chunks(all), ..self.send },
                        ..self
                    },
                )
            },
        }
    }

    /// Flushing: the buffered bytes are queued as one `DATA` segment.
    pub open spec fn flush(self) -> (Result<(), MdswpError>, ConnView) {
        match self.state {
            Some(e) => (Err(e), self),
            None => if self.send_buffer.len() == 0 {
                (Ok(()), self)
            } else if self.write_closed {
                (Err(MdswpError::WriteFinished), self)
            } else {
                (
                    Ok(()),
                    ConnView {
                        send_buffer: Seq::empty(),
                        send: SendView {
                            unsent: self.send.unsent.push(SeqSegmentView::Data(self.send_buffer)),
                            ..self.send
                        },
                        ..self
                    },
                )
            },
        }
    }

    /// Queueing `FINISH`; a second time, the connection fails.
    pub open spec fn push_finish(self) -> (Result<(), Failure>, ConnView) {
        match self.state {
            Some(e) => (Err(Failure { error: e, send_reset: false }), self),
            None => if self.write_closed {
                (
                    Err(Failure { error: MdswpError::WriteFinished, send_reset: true }),
                    self.fail(MdswpError::WriteFinished),
                )
            } else {
                (
                    Ok(()),
                    ConnView {
                        write_closed: true,
                        send: SendView {
                            unsent: self.send.unsent.push(SeqSegmentView::Finish),
                            finish_pushed: true,
                            ..self.send
                        },
                        ..self
                    },
                )
            },
        }
    }

    /// Writing counts as finished once nothing waits to be sent or
    /// acknowledged.
    pub open spec fn try_complete_finish(self) -> (bool, ConnView) {
        if self.send.is_empty() {
            (true, ConnView { send_finished: true, ..self })
        } else {
            (false, self)
        }
    }

    /// Resetting locally.
    pub open spec fn reset(self) -> (Result<(), MdswpError>, ConnView) {
        match self.state {
            Some(e) => (Err(e), self),
            None => (Ok(()), self.fail(MdswpError::ResetLocal)),
        }
    }

    /// Whether reading may start.
    pub open spec fn read_start(self) -> Result<(), MdswpError> {
        match self.state {
            Some(e) => Err(e),
            None => if self.recv_finished {
                Err(MdswpError::ReadFinished)
            } else {
                Ok(())
            },
        }
    }

    /// One attempt to read at most `max` bytes.
    pub open spec fn read_step(self, max: nat) -> (Result<Option<Seq<u8>>, MdswpError>, ConnView) {
        match self.state {
            Some(e) => (Err(e), self),
            None => {
                let (b, f, q) = pull(self.recv_buffer, self.recv_finished, self.recv.pop_queue);
                let pulled = ConnView {
                    recv_buffer: b,
                    recv_finished: f,
                    recv: RecvView { pop_queue: q, ..self.recv },
                    ..self
                };
                if b.len() == 0 && !f {
                    (Ok(None), pulled)
                } else {
                    let n = if b.len() < max {
                        b.len()
                    } else {
                        max
                    };
                    (Ok(Some(b.take(n as int))), ConnView { recv_buffer: b.skip(n as int), ..pulled })
                }
            },
        }
    }

    /// Every byte not yet read: the buffered ones, then those carried by the
    /// segments ready to be read.
    pub open spec fn unread(self) -> Seq<u8> {
        self.recv_buffer + carried(self.recv.pop_queue)
    }

    /// Every byte written and not yet handed to the sending window: those
    /// carried by the waiting segments, then the buffered ones.
    pub open spec fn unsent_bytes(self) -> Seq<u8> {
        carried(self.send.unsent) + self.send_buffer
    }

    /// The connection failing with `error`: it keeps the first error, and
    /// drops every segment.
    pub open spec fn fail(self, error: MdswpError) -> ConnView {
        ConnView {
            state: Some(error),
            send: SendView {
                sent: Seq::empty(),
                unsent: Seq::empty(),
                finish_pushed: false,
                ..self.send
            },
            recv: RecvView { segments: Map::empty(), ..self.recv },
            ..self
        }
    }
}

/// The state of one MDSWP connection.
pub struct Connection {
    conn_state: Option<MdswpError>,
    send_buffer: Vec<u8>,
    send_storage: SendStorage,
    write_closed: bool,
    send_finished: bool,
    recv_buffer: Vec<u8>,
    recv_storage: RecvStorage,
    recv_finished: bool,
}

impl View for Connection {
    type V = ConnView;

    closed spec fn view(&self) -> ConnView {
        ConnView {
            state: self.conn_state,
            send_buffer: self.send_buffer@,
            send: self.send_storage@,
            write_closed: self.write_closed,
            send_finished: self.send_finished,
            recv_buffer: self.recv_buffer@,
            recv: self.recv_storage@,
            recv_finished: self.recv_finished,
        }
    }
}

impl Connection {
    /// Creates the connection of the side that accepted the peer's
    /// `ESTABLISH` numbered `establish_seq_num`, answering with `ACCEPT`
    /// numbered `accept_seq_num`.
    pub fn new_by_peer(establish_seq_num: SeqNumber, accept_seq_num: SeqNumber) -> (c: Connection)
        ensures
            c@.wf(),
            c@.state is None,
            c@.send_buffer.len() == 0,
            c@.recv_buffer.len() == 0,
            !c@.write_closed && !c@.send_finished && !c@.recv_finished,
            c@.send == (SendView {
                sent: Seq::empty(),
                unsent: seq![SeqSegmentView::Accept],
                next_unsent: accept_seq_num,
                finish_pushed: false,
            }),
            c@.recv == (RecvView {
                segments: Map::empty(),
                pop_queue: Seq::empty(),
                window: establish_seq_num.wrapping_add(1),
                lower_bound: establish_seq_num.wrapping_add(1),
                highest: Some(establish_seq_num),
                next_pop: establish_seq_num.wrapping_add(1),
                last_ack: None,
                urgent_ack: false,
            }),
            c@.send.sent_are_latest(),
            c@.recv.complete(),
    {
        let send_storage = SendStorage::new_by_peer(accept_seq_num);
        let recv_storage = RecvStorage::new_by_peer(establish_seq_num);
        let c = Connection {
            conn_state: None,
            send_buffer: Vec::new(),
            send_storage,
            write_closed: false,
            send_finished: false,
            recv_buffer: Vec::new(),
            recv_storage,
            recv_finished: false,
        };
        proof {
            assert(!holds_finish(c@.send.unsent)) by {
                assert(c@.send.unsent[0] == SeqSegmentView::Accept);
            }
        }
        c
    }

    /// Creates the connection of the side that sent `ESTABLISH` numbered
    /// `establish_seq_num`, once the peer answered with `ACCEPT` numbered
    /// `accept_seq_num`.
    pub fn new_by_local(establish_seq_num: SeqNumber, accept_seq_num: SeqNumber) -> (c: Connection)
        ensures
            c@.wf(),
            c@.state is None,
            c@.send_buffer.len() == 0,
            c@.recv_buffer.len() == 0,
            !c@.write_closed && !c@.send_finished && !c@.recv_finished,
            c@.send == (SendView {
                sent: Seq::empty(),
                unsent: Seq::empty(),
                next_unsent: establish_seq_num.wrapping_add(1),
                finish_pushed: false,
            }),
            c@.recv == (RecvView {
                segments: map![accept_seq_num => SeqSegmentView::Accept],
                pop_queue: Seq::empty(),
                window: accept_seq_num.wrapping_add(1),
                lower_bound: accept_seq_num,
                highest: Some(accept_seq_num),
                next_pop: accept_seq_num.wrapping_add(1),
                last_ack: None,
                urgent_ack: true,
            }),
            c@.send.sent_are_latest(),
            c@.recv.complete(),
    {
        let send_storage = SendStorage::new_by_local(establish_seq_num);
        let recv_storage = RecvStorage::new_by_local(accept_seq_num);
        Connection {
            conn_state: None,
            send_buffer: Vec::new(),
            send_storage,
            write_closed: false,
            send_finished: false,
            recv_buffer: Vec::new(),
            recv_storage,
            recv_finished: false,
        }
    }

    /// `Ok` while the connection has not failed; otherwise the error that
    /// made it fail.
    pub fn stream_state(&self) -> (r: Result<(), MdswpError>)
        ensures
            r == (match self@.state {
                None => Ok::<(), MdswpError>(()),
                Some(e) => Err(e),
            }),
    {
        match self.conn_state {
            None => Ok(()),
            Some(e) => Err(e),
        }
    }

    /// Whether the connection has failed.
    pub fn is_err(&self) -> (r: bool)
        ensures
            r == self@.state is Some,
    {
        self.conn_state.is_some()
    }

    /// Whether writing was finished and every segment up to `FINISH` has been
    /// acknowledged.
    pub fn is_write_finished(&self) -> (r: Result<bool, MdswpError>)
        ensures
            r == (match self@.state {
                None => Ok::<bool, MdswpError>(self@.send_finished),
                Some(e) => Err(e),
            }),
    {
        match self.conn_state {
            None => Ok(self.send_finished),
            Some(e) => Err(e),
        }
    }

    /// Whether the peer has sent all of its data and it has been read.
    pub fn is_read_finished(&self) -> (r: Result<bool, MdswpError>)
        ensures
            r == (match self@.state {
                None => Ok::<bool, MdswpError>(self@.recv_finished),
                Some(e) => Err(e),
            }),
    {
        match self.conn_state {
            None => Ok(self.recv_finished),
            Some(e) => Err(e),
        }
    }

    /// Shuts the connection down with `error`, dropping every segment. Returns
    /// `None` when it had failed already (nothing changes), and otherwise
    /// `Some(send_reset)`: whether `RESET` must be sent to the peer.
    pub fn fail(&mut self, error: MdswpError, send_reset: bool) -> (r: Option<bool>)
        requires
            old(self)@.wf(),
        ensures
            final(self)@.wf(),
            old(self)@.state is Some ==> r is None && final(self)@ == old(self)@,
            old(self)@.state is None ==> r == Some(send_reset) && final(self)@ == old(self)@.fail(error),
    {
        if self.conn_state.is_some() {
            return None;
        }
        let ghost old_view = self@;
        self.conn_state = Some(error);
        self.send_storage.clear();
        self.recv_storage.clear();
        proof {
            assert(self@ =~= old_view.fail(error));
            assert(!holds_finish(self@.send.unsent));
        }
        Some(send_reset)
    }

    /// Writes bytes to the stream. Fails with the error of a failed
    /// connection, and with [`MdswpError::WriteFinished`] once writing was
    /// finished. Otherwise the bytes join the buffer, every full
    /// [`MAX_DATA_LEN`] bytes of it are queued as `DATA` segments, and all the
    /// bytes count as written.
    pub fn write(&mut self, buf: &[u8]) -> (r: Result<usize, MdswpError>)
        requires
            old(self)@.wf(),
        ensures
            final(self)@.wf(),
            old(self)@.send.sent_are_latest() ==> final(self)@.send.sent_are_latest(),
            (r, final(self)@) == old(self)@.write(buf@),
    {
        match self.conn_state {
            Some(e) => return Err(e),
            None => {},
        }
        if self.write_closed {
            return Err(MdswpError::WriteFinished);
        }
        let ghost old_view = self@;
        let mut all = copy_bytes(&self.send_buffer, 0, self.send_buffer.len());
        proof {
            assert(self.send_buffer@.subrange(0, self.send_buffer@.len() as int)
                =~= self.send_buffer@);
        }
        append_bytes(&mut all, buf);
        let ghost chunks = full_chunks(all@);
        let mut start: usize = 0;
        let ghost mut c: int = 0;
        while all.len() - start >= MAX_DATA_LEN
            invariant
                self@.wf(),
                !self.write_closed,
                old_view.send.sent_are_latest() ==> self@.send.sent_are_latest(),
                all@ == old_view.send_buffer + buf@,
                chunks == full_chunks(all@),
                start == c * MAX_DATA_LEN,
                start <= all@.len(),
                0 <= c <= chunks.len(),
                self@ == (ConnView {
                    send: SendView {
                        unsent: old_view.send.unsent + chunks.take(c),
                        ..old_view.send
                    },
                    ..old_view
                }),
            decreases all@.len() - start,
        {
            let bytes = copy_bytes(&all, start, start + MAX_DATA_LEN);
            let data = match DataSegment::from_vec(bytes) {
                Ok(d) => d,
                Err(_) => {
                    proof {
                        assert(false);
                    }
                    return Err(MdswpError::DataTooLong);
                },
            };
            proof {
                assert(c < chunks.len());
                assert(chunks[c] == SeqSegmentView::Data(data@));
            }
            let ghost before = self@;
            let pushed = self.send_storage.push(SeqSegment::Data { data });
            proof {
                assert(!before.send.finished()) by {
                    if before.send.unsent.len() > 0 {
                        assert(before.send.unsent.last() != SeqSegmentView::Finish);
                    }
                }
                assert(old_view.send.unsent + chunks.take(c + 1) =~= (old_view.send.unsent
                    + chunks.take(c)).push(chunks[c]));
                assert(!holds_finish(self@.send.unsent)) by {
                    assert forall|i: int| 0 <= i < self@.send.unsent.len() implies self@.send.unsent[i]
                        != SeqSegmentView::Finish by {
                        if i < before.send.unsent.len() {
                            assert(self@.send.unsent[i] == before.send.unsent[i]);
                        }
                    }
                }
            }
            match pushed {
                Ok(()) => {},
                Err(e) => {
                    proof {
                        assert(false);
                    }
                    return Err(e);
                },
            }
            start = start + MAX_DATA_LEN;
            proof {
                c = c + 1;
            }
        }
        proof {
            assert(c == chunks.len());
        }
        self.send_buffer = copy_bytes(&all, start, all.len());
        proof {
            assert(self@.send_buffer =~= chunk_rest(all@));
            assert(chunk_rest(all@).len() < MAX_DATA_LEN);
            assert(chunks.take(c) =~= chunks);
            assert(self@ =~= ConnView {
                send_buffer: chunk_rest(all@),
                send: SendView { unsent: old_view.send.unsent + chunks, ..old_view.send },
                ..old_view
            });
        }
        Ok(buf.len())
    }

    /// Queues the buffered bytes as a `DATA` segment. Fails with the error of
    /// a failed connection, and with [`MdswpError::WriteFinished`] when bytes
    /// are buffered but writing was finished.
    pub fn flush(&mut self) -> (r: Result<(), MdswpError>)
        requires
            old(self)@.wf(),
        ensures
            final(self)@.wf(),
            old(self)@.send.sent_are_latest() ==> final(self)@.send.sent_are_latest(),
            (r, final(self)@) == old(self)@.flush(),
    {
        match self.conn_state {
            Some(e) => return Err(e),
            None => {},
        }
        if self.send_buffer.len() == 0 {
            return Ok(());
        }
        if self.write_closed {
            return Err(MdswpError::WriteFinished);
        }
        let ghost old_view = self@;
        let mut bytes: Vec<u8> = Vec::new();
        std::mem::swap(&mut bytes, &mut self.send_buffer);
        let data = match DataSegment::from_vec(bytes) {
            Ok(d) => d,
            Err(e) => {
                proof {
                    assert(false);
                }
                return Err(e);
            },
        };
        let ghost before = self@;
        let pushed = self.send_storage.push(SeqSegment::Data { data });
        proof {
            assert(!before.send.finished()) by {
                if before.send.unsent.len() > 0 {
                    assert(before.send.unsent.last() != SeqSegmentView::Finish);
                }
            }
            assert(!holds_finish(self@.send.unsent)) by {
                assert forall|i: int| 0 <= i < self@.send.unsent.len() implies self@.send.unsent[i]
                    != SeqSegmentView::Finish by {
                    if i < before.send.unsent.len() {
                        assert(self@.send.unsent[i] == before.send.unsent[i]);
                    }
                }
            }
            assert(self@.send_buffer =~= Seq::empty());
        }
        match pushed {
            Ok(()) => Ok(()),
            Err(e) => {
                proof {
                    assert(false);
                }
                Err(e)
            },
        }
    }

    /// Queues `FINISH`: nothing may be written afterwards. Fails with the
    /// error of a failed connection (no `RESET` owed); when writing was
    /// finished already, the connection fails with
    /// [`MdswpError::WriteFinished`] and `RESET` is owed to the peer.
    pub fn push_finish(&mut self) -> (r: Result<(), Failure>)
        requires
            old(self)@.wf(),
        ensures
            final(self)@.wf(),
            old(self)@.send.sent_are_latest() ==> final(self)@.send.sent_are_latest(),
            (r, final(self)@) == old(self)@.push_finish(),
    {
        match self.conn_state {
            Some(e) => return Err(Failure { error: e, send_reset: false }),
            None => {},
        }
        if self.write_closed {
            let _ = self.fail(MdswpError::WriteFinished, true);
            return Err(Failure { error: MdswpError::WriteFinished, send_reset: true });
        }
        let ghost before = self@;
        let pushed = self.send_storage.push(SeqSegment::Finish);
        proof {
            assert(!before.send.finished()) by {
                if before.send.unsent.len() > 0 {
                    assert(before.send.unsent.last() != SeqSegmentView::Finish);
                }
            }
        }
        match pushed {
            Ok(()) => {},
            Err(e) => {
                proof {
                    assert(false);
                }
            },
        }
        self.write_closed = true;
        Ok(())
    }

    /// Marks writing as finished once every segment queued, `FINISH` included,
    /// has been acknowledged (or dropped by a failure). Returns whether it did.
    pub fn try_complete_finish(&mut self) -> (done: bool)
        requires
            old(self)@.wf(),
            old(self)@.write_closed,
        ensures
            final(self)@.wf(),
            (done, final(self)@) == old(self)@.try_complete_finish(),
    {
        if self.send_storage.is_empty() {
            self.send_finished = true;
            true
        } else {
            false
        }
    }

    /// Whether `FINISH` has been queued: nothing more may be written.
    pub fn is_write_closed(&self) -> (r: bool)
        ensures
            r == self@.write_closed,
    {
        self.write_closed
    }

    /// Whether the work of sending what the connection owes the peer is over:
    /// the connection failed, or writing is finished and the peer's data has
    /// all been read.
    pub fn thread_done(&self) -> (r: bool)
        requires
            self@.wf(),
        ensures
            r == (self@.state is Some || (self@.send_finished && self@.recv_finished)),
    {
        self.conn_state.is_some() || (self.send_finished && self.recv_finished)
    }

    /// Resets the connection locally. Fails with the error of a failed
    /// connection; otherwise the connection fails with
    /// [`MdswpError::ResetLocal`] and `RESET` must be sent to the peer.
    pub fn reset(&mut self) -> (r: Result<(), MdswpError>)
        requires
            old(self)@.wf(),
        ensures
            final(self)@.wf(),
            (r, final(self)@) == old(self)@.reset(),
    {
        match self.conn_state {
            Some(e) => return Err(e),
            None => {},
        }
        let _ = self.fail(MdswpError::ResetLocal, true);
        Ok(())
    }

    /// Checks, before reading, that the connection has not failed and that
    /// the peer's data has not all been read: then reading fails with
    /// [`MdswpError::ReadFinished`].
    pub fn read_start(&self) -> (r: Result<(), MdswpError>)
        ensures
            r == self@.read_start(),
    {
        match self.conn_state {
            Some(e) => Err(e),
            None => if self.recv_finished {
                Err(MdswpError::ReadFinished)
            } else {
                Ok(())
            },
        }
    }

    /// One attempt to read at most `max` bytes. Segments ready to be read are
    /// taken in order until some data is buffered or `FINISH` arrives. Returns
    /// `None` when nothing is buffered and nothing is ready yet (the caller
    /// waits and tries again), and otherwise the first buffered bytes, at most
    /// `max` of them (none once `FINISH` has been read).
    pub fn read_step(&mut self, max: usize) -> (r: Result<Option<Vec<u8>>, MdswpError>)
        requires
            old(self)@.wf(),
        ensures
            final(self)@.wf(),
            old(self)@.recv.complete() ==> final(self)@.recv.complete(),
            (read_view(r), final(self)@) == old(self)@.read_step(max as nat),
    {
        match self.conn_state {
            Some(e) => return Err(e),
            None => {},
        }
        let ghost old_view = self@;
        let ghost target = pull(old_view.recv_buffer, old_view.recv_finished, old_view.recv.pop_queue);
        let mut exhausted = false;
        while !exhausted && self.recv_buffer.len() == 0 && !self.recv_finished
            invariant
                old_view == old(self)@,
                old_view.state is None,
                self@.wf(),
                old_view.recv.complete() ==> self@.recv.complete(),
                pull(self@.recv_buffer, self@.recv_finished, self@.recv.pop_queue) == target,
                exhausted ==> self@.recv.pop_queue.len() == 0 && self@.recv_buffer.len() == 0
                    && !self@.recv_finished,
                self@ == (ConnView {
                    recv_buffer: self@.recv_buffer,
                    recv_finished: self@.recv_finished,
                    recv: RecvView { pop_queue: self@.recv.pop_queue, ..old_view.recv },
                    ..old_view
                }),
            decreases self@.recv.pop_queue.len() + (if exhausted { 0int } else { 1int }),
        {
            let ghost before = self@;
            match self.recv_storage.pop() {
                None => {
                    exhausted = true;
                },
                Some(segment) => {
                    match segment {
                        SeqSegment::Finish => {
                            self.recv_finished = true;
                        },
                        SeqSegment::Data { data } => {
                            append_bytes(&mut self.recv_buffer, data.as_ref());
                        },
                        SeqSegment::Accept => {},
                    }
                    proof {
                        assert(self@.recv.pop_queue == before.recv.pop_queue.drop_first());
                    }
                },
            }
        }
        if exhausted {
            proof {
                assert(target.0.len() == 0 && !target.1);
                assert(self@ =~= ConnView {
                    recv_buffer: target.0,
                    recv_finished: target.1,
                    recv: RecvView { pop_queue: target.2, ..old_view.recv },
                    ..old_view
                });
            }
            return Ok(None);
        }
        let len = self.recv_buffer.len();
        let n = if len < max {
            len
        } else {
            max
        };
        let out = copy_bytes(&self.recv_buffer, 0, n);
        self.recv_buffer = copy_bytes(&self.recv_buffer, n, len);
        proof {
            assert(!(target.0.len() == 0 && !target.1));
            assert(self@.recv_buffer =~= target.0.skip(n as int));
            assert(out@ =~= target.0.take(n as int));
        }
        Ok(Some(out))
    }

    /// Whether no segment waits to be sent or acknowledged.
    pub fn is_send_empty(&self) -> (r: bool)
        ensures
            r == self@.send.is_empty(),
    {
        self.send_storage.is_empty()
    }

    /// Reacts to a segment that the peer sent: `RESET` makes the connection
    /// fail with [`MdswpError::ResetByPeer`], `ESTABLISH` with
    /// [`MdswpError::UnexpectedEstablish`]; an acknowledgement goes to the
    /// sending side and a sequential segment to the receiving side, and the
    /// connection fails with the error that they report. Returns `None` when
    /// the connection did not fail now, and otherwise whether `RESET` must be
    /// sent to the peer.
    pub fn recv_segment(&mut self, segment: Segment) -> (r: Option<bool>)
        requires
            old(self)@.wf(),
        ensures
            final(self)@.wf(),
            (r, final(self)@) == old(self)@.recv_segment(segment@),
            old(self)@.recv.complete() && final(self)@.state is None
                ==> final(self)@.recv.complete(),
            old(self)@.send.sent_are_latest() && !(segment@ == SegmentView::Acknowledge(
                old(self)@.send.next_unsent,
            )) ==> final(self)@.send.sent_are_latest(),
    {
        let ghost old_view = self@;
        match segment {
            Segment::Reset => self.fail(MdswpError::ResetByPeer, false),
            Segment::Establish { .. } => self.fail(MdswpError::UnexpectedEstablish, true),
            Segment::Acknowledge { seq_num } => {
                let acked = self.send_storage.acknowledge(seq_num);
                proof {
                    crate::stream::send::lemma_unacked(old_view.send.sent, seq_num);
                    if !old_view.write_closed {
                        assert forall|i: int| 0 <= i < self@.send.sent.len() implies #[trigger] self@.send.sent[i].1
                            != SeqSegmentView::Finish by {
                            if acked is Ok {
                                assert(self@.send.sent.contains(self@.send.sent[i]));
                                let k = choose|k: int|
                                    0 <= k < old_view.send.sent.len() && old_view.send.sent[k]
                                        == self@.send.sent[i];
                                assert(old_view.send.sent[k].1 != SeqSegmentView::Finish);
                            }
                        }
                    }
                }
                match acked {
                    Ok(()) => None,
                    Err(e) => self.fail(e, true),
                }
            },
            Segment::Sequential { seq_num, variant } => {
                let received = self.recv_storage.recv(seq_num, variant);
                match received {
                    Ok(()) => None,
                    Err(e) => self.fail(e, true),
                }
            },
        }
    }

    /// Decides whether to acknowledge now, and what (see
    /// [`RecvStorage::pop_acknowledge`]).
    pub fn poll_acknowledge(&mut self) -> (r: Option<SeqNumber>)
        requires
            old(self)@.wf(),
        ensures
            final(self)@.wf(),
            old(self)@.recv.complete() ==> final(self)@.recv.complete(),
            ({
                let (a, v) = old(self)@.recv.pop_acknowledge(true);
                r == a && final(self)@ == (ConnView { recv: v, ..old(self)@ })
            }) || ({
                let (a, v) = old(self)@.recv.pop_acknowledge(false);
                r == a && final(self)@ == (ConnView { recv: v, ..old(self)@ })
            }),
    {
        self.recv_storage.pop_acknowledge()
    }

    /// Takes the next sequential segment to send, if any (see
    /// [`SendStorage::pop`]).
    pub fn poll_segment(&mut self) -> (r: Option<(SeqNumber, SeqSegment)>)
        requires
            old(self)@.wf(),
        ensures
            final(self)@.wf(),
            old(self)@.send.sent_are_latest() ==> final(self)@.send.sent_are_latest(),
            ({
                let (p, v) = old(self)@.send.pop(true);
                crate::stream::send::popped_view(r) == p && final(self)@ == (ConnView {
                    send: v,
                    ..old(self)@
                })
            }) || ({
                let (p, v) = old(self)@.send.pop(false);
                crate::stream::send::popped_view(r) == p && final(self)@ == (ConnView {
                    send: v,
                    ..old(self)@
                })
            }),
    {
        let ghost old_view = self@;
        let r = self.send_storage.pop();
        proof {
            let o = old_view.send;
            let n = self@.send;
            if !old_view.write_closed {
                assert(!holds_finish(n.unsent)) by {
                    assert forall|i: int| 0 <= i < n.unsent.len() implies n.unsent[i]
                        != SeqSegmentView::Finish by {
                        if n.unsent.len() < o.unsent.len() {
                            assert(n.unsent[i] == o.unsent[i + 1]);
                        } else {
                            assert(n.unsent[i] == o.unsent[i]);
                        }
                    }
                }
                assert forall|i: int| 0 <= i < n.sent.len() implies #[trigger] n.sent[i].1
                    != SeqSegmentView::Finish by {
                    if n.unsent.len() < o.unsent.len() {
                        if i < o.sent.len() {
                            assert(n.sent[i] == o.sent[i]);
                        } else {
                            assert(n.sent[i].1 == o.unsent[0]);
                        }
                    } else if n.sent == o.sent {
                    } else {
                        if i < n.sent.len() - 1 {
                            assert(n.sent[i] == o.sent[i + 1]);
                        } else {
                            assert(n.sent[i] == o.sent[0]);
                        }
                    }
                }
            }
        }
        r
    }
}

} // verus!
