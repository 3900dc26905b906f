//! A simpler storage of the data of a stream: the sending side keeps its
//! segments in one queue under a window of `WINDOW_SIZE` sequence numbers,
//! and the receiving side a buffer of bytes.

pub mod recv;
pub mod send;

use std::collections::VecDeque;
use std::time::Instant;

use vstd::prelude::*;

use crate::clock::instant_now;
use crate::segment::decode;
use crate::segment::segment_summary;
use crate::segment::DataSegment;
use crate::segment::Segment;
use crate::segment::SegmentView;
use crate::segment::SeqSegment;
use crate::segment::SeqSegmentView;
use crate::segment::MAX_DATA_LEN;
use crate::stream::inner::append_bytes;
use crate::stream::inner::chunk_rest;
use crate::stream::inner::full_chunks;
use crate::util::age;
use crate::util::MdswpError;

verus! {

/// Number of sequence numbers in the window of this storage.
pub const WINDOW_SIZE: u8 = 5;

/// Mathematical value of a [`SendDataStorage`].
#[verifier::ext_equal]
pub struct SendDataView {
    /// Bytes written and not yet cut into segments.
    pub buffer: Seq<u8>,
    /// First sequence number of the window, and the first one after it.
    pub window: (u8, u8),
    /// Segments not yet acknowledged, each with whether it has been sent.
    pub data: Seq<(SeqSegmentView, bool)>,
    /// Whether `FINISH` has been queued: nothing more may be written.
    pub finished: bool,
}

impl SendDataView {
    /// Fewer bytes are buffered than fill a segment, and only `DATA` and
    /// `FINISH` segments are queued.
    pub open spec fn wf(self) -> bool {
        &&& self.buffer.len() < MAX_DATA_LEN
        &&& forall|i: int| 0 <= i < self.data.len() ==> #[trigger] self.data[i].0 != SeqSegmentView::Accept
    }

    /// Whether writing has been finished: `FINISH` has been queued, whether
    /// or not it has been acknowledged since.
    pub open spec fn has_finished(self) -> bool {
        self.finished
    }

    /// Position in the queue of the segment numbered `seq_num`, if it is in
    /// the window and queued.
    pub open spec fn index_of(self, seq_num: u8) -> Option<int> {
        let index = age(seq_num, self.window.0);
        if index >= WINDOW_SIZE || index >= self.data.len() {
            None
        } else {
            Some(index)
        }
    }

    /// Writing `buf`: the bytes join the buffer and every full
    /// [`MAX_DATA_LEN`] bytes of it are queued as a `DATA` segment; refused
    /// once writing has been finished.
    pub open spec fn write(self, buf: Seq<u8>) -> (Result<usize, MdswpError>, SendDataView) {
        if self.has_finished() {
            (Err(MdswpError::WriteFinished), self)
        } else {
            let all = self.buffer + buf;
            (
                Ok(buf.len() as usize),
                SendDataView {
                    buffer: chunk_rest(all),
                    data: self.data + full_chunks(all).map_values(|s: SeqSegmentView| (s, false)),
                    ..self
                },
            )
        }
    }

    /// Queueing the buffered bytes as a `DATA` segment.
    pub open spec fn flushed(self) -> SendDataView {
        SendDataView {
            buffer: Seq::empty(),
            data: self.data.push((SeqSegmentView::Data(self.buffer), false)),
            ..self
        }
    }

    /// Flushing: refused once writing has been finished.
    pub open spec fn flush(self) -> (Result<(), MdswpError>, SendDataView) {
        if self.has_finished() {
            (Err(MdswpError::WriteFinished), self)
        } else {
            (Ok(()), self.flushed())
        }
    }

    /// Finishing: the buffered bytes and then `FINISH` are queued; refused
    /// once writing has been finished.
    pub open spec fn finish(self) -> (Result<(), MdswpError>, SendDataView) {
        if self.has_finished() {
            (Err(MdswpError::WriteFinished), self)
        } else {
            let f = self.flushed();
            (
                Ok(()),
                SendDataView {
                    data: f.data.push((SeqSegmentView::Finish, false)),
                    finished: true,
                    ..f
                },
            )
        }
    }

    /// Acknowledging `seq_num`: the segments up to it leave the queue and the
    /// window slides past them; refused when it is not in the window and
    /// queued.
    pub open spec fn acknowledge(self, seq_num: u8) -> (Result<(), MdswpError>, SendDataView) {
        match self.index_of(seq_num) {
            None => (Err(MdswpError::AckNotFound { ack_num: seq_num }), self),
            Some(index) => (
                Ok(()),
                SendDataView {
                    window: (
                        self.window.0.wrapping_add((index + 1) as u8),
                        self.window.1.wrapping_add((index + 1) as u8),
                    ),
                    data: self.data.skip(index + 1),
                    ..self
                },
            ),
        }
    }

    /// Recording that `seq_num` has been sent; refused when it is not in the
    /// window and queued.
    pub open spec fn mark_sent(self, seq_num: u8) -> (Result<(), MdswpError>, SendDataView) {
        match self.index_of(seq_num) {
            None => (Err(MdswpError::AckNotFound { ack_num: seq_num }), self),
            Some(index) => (
                Ok(()),
                SendDataView { data: self.data.update(index, (self.data[index].0, true)), ..self },
            ),
        }
    }
}

/// Storage of the segments that one side sends, under a window.
pub struct SendDataStorage {
    buffer: Vec<u8>,
    window: (u8, u8),
    data: VecDeque<(SeqSegment, Option<Instant>)>,
    finished: bool,
}

/// Mathematical value of an entry of the queue.
pub open spec fn data_entry(e: (SeqSegment, Option<Instant>)) -> (SeqSegmentView, bool) {
    (e.0@, e.1 is Some)
}

impl View for SendDataStorage {
    type V = SendDataView;

    closed spec fn view(&self) -> SendDataView {
        SendDataView {
            buffer: self.buffer@,
            window: self.window,
            data: self.data@.map_values(|e: (SeqSegment, Option<Instant>)| data_entry(e)),
            finished: self.finished,
        }
    }
}

impl SendDataStorage {
    /// Creates an empty storage whose window starts at 0.
    pub fn new() -> (s: SendDataStorage)
        ensures
            s@ == (SendDataView {
                buffer: Seq::empty(),
                window: (0u8, WINDOW_SIZE),
                data: Seq::empty(),
                finished: false,
            }),
            s@.wf(),
    {
        let s = SendDataStorage {
            buffer: Vec::new(),
            window: (0, WINDOW_SIZE),
            data: VecDeque::new(),
            finished: false,
        };
        proof {
            assert(s@.data =~= Seq::empty());
        }
        s
    }

    /// Whether writing has been finished: `FINISH` has been queued.
    pub fn has_finished(&self) -> (r: bool)
        requires
            self@.wf(),
        ensures
            r == self@.has_finished(),
    {
        self.finished
    }

    /// Queues the buffered bytes as a `DATA` segment and empties the buffer.
    fn flush_unchecked(&mut self)
        requires
            old(self)@.wf(),
        ensures
            final(self)@.wf(),
            final(self)@ == old(self)@.flushed(),
    {
        let ghost old_view = self@;
        let mut bytes: Vec<u8> = Vec::new();
        std::mem::swap(&mut bytes, &mut self.buffer);
        match DataSegment::from_vec(bytes) {
            Ok(data) => {
                self.data.push_back((SeqSegment::Data { data }, None));
            },
            Err(_) => {
                proof {
                    assert(false);
                }
            },
        }
        proof {
            assert(self@.buffer =~= Seq::empty());
            assert(self@.data =~= old_view.data.push(
                (SeqSegmentView::Data(old_view.buffer), false),
            ));
        }
    }

    /// Queues `FINISH` after the buffered bytes: nothing may be written after
    /// it. Fails with [`MdswpError::WriteFinished`] when writing has been
    /// finished already.
    pub fn finish(&mut self) -> (r: Result<(), MdswpError>)
        requires
            old(self)@.wf(),
        ensures
            final(self)@.wf(),
            (r, final(self)@) == old(self)@.finish(),
    {
        if self.has_finished() {
            return Err(MdswpError::WriteFinished);
        }
        let ghost mid_data = self@.data;
        self.flush_unchecked();
        let ghost before = self@.data;
        self.data.push_back((SeqSegment::Finish, None));
        self.finished = true;
        proof {
            assert(self@.data =~= before.push((SeqSegmentView::Finish, false)));
        }
        Ok(())
    }

    /// Registers the acknowledgement of the segment numbered `seq_num`: the
    /// segments up to it leave the queue, and the window slides past them. Fails with [`MdswpError::AckNotFound`] when the
    /// number lies outside the window or beyond the queue.
    pub fn register_acknowledge(&mut self, seq_num: u8) -> (r: Result<(), MdswpError>)
        requires
            old(self)@.wf(),
        ensures
            final(self)@.wf(),
            (r, final(self)@) == old(self)@.acknowledge(seq_num),
    {
        let (win_start, win_end) = self.window;
        let index = seq_num.wrapping_sub(win_start);
        let index_usize = index as usize;
        if index >= WINDOW_SIZE || index_usize >= self.data.len() {
            return Err(MdswpError::AckNotFound { ack_num: seq_num });
        }
        let step: u8 = index + 1;
        self.window = (win_start.wrapping_add(step), win_end.wrapping_add(step));
        let ghost old_data = self@.data;
        let mut k: usize = 0;
        while k <= index_usize
            invariant
                index_usize < old_data.len(),
                index_usize < WINDOW_SIZE,
                k <= index_usize + 1,
                self@.data == old_data.skip(k as int),
                self@.buffer == old(self)@.buffer,
                step == index + 1,
                self@.window == (win_start.wrapping_add(step), win_end.wrapping_add(step)),
                self@.finished == old(self)@.finished,
            decreases index_usize + 1 - k,
        {
            let ghost before = self@.data;
            let _ = self.data.pop_front();
            proof {
                assert(self@.data =~= before.drop_first());
                assert(old_data.skip(k as int).drop_first() =~= old_data.skip(k + 1));
            }
            k = k + 1;
        }
        Ok(())
    }

    /// When each queued segment was sent last, if it was.
    pub closed spec fn send_times(&self) -> Seq<Option<Instant>> {
        self.data@.map_values(|e: (SeqSegment, Option<Instant>)| e.1)
    }

    /// Records that the segment numbered `seq_num` has just been sent, at the
    /// current instant of the clock, as
    /// [`update_send_time_at`](Self::update_send_time_at) says.
    pub fn update_send_time(&mut self, seq_num: u8) -> (r: Result<(), MdswpError>)
        requires
            old(self)@.wf(),
        ensures
            final(self)@.wf(),
            (r, final(self)@) == old(self)@.mark_sent(seq_num),
            r is Err ==> final(self).send_times() == old(self).send_times(),
            r is Ok ==> ({
                let i = age(seq_num, old(self)@.window.0);
                &&& final(self).send_times()[i] is Some
                &&& final(self).send_times() == old(self).send_times().update(
                    i,
                    final(self).send_times()[i],
                )
            }),
    {
        let now = instant_now();
        self.update_send_time_at(seq_num, now)
    }

    /// Records that the segment numbered `seq_num` was sent at `now`. Fails
    /// with [`MdswpError::AckNotFound`] when the number lies outside the
    /// window or beyond the queue.
    pub fn update_send_time_at(&mut self, seq_num: u8, now: Instant) -> (r: Result<(), MdswpError>)
        requires
            old(self)@.wf(),
        ensures
            final(self)@.wf(),
            (r, final(self)@) == old(self)@.mark_sent(seq_num),
            r is Err ==> final(self).send_times() == old(self).send_times(),
            r is Ok ==> final(self).send_times() == old(self).send_times().update(
                age(seq_num, old(self)@.window.0),
                Some(now),
            ),
    {
        let (win_start, _win_end) = self.window;
        let index = seq_num.wrapping_sub(win_start);
        let index_usize = index as usize;
        if index >= WINDOW_SIZE || index_usize >= self.data.len() {
            return Err(MdswpError::AckNotFound { ack_num: seq_num });
        }
        let ghost old_data = self@.data;
        let ghost old_times = self.send_times();
        let mut rest: VecDeque<(SeqSegment, Option<Instant>)> = VecDeque::new();
        // Take the entries after the one sent, replace its time and put them
        // back.
        let ghost q = self.data@;
        while self.data.len() > index_usize + 1
            invariant
                index_usize < q.len(),
                self.data@.len() <= q.len(),
                self.data@.len() >= index_usize + 1,
                self.data@ == q.subrange(0, self.data@.len() as int),
                rest@ == q.subrange(self.data@.len() as int, q.len() as int),
                self.buffer == old(self).buffer,
                self.window == old(self).window,
                self.finished == old(self).finished,
            decreases self.data@.len(),
        {
            let ghost before = self.data@;
            match self.data.pop_back() {
                Some(e) => {
                    rest.push_front(e);
                },
                None => {},
            }
            proof {
                assert(self.data@ =~= q.subrange(0, self.data@.len() as int));
                assert(rest@ =~= q.subrange(self.data@.len() as int, q.len() as int));
            }
        }
        match self.data.pop_back() {
            Some((segment, _)) => {
                self.data.push_back((segment, Some(now)));
            },
            None => {},
        }
        let ghost mid = self.data@;
        while rest.len() > 0
            invariant
                self.data@ + rest@ == mid + q.subrange(index_usize + 1, q.len() as int),
                self.buffer == old(self).buffer,
                self.window == old(self).window,
                self.finished == old(self).finished,
            decreases rest@.len(),
        {
            let ghost before_d = self.data@;
            let ghost before_r = rest@;
            match rest.pop_front() {
                Some(e) => {
                    self.data.push_back(e);
                },
                None => {},
            }
            proof {
                assert(self.data@ + rest@ =~= before_d + before_r);
            }
        }
        proof {
            assert(self.data@ =~= mid + q.subrange(index_usize + 1, q.len() as int));
            assert(self@.data =~= old_data.update(index as int, (old_data[index as int].0, true)));
            assert(self.send_times() =~= old_times.update(index as int, Some(now)));
        }
        Ok(())
    }

    /// Writes bytes: they join the buffer, and every full [`MAX_DATA_LEN`]
    /// bytes of it are queued as a `DATA` segment. Fails with
    /// [`MdswpError::WriteFinished`] once writing has been finished.
    pub fn write(&mut self, buf: &[u8]) -> (r: Result<usize, MdswpError>)
        requires
            old(self)@.wf(),
        ensures
            final(self)@.wf(),
            (r, final(self)@) == old(self)@.write(buf@),
    {
        if self.has_finished() {
            return Err(MdswpError::WriteFinished);
        }
        let ghost old_view = self@;
        let mut all: Vec<u8> = Vec::new();
        std::mem::swap(&mut all, &mut self.buffer);
        append_bytes(&mut all, buf);
        let ghost chunks = full_chunks(all@).map_values(|s: SeqSegmentView| (s, false));
        let mut start: usize = 0;
        let ghost mut c: int = 0;
        while all.len() - start >= MAX_DATA_LEN
            invariant
                all@ == old_view.buffer + buf@,
                chunks == full_chunks(all@).map_values(|s: SeqSegmentView| (s, false)),
                start == c * MAX_DATA_LEN,
                start <= all@.len(),
                0 <= c <= chunks.len(),
                self.window == old_view.window,
                self@.finished == old_view.finished,
                self@.data == old_view.data + chunks.take(c),
                forall|i: int| 0 <= i < self@.data.len() ==> #[trigger] self@.data[i].0
                    != SeqSegmentView::Accept,
            decreases all@.len() - start,
        {
            let mut bytes: Vec<u8> = Vec::new();
            let mut i: usize = start;
            let end = start + MAX_DATA_LEN;
            while i < end
                invariant
                    end == start + MAX_DATA_LEN,
                    end <= all@.len(),
                    start <= i <= end,
                    bytes@ == all@.subrange(start as int, i as int),
                decreases end - i,
            {
                bytes.push(all[i]);
                i = i + 1;
            }
            let ghost before = self@.data;
            match DataSegment::from_vec(bytes) {
                Ok(data) => {
                    proof {
                        assert(c < chunks.len());
                        assert(chunks[c] == (SeqSegmentView::Data(data@), false));
                    }
                    self.data.push_back((SeqSegment::Data { data }, None));
                },
                Err(_) => {
                    proof {
                        assert(false);
                    }
                },
            }
            proof {
                assert(self@.data =~= before.push(chunks[c]));
                assert(old_view.data + chunks.take(c + 1) =~= (old_view.data + chunks.take(c)).push(
                    chunks[c],
                ));
            }
            start = start + MAX_DATA_LEN;
            proof {
                c = c + 1;
            }
        }
        let mut rest: Vec<u8> = Vec::new();
        let mut i: usize = start;
        while i < all.len()
            invariant
                start <= i <= all@.len(),
                rest@ == all@.subrange(start as int, i as int),
            decreases all@.len() - i,
        {
            rest.push(all[i]);
            i = i + 1;
        }
        self.buffer = rest;
        proof {
            assert(c == chunks.len());
            assert(chunks.take(c) =~= chunks);
            assert(self@.buffer =~= chunk_rest(all@));
        }
        Ok(buf.len())
    }

    /// Queues the buffered bytes as a `DATA` segment. Fails with
    /// [`MdswpError::WriteFinished`] once writing has been finished.
    pub fn flush(&mut self) -> (r: Result<(), MdswpError>)
        requires
            old(self)@.wf(),
        ensures
            final(self)@.wf(),
            (r, final(self)@) == old(self)@.flush(),
    {
        if self.has_finished() {
            Err(MdswpError::WriteFinished)
        } else {
            self.flush_unchecked();
            Ok(())
        }
    }
}

/// Mathematical value of a [`RecvDataStorage`].
pub struct RecvDataView {
    /// Bytes received and not yet read.
    pub buffer: Seq<u8>,
    /// First sequence number of the window, and the first one after it.
    pub window: (u8, u8),
}

/// Storage of the bytes that one side receives, under a window.
pub struct RecvDataStorage {
    buffer: VecDeque<u8>,
    window: (u8, u8),
}

impl View for RecvDataStorage {
    type V = RecvDataView;

    closed spec fn view(&self) -> RecvDataView {
        RecvDataView { buffer: self.buffer@, window: self.window }
    }
}

impl RecvDataStorage {
    /// Creates an empty storage whose window starts at 0.
    pub fn new() -> (s: RecvDataStorage)
        ensures
            s@.buffer == Seq::<u8>::empty(),
            s@.window == (0u8, WINDOW_SIZE),
    {
        RecvDataStorage { buffer: VecDeque::new(), window: (0, WINDOW_SIZE) }
    }
}

/// Which direction of a stream to shut down.
#[derive(Clone, Copy, PartialEq, Eq, Structural, Debug)]
pub enum Shutdown {
    Read,
    Write,
    Both,
}

/// Mathematical value of a [`StreamDataStorage`].
pub struct StreamDataView {
    pub send: SendDataView,
    pub recv: RecvDataView,
    /// The error that shut the stream down, if any did.
    pub error: Option<MdswpError>,
}

impl StreamDataView {
    /// The stream is open while no error shut it down.
    pub open spec fn alive(self) -> Result<(), MdswpError> {
        match self.error {
            None => Ok(()),
            Some(e) => Err(e),
        }
    }

    /// Shutting the stream down with `e`, which replaces any earlier error.
    pub open spec fn shut_down(self, e: MdswpError) -> StreamDataView {
        StreamDataView { error: Some(e), ..self }
    }

    /// Registering the acknowledgement of `seq_num`; an acknowledgement that
    /// the sending side refuses shuts the stream down.
    pub open spec fn acknowledge(self, seq_num: u8) -> StreamDataView {
        let (r, send) = self.send.acknowledge(seq_num);
        match r {
            Ok(()) => StreamDataView { send, ..self },
            Err(e) => self.shut_down(e),
        }
    }

    /// Registering a datagram from the peer: `RESET` shuts the stream down
    /// as reset by the peer, an acknowledgement is registered, and any other
    /// segment, or bytes that are no segment, shut it down.
    pub open spec fn receive(self, data: Seq<u8>) -> StreamDataView {
        match decode(data) {
            Err(fault) => self.shut_down(MdswpError::MalformedSegment { fault }),
            Ok(SegmentView::Reset) => self.shut_down(MdswpError::ResetByPeer),
            Ok(SegmentView::Acknowledge(n)) => self.acknowledge(n),
            Ok(other) => self.shut_down(
                MdswpError::UnexpectedSegment { segment: segment_summary(other) },
            ),
        }
    }
}

/// All that one side keeps of a stream: what it sends, what it receives, and
/// the error that shut the stream down.
pub struct StreamDataStorage {
    send_storage: SendDataStorage,
    recv_storage: RecvDataStorage,
    error: Option<MdswpError>,
}

impl View for StreamDataStorage {
    type V = StreamDataView;

    closed spec fn view(&self) -> StreamDataView {
        StreamDataView { send: self.send_storage@, recv: self.recv_storage@, error: self.error }
    }
}

impl StreamDataStorage {
    /// Creates the storage of an open stream with empty storages.
    pub fn new() -> (s: StreamDataStorage)
        ensures
            s@.send == (SendDataView {
                buffer: Seq::empty(),
                window: (0u8, WINDOW_SIZE),
                data: Seq::empty(),
                finished: false,
            }),
            s@.recv == (RecvDataView { buffer: Seq::empty(), window: (0u8, WINDOW_SIZE) }),
            s@.error is None,
            s@.send.wf(),
    {
        StreamDataStorage {
            send_storage: SendDataStorage::new(),
            recv_storage: RecvDataStorage::new(),
            error: None,
        }
    }

    /// `Ok` while the stream is open, else the error that shut it down.
    pub fn assert_alive(&self) -> (r: Result<(), MdswpError>)
        ensures
            r == self@.alive(),
    {
        match self.error {
            None => Ok(()),
            Some(e) => Err(e),
        }
    }

    /// Whether writing has been finished.
    pub fn write_finished(&self) -> (r: bool)
        requires
            self@.send.wf(),
        ensures
            r == self@.send.has_finished(),
    {
        self.send_storage.has_finished()
    }

    /// Whether an error shut the stream down.
    pub fn is_err(&self) -> (r: bool)
        ensures
            r == (self@.error is Some),
    {
        self.error.is_some()
    }

    /// Registers a datagram from the peer, as [`StreamDataView::receive`]
    /// says. A sequential segment cannot be registered here.
    pub fn register_received_data(&mut self, data: &[u8])
        requires
            old(self)@.send.wf(),
            !(decode(data@) matches Ok(SegmentView::Sequential(_, _))),
        ensures
            final(self)@ == old(self)@.receive(data@),
            final(self)@.send.wf(),
    {
        match Segment::try_from(data) {
            Err(e) => self.shutdown_with_error(e),
            Ok(Segment::Reset) => self.shutdown_with_error(MdswpError::ResetByPeer),
            Ok(Segment::Acknowledge { seq_num }) => self.register_acknowledge(seq_num),
            Ok(other) => {
                let segment = other.summary();
                self.shutdown_with_error(MdswpError::UnexpectedSegment { segment });
            },
        }
    }

    /// Registers the acknowledgement of `seq_num`; one that the sending side
    /// refuses shuts the stream down.
    pub fn register_acknowledge(&mut self, seq_num: u8)
        requires
            old(self)@.send.wf(),
        ensures
            final(self)@ == old(self)@.acknowledge(seq_num),
            final(self)@.send.wf(),
    {
        match self.send_storage.register_acknowledge(seq_num) {
            Ok(()) => {},
            Err(e) => self.shutdown_with_error(e),
        }
    }

    /// Writes `buf` to the sending side, as [`SendDataView::write`] says.
    pub fn write(&mut self, buf: &[u8]) -> (r: Result<usize, MdswpError>)
        requires
            old(self)@.send.wf(),
        ensures
            (r, final(self)@.send) == old(self)@.send.write(buf@),
            final(self)@.recv == old(self)@.recv,
            final(self)@.error == old(self)@.error,
            final(self)@.send.wf(),
    {
        self.send_storage.write(buf)
    }

    /// Flushes the sending side, as [`SendDataView::flush`] says.
    pub fn flush(&mut self) -> (r: Result<(), MdswpError>)
        requires
            old(self)@.send.wf(),
        ensures
            (r, final(self)@.send) == old(self)@.send.flush(),
            final(self)@.recv == old(self)@.recv,
            final(self)@.error == old(self)@.error,
            final(self)@.send.wf(),
    {
        self.send_storage.flush()
    }

    /// Shuts the writing side down: `FINISH` is queued, as
    /// [`SendDataView::finish`] says. Only writing can be shut down here.
    pub fn shutdown(&mut self, how: Shutdown) -> (r: Result<(), MdswpError>)
        requires
            old(self)@.send.wf(),
            how == Shutdown::Write,
        ensures
            (r, final(self)@.send) == old(self)@.send.finish(),
            final(self)@.recv == old(self)@.recv,
            final(self)@.error == old(self)@.error,
            final(self)@.send.wf(),
    {
        self.send_storage.finish()
    }

    /// Shuts the stream down with `err`, which replaces any earlier error.
    pub fn shutdown_with_error(&mut self, err: MdswpError)
        ensures
            final(self)@ == old(self)@.shut_down(err),
    {
        self.error = Some(err);
    }
}

} // verus!
