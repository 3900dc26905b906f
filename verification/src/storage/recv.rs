//! A receiving storage that keeps every segment received and tracks its
//! window with the lowest and highest sequence numbers seen.

use std::collections::BTreeMap;
use std::time::Instant;

use vstd::prelude::*;

use crate::clock::elapsed_nanos;
use crate::clock::instant_now;
use crate::segment::seq_segment_kind;
use crate::segment::SeqNumber;
use crate::segment::SeqSegment;
use crate::segment::SeqSegmentView;
use crate::stream::recv::opt_view;
use crate::util::age;
use crate::util::lemma_age_add;
use crate::util::lemma_seq_add_step;
use crate::util::lemma_u8_keys_ordered;
use crate::util::seq_add;
use crate::util::u8_keys_ordered;
use crate::util::MdswpError;
use crate::util::OrderFault;
use crate::util::HALF_TIMEOUT_NANOS;
use crate::util::WINDOW_SIZE;

verus! {

/// Mathematical value of a [`RecvWindowData`].
pub struct WindowView {
    /// First sequence number not yet received in order.
    pub window: u8,
    /// Lowest sequence number still accepted, once known.
    pub lowest: Option<u8>,
    /// Highest sequence number received, once known.
    pub highest: Option<u8>,
    /// Next sequence number to hand out for reading.
    pub next_pop: u8,
}

impl WindowView {
    /// The lowest number accepted: `lowest`, or the window while it is unknown.
    pub open spec fn low(self) -> u8 {
        match self.lowest {
            Some(l) => l,
            None => self.window,
        }
    }

    /// First number above the window.
    pub open spec fn upper(self) -> u8 {
        self.window.wrapping_add(WINDOW_SIZE)
    }

    /// Whether a segment numbered `seq_num` may be received.
    pub open spec fn contains_recv(self, seq_num: u8) -> bool {
        age(seq_num, self.low()) < age(self.upper(), self.low())
    }

    /// Whether `seq_num` lies from `next_pop` up to the first number above the
    /// window, both included.
    pub open spec fn contains_pop(self, seq_num: u8) -> bool {
        age(seq_num, self.next_pop) <= age(self.upper(), self.next_pop)
    }

    /// Moving the window to `new_pos`: `lowest` becomes at least `WINDOW_SIZE`
    /// numbers below it (compared as numbers).
    pub open spec fn slide_to(self, new_pos: u8) -> WindowView {
        let lo = self.lowest->0;
        let m = new_pos.wrapping_sub(WINDOW_SIZE);
        WindowView {
            lowest: Some(
                if lo >= m {
                    lo
                } else {
                    m
                },
            ),
            window: new_pos,
            ..self
        }
    }

    /// Registering that a segment numbered `seq_num` arrived.
    pub open spec fn recv(self, seq_num: u8) -> (Result<(), MdswpError>, WindowView) {
        if !self.contains_recv(seq_num) {
            (
                Err(
                    MdswpError::InvalidSeqNum {
                        seq_num,
                        lower_bound: self.low(),
                        upper_bound: self.upper(),
                    },
                ),
                self,
            )
        } else {
            let v1 = if self.lowest is None {
                WindowView { lowest: Some(seq_num), highest: Some(seq_num), ..self }
            } else {
                self
            };
            let lo = v1.lowest->0;
            let hi = v1.highest->0;
            if age(seq_num, lo) >= age(hi, lo) {
                (Ok(()), WindowView { highest: Some(seq_num), ..v1 })
            } else {
                (Ok(()), v1)
            }
        }
    }

    /// Taking the next number to read, unless the window stands there.
    pub open spec fn pop(self) -> (Option<u8>, WindowView) {
        if self.window == self.next_pop {
            (None, self)
        } else {
            (Some(self.next_pop), WindowView { next_pop: self.next_pop.wrapping_add(1), ..self })
        }
    }
}

/// The window of a receiving storage.
pub struct RecvWindowData {
    window: SeqNumber,
    lowest: Option<SeqNumber>,
    highest: Option<SeqNumber>,
    next_pop: SeqNumber,
}

impl View for RecvWindowData {
    type V = WindowView;

    closed spec fn view(&self) -> WindowView {
        WindowView {
            window: self.window,
            lowest: self.lowest,
            highest: self.highest,
            next_pop: self.next_pop,
        }
    }
}

impl RecvWindowData {
    /// Whether a segment numbered `seq_num` may be received: it lies from the
    /// lowest number accepted up to the window and `WINDOW_SIZE` numbers
    /// beyond.
    pub fn contains_recv(&self, seq_num: SeqNumber) -> (r: bool)
        ensures
            r == self@.contains_recv(seq_num),
    {
        let lowest = match self.lowest {
            Some(l) => l,
            None => self.window,
        };
        let max_offset = self.window.wrapping_add(WINDOW_SIZE).wrapping_sub(lowest);
        let offset = seq_num.wrapping_sub(lowest);
        offset < max_offset
    }

    /// Whether `seq_num` lies from the next number to read up to the first
    /// number above the window.
    pub fn contains_pop(&self, seq_num: SeqNumber) -> (r: bool)
        ensures
            r == self@.contains_pop(seq_num),
    {
        let max_offset = self.window.wrapping_add(WINDOW_SIZE).wrapping_sub(self.next_pop);
        let offset = seq_num.wrapping_sub(self.next_pop);
        offset <= max_offset
    }

    /// Moves the window on by one.
    pub fn slide_window(&mut self)
        requires
            old(self)@.lowest is Some,
        ensures
            final(self)@ == old(self)@.slide_to(old(self)@.window.wrapping_add(1)),
    {
        let next = self.window.wrapping_add(1);
        self.slide_window_to(next);
    }

    /// Moves the window to `new_pos`, at most `WINDOW_SIZE` numbers on.
    pub fn slide_window_to(&mut self, new_pos: SeqNumber)
        requires
            age(new_pos, old(self)@.window) <= WINDOW_SIZE,
            old(self)@.lowest is Some,
        ensures
            final(self)@ == old(self)@.slide_to(new_pos),
    {
        let lo = match self.lowest {
            Some(l) => l,
            None => new_pos,
        };
        let m = new_pos.wrapping_sub(WINDOW_SIZE);
        self.lowest = Some(
            if lo >= m {
                lo
            } else {
                m
            },
        );
        self.window = new_pos;
    }

    /// Registers that a segment numbered `seq_num` arrived. Fails with
    /// [`MdswpError::InvalidSeqNum`] when it may not be received.
    pub fn recv(&mut self, seq_num: SeqNumber) -> (r: Result<(), MdswpError>)
        requires
            old(self)@.lowest is Some ==> old(self)@.highest is Some,
        ensures
            (r, final(self)@) == old(self)@.recv(seq_num),
            final(self)@.lowest is Some ==> final(self)@.highest is Some,
    {
        if !self.contains_recv(seq_num) {
            let lowest = match self.lowest {
                Some(l) => l,
                None => self.window,
            };
            return Err(
                MdswpError::InvalidSeqNum {
                    seq_num,
                    lower_bound: lowest,
                    upper_bound: self.window.wrapping_add(WINDOW_SIZE),
                },
            );
        }
        if self.lowest.is_none() {
            self.lowest = Some(seq_num);
            self.highest = Some(seq_num);
        }
        let lowest = match self.lowest {
            Some(l) => l,
            None => seq_num,
        };
        let highest = match self.highest {
            Some(h) => h,
            None => seq_num,
        };
        let recvd_offset = seq_num.wrapping_sub(lowest);
        let highest_offset = highest.wrapping_sub(lowest);
        if recvd_offset >= highest_offset {
            self.highest = Some(seq_num);
        }
        Ok(())
    }

    /// Takes the next number to read, unless the window stands there.
    pub fn pop(&mut self) -> (r: Option<SeqNumber>)
        ensures
            (r, final(self)@) == old(self)@.pop(),
    {
        if self.window == self.next_pop {
            None
        } else {
            let curr_pop = self.next_pop;
            self.next_pop = self.next_pop.wrapping_add(1);
            Some(curr_pop)
        }
    }
}

/// How many consecutive numbers from `w` on are keys of `m`, looking at most
/// `fuel` numbers ahead.
pub open spec fn run_of(m: Map<u8, SeqSegment>, w: u8, fuel: nat) -> nat
    decreases fuel,
{
    if fuel == 0 || !m.contains_key(w) {
        0
    } else {
        1 + run_of(m, w.wrapping_add(1), (fuel - 1) as nat)
    }
}

/// The first `run_of(m, w, fuel)` numbers from `w` on are keys of `m`, and
/// the number after them is not, unless the fuel ran out.
pub proof fn lemma_run_of(m: Map<u8, SeqSegment>, w: u8, fuel: nat)
    ensures
        run_of(m, w, fuel) <= fuel,
        forall|k: int| 0 <= k < run_of(m, w, fuel) ==> #[trigger] m.contains_key(seq_add(w, k)),
        run_of(m, w, fuel) < fuel ==> !m.contains_key(seq_add(w, run_of(m, w, fuel) as int)),
    decreases fuel,
{
    lemma_seq_add_step(w, 0);
    if fuel > 0 && m.contains_key(w) {
        let w1 = w.wrapping_add(1);
        lemma_run_of(m, w1, (fuel - 1) as nat);
        assert forall|k: int| 0 <= k < run_of(m, w, fuel) implies #[trigger] m.contains_key(
            seq_add(w, k),
        ) by {
            if k > 0 {
                assert(seq_add(w1, k - 1) == seq_add(w, k));
            }
        }
        assert(seq_add(w1, run_of(m, w1, (fuel - 1) as nat) as int) == seq_add(
            w,
            run_of(m, w, fuel) as int,
        ));
    }
}

/// Mathematical value of a [`RecvStorage`].
pub struct KeepingRecvView {
    /// Every segment received, by sequence number.
    pub segments: Map<u8, SeqSegment>,
    pub window: WindowView,
    /// Sequence number acknowledged last, if any was.
    pub last_ack: Option<u8>,
    /// Whether the last segment received had arrived before.
    pub urgent_ack: bool,
}

impl KeepingRecvView {
    /// Checking a segment before it is received: its number must be
    /// acceptable, it must be the segment received before under that number,
    /// `ACCEPT` must be the lowest segment, and `DATA` and `FINISH` must come
    /// after `ACCEPT` and not after `FINISH`.
    pub open spec fn check_segment(self, seq_num: u8, seg: SeqSegmentView) -> Result<(), MdswpError> {
        let w = self.window;
        if !w.contains_recv(seq_num) {
            Err(
                MdswpError::InvalidSeqNum {
                    seq_num,
                    lower_bound: w.low(),
                    upper_bound: w.upper(),
                },
            )
        } else if self.segments.contains_key(seq_num) && self.segments[seq_num]@ != seg {
            Err(
                MdswpError::Unreliable {
                    actual: seq_segment_kind(seg),
                    expected: seq_segment_kind(self.segments[seq_num]@),
                },
            )
        } else if self.segments.is_empty() {
            Ok(())
        } else {
            match seg {
                SeqSegmentView::Accept => {
                    let lowest = w.lowest->0;
                    if seq_num == lowest && self.segments[lowest]@ == SeqSegmentView::Accept {
                        Ok(())
                    } else {
                        Err(
                            MdswpError::OutOfOrder {
                                seq_num,
                                kind: seq_segment_kind(seg),
                                fault: OrderFault::AcceptInMiddle,
                            },
                        )
                    }
                },
                _ => {
                    let highest = w.highest->0;
                    let diff = age(highest, seq_num);
                    match self.segments[highest]@ {
                        SeqSegmentView::Finish => if diff >= WINDOW_SIZE {
                            Err(
                                MdswpError::OutOfOrder {
                                    seq_num,
                                    kind: seq_segment_kind(seg),
                                    fault: OrderFault::AfterFinish,
                                },
                            )
                        } else {
                            Ok(())
                        },
                        SeqSegmentView::Accept => if diff > 255 - WINDOW_SIZE {
                            Ok(())
                        } else {
                            Err(
                                MdswpError::OutOfOrder {
                                    seq_num,
                                    kind: seq_segment_kind(seg),
                                    fault: OrderFault::BeforeAccept,
                                },
                            )
                        },
                        SeqSegmentView::Data(_) => Ok(()),
                    }
                },
            }
        }
    }

    /// The inputs on which checking a segment cannot go on: the lowest or
    /// highest number is unknown or carries no segment, `FINISH` is received
    /// again as the highest segment, or `ACCEPT` is the highest segment but
    /// not the only one.
    pub open spec fn check_stuck(self, seq_num: u8, seg: SeqSegmentView) -> bool {
        let w = self.window;
        &&& w.contains_recv(seq_num)
        &&& !(self.segments.contains_key(seq_num) && self.segments[seq_num]@ != seg)
        &&& !self.segments.is_empty()
        &&& match seg {
            SeqSegmentView::Accept => w.lowest is None || !self.segments.contains_key(w.lowest->0),
            _ => w.highest is None || !self.segments.contains_key(w.highest->0) || (
            self.segments[w.highest->0]@ == SeqSegmentView::Finish && w.highest->0 == seq_num) || (
            self.segments[w.highest->0]@ == SeqSegmentView::Accept && self.segments.len() != 1),
        }
    }

    /// Receiving segment `seg` numbered `seq_num`: after the checks, it is
    /// kept, and the window moves to the first number from it on that has not
    /// arrived.
    pub open spec fn recv(self, seq_num: u8, seg: SeqSegment) -> (Result<(), MdswpError>, KeepingRecvView) {
        match self.check_segment(seq_num, seg@) {
            Err(e) => (Err(e), self),
            Ok(()) => {
                let (r, w) = self.window.recv(seq_num);
                match r {
                    Err(e) => (Err(e), self),
                    Ok(()) => {
                        let segs = self.segments.insert(seq_num, seg);
                        let run = run_of(segs, w.window, 256);
                        (
                            Ok(()),
                            KeepingRecvView {
                                segments: segs,
                                window: w.slide_to(seq_add(w.window, run as int)),
                                urgent_ack: self.segments.contains_key(seq_num),
                                ..self
                            },
                        )
                    },
                }
            },
        }
    }

    /// The inputs on which receiving cannot go on: checking is stuck, the
    /// highest number is unknown while the lowest is known, or the segments
    /// from the window on run past `WINDOW_SIZE` numbers.
    pub open spec fn recv_stuck(self, seq_num: u8, seg: SeqSegment) -> bool {
        ||| self.check_stuck(seq_num, seg@)
        ||| (self.check_segment(seq_num, seg@) is Ok && self.window.lowest is Some
            && self.window.highest is None)
        ||| (self.check_segment(seq_num, seg@) is Ok && run_of(
            self.segments.insert(seq_num, seg),
            self.window.recv(seq_num).1.window,
            256,
        ) > WINDOW_SIZE)
    }

    /// The number to acknowledge: the last of the numbers from the window on
    /// that have arrived, if any has.
    pub open spec fn ack_candidate(self) -> Option<u8> {
        let run = run_of(self.segments, self.window.window, 256);
        if run == 0 {
            None
        } else {
            Some(seq_add(self.window.window, run - 1))
        }
    }

    /// Deciding whether to acknowledge now, and what.
    pub open spec fn pop_acknowledge(self, timed_out: bool) -> (Option<u8>, KeepingRecvView) {
        match (self.last_ack, self.ack_candidate()) {
            (None, None) => (None, KeepingRecvView { urgent_ack: false, ..self }),
            (None, Some(c)) => (
                Some(c),
                KeepingRecvView { last_ack: Some(c), urgent_ack: false, ..self },
            ),
            (Some(l), None) => (
                if self.urgent_ack {
                    Some(l)
                } else {
                    None
                },
                KeepingRecvView { last_ack: Some(l), urgent_ack: false, ..self },
            ),
            (Some(l), Some(c)) => if self.urgent_ack || age(c, l) > WINDOW_SIZE / 2 || timed_out {
                (Some(c), KeepingRecvView { last_ack: Some(c), urgent_ack: false, ..self })
            } else {
                (None, self)
            },
        }
    }

    /// The inputs on which deciding cannot go on: every number from the window
    /// on has arrived, or the candidate lies `WINDOW_SIZE` or more numbers
    /// after the last acknowledgement.
    pub open spec fn pop_acknowledge_stuck(self) -> bool {
        ||| run_of(self.segments, self.window.window, 256) == 256
        ||| (self.last_ack is Some && self.ack_candidate() is Some && age(
            self.ack_candidate()->0,
            self.last_ack->0,
        ) >= WINDOW_SIZE)
    }

    /// Taking the next segment to read, unless the window stands at the next
    /// number to read.
    pub open spec fn pop(self) -> (Option<SeqSegmentView>, KeepingRecvView) {
        let (n, w) = self.window.pop();
        match n {
            None => (None, self),
            Some(k) => (Some(self.segments[k]@), KeepingRecvView { window: w, ..self }),
        }
    }

    /// Whether the segment read last is `FINISH`.
    pub open spec fn finished(self) -> bool {
        let last = self.window.next_pop.wrapping_sub(1);
        self.segments.contains_key(last) && self.segments[last]@ == SeqSegmentView::Finish
    }
}

/// Storage that keeps every sequential segment that one side receives.
pub struct RecvStorage {
    segments: BTreeMap<SeqNumber, SeqSegment>,
    window_data: RecvWindowData,
    last_ack: Option<(SeqNumber, Instant)>,
    urgent_ack: bool,
}

impl View for RecvStorage {
    type V = KeepingRecvView;

    closed spec fn view(&self) -> KeepingRecvView {
        KeepingRecvView {
            segments: self.segments@,
            window: self.window_data@,
            last_ack: match self.last_ack {
                Some((n, _)) => Some(n),
                None => None,
            },
            urgent_ack: self.urgent_ack,
        }
    }
}

impl RecvStorage {
    /// When the last acknowledgement was decided, if one was.
    pub closed spec fn ack_time(&self) -> Option<Instant> {
        match self.last_ack {
            Some((_, at)) => Some(at),
            None => None,
        }
    }

    /// Creates the storage of the side that accepted a connection that the
    /// peer established with `establish_seq_num`.
    pub fn new_by_peer(establish_seq_num: SeqNumber) -> (s: RecvStorage)
        ensures
            s@ == (KeepingRecvView {
                segments: Map::empty(),
                window: WindowView {
                    window: establish_seq_num.wrapping_sub(1),
                    lowest: Some(establish_seq_num),
                    highest: Some(establish_seq_num),
                    next_pop: establish_seq_num.wrapping_sub(1),
                },
                last_ack: None,
                urgent_ack: false,
            }),
    {
        let window = establish_seq_num.wrapping_sub(1);
        RecvStorage {
            segments: BTreeMap::new(),
            window_data: RecvWindowData {
                window,
                lowest: Some(establish_seq_num),
                highest: Some(establish_seq_num),
                next_pop: window,
            },
            last_ack: None,
            urgent_ack: false,
        }
    }

    /// Creates the storage of the side that established a connection, once
    /// the peer accepted it with `ACCEPT` numbered `accept_seq_num`, which
    /// counts as received and is never read.
    pub fn new_by_local(accept_seq_num: SeqNumber) -> (s: RecvStorage)
        ensures
            s@.segments == map![accept_seq_num => SeqSegment::Accept],
            s@.window == (WindowView {
                window: accept_seq_num.wrapping_add(1),
                lowest: Some(accept_seq_num),
                highest: Some(accept_seq_num),
                next_pop: accept_seq_num.wrapping_add(1),
            }),
            s@.last_ack is None,
            !s@.urgent_ack,
    {
        proof {
            lemma_u8_keys_ordered();
        }
        let window = accept_seq_num.wrapping_add(1);
        let mut segments = BTreeMap::new();
        segments.insert(accept_seq_num, SeqSegment::Accept);
        RecvStorage {
            segments,
            window_data: RecvWindowData {
                window,
                highest: Some(accept_seq_num),
                lowest: Some(accept_seq_num),
                next_pop: window,
            },
            last_ack: None,
            urgent_ack: false,
        }
    }

    /// Receives segment `segment` numbered `seq_num`: after the checks of
    /// [`KeepingRecvView::check_segment`] and of the window, it is kept, and
    /// the window moves to the first number from it on that has not arrived.
    pub fn recv(&mut self, seq_num: SeqNumber, segment: SeqSegment) -> (r: Result<(), MdswpError>)
        requires
            !old(self)@.recv_stuck(seq_num, segment),
        ensures
            (r, final(self)@) == old(self)@.recv(seq_num, segment),
    {
        let ghost v = self@;
        proof {
            lemma_u8_keys_ordered();
        }
        match self.check_segment(seq_num, &segment) {
            Err(e) => return Err(e),
            Ok(()) => {},
        }
        match self.window_data.recv(seq_num) {
            Err(e) => return Err(e),
            Ok(()) => {},
        }
        let ghost w = self.window_data@;
        let previous = self.segments.insert(seq_num, segment);
        self.urgent_ack = previous.is_some();
        let ghost m = self.segments@;
        let ghost run = run_of(m, w.window, 256);
        proof {
            lemma_run_of(m, w.window, 256);
            lemma_seq_add_step(w.window, 0);
        }
        // Move the window over every segment that has arrived from it on.
        let mut new_win_pos = self.window_data.window;
        let ghost mut j: int = 0;
        while self.segments.contains_key(&new_win_pos)
            invariant
                u8_keys_ordered(),
                self.segments@ == m,
                self.window_data@ == w,
                run == run_of(m, w.window, 256),
                run <= WINDOW_SIZE,
                0 <= j <= run,
                new_win_pos == seq_add(w.window, j),
                forall|k: int| 0 <= k < run ==> #[trigger] m.contains_key(seq_add(w.window, k)),
                !m.contains_key(seq_add(w.window, run as int)),
            decreases run - j,
        {
            proof {
                if j == run {
                    assert(!m.contains_key(new_win_pos));
                }
                lemma_seq_add_step(w.window, j);
            }
            new_win_pos = new_win_pos.wrapping_add(1);
            proof {
                j = j + 1;
            }
        }
        proof {
            if j < run {
                assert(m.contains_key(seq_add(w.window, j)));
            }
            assert(j == run);
            lemma_age_add(w.window, w.window, run as int);
        }
        self.window_data.slide_window_to(new_win_pos);
        proof {
            assert(self.segments@ =~= v.segments.insert(seq_num, segment));
        }
        Ok(())
    }

    /// Takes the next segment to read, unless the window stands at the next
    /// number to read.
    pub fn pop(&mut self) -> (r: Option<SeqSegment>)
        requires
            old(self)@.window.window != old(self)@.window.next_pop ==> old(
                self,
            )@.segments.contains_key(old(self)@.window.next_pop),
        ensures
            (opt_view(r), final(self)@) == old(self)@.pop(),
    {
        proof {
            lemma_u8_keys_ordered();
        }
        let curr_pop = match self.window_data.pop() {
            Some(n) => n,
            None => return None,
        };
        match self.segments.get(&curr_pop) {
            Some(s) => Some(s.clone()),
            None => None,
        }
    }

    /// Decides whether to acknowledge now, and what. Whether half of the
    /// connection timeout has passed since the last acknowledgement depends on
    /// the clock; the result is the one
    /// [`pop_acknowledge_with`](Self::pop_acknowledge_with) gives for one of
    /// the two answers.
    pub fn pop_acknowledge(&mut self) -> (r: Option<SeqNumber>)
        requires
            !old(self)@.pop_acknowledge_stuck(),
        ensures
            (r, final(self)@) == old(self)@.pop_acknowledge(true) || (r, final(self)@) == old(
                self,
            )@.pop_acknowledge(false),
    {
        let elapsed = match &self.last_ack {
            Some((_, at)) => elapsed_nanos(at),
            None => 0,
        };
        let now = instant_now();
        self.pop_acknowledge_after(elapsed, now)
    }

    /// Decides whether to acknowledge now, and what, given the nanoseconds
    /// passed since the last acknowledgement: it is due again once more than
    /// half of the connection timeout has passed. `now` is recorded as the
    /// time of an acknowledgement.
    pub fn pop_acknowledge_after(&mut self, elapsed_nanos: u128, now: Instant) -> (r: Option<
        SeqNumber,
    >)
        requires
            !old(self)@.pop_acknowledge_stuck(),
        ensures
            (r, final(self)@) == old(self)@.pop_acknowledge(elapsed_nanos > HALF_TIMEOUT_NANOS),
            final(self).ack_time() == (if r is Some || (old(self)@.last_ack is Some
                && old(self)@.ack_candidate() is None) {
                Some(now)
            } else {
                old(self).ack_time()
            }),
    {
        self.pop_acknowledge_with(elapsed_nanos > HALF_TIMEOUT_NANOS, now)
    }

    /// Decides whether to acknowledge now, and what, given whether half of the
    /// connection timeout has passed since the last acknowledgement. `now` is
    /// recorded as the time of an acknowledgement.
    pub fn pop_acknowledge_with(&mut self, timed_out: bool, now: Instant) -> (r: Option<SeqNumber>)
        requires
            !old(self)@.pop_acknowledge_stuck(),
        ensures
            (r, final(self)@) == old(self)@.pop_acknowledge(timed_out),
            final(self).ack_time() == (if r is Some || (old(self)@.last_ack is Some
                && old(self)@.ack_candidate() is None) {
                Some(now)
            } else {
                old(self).ack_time()
            }),
    {
        proof {
            lemma_run_of(self@.segments, self@.window.window, 256);
        }
        let curr_ack = self.ack_candidate();
        match (self.last_ack, curr_ack) {
            (None, None) => {
                self.urgent_ack = false;
                None
            },
            (None, Some(c)) => {
                self.last_ack = Some((c, now));
                self.urgent_ack = false;
                Some(c)
            },
            (Some((l, _)), None) => {
                let result = if self.urgent_ack {
                    Some(l)
                } else {
                    None
                };
                self.last_ack = Some((l, now));
                self.urgent_ack = false;
                result
            },
            (Some((l, _)), Some(c)) => {
                let num_diff = c.wrapping_sub(l);
                if self.urgent_ack || num_diff > WINDOW_SIZE / 2 || timed_out {
                    self.last_ack = Some((c, now));
                    self.urgent_ack = false;
                    Some(c)
                } else {
                    None
                }
            },
        }
    }

    /// The number to acknowledge, as [`KeepingRecvView::ack_candidate`] says.
    fn ack_candidate(&self) -> (r: Option<SeqNumber>)
        requires
            run_of(self@.segments, self@.window.window, 256) < 256,
        ensures
            r == self@.ack_candidate(),
    {
        proof {
            lemma_u8_keys_ordered();
        }
        let ghost m = self@.segments;
        let window = self.window_data.window;
        let ghost run = run_of(m, window, 256);
        proof {
            lemma_run_of(m, window, 256);
            lemma_seq_add_step(window, 0);
        }
        let mut next = window;
        let ghost mut j: int = 0;
        while self.segments.contains_key(&next)
            invariant
                u8_keys_ordered(),
                self.segments@ == m,
                run == run_of(m, window, 256),
                run < 256,
                0 <= j <= run,
                next == seq_add(window, j),
                forall|k: int| 0 <= k < run ==> #[trigger] m.contains_key(seq_add(window, k)),
                !m.contains_key(seq_add(window, run as int)),
            decreases run - j,
        {
            proof {
                if j == run {
                    assert(!m.contains_key(next));
                }
                lemma_seq_add_step(window, j);
            }
            next = next.wrapping_add(1);
            proof {
                j = j + 1;
            }
        }
        proof {
            if j < run {
                assert(m.contains_key(seq_add(window, j)));
            }
            assert(j == run);
        }
        if next == window {
            None
        } else {
            proof {
                assert(next.wrapping_sub(1) == seq_add(window, run - 1));
            }
            Some(next.wrapping_sub(1))
        }
    }

    /// Whether the segment read last is `FINISH`.
    pub fn finished(&self) -> (r: bool)
        ensures
            r == self@.finished(),
    {
        proof {
            lemma_u8_keys_ordered();
        }
        match self.segments.get(&self.window_data.next_pop.wrapping_sub(1)) {
            Some(segment) => segment.is_finish(),
            None => false,
        }
    }

    /// Checks a segment before it is received, as
    /// [`KeepingRecvView::check_segment`] says.
    fn check_segment(&self, seq_num: SeqNumber, segment: &SeqSegment) -> (r: Result<(), MdswpError>)
        requires
            !self@.check_stuck(seq_num, segment@),
        ensures
            r == self@.check_segment(seq_num, segment@),
    {
        proof {
            lemma_u8_keys_ordered();
        }
        if !self.window_data.contains_recv(seq_num) {
            let lowest = match self.window_data.lowest {
                Some(l) => l,
                None => self.window_data.window,
            };
            return Err(
                MdswpError::InvalidSeqNum {
                    seq_num,
                    lower_bound: lowest,
                    upper_bound: self.window_data.window.wrapping_add(WINDOW_SIZE),
                },
            );
        }
        match self.segments.get(&seq_num) {
            Some(already) => {
                if !segment.same_as(already) {
                    return Err(MdswpError::Unreliable { actual: segment.kind(), expected: already.kind() });
                }
            },
            None => {},
        }
        if self.segments.is_empty() {
            return Ok(());
        }
        match segment {
            SeqSegment::Accept => {
                let lowest = match self.window_data.lowest {
                    Some(l) => l,
                    None => seq_num,
                };
                let lowest_is_accept = match self.segments.get(&lowest) {
                    Some(s) => match s {
                        SeqSegment::Accept => true,
                        _ => false,
                    },
                    None => false,
                };
                if seq_num == lowest && lowest_is_accept {
                    Ok(())
                } else {
                    Err(
                        MdswpError::OutOfOrder {
                            seq_num,
                            kind: segment.kind(),
                            fault: OrderFault::AcceptInMiddle,
                        },
                    )
                }
            },
            _ => {
                let highest = match self.window_data.highest {
                    Some(h) => h,
                    None => seq_num,
                };
                let diff = highest.wrapping_sub(seq_num);
                match self.segments.get(&highest) {
                    Some(SeqSegment::Finish) => {
                        if diff >= WINDOW_SIZE {
                            Err(
                                MdswpError::OutOfOrder {
                                    seq_num,
                                    kind: segment.kind(),
                                    fault: OrderFault::AfterFinish,
                                },
                            )
                        } else {
                            Ok(())
                        }
                    },
                    Some(SeqSegment::Accept) => {
                        if diff > 255 - WINDOW_SIZE {
                            Ok(())
                        } else {
                            Err(
                                MdswpError::OutOfOrder {
                                    seq_num,
                                    kind: segment.kind(),
                                    fault: OrderFault::BeforeAccept,
                                },
                            )
                        }
                    },
                    _ => Ok(()),
                }
            },
        }
    }
}

} // verus!
