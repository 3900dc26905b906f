//! A sending storage that keeps every segment pushed in a registry by its
//! sequence number, and the numbers sent in the order they were sent.

use std::collections::BTreeMap;
use std::collections::VecDeque;
use std::time::Instant;

use vstd::prelude::*;

use crate::clock::elapsed_nanos;
use crate::clock::instant_now;
use crate::segment::SeqNumber;
use crate::segment::SeqSegment;
use crate::segment::SeqSegmentView;
use crate::stream::send::popped_view;
use crate::stream::send::times_after_pop;
use crate::util::age;
use crate::util::lemma_u8_keys_ordered;
use crate::util::MdswpError;
use crate::util::WINDOW_SIZE;

verus! {

/// Three quarters of the connection timeout, in nanoseconds: the time after
/// which a segment sent is sent again.
pub const RESEND_AFTER_NANOS: u128 = 2_250_000_000;

/// Mathematical value of a [`SendStorage`].
pub struct RegistryView {
    /// Numbers of the segments sent, the one to send again first.
    pub sent: Seq<u8>,
    /// Every segment pushed, by sequence number.
    pub registry: Map<u8, SeqSegment>,
    /// Number of the next segment to send for the first time.
    pub highest_sent: u8,
    /// Number that the next segment pushed gets.
    pub next_seq_num: u8,
    /// First number of the window.
    pub window: u8,
}

impl RegistryView {
    /// The segment pushed last is registered, and every number sent carries
    /// a segment.
    pub open spec fn wf(self) -> bool {
        &&& !self.registry.is_empty() ==> self.registry.contains_key(
            self.next_seq_num.wrapping_sub(1),
        )
        &&& forall|i: int| 0 <= i < self.sent.len() ==> self.registry.contains_key(
            #[trigger] self.sent[i],
        )
    }

    /// Whether the segment pushed last is `FINISH`.
    pub open spec fn finished(self) -> bool {
        !self.registry.is_empty() && self.registry[self.next_seq_num.wrapping_sub(
            1,
        )]@ == SeqSegmentView::Finish
    }

    /// Registering `seg` under the next number.
    pub open spec fn push_unchecked(self, seg: SeqSegment) -> RegistryView {
        RegistryView {
            registry: self.registry.insert(self.next_seq_num, seg),
            next_seq_num: self.next_seq_num.wrapping_add(1),
            ..self
        }
    }

    /// Pushing `seg`: `DATA` and `FINISH` are refused once `FINISH` was
    /// pushed last; the number given is returned.
    pub open spec fn push(self, seg: SeqSegment) -> (Result<u8, MdswpError>, RegistryView) {
        if seg !is Accept && self.finished() {
            (Err(MdswpError::WriteFinished), self)
        } else {
            (Ok(self.next_seq_num), self.push_unchecked(seg))
        }
    }

    /// Sending again the segment sent longest ago, when `resend_due`.
    pub open spec fn pop_sent(self, resend_due: bool) -> (Option<(u8, SeqSegmentView)>, RegistryView) {
        if self.sent.len() > 0 && resend_due {
            let n = self.sent[0];
            (Some((n, self.registry[n]@)), RegistryView { sent: self.sent.drop_first().push(n), ..self })
        } else {
            (None, self)
        }
    }

    /// Sending for the first time the next segment, while the window allows
    /// it and it is registered.
    pub open spec fn pop_unsent(self) -> (Option<(u8, SeqSegmentView)>, RegistryView) {
        let n = self.highest_sent;
        if age(n, self.window) == WINDOW_SIZE || !self.registry.contains_key(n) {
            (None, self)
        } else {
            (
                Some((n, self.registry[n]@)),
                RegistryView { sent: self.sent.push(n), highest_sent: n.wrapping_add(1), ..self },
            )
        }
    }

    /// Taking the next segment to send.
    pub open spec fn pop(self, resend_due: bool) -> (Option<(u8, SeqSegmentView)>, RegistryView) {
        if self.sent.len() > 0 && resend_due {
            self.pop_sent(true)
        } else {
            self.pop_unsent()
        }
    }
}

/// Storage of the sequential segments that one side sends.
pub struct SendStorage {
    segment_queue_sent: VecDeque<(SeqNumber, Instant)>,
    segment_registry: BTreeMap<SeqNumber, SeqSegment>,
    highest_sent: SeqNumber,
    next_seq_num: SeqNumber,
    window: SeqNumber,
}

impl View for SendStorage {
    type V = RegistryView;

    closed spec fn view(&self) -> RegistryView {
        RegistryView {
            sent: self.segment_queue_sent@.map_values(|e: (SeqNumber, Instant)| e.0),
            registry: self.segment_registry@,
            highest_sent: self.highest_sent,
            next_seq_num: self.next_seq_num,
            window: self.window,
        }
    }
}

impl SendStorage {
    /// When each segment sent was sent last, in the order of
    /// [`RegistryView::sent`].
    pub closed spec fn sent_times(&self) -> Seq<Instant> {
        self.segment_queue_sent@.map_values(|e: (SeqNumber, Instant)| e.1)
    }

    /// Creates an empty storage whose window starts at `window`.
    pub fn new(window: SeqNumber) -> (s: SendStorage)
        ensures
            s@ == (RegistryView {
                sent: Seq::empty(),
                registry: Map::empty(),
                highest_sent: window.wrapping_sub(1),
                next_seq_num: window,
                window,
            }),
            s@.wf(),
    {
        let s = SendStorage {
            segment_queue_sent: VecDeque::new(),
            segment_registry: BTreeMap::new(),
            highest_sent: window.wrapping_sub(1),
            next_seq_num: window,
            window,
        };
        proof {
            assert(s@.sent =~= Seq::empty());
        }
        s
    }

    /// Takes the next segment to send: the segment sent longest ago once
    /// three quarters of the connection timeout have passed since it was
    /// sent, or else the next segment not sent yet, while the window allows
    /// it. Whether the time has come depends on the clock; the result is the
    /// one [`pop_with`](Self::pop_with) gives for one of the two answers.
    pub fn pop(&mut self) -> (r: Option<(SeqNumber, SeqSegment)>)
        requires
            old(self)@.wf(),
            age(old(self)@.highest_sent, old(self)@.window) <= WINDOW_SIZE,
        ensures
            final(self)@.wf(),
            (popped_view(r), final(self)@) == old(self)@.pop(true)
                || (popped_view(r), final(self)@) == old(self)@.pop(false),
    {
        let elapsed = if self.segment_queue_sent.len() > 0 {
            elapsed_nanos(&self.segment_queue_sent[0].1)
        } else {
            0
        };
        let now = instant_now();
        self.pop_after(elapsed, now)
    }

    /// Takes the next segment to send, given the nanoseconds passed since the
    /// segment sent longest ago was sent: it is due to be sent again once more
    /// than three quarters of the connection timeout have passed. `now` is
    /// recorded as the time at which the segment handed out was sent.
    pub fn pop_after(&mut self, elapsed_nanos: u128, now: Instant) -> (r: Option<
        (SeqNumber, SeqSegment),
    >)
        requires
            old(self)@.wf(),
            age(old(self)@.highest_sent, old(self)@.window) <= WINDOW_SIZE,
        ensures
            final(self)@.wf(),
            (popped_view(r), final(self)@) == old(self)@.pop(elapsed_nanos > RESEND_AFTER_NANOS),
            final(self).sent_times() == times_after_pop(
                old(self).sent_times(),
                old(self)@.sent.len(),
                elapsed_nanos > RESEND_AFTER_NANOS,
                r is Some,
                now,
            ),
    {
        self.pop_with(elapsed_nanos > RESEND_AFTER_NANOS, now)
    }

    /// Takes the next segment to send, given whether the segment sent longest
    /// ago is due to be sent again. `now` is recorded as the time at which the
    /// segment handed out was sent.
    pub fn pop_with(&mut self, resend_due: bool, now: Instant) -> (r: Option<(SeqNumber, SeqSegment)>)
        requires
            old(self)@.wf(),
            age(old(self)@.highest_sent, old(self)@.window) <= WINDOW_SIZE,
        ensures
            final(self)@.wf(),
            (popped_view(r), final(self)@) == old(self)@.pop(resend_due),
            final(self).sent_times() == times_after_pop(
                old(self).sent_times(),
                old(self)@.sent.len(),
                resend_due,
                r is Some,
                now,
            ),
    {
        match self.try_pop_sent(resend_due, now) {
            Some(r) => Some(r),
            None => self.try_pop_unsent(now),
        }
    }

    /// Pushes `segment` under the next number and returns that number.
    /// `DATA` and `FINISH` fail with [`MdswpError::WriteFinished`] once
    /// `FINISH` was pushed last; `ACCEPT` may only be pushed first.
    pub fn push(&mut self, segment: SeqSegment) -> (r: Result<SeqNumber, MdswpError>)
        requires
            old(self)@.wf(),
            segment is Accept ==> old(self)@.registry.is_empty(),
        ensures
            final(self)@.wf(),
            (r, final(self)@) == old(self)@.push(segment),
    {
        match segment {
            SeqSegment::Accept => Ok(self.push_unchecked(segment)),
            _ => {
                if self.finished() {
                    Err(MdswpError::WriteFinished)
                } else {
                    Ok(self.push_unchecked(segment))
                }
            },
        }
    }

    /// Whether the segment pushed last is `FINISH`.
    pub fn finished(&self) -> (r: bool)
        requires
            self@.wf(),
        ensures
            r == self@.finished(),
    {
        proof {
            lemma_u8_keys_ordered();
        }
        if self.segment_registry.is_empty() {
            return false;
        }
        match self.segment_registry.get(&self.next_seq_num.wrapping_sub(1)) {
            Some(segment) => segment.is_finish(),
            None => false,
        }
    }

    fn try_pop_sent(&mut self, resend_due: bool, now: Instant) -> (r: Option<(SeqNumber, SeqSegment)>)
        requires
            old(self)@.wf(),
        ensures
            final(self)@.wf(),
            (popped_view(r), final(self)@) == old(self)@.pop_sent(resend_due),
            old(self)@.sent.len() > 0 && resend_due ==> final(self).sent_times() == old(
                self,
            ).sent_times().drop_first().push(now),
            !(old(self)@.sent.len() > 0 && resend_due) ==> final(self).sent_times() == old(
                self,
            ).sent_times(),
    {
        proof {
            lemma_u8_keys_ordered();
        }
        let ghost v = self@;
        let ghost q = self.segment_queue_sent@;
        let (seq_num, sent_at) = match self.segment_queue_sent.pop_front() {
            Some(e) => e,
            None => return None,
        };
        if resend_due {
            proof {
                assert(v.sent[0] == seq_num);
                assert(v.registry.contains_key(seq_num));
            }
            let segment = match self.segment_registry.get(&seq_num) {
                Some(s) => s.clone(),
                None => {
                    proof {
                        assert(false);
                    }
                    SeqSegment::Finish
                },
            };
            self.segment_queue_sent.push_back((seq_num, now));
            proof {
                assert(self.sent_times() =~= q.map_values(|e: (SeqNumber, Instant)| e.1).drop_first().push(
                    now,
                ));
                assert(self@.sent =~= v.sent.drop_first().push(seq_num));
            }
            Some((seq_num, segment))
        } else {
            self.segment_queue_sent.push_front((seq_num, sent_at));
            proof {
                assert(self.segment_queue_sent@ =~= q);
            }
            None
        }
    }

    fn try_pop_unsent(&mut self, now: Instant) -> (r: Option<(SeqNumber, SeqSegment)>)
        requires
            old(self)@.wf(),
            age(old(self)@.highest_sent, old(self)@.window) <= WINDOW_SIZE,
        ensures
            final(self)@.wf(),
            (popped_view(r), final(self)@) == old(self)@.pop_unsent(),
            r is Some ==> final(self).sent_times() == old(self).sent_times().push(now),
            r is None ==> final(self).sent_times() == old(self).sent_times(),
    {
        let ghost old_times = self.sent_times();
        proof {
            lemma_u8_keys_ordered();
        }
        let ghost v = self@;
        let offset = self.highest_sent.wrapping_sub(self.window);
        if offset == WINDOW_SIZE {
            return None;
        }
        let segment = match self.segment_registry.get(&self.highest_sent) {
            Some(s) => s.clone(),
            None => return None,
        };
        let segment_seq_num = self.highest_sent;
        self.segment_queue_sent.push_back((segment_seq_num, now));
        self.highest_sent = segment_seq_num.wrapping_add(1);
        proof {
            assert(self.sent_times() =~= old_times.push(now));
            assert(self@.sent =~= v.sent.push(segment_seq_num));
        }
        Some((segment_seq_num, segment))
    }

    fn push_unchecked(&mut self, segment: SeqSegment) -> (n: SeqNumber)
        requires
            old(self)@.wf(),
        ensures
            n == old(self)@.next_seq_num,
            final(self)@ == old(self)@.push_unchecked(segment),
            final(self)@.wf(),
    {
        proof {
            lemma_u8_keys_ordered();
        }
        let curr_seq_num = self.next_seq_num;
        let next_seq_num = curr_seq_num.wrapping_add(1);
        self.segment_registry.insert(curr_seq_num, segment);
        self.next_seq_num = next_seq_num;
        proof {
            assert(next_seq_num.wrapping_sub(1) == curr_seq_num);
        }
        curr_seq_num
    }
}

} // verus!
