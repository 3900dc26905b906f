//! The sending side of a stream: sequential segments waiting to be sent, and
//! the window of segments sent but not yet acknowledged.

use std::collections::VecDeque;
use std::time::Instant;

use vstd::prelude::*;
use vstd::set_lib::lemma_int_range;
use vstd::set_lib::lemma_subset_equality;
use vstd::set_lib::set_int_range;

use crate::clock::elapsed_nanos;
use crate::clock::instant_now;
use crate::segment::SeqNumber;
use crate::segment::SeqSegment;
use crate::segment::SeqSegmentView;
use crate::util::MdswpError;
use crate::util::HALF_TIMEOUT_NANOS;
use crate::util::WINDOW_SIZE;
use crate::util::age;

verus! {

/// Whether acknowledging `ack` acknowledges the segment numbered `seq`: `seq`
/// is `ack` or one of the `WINDOW_SIZE - 1` numbers before it.
pub open spec fn is_acked(ack: u8, seq: u8) -> bool {
    age(ack, seq) < WINDOW_SIZE
}

/// The entries of `s` that acknowledging `ack` leaves, in their order.
pub open spec fn unacked(s: Seq<(u8, SeqSegmentView)>, ack: u8) -> Seq<(u8, SeqSegmentView)>
    decreases s.len(),
{
    if s.len() == 0 {
        s
    } else if is_acked(ack, s.last().0) {
        unacked(s.drop_last(), ack)
    } else {
        unacked(s.drop_last(), ack).push(s.last())
    }
}

/// Mathematical value of a [`SendStorage`].
#[verifier::ext_equal]
pub struct SendView {
    /// Segments sent and not yet acknowledged, with their sequence numbers, in
    /// the order in which they are due to be sent again.
    pub sent: Seq<(u8, SeqSegmentView)>,
    /// Segments waiting to be sent for the first time, in order.
    pub unsent: Seq<SeqSegmentView>,
    /// Sequence number of the next segment sent for the first time.
    pub next_unsent: u8,
    /// Whether `FINISH` has been pushed since the storage was created or
    /// cleared: sending is closed.
    pub finish_pushed: bool,
}

impl SendView {
    /// At most `WINDOW_SIZE` segments are in flight.
    pub open spec fn wf(self) -> bool {
        self.sent.len() <= WINDOW_SIZE
    }

    /// The sequence numbers of the segments in flight are distinct and are the
    /// ones used last, just before `next_unsent`.
    pub open spec fn sent_are_latest(self) -> bool {
        &&& self.sent.len() <= WINDOW_SIZE
        &&& forall|i: int|
            0 <= i < self.sent.len() ==> 1 <= #[trigger] age(self.next_unsent, self.sent[i].0)
                && age(self.next_unsent, self.sent[i].0) <= self.sent.len()
        &&& forall|i: int, j: int|
            0 <= i < self.sent.len() && 0 <= j < self.sent.len() && i != j ==> self.sent[i].0
                != self.sent[j].0
    }

    pub open spec fn is_empty(self) -> bool {
        self.sent.len() == 0 && self.unsent.len() == 0
    }

    /// Whether sending is closed: `FINISH` has been pushed, whether or not it
    /// has been sent and acknowledged since.
    pub open spec fn finished(self) -> bool {
        self.finish_pushed
    }

    /// Taking the next segment to send. The first segment in flight is sent
    /// again when `resend_due` (its time has come); otherwise the first waiting
    /// segment is sent, if fewer than `WINDOW_SIZE` are in flight.
    pub open spec fn pop(self, resend_due: bool) -> (Option<(u8, SeqSegmentView)>, SendView) {
        if self.sent.len() > 0 && resend_due {
            (Some(self.sent[0]), SendView { sent: self.sent.drop_first().push(self.sent[0]), ..self })
        } else if self.sent.len() >= WINDOW_SIZE || self.unsent.len() == 0 {
            (None, self)
        } else {
            (
                Some((self.next_unsent, self.unsent[0])),
                SendView {
                    sent: self.sent.push((self.next_unsent, self.unsent[0])),
                    unsent: self.unsent.drop_first(),
                    next_unsent: self.next_unsent.wrapping_add(1),
                    ..self
                },
            )
        }
    }

    /// Queueing a segment. `DATA` and `FINISH` are refused once `FINISH` has
    /// been pushed; pushing `FINISH` closes sending.
    pub open spec fn push(self, s: SeqSegmentView) -> (Result<(), MdswpError>, SendView) {
        if s != SeqSegmentView::Accept && self.finished() {
            (Err(MdswpError::WriteFinished), self)
        } else {
            (
                Ok(()),
                SendView {
                    unsent: self.unsent.push(s),
                    finish_pushed: self.finish_pushed || s == SeqSegmentView::Finish,
                    ..self
                },
            )
        }
    }

    /// Registering an acknowledgement. `ack` must be one of the `WINDOW_SIZE`
    /// numbers that end at `next_unsent`.
    pub open spec fn acknowledge(self, ack: u8) -> (Result<(), MdswpError>, SendView) {
        if age(self.next_unsent, ack) >= WINDOW_SIZE {
            (Err(MdswpError::InvalidAckNum { ack_num: ack }), self)
        } else {
            (Ok(()), SendView { sent: unacked(self.sent, ack), ..self })
        }
    }
}

/// Counting back from `ack` instead of `next` shifts every age by the age of
/// `ack`, modulo 256.
proof fn lemma_age_shift(next: u8, ack: u8, seq: u8)
    ensures
        age(ack, seq) == (if age(next, seq) >= age(next, ack) {
            age(next, seq) - age(next, ack)
        } else {
            age(next, seq) - age(next, ack) + 256
        }),
{
}

/// The entries of `unacked(s, ack)` are those of `s` that `ack` does not
/// acknowledge, and no sequence number occurs in it twice if none occurs in `s`
/// twice.
pub proof fn lemma_unacked(s: Seq<(u8, SeqSegmentView)>, ack: u8)
    ensures
        unacked(s, ack).len() <= s.len(),
        forall|x| #[trigger]
            unacked(s, ack).contains(x) <==> (s.contains(x) && !is_acked(ack, x.0)),
        (forall|i: int, j: int|
            0 <= i < s.len() && 0 <= j < s.len() && i != j ==> s[i].0 != s[j].0) ==> (forall|
            i: int,
            j: int,
        |
            0 <= i < unacked(s, ack).len() && 0 <= j < unacked(s, ack).len() && i != j
                ==> unacked(s, ack)[i].0 != unacked(s, ack)[j].0),
    decreases s.len(),
{
    if s.len() > 0 {
        let rest = s.drop_last();
        lemma_unacked(rest, ack);
        assert forall|x| #[trigger] unacked(s, ack).contains(x) <==> (s.contains(x) && !is_acked(
            ack,
            x.0,
        )) by {
            if s.contains(x) {
                let k = choose|k: int| 0 <= k < s.len() && s[k] == x;
                if k < s.len() - 1 {
                    assert(rest[k] == x);
                }
            }
            if rest.contains(x) {
                let k = choose|k: int| 0 <= k < rest.len() && rest[k] == x;
                assert(s[k] == x);
            }
            if !is_acked(ack, s.last().0) {
                let u = unacked(rest, ack);
                if u.push(s.last()).contains(x) {
                    let k = choose|k: int| 0 <= k < u.push(s.last()).len() && u.push(s.last())[k] == x;
                    if k < u.len() {
                        assert(u[k] == x);
                    }
                }
                if u.contains(x) {
                    let k = choose|k: int| 0 <= k < u.len() && u[k] == x;
                    assert(u.push(s.last())[k] == x);
                }
                assert(u.push(s.last())[u.len() as int] == s.last());
            }
        }
        if forall|i: int, j: int|
            0 <= i < s.len() && 0 <= j < s.len() && i != j ==> s[i].0 != s[j].0 {
            assert(forall|i: int, j: int|
                0 <= i < rest.len() && 0 <= j < rest.len() && i != j ==> rest[i].0 != rest[j].0)
                by {
                assert(forall|i: int| 0 <= i < rest.len() ==> rest[i] == s[i]);
            }
            if !is_acked(ack, s.last().0) {
                let u = unacked(rest, ack);
                assert forall|i: int| 0 <= i < u.len() implies u[i].0 != s.last().0 by {
                    assert(u.contains(u[i]));
                    assert(rest.contains(u[i]));
                    let k = choose|k: int| 0 <= k < rest.len() && rest[k] == u[i];
                    assert(s[k] == u[i]);
                }
            }
        }
    }
}

/// A sequence of `n` distinct numbers in `[1; n]` holds each number of
/// `[1; n]`.
proof fn lemma_fill(a: Seq<int>, n: int)
    requires
        a.len() == n,
        a.no_duplicates(),
        forall|i: int| 0 <= i < n ==> 1 <= #[trigger] a[i] <= n,
    ensures
        forall|k: int| 1 <= k <= n ==> a.contains(k),
{
    a.unique_seq_to_set();
    lemma_int_range(1, n + 1);
    let r = set_int_range(1, n + 1);
    assert(a.to_set().subset_of(r)) by {
        assert forall|x: int| a.to_set().contains(x) implies r.contains(x) by {
            assert(a.contains(x));
        }
    }
    lemma_subset_equality(a.to_set(), r);
    assert forall|k: int| 1 <= k <= n implies a.contains(k) by {
        assert(r.contains(k));
        assert(a.to_set().contains(k));
    }
}

/// The ages, counted back from `next`, of the entries of `s`.
spec fn ages(s: Seq<(u8, SeqSegmentView)>, next: u8) -> Seq<int> {
    s.map_values(|e: (u8, SeqSegmentView)| age(next, e.0))
}

/// While the segments in flight are the latest ones, the one sent last is
/// among them.
pub proof fn lemma_latest_in_flight(v: SendView)
    requires
        v.sent_are_latest(),
        v.sent.len() > 0,
    ensures
        exists|i: int| 0 <= i < v.sent.len() && age(v.next_unsent, v.sent[i].0) == 1,
{
    let s = v.sent;
    let n = s.len() as int;
    let a = ages(s, v.next_unsent);
    assert(a.no_duplicates()) by {
        assert forall|i: int, j: int| 0 <= i < a.len() && 0 <= j < a.len() && i != j implies a[i]
            != a[j] by {
            assert(s[i].0 != s[j].0);
        }
    }
    assert forall|i: int| 0 <= i < n implies 1 <= #[trigger] a[i] <= n by {
        assert(1 <= age(v.next_unsent, s[i].0));
    }
    lemma_fill(a, n);
    assert(a.contains(1));
    let i = choose|i: int| 0 <= i < a.len() && a[i] == 1;
    assert(age(v.next_unsent, s[i].0) == 1);
}

/// Acknowledging a number that was sent keeps the segments in flight the
/// latest ones.
proof fn lemma_acknowledge_latest(v: SendView, ack: u8)
    requires
        v.sent_are_latest(),
        1 <= age(v.next_unsent, ack) < WINDOW_SIZE,
    ensures
        (SendView { sent: unacked(v.sent, ack), ..v }).sent_are_latest(),
{
    let s = v.sent;
    let next = v.next_unsent;
    let d = age(next, ack);
    let n = s.len() as int;
    let u = unacked(s, ack);
    lemma_unacked(s, ack);
    // An entry in flight is acknowledged exactly when it is at least `d` old.
    assert forall|i: int| 0 <= i < n implies (is_acked(ack, #[trigger] s[i].0) <==> age(next, s[i].0) >= d) by {
        assert(1 <= age(next, s[i].0));
        assert(age(next, s[i].0) <= n);
        assert(n <= 10);
        assert(d < 10);
        lemma_age_shift(next, ack, s[i].0);
    }
    let a = ages(s, next);
    assert(a.no_duplicates()) by {
        assert forall|i: int, j: int| 0 <= i < a.len() && 0 <= j < a.len() && i != j implies a[i]
            != a[j] by {
            assert(s[i].0 != s[j].0);
        }
    }
    lemma_fill(a, n);
    let m: int = if d - 1 < n { d - 1 } else { n };
    let m: int = if m < 0 { 0 } else { m };
    let b = ages(u, next);
    // The entries left are those younger than `d`.
    assert forall|i: int| 0 <= i < u.len() implies 1 <= #[trigger] b[i] <= m && b[i] < d by {
        assert(u.contains(u[i]));
        let k = choose|k: int| 0 <= k < n && s[k] == u[i];
        assert(!is_acked(ack, s[k].0));
    }
    assert(b.no_duplicates()) by {
        assert forall|i: int, j: int| 0 <= i < b.len() && 0 <= j < b.len() && i != j implies b[i]
            != b[j] by {
            assert(u[i].0 != u[j].0);
        }
    }
    // Each age below `d` is left.
    assert forall|k: int| 1 <= k <= m implies b.contains(k) by {
        assert(a.contains(k));
        let i = choose|i: int| 0 <= i < n && a[i] == k;
        assert(!is_acked(ack, s[i].0));
        assert(u.contains(s[i]));
        let j = choose|j: int| 0 <= j < u.len() && u[j] == s[i];
        assert(b[j] == k);
    }
    b.unique_seq_to_set();
    lemma_int_range(1, m + 1);
    assert(b.to_set() =~= set_int_range(1, m + 1)) by {
        assert forall|x: int| b.to_set().contains(x) <==> set_int_range(1, m + 1).contains(x) by {
            if b.to_set().contains(x) {
                assert(b.contains(x));
            }
            if set_int_range(1, m + 1).contains(x) {
                assert(b.contains(x));
            }
        }
    }
    assert(u.len() == m);
    assert forall|i: int| 0 <= i < u.len() implies 1 <= #[trigger] age(next, u[i].0)
        <= u.len() by {
        assert(b[i] == age(next, u[i].0));
    }
}

/// Storage of the sequential segments that one side of a stream sends.
pub struct SendStorage {
    queue_sent: VecDeque<(SeqNumber, SeqSegment, Instant)>,
    queue_unsent: VecDeque<SeqSegment>,
    next_unsent: SeqNumber,
    finish_pushed: bool,
}

/// Mathematical value of an entry of the queue of sent segments.
pub open spec fn sent_entry(e: (SeqNumber, SeqSegment, Instant)) -> (u8, SeqSegmentView) {
    (e.0, e.1@)
}

/// Mathematical value of a segment handed out for sending.
pub open spec fn popped_view(r: Option<(SeqNumber, SeqSegment)>) -> Option<(u8, SeqSegmentView)> {
    match r {
        Some((n, s)) => Some((n, s@)),
        None => None,
    }
}

impl View for SendStorage {
    type V = SendView;

    closed spec fn view(&self) -> SendView {
        SendView {
            sent: self.queue_sent@.map_values(|e: (SeqNumber, SeqSegment, Instant)| sent_entry(e)),
            unsent: self.queue_unsent@.map_values(|s: SeqSegment| s@),
            next_unsent: self.next_unsent,
            finish_pushed: self.finish_pushed,
        }
    }
}

/// When the `in_flight` segments in flight were sent last, in the order in
/// which they are due to be sent again, after a pop: the segment sent again
/// moves to the end with time `now`, a segment sent for the first time joins
/// the end with time `now`, and nothing changes when nothing is handed out.
pub open spec fn times_after_pop(
    times: Seq<Instant>,
    in_flight: nat,
    resend_due: bool,
    popped: bool,
    now: Instant,
) -> Seq<Instant> {
    if in_flight > 0 && resend_due {
        times.drop_first().push(now)
    } else if popped {
        times.push(now)
    } else {
        times
    }
}

impl SendStorage {
    /// When each segment in flight was sent last, in the order of
    /// [`SendView::sent`].
    pub closed spec fn sent_times(&self) -> Seq<Instant> {
        self.queue_sent@.map_values(|e: (SeqNumber, SeqSegment, Instant)| e.2)
    }

    /// Creates the storage of the side that accepted a connection: `ACCEPT`,
    /// numbered `accept_seq_num`, is sent first.
    pub fn new_by_peer(accept_seq_num: SeqNumber) -> (s: SendStorage)
        ensures
            s@ == (SendView {
                sent: Seq::empty(),
                unsent: seq![SeqSegmentView::Accept],
                next_unsent: accept_seq_num,
                finish_pushed: false,
            }),
            s@.wf(),
            s@.sent_are_latest(),
    {
        let mut queue_unsent = VecDeque::new();
        queue_unsent.push_back(SeqSegment::Accept);
        let s = SendStorage {
            queue_sent: VecDeque::new(),
            queue_unsent,
            next_unsent: accept_seq_num,
            finish_pushed: false,
        };
        proof {
            assert(s@.unsent =~= seq![SeqSegmentView::Accept]);
            assert(s@.sent =~= Seq::empty());
        }
        s
    }

    /// Creates the storage of the side that established a connection with
    /// `establish_seq_num`: its first segment is numbered one more.
    pub fn new_by_local(establish_seq_num: SeqNumber) -> (s: SendStorage)
        ensures
            s@ == (SendView {
                sent: Seq::empty(),
                unsent: Seq::empty(),
                next_unsent: establish_seq_num.wrapping_add(1),
                finish_pushed: false,
            }),
            s@.wf(),
            s@.sent_are_latest(),
    {
        let s = SendStorage {
            queue_sent: VecDeque::new(),
            queue_unsent: VecDeque::new(),
            next_unsent: establish_seq_num.wrapping_add(1),
            finish_pushed: false,
        };
        proof {
            assert(s@.unsent =~= Seq::empty());
            assert(s@.sent =~= Seq::empty());
        }
        s
    }

    /// Drops all segments and opens sending again.
    pub fn clear(&mut self)
        ensures
            final(self)@ == (SendView {
                sent: Seq::empty(),
                unsent: Seq::empty(),
                finish_pushed: false,
                ..old(self)@
            }),
            final(self)@.wf(),
            final(self)@.sent_are_latest(),
    {
        self.queue_unsent.clear();
        self.queue_sent.clear();
        self.finish_pushed = false;
        proof {
            assert(self@.unsent =~= Seq::empty());
            assert(self@.sent =~= Seq::empty());
        }
    }

    /// Whether no segment is waiting or in flight.
    pub fn is_empty(&self) -> (r: bool)
        ensures
            r == self@.is_empty(),
    {
        self.queue_sent.len() == 0 && self.queue_unsent.len() == 0
    }

    /// Takes the next segment to send, if any: the first segment in flight
    /// once half of the connection timeout has passed since it was sent, or
    /// else the first waiting segment, if fewer than `WINDOW_SIZE` are in
    /// flight. Whether the time has come depends on the clock; the result is
    /// the one [`pop_with`](Self::pop_with) gives for one of the two answers.
    pub fn pop(&mut self) -> (r: Option<(SeqNumber, SeqSegment)>)
        requires
            old(self)@.wf(),
        ensures
            final(self)@.wf(),
            old(self)@.sent_are_latest() ==> final(self)@.sent_are_latest(),
            (popped_view(r), final(self)@) == old(self)@.pop(true)
                || (popped_view(r), final(self)@) == old(self)@.pop(false),
    {
        let elapsed = if self.queue_sent.len() > 0 {
            elapsed_nanos(&self.queue_sent[0].2)
        } else {
            0
        };
        let now = instant_now();
        self.pop_after(elapsed, now)
    }

    /// Takes the next segment to send, given the nanoseconds passed since the
    /// first segment in flight was sent: it is due to be sent again once more
    /// than half of the connection timeout has passed. `now` is recorded as
    /// the time at which the segment handed out was sent.
    pub fn pop_after(&mut self, elapsed_nanos: u128, now: Instant) -> (r: Option<
        (SeqNumber, SeqSegment),
    >)
        requires
            old(self)@.wf(),
        ensures
            final(self)@.wf(),
            old(self)@.sent_are_latest() ==> final(self)@.sent_are_latest(),
            (popped_view(r), final(self)@) == old(self)@.pop(elapsed_nanos > HALF_TIMEOUT_NANOS),
            final(self).sent_times() == times_after_pop(
                old(self).sent_times(),
                old(self)@.sent.len(),
                elapsed_nanos > HALF_TIMEOUT_NANOS,
                r is Some,
                now,
            ),
    {
        self.pop_with(elapsed_nanos > HALF_TIMEOUT_NANOS, now)
    }

    /// Takes the next segment to send, given whether the first segment in
    /// flight is due to be sent again. `now` is recorded as the time at which
    /// the segment handed out was sent.
    pub fn pop_with(&mut self, resend_due: bool, now: Instant) -> (r: Option<
        (SeqNumber, SeqSegment),
    >)
        requires
            old(self)@.wf(),
        ensures
            final(self)@.wf(),
            old(self)@.sent_are_latest() ==> final(self)@.sent_are_latest(),
            (popped_view(r), final(self)@) == old(self)@.pop(resend_due),
            final(self).sent_times() == times_after_pop(
                old(self).sent_times(),
                old(self)@.sent.len(),
                resend_due,
                r is Some,
                now,
            ),
    {
        match self.try_pop_sent(resend_due, now) {
            Some(r) => Some(r),
            None => self.try_pop_unsent(now),
        }
    }

    fn try_pop_sent(&mut self, resend_due: bool, now: Instant) -> (r: Option<(SeqNumber, SeqSegment)>)
        requires
            old(self)@.wf(),
        ensures
            final(self)@.wf(),
            old(self)@.sent_are_latest() ==> final(self)@.sent_are_latest(),
            old(self)@.sent.len() > 0 && resend_due
                ==> (popped_view(r), final(self)@) == old(self)@.pop(true),
            !(old(self)@.sent.len() > 0 && resend_due) ==> r is None && final(self)@ == old(self)@,
            old(self)@.sent.len() > 0 && resend_due ==> r is Some && final(self).sent_times()
                == old(self).sent_times().drop_first().push(now),
            !(old(self)@.sent.len() > 0 && resend_due) ==> final(self).sent_times() == old(
                self,
            ).sent_times(),
    {
        let ghost old_view = self@;
        let ghost old_q = self.queue_sent@;
        match self.queue_sent.pop_front() {
            None => None,
            Some((seq_num, segment, sent_at)) => {
                if resend_due {
                    let copy = segment.clone();
                    self.queue_sent.push_back((seq_num, segment, now));
                    proof {
                        assert(self.sent_times() =~= old_q.map_values(
                            |e: (SeqNumber, SeqSegment, Instant)| e.2,
                        ).drop_first().push(now));
                        let s = old_view.sent;
                        assert(self@.sent =~= s.drop_first().push(s[0]));
                        assert(self@.unsent =~= old_view.unsent);
                        let t = self@.sent;
                        if old_view.sent_are_latest() {
                            assert forall|i: int| 0 <= i < t.len() implies 1
                                <= #[trigger] age(self.next_unsent, t[i].0) && age(
                                self.next_unsent,
                                t[i].0,
                            ) <= t.len() by {
                                if i < t.len() - 1 {
                                    assert(t[i] == s[i + 1]);
                                    assert(1 <= age(old_view.next_unsent, s[i + 1].0));
                                } else {
                                    assert(t[i] == s[0]);
                                    assert(1 <= age(old_view.next_unsent, s[0].0));
                                }
                            }
                            assert forall|i: int, j: int|
                                0 <= i < t.len() && 0 <= j < t.len() && i != j implies t[i].0
                                != t[j].0 by {
                                let ii = if i < t.len() - 1 { i + 1 } else { 0 };
                                let jj = if j < t.len() - 1 { j + 1 } else { 0 };
                                assert(t[i] == s[ii]);
                                assert(t[j] == s[jj]);
                            }
                        }
                    }
                    Some((seq_num, copy))
                } else {
                    self.queue_sent.push_front((seq_num, segment, sent_at));
                    proof {
                        assert(self.queue_sent@ =~= old_q);
                    }
                    None
                }
            },
        }
    }

    fn try_pop_unsent(&mut self, now: Instant) -> (r: Option<(SeqNumber, SeqSegment)>)
        requires
            old(self)@.wf(),
        ensures
            final(self)@.wf(),
            old(self)@.sent_are_latest() ==> final(self)@.sent_are_latest(),
            (popped_view(r), final(self)@) == old(self)@.pop(false),
            r is Some ==> final(self).sent_times() == old(self).sent_times().push(now),
            r is None ==> final(self).sent_times() == old(self).sent_times(),
    {
        let ghost old_view = self@;
        let ghost old_times = self.sent_times();
        if self.queue_sent.len() >= WINDOW_SIZE as usize {
            return None;
        }
        let pop_unsent = self.next_unsent;
        let segment = match self.queue_unsent.pop_front() {
            Some(s) => s,
            None => return None,
        };
        self.next_unsent = pop_unsent.wrapping_add(1);
        let copy = segment.clone();
        self.queue_sent.push_back((pop_unsent, segment, now));
        proof {
            assert(self.sent_times() =~= old_times.push(now));
            let s = old_view.sent;
            let t = self@.sent;
            assert(t =~= s.push((pop_unsent, old_view.unsent[0])));
            assert(self@.unsent =~= old_view.unsent.drop_first());
            assert(old_view.next_unsent == pop_unsent);
            if old_view.sent_are_latest() {
                assert(forall|i: int|
                    0 <= i < s.len() ==> 1 <= #[trigger] age(old_view.next_unsent, s[i].0));
                assert forall|i: int| 0 <= i < t.len() implies 1 <= #[trigger] age(
                    self.next_unsent,
                    t[i].0,
                ) && age(self.next_unsent, t[i].0) <= t.len() by {
                    if i < s.len() {
                        assert(t[i] == s[i]);
                        assert(1 <= age(pop_unsent, s[i].0) <= s.len());
                    }
                }
                assert forall|i: int, j: int|
                    0 <= i < t.len() && 0 <= j < t.len() && i != j implies t[i].0 != t[j].0 by {
                    if i < s.len() {
                        assert(1 <= age(pop_unsent, s[i].0));
                    }
                    if j < s.len() {
                        assert(1 <= age(pop_unsent, s[j].0));
                    }
                }
            }
        }
        Some((pop_unsent, copy))
    }

    /// Queues a segment to be sent. `DATA` and `FINISH` fail with
    /// [`MdswpError::WriteFinished`] once `FINISH` has been pushed, even after
    /// it has been sent and acknowledged. `ACCEPT` may only be queued first of
    /// all.
    pub fn push(&mut self, segment: SeqSegment) -> (r: Result<(), MdswpError>)
        requires
            old(self)@.wf(),
            segment@ == SeqSegmentView::Accept ==> old(self)@.is_empty(),
        ensures
            final(self)@.wf(),
            old(self)@.sent_are_latest() ==> final(self)@.sent_are_latest(),
            (r, final(self)@) == old(self)@.push(segment@),
    {
        let ghost old_view = self@;
        match segment {
            SeqSegment::Accept => {
                self.queue_unsent.push_back(segment);
                proof {
                    assert(self@.unsent =~= old_view.unsent.push(SeqSegmentView::Accept));
                    assert(self@.sent =~= old_view.sent);
                    assert(self@.next_unsent == old_view.next_unsent);
                }
                Ok(())
            },
            _ => {
                if self.finish_pushed {
                    Err(MdswpError::WriteFinished)
                } else {
                    let ghost v = segment@;
                    let is_finish = segment.is_finish();
                    self.queue_unsent.push_back(segment);
                    self.finish_pushed = is_finish;
                    proof {
                        assert(self@.unsent =~= old_view.unsent.push(v));
                        assert(self@.sent =~= old_view.sent);
                        assert(self@.next_unsent == old_view.next_unsent);
                    }
                    Ok(())
                }
            },
        }
    }

    /// Registers an acknowledgement of the segments up to `ack_num`: they are
    /// not sent again. Fails with [`MdswpError::InvalidAckNum`] when `ack_num`
    /// is not one of the `WINDOW_SIZE` numbers that end at the next one to be
    /// used.
    pub fn acknowledge(&mut self, ack_num: SeqNumber) -> (r: Result<(), MdswpError>)
        requires
            old(self)@.wf(),
        ensures
            final(self)@.wf(),
            old(self)@.sent_are_latest() && ack_num != old(self)@.next_unsent
                ==> final(self)@.sent_are_latest(),
            (r, final(self)@) == old(self)@.acknowledge(ack_num),
    {
        let offset = self.next_unsent.wrapping_sub(ack_num);
        if offset >= WINDOW_SIZE {
            return Err(MdswpError::InvalidAckNum { ack_num });
        }
        let ghost old_view = self@;
        let ghost s = old_view.sent;
        let n = self.queue_sent.len();
        let mut i: usize = 0;
        while i < n
            invariant
                n == s.len(),
                i <= n,
                self.next_unsent == old_view.next_unsent,
                self.queue_unsent == old(self).queue_unsent,
                self.finish_pushed == old(self).finish_pushed,
                self@.sent == s.skip(i as int) + unacked(s.take(i as int), ack_num),
            decreases n - i,
        {
            let ghost before = self@.sent;
            let ghost before_q = self.queue_sent@;
            proof {
                assert(before.len() == before_q.len());
                assert(before.len() > 0);
            }
            let entry = self.queue_sent.pop_front();
            match entry {
                Some(e) => {
                    proof {
                        assert(self@.sent =~= before.drop_first());
                        assert(sent_entry(e) == before[0]);
                        assert(before[0] == s[i as int]);
                    }
                    let ghost mid = self@.sent;
                    if !(ack_num.wrapping_sub(e.0) < WINDOW_SIZE) {
                        self.queue_sent.push_back(e);
                        proof {
                            assert(self@.sent =~= mid.push(sent_entry(e)));
                        }
                    }
                    proof {
                        assert(is_acked(ack_num, e.0) == (ack_num.wrapping_sub(e.0) < WINDOW_SIZE));
                        assert(s.skip(i as int).drop_first() =~= s.skip(i + 1));
                        assert(s.take(i + 1).drop_last() =~= s.take(i as int));
                        assert(s.take(i + 1).last() == s[i as int]);
                        assert(self@.sent =~= s.skip(i + 1) + unacked(s.take(i + 1), ack_num));
                    }
                },
                None => {
                    proof {
                        assert(false);
                    }
                },
            }
            i = i + 1;
        }
        proof {
            assert(s.skip(n as int) =~= Seq::<(u8, SeqSegmentView)>::empty());
            assert(s.take(n as int) =~= s);
            assert(self@.sent =~= unacked(s, ack_num));
            assert(self@.unsent =~= old_view.unsent);
            lemma_unacked(s, ack_num);
            if old_view.sent_are_latest() && ack_num != old_view.next_unsent {
                lemma_acknowledge_latest(old_view, ack_num);
            }
        }
        Ok(())
    }

    /// Whether sending is closed: `FINISH` has been pushed since the storage
    /// was created or cleared.
    pub fn finished(&self) -> (r: bool)
        ensures
            r == self@.finished(),
    {
        self.finish_pushed
    }
}

} // verus!
