//! The receiving side of a stream: the receiving window, the segments that
//! arrived, the queue of segments ready to be read in order, and the
//! acknowledgements owed to the peer.

use std::collections::BTreeMap;
use std::collections::VecDeque;
use std::time::Instant;

use vstd::prelude::*;

use crate::clock::elapsed_nanos;
use crate::clock::instant_now;
use crate::segment::seq_segment_kind;
use crate::segment::SeqNumber;
use crate::segment::SeqSegment;
use crate::segment::SeqSegmentView;
use crate::util::age;
use crate::util::lemma_age_add;
use crate::util::lemma_seq_add_step;
use crate::util::lemma_u8_keys_ordered;
use crate::util::u8_keys_ordered;
use crate::util::seq_add;
use crate::util::MdswpError;
use crate::util::HALF_TIMEOUT_NANOS;
use crate::util::WINDOW_SIZE;

verus! {

/// How many consecutive sequence numbers from `w` on are keys of `m`, looking
/// at most `fuel` numbers ahead.
pub open spec fn run_len(m: Map<u8, SeqSegmentView>, w: u8, fuel: nat) -> nat
    decreases fuel,
{
    if fuel == 0 || !m.contains_key(w) {
        0
    } else {
        1 + run_len(m, w.wrapping_add(1), (fuel - 1) as nat)
    }
}

/// The highest sequence number received, after `seq` arrives: `seq`, unless
/// it lies `WINDOW_SIZE` or more numbers before the highest one so far.
pub open spec fn new_highest(highest: Option<u8>, seq: u8) -> Option<u8> {
    match highest {
        None => Some(seq),
        Some(h) => if age(seq, h) < WINDOW_SIZE {
            Some(seq)
        } else {
            highest
        },
    }
}

/// Mathematical value of a [`RecvStorage`].
#[verifier::ext_equal]
pub struct RecvView {
    /// Segments received and kept, by sequence number.
    pub segments: Map<u8, SeqSegmentView>,
    /// Segments that the window has passed, ready to be read, in order.
    pub pop_queue: Seq<SeqSegmentView>,
    /// Sequence number of the first segment not received yet.
    pub window: u8,
    /// Lowest sequence number still accepted (again).
    pub lower_bound: u8,
    /// Highest sequence number received.
    pub highest: Option<u8>,
    pub next_pop: u8,
    /// Sequence number acknowledged last, if any was.
    pub last_ack: Option<u8>,
    /// Whether the peer must be acknowledged at once: it sent a segment again.
    pub urgent_ack: bool,
}

impl RecvView {
    /// Every segment kept lies between the lower bound and `WINDOW_SIZE`
    /// numbers above the window.
    pub open spec fn wf(self) -> bool {
        forall|k: u8| #[trigger]
            self.segments.contains_key(k) ==> age(k, self.lower_bound) < age(
                self.window,
                self.lower_bound,
            ) + WINDOW_SIZE
    }

    /// The window lies at most `WINDOW_SIZE` numbers above the lower bound,
    /// as it does while segments arrive in order.
    pub open spec fn near(self) -> bool {
        age(self.window, self.lower_bound) <= WINDOW_SIZE
    }

    /// Every sequence number from the lower bound up to the window has
    /// arrived and is kept.
    pub open spec fn complete(self) -> bool {
        forall|j: int|
            0 <= j < age(self.window, self.lower_bound) ==> #[trigger] self.segments.contains_key(
                seq_add(self.lower_bound, j),
            )
    }

    /// First sequence number above the receiving window.
    pub open spec fn upper_bound(self) -> u8 {
        self.window.wrapping_add(WINDOW_SIZE)
    }

    /// Whether `seq` lies in `[lower_bound; upper_bound)`.
    pub open spec fn accepts(self, seq: u8) -> bool {
        age(seq, self.lower_bound) < age(self.upper_bound(), self.lower_bound)
    }

    /// Moving the window over the segments that arrived at it: they join the
    /// queue of segments to read. The lower bound moves up to the number
    /// `WINDOW_SIZE` below the new window, dropping what it leaves behind,
    /// when that number lies fewer than `WINDOW_SIZE` numbers above it (or is
    /// it); otherwise it stays.
    pub open spec fn slide(self) -> RecvView {
        let run = run_len(self.segments, self.window, WINDOW_SIZE as nat);
        let new_window = seq_add(self.window, run as int);
        let passed = Seq::new(run, |j: int| self.segments[seq_add(self.window, j)]);
        let min_lower_bound = seq_add(new_window, -(WINDOW_SIZE as int));
        let diff = age(min_lower_bound, self.lower_bound);
        if diff < WINDOW_SIZE {
            RecvView {
                segments: self.segments.remove_keys(
                    Set::new(|k: u8| age(k, self.lower_bound) < diff),
                ),
                pop_queue: self.pop_queue + passed,
                window: new_window,
                lower_bound: min_lower_bound,
                ..self
            }
        } else {
            RecvView { pop_queue: self.pop_queue + passed, window: new_window, ..self }
        }
    }

    /// Receiving segment `seg` numbered `seq`.
    pub open spec fn recv(self, seq: u8, seg: SeqSegmentView) -> (Result<(), MdswpError>, RecvView) {
        if !self.accepts(seq) {
            (
                Err(
                    MdswpError::InvalidSeqNum {
                        seq_num: seq,
                        lower_bound: self.lower_bound,
                        upper_bound: self.upper_bound(),
                    },
                ),
                self,
            )
        } else if self.segments.contains_key(seq) {
            if self.segments[seq] == seg {
                (Ok(()), RecvView { urgent_ack: true, ..self })
            } else {
                (
                    Err(
                        MdswpError::Unreliable {
                            actual: seq_segment_kind(seg),
                            expected: seq_segment_kind(self.segments[seq]),
                        },
                    ),
                    self,
                )
            }
        } else {
            let stored = RecvView {
                segments: self.segments.insert(seq, seg),
                highest: new_highest(self.highest, seq),
                ..self
            };
            if seq == self.window {
                (Ok(()), stored.slide())
            } else {
                (Ok(()), stored)
            }
        }
    }

    /// Deciding whether to acknowledge, and what: the number just below the
    /// window. The first time, it is acknowledged if anything arrived; later,
    /// if a segment arrived again, if `timed_out` (half of the connection
    /// timeout passed since the last acknowledgement), or if it is more than
    /// half a window above the last acknowledgement.
    pub open spec fn pop_acknowledge(self, timed_out: bool) -> (Option<u8>, RecvView) {
        let curr = seq_add(self.window, -1);
        match self.last_ack {
            None => (
                if self.window == self.lower_bound {
                    None
                } else {
                    Some(curr)
                },
                RecvView { last_ack: Some(curr), ..self },
            ),
            Some(last) => if self.urgent_ack || timed_out || age(curr, last) > WINDOW_SIZE / 2 {
                (Some(curr), RecvView { urgent_ack: false, last_ack: Some(curr), ..self })
            } else {
                (None, self)
            },
        }
    }
}

/// The first `run_len(m, w, fuel)` numbers from `w` on are keys of `m`, and
/// the number after them is not, unless the fuel ran out.
pub proof fn lemma_run(m: Map<u8, SeqSegmentView>, w: u8, fuel: nat)
    ensures
        run_len(m, w, fuel) <= fuel,
        forall|k: int| 0 <= k < run_len(m, w, fuel) ==> #[trigger] m.contains_key(seq_add(w, k)),
        run_len(m, w, fuel) < fuel ==> !m.contains_key(seq_add(w, run_len(m, w, fuel) as int)),
    decreases fuel,
{
    lemma_seq_add_step(w, 0);
    if fuel > 0 && m.contains_key(w) {
        let w1 = w.wrapping_add(1);
        lemma_run(m, w1, (fuel - 1) as nat);
        assert forall|k: int| 0 <= k < run_len(m, w, fuel) implies #[trigger] m.contains_key(
            seq_add(w, k),
        ) by {
            if k > 0 {
                assert(seq_add(w1, k - 1) == seq_add(w, k));
            }
        }
        assert(seq_add(w1, run_len(m, w1, (fuel - 1) as nat) as int) == seq_add(
            w,
            run_len(m, w, fuel) as int,
        ));
    }
}

/// Ages counted from a base `t` places further on.
proof fn lemma_age_rebase(k: u8, base: u8, t: int)
    requires
        0 <= t <= age(k, base),
    ensures
        age(k, seq_add(base, t)) == age(k, base) - t,
{
}

/// Ages of a number `t` places back.
proof fn lemma_age_back(w: u8, base: u8, t: int)
    requires
        0 <= t < 256,
    ensures
        age(seq_add(w, -t), base) == (if age(w, base) >= t {
            age(w, base) - t
        } else {
            age(w, base) - t + 256
        }),
        seq_add(w, -t) == seq_add(base, age(seq_add(w, -t), base)),
{
}

/// Sliding moves the lower bound to exactly `WINDOW_SIZE` below the new
/// window when it lay from `WINDOW_SIZE` to `2 * WINDOW_SIZE - 1` numbers
/// below it, and otherwise leaves the lower bound and the segments kept as
/// they were.
pub proof fn lemma_slide_lower_bound(v: RecvView)
    requires
        v.wf(),
        age(v.window, v.lower_bound) + WINDOW_SIZE < 256,
    ensures
        WINDOW_SIZE <= age(v.slide().window, v.lower_bound) < 2 * WINDOW_SIZE ==> age(
            v.slide().window,
            v.slide().lower_bound,
        ) == WINDOW_SIZE,
        !(WINDOW_SIZE <= age(v.slide().window, v.lower_bound) < 2 * WINDOW_SIZE)
            ==> v.slide().lower_bound == v.lower_bound && v.slide().segments == v.segments,
{
    let m = v.segments;
    let lb = v.lower_bound;
    lemma_run(m, v.window, WINDOW_SIZE as nat);
    let run = run_len(m, v.window, WINDOW_SIZE as nat);
    let new_window = seq_add(v.window, run as int);
    lemma_age_add(v.window, lb, run as int);
    let min_lb = seq_add(new_window, -(WINDOW_SIZE as int));
    lemma_age_back(new_window, lb, WINDOW_SIZE as int);
    let diff = age(min_lb, lb);
    if diff < WINDOW_SIZE {
        lemma_age_rebase(new_window, lb, diff);
    }
}

/// Sliding keeps the window well formed.
proof fn lemma_slide_wf(v: RecvView)
    requires
        v.wf(),
        age(v.window, v.lower_bound) + WINDOW_SIZE < 256,
    ensures
        v.slide().wf(),
{
    let m = v.segments;
    let d = age(v.window, v.lower_bound);
    lemma_run(m, v.window, WINDOW_SIZE as nat);
    let run = run_len(m, v.window, WINDOW_SIZE as nat);
    let new_window = seq_add(v.window, run as int);
    lemma_age_add(v.window, v.lower_bound, run as int);
    let min_lb = seq_add(new_window, -(WINDOW_SIZE as int));
    lemma_age_back(new_window, v.lower_bound, WINDOW_SIZE as int);
    let diff = age(min_lb, v.lower_bound);
    let w = v.slide();
    if diff < WINDOW_SIZE {
        assert(diff == d + run - WINDOW_SIZE);
        lemma_age_rebase(new_window, v.lower_bound, diff);
        assert forall|k: u8| #[trigger] w.segments.contains_key(k) implies age(k, w.lower_bound) < age(
            w.window,
            w.lower_bound,
        ) + WINDOW_SIZE by {
            assert(m.contains_key(k));
            assert(age(k, v.lower_bound) >= diff);
            lemma_age_rebase(k, v.lower_bound, diff);
        }
    }
}

/// Sliding keeps the window well formed.
pub proof fn lemma_slide_wf_pub(v: RecvView)
    requires
        v.wf(),
        age(v.window, v.lower_bound) + WINDOW_SIZE < 256,
    ensures
        v.slide().wf(),
{
    lemma_slide_wf(v);
}

/// When nothing but the number at the window lies ahead of the window,
/// sliding leaves nothing ahead of the window.
pub proof fn lemma_slide_behind(v: RecvView)
    requires
        v.wf(),
        age(v.window, v.lower_bound) + WINDOW_SIZE < 256,
        forall|k: u8| #[trigger]
            v.segments.contains_key(k) ==> age(k, v.lower_bound) <= age(v.window, v.lower_bound),
    ensures
        forall|k: u8| #[trigger]
            v.slide().segments.contains_key(k) ==> age(k, v.slide().lower_bound) < age(
                v.slide().window,
                v.slide().lower_bound,
            ),
{
    let m = v.segments;
    let lb = v.lower_bound;
    let d = age(v.window, lb);
    lemma_run(m, v.window, WINDOW_SIZE as nat);
    let run = run_len(m, v.window, WINDOW_SIZE as nat);
    let new_window = seq_add(v.window, run as int);
    lemma_age_add(v.window, lb, run as int);
    let min_lb = seq_add(new_window, -(WINDOW_SIZE as int));
    lemma_age_back(new_window, lb, WINDOW_SIZE as int);
    let diff = age(min_lb, lb);
    let w = v.slide();
    if m.contains_key(v.window) {
        assert(run >= 1);
    }
    assert forall|k: u8| #[trigger] w.segments.contains_key(k) implies age(k, w.lower_bound) < age(
        w.window,
        w.lower_bound,
    ) by {
        assert(m.contains_key(k));
        if diff < WINDOW_SIZE {
            assert(age(k, lb) >= diff);
            lemma_age_rebase(k, lb, diff);
            lemma_age_rebase(new_window, lb, diff);
        }
        if age(k, lb) == d {
            assert(k == v.window);
        }
    }
}

/// Sliding keeps every number from the lower bound up to the window present.
#[verifier::rlimit(90)]
#[verifier::spinoff_prover]
proof fn lemma_slide_complete(v: RecvView)
    requires
        v.wf(),
        v.complete(),
        age(v.window, v.lower_bound) + WINDOW_SIZE < 256,
    ensures
        v.slide().complete(),
{
    let m = v.segments;
    let lb = v.lower_bound;
    let d = age(v.window, lb);
    lemma_run(m, v.window, WINDOW_SIZE as nat);
    let run = run_len(m, v.window, WINDOW_SIZE as nat);
    let new_window = seq_add(v.window, run as int);
    lemma_age_add(v.window, lb, run as int);
    let min_lb = seq_add(new_window, -(WINDOW_SIZE as int));
    lemma_age_back(new_window, lb, WINDOW_SIZE as int);
    let diff = age(min_lb, lb);
    let w = v.slide();
    if diff < WINDOW_SIZE {
        let gone = Set::new(|k: u8| age(k, lb) < diff);
        assert(w.segments == m.remove_keys(gone));
        assert(w.lower_bound == min_lb);
        assert(w.window == new_window);
        lemma_age_rebase(new_window, lb, diff);
        assert forall|j: int| 0 <= j < age(w.window, w.lower_bound) implies #[trigger] w.segments.contains_key(
            seq_add(w.lower_bound, j),
        ) by {
            let x = seq_add(lb, diff + j);
            assert(!gone.contains(x));
            assert(seq_add(w.lower_bound, j) == x);
            lemma_age_add(lb, lb, diff + j);
            if diff + j < d {
                assert(m.contains_key(seq_add(lb, diff + j)));
            } else {
                assert(seq_add(v.window, diff + j - d) == x);
                assert(m.contains_key(seq_add(v.window, diff + j - d)));
            }
        }
    } else {
        assert forall|j: int| 0 <= j < age(w.window, w.lower_bound) implies #[trigger] w.segments.contains_key(
            seq_add(w.lower_bound, j),
        ) by {
            if j < d {
                assert(m.contains_key(seq_add(lb, j)));
            } else {
                assert(seq_add(v.window, j - d) == seq_add(lb, j));
                assert(m.contains_key(seq_add(v.window, j - d)));
            }
        }
    }
}

/// Storage of the sequential segments that one side of a stream receives.
pub struct RecvStorage {
    segments: BTreeMap<SeqNumber, SeqSegment>,
    pop_queue: VecDeque<SeqSegment>,
    window: SeqNumber,
    lower_bound: SeqNumber,
    highest: Option<SeqNumber>,
    next_pop: SeqNumber,
    last_ack: Option<(SeqNumber, Instant)>,
    urgent_ack: bool,
}

/// Mathematical value of the last acknowledgement: its number.
pub open spec fn ack_view(a: Option<(SeqNumber, Instant)>) -> Option<u8> {
    match a {
        Some((n, _)) => Some(n),
        None => None,
    }
}

/// Mathematical value of a segment handed out for reading.
pub open spec fn opt_view(r: Option<SeqSegment>) -> Option<SeqSegmentView> {
    match r {
        Some(s) => Some(s@),
        None => None,
    }
}

impl View for RecvStorage {
    type V = RecvView;

    closed spec fn view(&self) -> RecvView {
        RecvView {
            segments: self.segments@.map_values(|s: SeqSegment| s@),
            pop_queue: self.pop_queue@.map_values(|s: SeqSegment| s@),
            window: self.window,
            lower_bound: self.lower_bound,
            highest: self.highest,
            next_pop: self.next_pop,
            last_ack: ack_view(self.last_ack),
            urgent_ack: self.urgent_ack,
        }
    }
}

impl RecvStorage {
    /// When the last acknowledgement was decided, if one was.
    pub closed spec fn ack_time(&self) -> Option<Instant> {
        match self.last_ack {
            Some((_, at)) => Some(at),
            None => None,
        }
    }

    /// Creates the storage of the side that accepted a connection that the
    /// peer established with `establish_seq_num`.
    pub fn new_by_peer(establish_seq_num: SeqNumber) -> (s: RecvStorage)
        ensures
            s@ == (RecvView {
                segments: Map::empty(),
                pop_queue: Seq::empty(),
                window: establish_seq_num.wrapping_add(1),
                lower_bound: establish_seq_num.wrapping_add(1),
                highest: Some(establish_seq_num),
                next_pop: establish_seq_num.wrapping_add(1),
                last_ack: None,
                urgent_ack: false,
            }),
            s@.wf(),
            s@.complete(),
    {
        let window = establish_seq_num.wrapping_add(1);
        let s = RecvStorage {
            segments: BTreeMap::new(),
            pop_queue: VecDeque::new(),
            window,
            lower_bound: window,
            highest: Some(establish_seq_num),
            next_pop: window,
            last_ack: None,
            urgent_ack: false,
        };
        proof {
            assert(s@.segments =~= Map::empty());
            assert(s@.pop_queue =~= Seq::empty());
        }
        s
    }

    /// Creates the storage of the side that established a connection, once
    /// the peer accepted it with `ACCEPT` numbered `accept_seq_num`. That
    /// `ACCEPT` counts as received; it is acknowledged at the first occasion
    /// and never read.
    pub fn new_by_local(accept_seq_num: SeqNumber) -> (s: RecvStorage)
        ensures
            s@ == (RecvView {
                segments: map![accept_seq_num => SeqSegmentView::Accept],
                pop_queue: Seq::empty(),
                window: accept_seq_num.wrapping_add(1),
                lower_bound: accept_seq_num,
                highest: Some(accept_seq_num),
                next_pop: accept_seq_num.wrapping_add(1),
                last_ack: None,
                urgent_ack: true,
            }),
            s@.wf(),
            s@.complete(),
    {
        let window = accept_seq_num.wrapping_add(1);
        let mut segments = BTreeMap::new();
        segments.insert(accept_seq_num, SeqSegment::Accept);
        let s = RecvStorage {
            segments,
            pop_queue: VecDeque::new(),
            window,
            lower_bound: accept_seq_num,
            highest: Some(accept_seq_num),
            next_pop: window,
            last_ack: None,
            urgent_ack: true,
        };
        proof {
            assert(s@.segments =~= map![accept_seq_num => SeqSegmentView::Accept]);
            assert(s@.pop_queue =~= Seq::empty());
            assert(s@.segments.contains_key(seq_add(accept_seq_num, 0)));
        }
        s
    }

    /// Drops all received segments.
    pub fn clear(&mut self)
        requires
            old(self)@.wf(),
        ensures
            final(self)@ == (RecvView { segments: Map::empty(), ..old(self)@ }),
            final(self)@.wf(),
    {
        self.segments.clear();
        proof {
            assert(self@.segments =~= Map::empty());
        }
    }

    /// Takes the next segment to read, if one is ready.
    pub fn pop(&mut self) -> (r: Option<SeqSegment>)
        requires
            old(self)@.wf(),
        ensures
            final(self)@.wf(),
            old(self)@.complete() ==> final(self)@.complete(),
            old(self)@.pop_queue.len() == 0 ==> r is None && final(self)@ == old(self)@,
            old(self)@.pop_queue.len() > 0 ==> opt_view(r) == Some(old(self)@.pop_queue[0])
                && final(self)@ == (RecvView {
                pop_queue: old(self)@.pop_queue.drop_first(),
                ..old(self)@
            }),
    {
        let ghost old_view = self@;
        let r = self.pop_queue.pop_front();
        proof {
            if old_view.pop_queue.len() > 0 {
                assert(self@.pop_queue =~= old_view.pop_queue.drop_first());
            } else {
                assert(self@.pop_queue =~= old_view.pop_queue);
            }
        }
        r
    }

    /// Decides whether to acknowledge now, and what. Whether half of the
    /// connection timeout has passed since the last acknowledgement depends on
    /// the clock; the result is the one
    /// [`pop_acknowledge_with`](Self::pop_acknowledge_with) gives for one of
    /// the two answers.
    pub fn pop_acknowledge(&mut self) -> (r: Option<SeqNumber>)
        requires
            old(self)@.wf(),
        ensures
            final(self)@.wf(),
            old(self)@.complete() ==> final(self)@.complete(),
            (r, final(self)@) == old(self)@.pop_acknowledge(true) || (r, final(self)@) == old(
                self,
            )@.pop_acknowledge(false),
    {
        let elapsed = match &self.last_ack {
            Some((_, at)) => elapsed_nanos(at),
            None => 0,
        };
        let now = instant_now();
        self.pop_acknowledge_after(elapsed, now)
    }

    /// Decides whether to acknowledge now, and what, given the nanoseconds
    /// passed since the last acknowledgement: it is due again once more than
    /// half of the connection timeout has passed. `now` is recorded as the
    /// time of an acknowledgement.
    pub fn pop_acknowledge_after(&mut self, elapsed_nanos: u128, now: Instant) -> (r: Option<
        SeqNumber,
    >)
        requires
            old(self)@.wf(),
        ensures
            final(self)@.wf(),
            old(self)@.complete() ==> final(self)@.complete(),
            (r, final(self)@) == old(self)@.pop_acknowledge(elapsed_nanos > HALF_TIMEOUT_NANOS),
            final(self).ack_time() == (if old(self)@.last_ack is None || r is Some {
                Some(now)
            } else {
                old(self).ack_time()
            }),
    {
        self.pop_acknowledge_with(elapsed_nanos > HALF_TIMEOUT_NANOS, now)
    }

    /// Decides whether to acknowledge now, and what, given whether half of the
    /// connection timeout has passed since the last acknowledgement. `now` is
    /// recorded as the time of an acknowledgement.
    pub fn pop_acknowledge_with(&mut self, timed_out: bool, now: Instant) -> (r: Option<SeqNumber>)
        requires
            old(self)@.wf(),
        ensures
            final(self)@.wf(),
            old(self)@.complete() ==> final(self)@.complete(),
            (r, final(self)@) == old(self)@.pop_acknowledge(timed_out),
            final(self).ack_time() == (if old(self)@.last_ack is None || r is Some {
                Some(now)
            } else {
                old(self).ack_time()
            }),
    {
        let curr_ack_num = self.window.wrapping_sub(1);
        proof {
            assert(curr_ack_num == seq_add(self.window, -1));
        }
        let ghost old_view = self@;
        match self.last_ack {
            None => {
                self.last_ack = Some((curr_ack_num, now));
                proof {
                    assert(self@.segments =~= old_view.segments);
                    assert(self@.pop_queue =~= old_view.pop_queue);
                    assert(self@.window == old_view.window);
                    assert(self@.lower_bound == old_view.lower_bound);
                    if old_view.complete() {
                        assert forall|j: int|
                            0 <= j < age(self@.window, self@.lower_bound) implies #[trigger] self@.segments.contains_key(
                            seq_add(self@.lower_bound, j),
                        ) by {
                            assert(old_view.segments.contains_key(seq_add(old_view.lower_bound, j)));
                        }
                    }
                }
                if self.window == self.lower_bound {
                    None
                } else {
                    Some(curr_ack_num)
                }
            },
            Some((last_ack_num, _)) => {
                let seq_num_diff = curr_ack_num.wrapping_sub(last_ack_num);
                if self.urgent_ack || timed_out || seq_num_diff > WINDOW_SIZE / 2 {
                    self.urgent_ack = false;
                    self.last_ack = Some((curr_ack_num, now));
                    proof {
                        assert(self@.segments =~= old_view.segments);
                        assert(self@.pop_queue =~= old_view.pop_queue);
                        assert(old_view.complete() ==> self@.complete());
                    }
                    Some(curr_ack_num)
                } else {
                    None
                }
            },
        }
    }

    /// Receives segment `segment` numbered `seq_num`. A number outside of
    /// `[lower_bound; upper_bound)` fails with [`MdswpError::InvalidSeqNum`];
    /// a number that already carries another segment fails with
    /// [`MdswpError::Unreliable`]; a segment received again asks for an
    /// urgent acknowledgement. A new segment is kept, and when it sits at the
    /// window, the window moves over every segment that has arrived.
    pub fn recv(&mut self, seq_num: SeqNumber, segment: SeqSegment) -> (r: Result<(), MdswpError>)
        requires
            old(self)@.wf(),
        ensures
            final(self)@.wf(),
            old(self)@.complete() ==> final(self)@.complete(),
            (r, final(self)@) == old(self)@.recv(seq_num, segment@),
    {
        let ghost old_view = self@;
        let ghost seg = segment@;
        match self.check_valid_seq_num(seq_num) {
            Err(e) => return Err(e),
            Ok(()) => {},
        }
        match self.check_presence_of(seq_num, &segment) {
            Err(e) => return Err(e),
            Ok(true) => {
                self.urgent_ack = true;
                return Ok(());
            },
            Ok(false) => {},
        }
        self.segments.insert(seq_num, segment);
        match self.highest {
            None => self.highest = Some(seq_num),
            Some(old_high) => {
                let diff_highest = seq_num.wrapping_sub(old_high);
                if diff_highest < WINDOW_SIZE {
                    self.highest = Some(seq_num);
                }
            },
        }
        proof {
            assert(self@.segments =~= old_view.segments.insert(seq_num, seg));
            assert(self@.pop_queue =~= old_view.pop_queue);
            let d = age(old_view.window, old_view.lower_bound);
            if d + WINDOW_SIZE < 256 {
                lemma_age_add(old_view.window, old_view.lower_bound, WINDOW_SIZE as int);
            } else {
                assert(age(old_view.upper_bound(), old_view.lower_bound) == d + WINDOW_SIZE - 256);
            }
            assert(age(old_view.upper_bound(), old_view.lower_bound) <= d + WINDOW_SIZE);
            if seq_num == old_view.window {
                assert(d + WINDOW_SIZE < 256);
            }
            if old_view.complete() {
                assert forall|j: int| 0 <= j < d implies #[trigger] self@.segments.contains_key(
                    seq_add(old_view.lower_bound, j),
                ) by {
                    assert(old_view.segments.contains_key(seq_add(old_view.lower_bound, j)));
                }
            }
        }
        if seq_num == self.window {
            self.try_slide_window();
        }
        Ok(())
    }

    fn check_valid_seq_num(&self, seq_num: SeqNumber) -> (r: Result<(), MdswpError>)
        ensures
            r is Ok <==> self@.accepts(seq_num),
            r is Err ==> r == Err::<(), MdswpError>(
                MdswpError::InvalidSeqNum {
                    seq_num,
                    lower_bound: self@.lower_bound,
                    upper_bound: self@.upper_bound(),
                },
            ),
    {
        let upper_bound = self.window.wrapping_add(WINDOW_SIZE);
        let max_offset = upper_bound.wrapping_sub(self.lower_bound);
        let offset = seq_num.wrapping_sub(self.lower_bound);
        if offset < max_offset {
            Ok(())
        } else {
            Err(MdswpError::InvalidSeqNum { seq_num, lower_bound: self.lower_bound, upper_bound })
        }
    }

    fn check_presence_of(&self, seq_num: SeqNumber, segment: &SeqSegment) -> (r: Result<
        bool,
        MdswpError,
    >)
        ensures
            !self@.segments.contains_key(seq_num) ==> r == Ok::<bool, MdswpError>(false),
            self@.segments.contains_key(seq_num) && self@.segments[seq_num] == segment@ ==> r
                == Ok::<bool, MdswpError>(true),
            self@.segments.contains_key(seq_num) && self@.segments[seq_num] != segment@ ==> r
                == Err::<bool, MdswpError>(
                MdswpError::Unreliable {
                    actual: seq_segment_kind(segment@),
                    expected: seq_segment_kind(self@.segments[seq_num]),
                },
            ),
    {
        match self.segments.get(&seq_num) {
            Some(expected) => {
                if segment.same_as(expected) {
                    Ok(true)
                } else {
                    Err(MdswpError::Unreliable { actual: segment.kind(), expected: expected.kind() })
                }
            },
            None => Ok(false),
        }
    }

    #[verifier::rlimit(40)]
    fn try_slide_window(&mut self)
        requires
            old(self)@.wf(),
            age(old(self)@.window, old(self)@.lower_bound) + WINDOW_SIZE < 256,
        ensures
            final(self)@ == old(self)@.slide(),
            final(self)@.wf(),
            old(self)@.complete() ==> final(self)@.complete(),
    {
        let ghost v = self@;
        let ghost m = v.segments;
        let ghost d = age(v.window, v.lower_bound);
        let window = self.window;
        let lower_bound = self.lower_bound;
        proof {
            lemma_u8_keys_ordered();
        }
        // Find the first sequence number from the window on that has not
        // arrived.
        let mut new_window = window;
        let ghost mut j: int = 0;
        proof {
            lemma_seq_add_step(window, 0);
        }
        while self.segments.contains_key(&new_window)
            invariant
                u8_keys_ordered(),
                m == v.segments,
                self@ == v,
                window == v.window,
                lower_bound == v.lower_bound,
                v.wf(),
                d == age(window, lower_bound),
                d + WINDOW_SIZE < 256,
                0 <= j <= WINDOW_SIZE,
                new_window == seq_add(window, j),
                forall|k: int| 0 <= k < j ==> #[trigger] m.contains_key(seq_add(window, k)),
                run_len(m, window, WINDOW_SIZE as nat) == j + run_len(
                    m,
                    new_window,
                    (WINDOW_SIZE - j) as nat,
                ),
            decreases WINDOW_SIZE - j,
        {
            proof {
                lemma_age_add(window, lower_bound, j);
                assert(self.segments@.contains_key(new_window));
                assert(self@.segments.contains_key(new_window));
                assert(m.contains_key(new_window));
                assert(j < WINDOW_SIZE);
                lemma_seq_add_step(window, j);
            }
            new_window = new_window.wrapping_add(1);
            proof {
                j = j + 1;
            }
        }
        let ghost run = j;
        proof {
            assert(run_len(m, window, WINDOW_SIZE as nat) == run);
        }
        // Queue, in order, the segments that the window passes.
        let ghost q0 = v.pop_queue;
        let mut index = window;
        let ghost mut c: int = 0;
        while index != new_window
            invariant
                u8_keys_ordered(),
                m == v.segments,
                q0 == v.pop_queue,
                self@ == (RecvView {
                    pop_queue: q0 + Seq::new(c as nat, |i: int| m[seq_add(window, i)]),
                    ..v
                }),
                window == v.window,
                0 <= c <= run <= WINDOW_SIZE,
                index == seq_add(window, c),
                new_window == seq_add(window, run),
                forall|k: int| 0 <= k < run ==> #[trigger] m.contains_key(seq_add(window, k)),
            decreases run - c,
        {
            proof {
                if c == run {
                    assert(index == new_window);
                }
                assert(c < run);
                assert(m.contains_key(seq_add(window, c)));
                lemma_seq_add_step(window, c);
            }
            let ghost before = self@.pop_queue;
            let copy = match self.segments.get(&index) {
                Some(s) => s.clone(),
                None => {
                    proof {
                        assert(false);
                    }
                    SeqSegment::Finish
                },
            };
            self.pop_queue.push_back(copy);
            proof {
                assert(self@.pop_queue =~= before.push(m[seq_add(window, c)]));
                assert(q0 + Seq::new((c + 1) as nat, |i: int| m[seq_add(window, i)]) =~= (q0
                    + Seq::new(c as nat, |i: int| m[seq_add(window, i)])).push(
                    m[seq_add(window, c)],
                ));
            }
            index = index.wrapping_add(1);
            proof {
                c = c + 1;
            }
        }
        self.window = new_window;
        // Let the lower bound follow the window, dropping what it leaves.
        let min_lower_bound = new_window.wrapping_sub(WINDOW_SIZE);
        let lower_bound_diff = min_lower_bound.wrapping_sub(lower_bound);
        proof {
            lemma_age_add(window, lower_bound, run);
            assert(min_lower_bound == seq_add(new_window, -(WINDOW_SIZE as int)));
        }
        if lower_bound_diff < WINDOW_SIZE {
            let ghost v2 = self@;
            let ghost m1 = self@.segments;
            let mut index = lower_bound;
            let ghost mut c: int = 0;
            proof {
                lemma_seq_add_step(lower_bound, 0);
                assert(m1.remove_keys(Set::new(|k: u8| age(k, lower_bound) < 0)) =~= m1);
            }
            while index != min_lower_bound
                invariant
                    u8_keys_ordered(),
                    m1 == v2.segments,
                    self@ == (RecvView {
                        segments: m1.remove_keys(Set::new(|k: u8| age(k, lower_bound) < c)),
                        ..v2
                    }),
                    0 <= c <= lower_bound_diff < WINDOW_SIZE,
                    index == seq_add(lower_bound, c),
                    min_lower_bound == seq_add(lower_bound, lower_bound_diff as int),
                decreases lower_bound_diff - c,
            {
                proof {
                    if c == lower_bound_diff {
                        assert(index == min_lower_bound);
                    }
                    lemma_seq_add_step(lower_bound, c);
                    lemma_age_add(lower_bound, lower_bound, c);
                }
                let ghost before = self@.segments;
                let _ = self.segments.remove(&index);
                proof {
                    assert(self@.segments =~= before.remove(index));
                    assert(m1.remove_keys(Set::new(|k: u8| age(k, lower_bound) < c + 1)) =~= m1.remove_keys(
                        Set::new(|k: u8| age(k, lower_bound) < c),
                    ).remove(index));
                }
                index = index.wrapping_add(1);
                proof {
                    c = c + 1;
                }
            }
            self.lower_bound = min_lower_bound;
        }
        proof {
            lemma_run(m, window, WINDOW_SIZE as nat);
            let w = v.slide();
            assert(self@.pop_queue =~= w.pop_queue);
            assert(self@.segments =~= w.segments);
            assert(self@.window == w.window);
            assert(self@.lower_bound == w.lower_bound);
            assert(self@ =~= w);
            lemma_slide_wf(v);
            if v.complete() {
                lemma_slide_complete(v);
            }
        }
    }
}

} // verus!
