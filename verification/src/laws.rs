//! Properties of the protocol that span several operations.

use vstd::prelude::*;

use crate::storage::StreamDataView;

use crate::listener::opened_by_local;
use crate::listener::opened_by_peer;
use crate::listener::route;
use crate::listener::RouteView;
use crate::segment::encodable;
use crate::segment::encode;
use crate::segment::lemma_decode_encode;
use crate::segment::SegmentView;
use crate::segment::SeqSegmentView;
use crate::segment::MAX_DATA_LEN;
use crate::stream::inner::carried;
use crate::stream::inner::chunk_rest;
use crate::stream::inner::full_chunks;
use crate::stream::inner::pull;
use crate::stream::inner::ConnView;
use crate::stream::inner::Failure;
use crate::stream::recv::run_len;
use crate::stream::recv::RecvView;
use crate::stream::send::is_acked;
use crate::stream::send::unacked;
use crate::stream::send::lemma_unacked;
use crate::stream::send::SendView;
use crate::util::age;
use crate::util::lemma_age_add;
use crate::util::seq_add;
use crate::util::MdswpError;
use crate::util::HALF_TIMEOUT_NANOS;
use crate::util::WINDOW_SIZE;

verus! {

/// The bytes carried by two sequences of segments one after the other.
pub proof fn lemma_carried_append(a: Seq<SeqSegmentView>, b: Seq<SeqSegmentView>)
    ensures
        carried(a + b) == carried(a) + carried(b),
    decreases b.len(),
{
    if b.len() == 0 {
        assert(a + b =~= a);
        assert(carried(b) =~= Seq::<u8>::empty());
        assert(carried(a) + carried(b) =~= carried(a));
    } else {
        lemma_carried_append(a, b.drop_last());
        assert((a + b).drop_last() =~= a + b.drop_last());
        assert((a + b).last() == b.last());
        assert(carried(a + b) =~= carried(a) + carried(b));
    }
}

/// Cutting bytes into full `DATA` segments and a rest loses and reorders
/// nothing: the segments carry the bytes before the rest, and each carries
/// exactly [`MAX_DATA_LEN`] of them.
pub proof fn lemma_chunks_carry(bytes: Seq<u8>)
    ensures
        carried(full_chunks(bytes)) + chunk_rest(bytes) == bytes,
        chunk_rest(bytes).len() < MAX_DATA_LEN,
        forall|i: int|
            0 <= i < full_chunks(bytes).len() ==> (#[trigger] full_chunks(bytes)[i] matches SeqSegmentView::Data(d)
                && d.len() == MAX_DATA_LEN),
{
    let k = bytes.len() / (MAX_DATA_LEN as nat);
    let c = full_chunks(bytes);
    assert forall|i: int| 0 <= i <= k implies #[trigger] carried(c.take(i)) == bytes.take(
        i * MAX_DATA_LEN,
    ) by {
        lemma_chunks_prefix(bytes, i);
    }
    assert(c.take(k as int) =~= c);
    assert(bytes.take(k * MAX_DATA_LEN) + chunk_rest(bytes) =~= bytes);
}

proof fn lemma_chunks_prefix(bytes: Seq<u8>, i: int)
    requires
        0 <= i <= bytes.len() / (MAX_DATA_LEN as nat),
    ensures
        carried(full_chunks(bytes).take(i)) == bytes.take(i * MAX_DATA_LEN),
    decreases i,
{
    let c = full_chunks(bytes);
    if i == 0 {
        assert(c.take(0) =~= Seq::<SeqSegmentView>::empty());
        assert(bytes.take(0) =~= Seq::<u8>::empty());
    } else {
        lemma_chunks_prefix(bytes, i - 1);
        assert(c.take(i).drop_last() =~= c.take(i - 1));
        assert(bytes.take(i * MAX_DATA_LEN) =~= bytes.take((i - 1) * MAX_DATA_LEN) + bytes.subrange(
            (i - 1) * MAX_DATA_LEN,
            i * MAX_DATA_LEN,
        ));
    }
}

/// Writing loses and reorders no byte: what waits to be sent afterwards is
/// what waited before, followed by the bytes written.
pub proof fn lemma_write_keeps_bytes(c: ConnView, buf: Seq<u8>)
    requires
        c.write(buf).0 is Ok,
    ensures
        c.write(buf).1.unsent_bytes() == c.unsent_bytes() + buf,
{
    let all = c.send_buffer + buf;
    lemma_chunks_carry(all);
    lemma_carried_append(c.send.unsent, full_chunks(all));
    let u = carried(c.send.unsent);
    let f = carried(full_chunks(all));
    let r = chunk_rest(all);
    assert(c.write(buf).1.unsent_bytes() == (u + f) + r);
    assert((u + f) + r =~= u + (f + r));
    assert(c.unsent_bytes() + buf =~= u + all);
}

/// Flushing loses and reorders no byte, and leaves nothing buffered.
pub proof fn lemma_flush_keeps_bytes(c: ConnView)
    requires
        c.flush().0 is Ok,
    ensures
        c.flush().1.unsent_bytes() == c.unsent_bytes(),
        c.flush().1.send_buffer.len() == 0,
{
    if c.send_buffer.len() > 0 {
        let u = c.send.unsent;
        let s = SeqSegmentView::Data(c.send_buffer);
        assert(u.push(s).drop_last() =~= u);
        assert(c.flush().1.unsent_bytes() =~= c.unsent_bytes());
    }
}

/// Taking segments ready to be read keeps every unread byte, in order.
pub proof fn lemma_pull_keeps_bytes(buffer: Seq<u8>, finished: bool, queue: Seq<SeqSegmentView>)
    ensures
        pull(buffer, finished, queue).0 + carried(pull(buffer, finished, queue).2) == buffer
            + carried(queue),
    decreases queue.len(),
{
    if !(buffer.len() == 0 && !finished) || queue.len() == 0 {
    } else {
        let rest = queue.drop_first();
        lemma_carried_append(seq![queue[0]], rest);
        assert(seq![queue[0]] + rest =~= queue);
        assert(seq![queue[0]].drop_last() =~= Seq::<SeqSegmentView>::empty());
        assert(carried(Seq::<SeqSegmentView>::empty()) =~= Seq::<u8>::empty());
        assert(seq![queue[0]].last() == queue[0]);
        match queue[0] {
            SeqSegmentView::Data(d) => {
                lemma_pull_keeps_bytes(buffer + d, finished, rest);
                assert(carried(seq![queue[0]]) =~= d);
                assert(buffer + d + carried(rest) =~= buffer + (d + carried(rest)));
            },
            _ => {
                lemma_pull_keeps_bytes(buffer, finished, rest);
                assert(carried(seq![queue[0]]) =~= Seq::<u8>::empty());
                assert(carried(queue) =~= carried(rest));
            },
        }
    }
}

/// Reading loses and reorders no byte: the bytes read, followed by what is
/// left unread, are what was unread before.
pub proof fn lemma_read_keeps_bytes(c: ConnView, max: nat)
    requires
        c.read_step(max).0 is Ok,
    ensures
        match c.read_step(max).0 {
            Ok(Some(out)) => out + c.read_step(max).1.unread() == c.unread(),
            _ => c.read_step(max).1.unread() == c.unread(),
        },
{
    lemma_pull_keeps_bytes(c.recv_buffer, c.recv_finished, c.recv.pop_queue);
    let (b, f, q) = pull(c.recv_buffer, c.recv_finished, c.recv.pop_queue);
    let n: int = if b.len() < max {
        b.len() as int
    } else {
        max as int
    };
    assert(b.take(n) + b.skip(n) =~= b);
    assert(b.take(n) + (b.skip(n) + carried(q)) =~= b + carried(q));
}

/// Once writing was finished, nothing more can be written, and finishing
/// again makes the connection fail and owe `RESET`.
pub proof fn lemma_no_write_after_finish(c: ConnView, buf: Seq<u8>)
    requires
        c.push_finish().0 is Ok,
    ensures
        c.push_finish().1.write(buf).0 == Err::<usize, MdswpError>(MdswpError::WriteFinished),
        c.push_finish().1.push_finish().0 == Err::<(), Failure>(
            Failure { error: MdswpError::WriteFinished, send_reset: true },
        ),
        c.push_finish().1.push_finish().1.state == Some(MdswpError::WriteFinished),
{
}

/// A connection can be reset once: resetting again reports the local reset.
pub proof fn lemma_reset_once(c: ConnView)
    requires
        c.reset().0 is Ok,
    ensures
        c.reset().1.reset().0 == Err::<(), MdswpError>(MdswpError::ResetLocal),
        c.reset().1.read_start() == Err::<(), MdswpError>(MdswpError::ResetLocal),
{
}

/// A failed connection keeps its first error: failing again changes nothing.
pub proof fn lemma_first_error_kept(c: ConnView, e: MdswpError, send_reset: bool)
    requires
        c.state is Some,
    ensures
        c.failing(e, send_reset) == (None::<bool>, c),
{
}

/// An acknowledgement takes every segment that it acknowledges out of the
/// window: none of them is sent again.
pub proof fn lemma_acked_not_resent(v: SendView, ack: u8)
    requires
        v.acknowledge(ack).0 is Ok,
    ensures
        forall|i: int|
            0 <= i < v.acknowledge(ack).1.sent.len() ==> !is_acked(
                ack,
                #[trigger] v.acknowledge(ack).1.sent[i].0,
            ),
        forall|i: int|
            0 <= i < v.sent.len() && !is_acked(ack, v.sent[i].0) ==> v.acknowledge(
                ack,
            ).1.sent.contains(#[trigger] v.sent[i]),
{
    lemma_unacked(v.sent, ack);
    let s = v.acknowledge(ack).1.sent;
    assert forall|i: int| 0 <= i < s.len() implies !is_acked(ack, #[trigger] s[i].0) by {
        assert(s.contains(s[i]));
    }
    assert forall|i: int| 0 <= i < v.sent.len() && !is_acked(ack, v.sent[i].0) implies s.contains(
        #[trigger] v.sent[i],
    ) by {
        assert(v.sent.contains(v.sent[i]));
    }
}

/// Segments sent for the first time are numbered one after the other: the
/// one handed out carries `next_unsent`, which then moves on by one.
pub proof fn lemma_first_sends_consecutive(v: SendView)
    requires
        v.pop(false).0 is Some,
    ensures
        v.pop(false).0 == Some((v.next_unsent, v.unsent[0])),
        v.pop(false).1.next_unsent == seq_add(v.next_unsent, 1),
        v.pop(false).1.unsent == v.unsent.drop_first(),
{
}

/// No more than `WINDOW_SIZE` segments are ever in flight, and none is sent
/// for the first time while `WINDOW_SIZE` are.
pub proof fn lemma_window_respected(v: SendView, resend_due: bool)
    requires
        v.wf(),
    ensures
        v.pop(resend_due).1.wf(),
        v.sent.len() == WINDOW_SIZE ==> v.pop(resend_due).1.sent.len() == WINDOW_SIZE
            && v.pop(resend_due).1.next_unsent == v.next_unsent,
{
}

/// While the segments in flight are the latest ones, the segment sent last
/// is always among them when any is in flight.
pub proof fn lemma_latest_present(v: SendView)
    requires
        v.sent_are_latest(),
        v.sent.len() > 0,
    ensures
        exists|i: int| 0 <= i < v.sent.len() && age(v.next_unsent, v.sent[i].0) == 1,
{
    crate::stream::send::lemma_latest_in_flight(v);
}

/// Receiving hands segments out in order: the queue of segments to read only
/// grows at its end, by as many segments as the window moves, and these are
/// the segments received under the numbers that the window passed, in order.
pub proof fn lemma_recv_in_order(v: RecvView, seq: u8, seg: SeqSegmentView)
    requires
        v.wf(),
        v.recv(seq, seg).0 is Ok,
    ensures
        ({
            let w = v.recv(seq, seg).1;
            let stored = v.segments.insert(seq, seg);
            let moved = age(w.window, v.window);
            &&& w.pop_queue.len() == v.pop_queue.len() + moved
            &&& w.pop_queue.subrange(0, v.pop_queue.len() as int) == v.pop_queue
            &&& forall|j: int|
                0 <= j < moved ==> w.pop_queue[v.pop_queue.len() + j] == stored[seq_add(
                    v.window,
                    j,
                )]
            &&& forall|j: int| 0 <= j < moved ==> #[trigger] stored.contains_key(seq_add(v.window, j))
        }),
{
    let w = v.recv(seq, seg).1;
    if v.segments.contains_key(seq) {
        assert(w.pop_queue.subrange(0, v.pop_queue.len() as int) =~= v.pop_queue);
    } else {
        let stored = RecvView {
            segments: v.segments.insert(seq, seg),
            highest: crate::stream::recv::new_highest(v.highest, seq),
            ..v
        };
        if seq == v.window {
            let m = stored.segments;
            crate::stream::recv::lemma_run(m, v.window, WINDOW_SIZE as nat);
            let run = run_len(m, v.window, WINDOW_SIZE as nat);
            lemma_age_add(v.window, v.window, run as int);
            assert(w.pop_queue.subrange(0, v.pop_queue.len() as int) =~= v.pop_queue);
        } else {
            assert(w.pop_queue.subrange(0, v.pop_queue.len() as int) =~= v.pop_queue);
        }
    }
}

/// Receiving, one after the other, each segment of `segs` under the number at
/// which the window stands: whether every one was accepted, and the state
/// afterwards.
pub open spec fn recv_in_sequence(v: RecvView, segs: Seq<SeqSegmentView>) -> (bool, RecvView)
    decreases segs.len(),
{
    if segs.len() == 0 {
        (true, v)
    } else {
        let (r, w) = v.recv(v.window, segs[0]);
        if r is Ok {
            recv_in_sequence(w, segs.drop_first())
        } else {
            (false, w)
        }
    }
}

/// Nothing ahead of the window has arrived.
pub open spec fn nothing_ahead(v: RecvView) -> bool {
    forall|k: u8| #[trigger]
        v.segments.contains_key(k) ==> age(k, v.lower_bound) < age(v.window, v.lower_bound)
}

/// Segments that arrive in the order in which they are numbered, from a
/// window at most `WINDOW_SIZE` above the lower bound, are all accepted and
/// handed out for reading in that order, each once.
pub proof fn lemma_in_order_delivery(v: RecvView, segs: Seq<SeqSegmentView>)
    requires
        v.wf(),
        v.near(),
        nothing_ahead(v),
    ensures
        recv_in_sequence(v, segs).0,
        recv_in_sequence(v, segs).1.pop_queue == v.pop_queue + segs,
        recv_in_sequence(v, segs).1.window == seq_add(v.window, segs.len() as int),
        recv_in_sequence(v, segs).1.wf(),
        recv_in_sequence(v, segs).1.near(),
        nothing_ahead(recv_in_sequence(v, segs).1),
    decreases segs.len(),
{
    if segs.len() == 0 {
        assert(v.pop_queue + segs =~= v.pop_queue);
        assert(seq_add(v.window, 0) == v.window);
    } else {
        let s = segs[0];
        let lb = v.lower_bound;
        let d = age(v.window, lb);
        lemma_age_add(v.window, lb, WINDOW_SIZE as int);
        assert(v.accepts(v.window));
        assert(!v.segments.contains_key(v.window));
        let stored = RecvView {
            segments: v.segments.insert(v.window, s),
            highest: crate::stream::recv::new_highest(v.highest, v.window),
            ..v
        };
        let m = stored.segments;
        lemma_age_add(v.window, lb, 1);
        let w1 = seq_add(v.window, 1);
        assert(!m.contains_key(w1));
        assert(run_len(m, v.window, WINDOW_SIZE as nat) == 1) by {
            assert(v.window.wrapping_add(1) == w1);
            assert(run_len(m, w1, (WINDOW_SIZE - 1) as nat) == 0);
        }
        let w = stored.slide();
        assert(v.recv(v.window, s) == (Ok::<(), MdswpError>(()), w));
        assert(w.pop_queue =~= v.pop_queue.push(s));
        assert(w.window == w1);
        crate::stream::recv::lemma_slide_wf_pub(stored);
        crate::stream::recv::lemma_slide_lower_bound(stored);
        assert(w.near());
        assert(nothing_ahead(w)) by {
            crate::stream::recv::lemma_slide_behind(stored);
        }
        lemma_in_order_delivery(w, segs.drop_first());
        assert(v.pop_queue + segs =~= v.pop_queue.push(s) + segs.drop_first());
        assert(seq_add(w1, (segs.len() - 1) as int) == seq_add(v.window, segs.len() as int));
    }
}

/// Taking `k` segments to send, one after the other, when none is due to be
/// sent again: the segments handed out, with their numbers, and the state
/// afterwards.
pub open spec fn send_fresh(v: SendView, k: nat) -> (Seq<(u8, SeqSegmentView)>, SendView)
    decreases k,
{
    if k == 0 {
        (Seq::empty(), v)
    } else {
        let (out, w) = send_fresh(v, (k - 1) as nat);
        let (p, w2) = w.pop(false);
        match p {
            Some(x) => (out.push(x), w2),
            None => (out, w2),
        }
    }
}

/// Receiving numbered segments one after the other, each under its own
/// number: whether every one was accepted, and the state afterwards.
pub open spec fn recv_numbered(r: RecvView, segs: Seq<(u8, SeqSegmentView)>) -> (bool, RecvView)
    decreases segs.len(),
{
    if segs.len() == 0 {
        (true, r)
    } else {
        let (res, w) = r.recv(segs[0].0, segs[0].1);
        if res is Ok {
            recv_numbered(w, segs.drop_first())
        } else {
            (false, w)
        }
    }
}

/// The first `k` segments waiting go out numbered one after the other from
/// `next_unsent` on.
proof fn lemma_send_fresh(v: SendView, k: nat)
    requires
        v.sent.len() == 0,
        k <= v.unsent.len(),
        k <= WINDOW_SIZE,
    ensures
        send_fresh(v, k).0.len() == k,
        forall|i: int|
            0 <= i < k ==> #[trigger] send_fresh(v, k).0[i] == (
                seq_add(v.next_unsent, i),
                v.unsent[i],
            ),
        send_fresh(v, k).1.sent.len() == k,
        send_fresh(v, k).1.unsent == v.unsent.skip(k as int),
        send_fresh(v, k).1.next_unsent == seq_add(v.next_unsent, k as int),
    decreases k,
{
    if k == 0 {
        assert(v.unsent.skip(0) =~= v.unsent);
        assert(seq_add(v.next_unsent, 0) == v.next_unsent);
    } else {
        lemma_send_fresh(v, (k - 1) as nat);
        let (out, w) = send_fresh(v, (k - 1) as nat);
        assert(w.unsent.len() > 0);
        assert(w.unsent[0] == v.unsent[k - 1]);
        assert(w.unsent.drop_first() =~= v.unsent.skip(k as int));
        assert(w.next_unsent.wrapping_add(1) == seq_add(v.next_unsent, k as int));
        let out2 = send_fresh(v, k).0;
        assert(out2 == out.push((w.next_unsent, w.unsent[0])));
        assert forall|i: int| 0 <= i < k implies #[trigger] out2[i] == (
            seq_add(v.next_unsent, i),
            v.unsent[i],
        ) by {
            if i < k - 1 {
                assert(out2[i] == out[i]);
            }
        }
    }
}

/// Receiving segments numbered one after the other from the window on, each
/// under its own number, is receiving each at the window.
#[verifier::rlimit(60)]
#[verifier::spinoff_prover]
proof fn lemma_numbered_at_window(r: RecvView, segs: Seq<(u8, SeqSegmentView)>)
    requires
        r.wf(),
        r.near(),
        nothing_ahead(r),
        forall|i: int| 0 <= i < segs.len() ==> #[trigger] segs[i].0 == seq_add(r.window, i),
    ensures
        recv_numbered(r, segs) == recv_in_sequence(r, segs.map_values(|p: (u8, SeqSegmentView)| p.1)),
    decreases segs.len(),
{
    let plain = segs.map_values(|p: (u8, SeqSegmentView)| p.1);
    if segs.len() > 0 {
        assert(segs[0].0 == seq_add(r.window, 0));
        assert(seq_add(r.window, 0) == r.window);
        let (res, w) = r.recv(r.window, plain[0]);
        lemma_in_order_delivery(r, seq![plain[0]]);
        assert(seq![plain[0]].drop_first() =~= Seq::<SeqSegmentView>::empty());
        assert(recv_in_sequence(w, Seq::<SeqSegmentView>::empty()) == (true, w));
        assert(res is Ok);
        assert(recv_in_sequence(r, seq![plain[0]]).1 == w);
        assert(w.wf() && w.near() && nothing_ahead(w));
        assert(w.window == seq_add(r.window, 1));
        let rest = segs.drop_first();
        assert forall|i: int| 0 <= i < rest.len() implies #[trigger] rest[i].0 == seq_add(
            w.window,
            i,
        ) by {
            assert(rest[i] == segs[i + 1]);
        }
        lemma_numbered_at_window(w, rest);
        assert(rest.map_values(|p: (u8, SeqSegmentView)| p.1) =~= plain.drop_first());
    }
}

/// What one side sends is read by the other in the order in which it was
/// written: when the receiving window stands at the sender's next number and
/// at most `WINDOW_SIZE` above its lower bound (as after the handshake) and
/// nothing is in flight, the first `k` segments
/// waiting (no more than the window holds) go out numbered one after the
/// other, are all accepted under their numbers, and are handed out for
/// reading in order, carrying their bytes in order.
pub proof fn lemma_sent_is_read_in_order(v: SendView, r: RecvView, k: nat)
    requires
        v.sent.len() == 0,
        k <= v.unsent.len(),
        k <= WINDOW_SIZE,
        r.wf(),
        r.near(),
        nothing_ahead(r),
        r.window == v.next_unsent,
    ensures
        send_fresh(v, k).0.len() == k,
        recv_numbered(r, send_fresh(v, k).0).0,
        recv_numbered(r, send_fresh(v, k).0).1.pop_queue == r.pop_queue + v.unsent.take(k as int),
        carried(recv_numbered(r, send_fresh(v, k).0).1.pop_queue) == carried(r.pop_queue) + carried(
            v.unsent.take(k as int),
        ),
{
    lemma_send_fresh(v, k);
    let out = send_fresh(v, k).0;
    lemma_numbered_at_window(r, out);
    let plain = out.map_values(|p: (u8, SeqSegmentView)| p.1);
    assert(plain =~= v.unsent.take(k as int));
    lemma_in_order_delivery(r, plain);
    lemma_carried_append(r.pop_queue, plain);
}

/// A segment received again is not handed out again: it only asks for an
/// urgent acknowledgement.
pub proof fn lemma_duplicate_ignored(v: RecvView, seq: u8)
    requires
        v.accepts(seq),
        v.segments.contains_key(seq),
    ensures
        v.recv(seq, v.segments[seq]) == (Ok::<(), MdswpError>(()), RecvView { urgent_ack: true, ..v }),
{
}

/// The two ends of a handshake expect each other's numbers: the establishing
/// side sends from the number that the accepting side waits for, and the
/// accepting side's first segment, `ACCEPT`, counts as received already at
/// the establishing side, so that receiving it again only asks for an
/// acknowledgement.
pub proof fn lemma_handshake_agrees(establish_seq_num: u8, accept_seq_num: u8)
    ensures
        opened_by_local(establish_seq_num, accept_seq_num).send.next_unsent == opened_by_peer(
            establish_seq_num,
            accept_seq_num,
        ).recv.window,
        opened_by_peer(establish_seq_num, accept_seq_num).send.next_unsent == accept_seq_num,
        opened_by_peer(establish_seq_num, accept_seq_num).send.unsent == seq![
            SeqSegmentView::Accept,
        ],
        opened_by_local(establish_seq_num, accept_seq_num).recv.recv(
            accept_seq_num,
            SeqSegmentView::Accept,
        ) == (Ok::<(), MdswpError>(()), RecvView {
            urgent_ack: true,
            ..opened_by_local(establish_seq_num, accept_seq_num).recv
        }),
{
    let r = opened_by_local(establish_seq_num, accept_seq_num).recv;
    lemma_age_add(r.window, r.lower_bound, WINDOW_SIZE as int);
}

/// A stream shut down by an error stays shut down: no datagram from the peer
/// opens it again.
pub proof fn lemma_shut_down_stays(v: StreamDataView, data: Seq<u8>)
    requires
        v.error is Some,
    ensures
        v.receive(data).error is Some,
{
}

/// Writing is reported finished only after `FINISH` was queued: only a
/// successful finish closes writing, no other operation opens or closes it,
/// only completing the finish (which needs closed writing) marks writing
/// finished, and only closed writing can count as finished.
pub proof fn lemma_write_finished_needs_finish(
    c: ConnView,
    buf: Seq<u8>,
    max: nat,
    seg: SegmentView,
    e: MdswpError,
    send_reset: bool,
)
    requires
        c.wf(),
    ensures
        c.send_finished ==> c.write_closed,
        c.push_finish().1.write_closed == (c.write_closed || c.push_finish().0 is Ok),
        c.push_finish().1.send_finished == c.send_finished,
        c.write(buf).1.write_closed == c.write_closed,
        c.write(buf).1.send_finished == c.send_finished,
        c.flush().1.write_closed == c.write_closed,
        c.flush().1.send_finished == c.send_finished,
        c.reset().1.write_closed == c.write_closed,
        c.reset().1.send_finished == c.send_finished,
        c.read_step(max).1.write_closed == c.write_closed,
        c.read_step(max).1.send_finished == c.send_finished,
        c.recv_segment(seg).1.write_closed == c.write_closed,
        c.recv_segment(seg).1.send_finished == c.send_finished,
        c.failing(e, send_reset).1.write_closed == c.write_closed,
        c.failing(e, send_reset).1.send_finished == c.send_finished,
        c.try_complete_finish().1.write_closed == c.write_closed,
        c.try_complete_finish().1.send_finished == (c.send_finished || c.send.is_empty()),
{
}

/// A failed connection keeps its first error through every later operation,
/// and every operation that reports an outcome reports that error.
pub proof fn lemma_error_kept(
    c: ConnView,
    e: MdswpError,
    buf: Seq<u8>,
    max: nat,
    seg: SegmentView,
    e2: MdswpError,
    send_reset: bool,
)
    requires
        c.state == Some(e),
    ensures
        c.write(buf) == (Err::<usize, MdswpError>(e), c),
        c.flush() == (Err::<(), MdswpError>(e), c),
        c.reset() == (Err::<(), MdswpError>(e), c),
        c.read_start() == Err::<(), MdswpError>(e),
        c.read_step(max) == (Err::<Option<Seq<u8>>, MdswpError>(e), c),
        c.push_finish() == (Err::<(), Failure>(Failure { error: e, send_reset: false }), c),
        c.failing(e2, send_reset) == (None::<bool>, c),
        c.recv_segment(seg).1.state == Some(e),
        c.try_complete_finish().1.state == Some(e),
{
}

/// One operation on a connection, as the stream performs them.
pub enum ConnOp {
    Write(Seq<u8>),
    Flush,
    PushFinish,
    /// Completing a finish, which is only done once writing is closed.
    CompleteFinish,
    Reset,
    ReadStep(nat),
    Receive(SegmentView),
    Fail(MdswpError, bool),
    PollAcknowledge(bool),
    PollSegment(bool),
}

/// The connection after one operation.
pub open spec fn apply(c: ConnView, op: ConnOp) -> ConnView {
    match op {
        ConnOp::Write(buf) => c.write(buf).1,
        ConnOp::Flush => c.flush().1,
        ConnOp::PushFinish => c.push_finish().1,
        ConnOp::CompleteFinish => if c.write_closed {
            c.try_complete_finish().1
        } else {
            c
        },
        ConnOp::Reset => c.reset().1,
        ConnOp::ReadStep(max) => c.read_step(max).1,
        ConnOp::Receive(seg) => c.recv_segment(seg).1,
        ConnOp::Fail(e, send_reset) => c.failing(e, send_reset).1,
        ConnOp::PollAcknowledge(timed_out) => ConnView {
            recv: c.recv.pop_acknowledge(timed_out).1,
            ..c
        },
        ConnOp::PollSegment(resend_due) => ConnView { send: c.send.pop(resend_due).1, ..c },
    }
}

/// The connection after a sequence of operations.
pub open spec fn run(c: ConnView, ops: Seq<ConnOp>) -> ConnView
    decreases ops.len(),
{
    if ops.len() == 0 {
        c
    } else {
        apply(run(c, ops.drop_last()), ops.last())
    }
}

/// Whether one of the operations was a finish that succeeded.
pub open spec fn finish_succeeded(c: ConnView, ops: Seq<ConnOp>) -> bool {
    exists|i: int|
        0 <= i < ops.len() && ops[i] == ConnOp::PushFinish && (#[trigger] run(
            c,
            ops.take(i),
        )).push_finish().0 is Ok
}

/// Over any history of a connection whose writing was open, writing is
/// closed, and reported finished, only if some finish succeeded on the way.
pub proof fn lemma_finished_only_after_a_finish(c: ConnView, ops: Seq<ConnOp>)
    requires
        !c.write_closed,
        !c.send_finished,
    ensures
        run(c, ops).send_finished ==> run(c, ops).write_closed,
        run(c, ops).write_closed ==> finish_succeeded(c, ops),
        run(c, ops).send_finished ==> finish_succeeded(c, ops),
    decreases ops.len(),
{
    if ops.len() > 0 {
        let rest = ops.drop_last();
        lemma_finished_only_after_a_finish(c, rest);
        let prev = run(c, rest);
        let i = (ops.len() - 1) as int;
        assert(ops.take(i) =~= rest);
        if finish_succeeded(c, rest) {
            let j = choose|j: int|
                0 <= j < rest.len() && rest[j] == ConnOp::PushFinish && (#[trigger] run(
                    c,
                    rest.take(j),
                )).push_finish().0 is Ok;
            assert(rest.take(j) =~= ops.take(j));
            assert(ops[j] == rest[j]);
            assert(run(c, ops.take(j)).push_finish().0 is Ok);
        }
        if run(c, ops).write_closed && !prev.write_closed {
            assert(ops.last() == ConnOp::PushFinish);
            assert(run(c, ops.take(i)).push_finish().0 is Ok);
        }
    }
}

/// Over any history of a failed connection, it keeps its first error.
pub proof fn lemma_error_kept_forever(c: ConnView, e: MdswpError, ops: Seq<ConnOp>)
    requires
        c.state == Some(e),
    ensures
        run(c, ops).state == Some(e),
    decreases ops.len(),
{
    if ops.len() > 0 {
        lemma_error_kept_forever(c, e, ops.drop_last());
    }
}

/// An unacknowledged segment is sent again exactly when its time has come:
/// with segments in flight, taking the next segment after `elapsed_nanos`
/// nanoseconds since the first of them was sent hands that very segment out
/// again once more than half of the connection timeout has passed, and before
/// that leaves the segments in flight where they are.
pub proof fn lemma_resend_after_half_timeout(v: SendView, elapsed_nanos: u128)
    requires
        v.sent.len() > 0,
    ensures
        elapsed_nanos > HALF_TIMEOUT_NANOS ==> v.pop(elapsed_nanos > HALF_TIMEOUT_NANOS).0 == Some(
            v.sent[0],
        ),
        elapsed_nanos <= HALF_TIMEOUT_NANOS ==> v.pop(elapsed_nanos > HALF_TIMEOUT_NANOS).1.sent.take(
            v.sent.len() as int,
        ) == v.sent,
{
}

/// Sending again hands out the segment in flight longest, and moves it behind
/// the others, which keep their order: the segments in flight are the same,
/// rotated by one.
pub proof fn lemma_resend_rotates(v: SendView)
    requires
        v.sent.len() > 0,
    ensures
        v.pop(true).0 == Some(v.sent[0]),
        v.pop(true).1.sent.len() == v.sent.len(),
        v.pop(true).1.sent.last() == v.sent[0],
        forall|i: int| 0 <= i < v.sent.len() - 1 ==> #[trigger] v.pop(true).1.sent[i] == v.sent[i + 1],
        v.pop(true).1.unsent == v.unsent,
        v.pop(true).1.next_unsent == v.next_unsent,
{
}

/// A sequence holding no acknowledged entry loses nothing to an
/// acknowledgement.
proof fn lemma_unacked_none(t: Seq<(u8, SeqSegmentView)>, ack: u8)
    requires
        forall|i: int| 0 <= i < t.len() ==> !is_acked(ack, #[trigger] t[i].0),
    ensures
        unacked(t, ack) == t,
    decreases t.len(),
{
    if t.len() > 0 {
        lemma_unacked_none(t.drop_last(), ack);
        assert(t.drop_last().push(t.last()) =~= t);
    }
}

/// An acknowledgement is accepted exactly when it names one of the
/// `WINDOW_SIZE` numbers that end just before the next number to be used,
/// whatever is in flight, and repeating an accepted acknowledgement is
/// accepted again and changes nothing.
pub proof fn lemma_acknowledge_accepted_and_repeatable(v: SendView, ack: u8)
    ensures
        v.acknowledge(ack).0 is Ok <==> age(v.next_unsent, ack) < WINDOW_SIZE,
        v.acknowledge(ack).0 is Err ==> v.acknowledge(ack).1 == v,
        v.acknowledge(ack).0 is Ok ==> v.acknowledge(ack).1.acknowledge(ack) == (
            Ok::<(), MdswpError>(()),
            v.acknowledge(ack).1,
        ),
        v.acknowledge(ack).0 is Ok ==> forall|i: int|
            0 <= i < v.acknowledge(ack).1.sent.len() ==> !is_acked(
                ack,
                #[trigger] v.acknowledge(ack).1.sent[i].0,
            ),
        v.acknowledge(ack).1.unsent == v.unsent,
        v.acknowledge(ack).1.next_unsent == v.next_unsent,
{
    lemma_unacked(v.sent, ack);
    let w = v.acknowledge(ack).1;
    if v.acknowledge(ack).0 is Ok {
        let t = unacked(v.sent, ack);
        assert forall|i: int| 0 <= i < t.len() implies !is_acked(ack, #[trigger] t[i].0) by {
            assert(t.contains(t[i]));
        }
        lemma_unacked_none(t, ack);
        assert(w.acknowledge(ack).1 =~= w);
    }
}

/// Acknowledgements keep up: the number acknowledged is always the one just
/// below the window, and it is acknowledged at once the first time anything
/// arrived, after a duplicate, once `timed_out`, or once it lies more than
/// half a window above the last acknowledgement, whatever else holds.
pub proof fn lemma_acknowledgement_progress(v: RecvView, timed_out: bool)
    ensures
        v.pop_acknowledge(timed_out).0 is Some ==> v.pop_acknowledge(timed_out).0 == Some(
            seq_add(v.window, -1),
        ),
        v.last_ack is None && v.window != v.lower_bound ==> v.pop_acknowledge(timed_out).0
            == Some(seq_add(v.window, -1)),
        v.last_ack is Some && (v.urgent_ack || timed_out || age(
            seq_add(v.window, -1),
            v.last_ack->0,
        ) > WINDOW_SIZE / 2) ==> v.pop_acknowledge(timed_out).0 == Some(seq_add(v.window, -1)),
        v.pop_acknowledge(timed_out).0 is Some ==> v.pop_acknowledge(timed_out).1.last_ack
            == v.pop_acknowledge(timed_out).0,
        v.pop_acknowledge(timed_out).1.segments == v.segments,
        v.pop_acknowledge(timed_out).1.window == v.window,
        v.pop_acknowledge(timed_out).1.pop_queue == v.pop_queue,
{
}

/// A datagram from a peer that has a connection goes to that connection as
/// the segment it encodes, whatever segment that is (`RESET` included); from
/// a peer without one, `ESTABLISH` opens a connection and every other segment
/// is answered with `RESET`.
pub proof fn lemma_route_follows_decoding(s: SegmentView)
    requires
        encodable(s),
    ensures
        route(encode(s), true) == RouteView::Deliver(s),
        s is Establish ==> route(encode(s), false) == RouteView::Open(s->Establish_0),
        !(s is Establish) ==> route(encode(s), false) == RouteView::Reject,
{
    lemma_decode_encode(s);
}

} // verus!
