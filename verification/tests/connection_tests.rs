use mdswp::listener::after_address;
use mdswp::listener::after_attempt;
use mdswp::listener::handshake_reply;
use mdswp::listener::AttemptStep;
use mdswp::listener::CONNECT_ATTEMPTS;
use mdswp::listener::open_by_peer;
use mdswp::listener::ESTABLISH_SEQ_NUM;
use mdswp::segment::DataSegment;
use mdswp::segment::Segment;
use mdswp::segment::SeqSegment;
use mdswp::stream::inner::Connection;
use mdswp::util::MdswpError;

/// Opens a connection between a client and a server the way the handshake
/// does it: the server answers `ESTABLISH` with `ACCEPT`, and the client
/// acknowledges it.
fn connect() -> (Connection, Connection, u8) {
    let (mut server, accept) = open_by_peer(ESTABLISH_SEQ_NUM);
    let (seq_num, variant) = server.poll_segment().expect("ACCEPT is sent first");
    assert_eq!(seq_num, accept);
    assert!(matches!(variant, SeqSegment::Accept));
    let mut client = match handshake_reply(ESTABLISH_SEQ_NUM, Segment::Sequential { seq_num, variant }) {
        Ok(c) => c,
        Err(_) => panic!("ACCEPT refused"),
    };
    let ack = client.poll_acknowledge().expect("ACCEPT is acknowledged");
    assert_eq!(ack, accept);
    assert_eq!(server.recv_segment(Segment::Acknowledge { seq_num: ack }), None);
    assert!(server.is_send_empty());
    (client, server, accept)
}

/// Hands every sequential segment that `from` has to send to `to`, and
/// returns their sequence numbers.
fn deliver(from: &mut Connection, to: &mut Connection) -> Vec<u8> {
    let mut nums = Vec::new();
    while let Some((seq_num, variant)) = from.poll_segment() {
        nums.push(seq_num);
        assert_eq!(to.recv_segment(Segment::Sequential { seq_num, variant }), None);
    }
    nums
}

/// Hands the acknowledgement that `from` owes to `to`.
fn acknowledge(from: &mut Connection, to: &mut Connection) -> Option<u8> {
    let ack = from.poll_acknowledge();
    if let Some(seq_num) = ack {
        assert_eq!(to.recv_segment(Segment::Acknowledge { seq_num }), None);
    }
    ack
}

/// Reads everything that is ready.
fn read_all(conn: &mut Connection) -> Vec<u8> {
    let mut out = Vec::new();
    while let Ok(Some(chunk)) = conn.read_step(64) {
        if chunk.is_empty() {
            break;
        }
        out.extend_from_slice(&chunk);
    }
    out
}

#[test]
fn handshake_opens_both_sides() {
    let (client, server, _) = connect();
    assert_eq!(client.stream_state(), Ok(()));
    assert_eq!(server.stream_state(), Ok(()));
    assert_eq!(client.is_write_finished(), Ok(false));
    assert_eq!(server.is_read_finished(), Ok(false));
}

#[test]
fn handshake_reset_is_refusal() {
    match handshake_reply(ESTABLISH_SEQ_NUM, Segment::Reset) {
        Err(f) => {
            assert_eq!(f.error, MdswpError::ResetByPeer);
            assert!(!f.send_reset);
        }
        Ok(_) => panic!("RESET opened a connection"),
    }
}

#[test]
fn handshake_other_segment_is_answered_with_reset() {
    match handshake_reply(ESTABLISH_SEQ_NUM, Segment::Acknowledge { seq_num: 3 }) {
        Err(f) => {
            assert!(matches!(f.error, MdswpError::UnexpectedSegment { .. }));
            assert!(f.send_reset);
        }
        Ok(_) => panic!("ACKNOWLEDGE opened a connection"),
    }
}

#[test]
fn bytes_written_are_read_in_order() {
    let (mut client, mut server, _) = connect();
    assert_eq!(client.write(b"hello "), Ok(6));
    assert_eq!(client.write(b"world"), Ok(5));
    assert_eq!(client.flush(), Ok(()));
    let nums = deliver(&mut client, &mut server);
    assert_eq!(nums, vec![ESTABLISH_SEQ_NUM + 1]);
    assert_eq!(server.read_start(), Ok(()));
    assert_eq!(read_all(&mut server), b"hello world".to_vec());
}

#[test]
fn long_write_is_cut_into_full_segments() {
    let (mut client, mut server, _) = connect();
    let data: Vec<u8> = (0..1100u32).map(|i| (i % 251) as u8).collect();
    assert_eq!(client.write(&data), Ok(1100));
    // Two full segments of 510 bytes are queued; 80 bytes wait in the buffer.
    let nums = deliver(&mut client, &mut server);
    assert_eq!(nums.len(), 2);
    assert_eq!(client.flush(), Ok(()));
    let nums = deliver(&mut client, &mut server);
    assert_eq!(nums.len(), 1);
    assert_eq!(read_all(&mut server), data);
}

#[test]
fn flush_with_empty_buffer_sends_nothing() {
    let (mut client, mut server, _) = connect();
    assert_eq!(client.flush(), Ok(()));
    assert!(deliver(&mut client, &mut server).is_empty());
}

#[test]
fn acknowledged_segments_are_not_sent_again() {
    let (mut client, mut server, _) = connect();
    client.write(b"abc").unwrap();
    client.flush().unwrap();
    deliver(&mut client, &mut server);
    assert!(!client.is_send_empty());
    assert_eq!(acknowledge(&mut server, &mut client), Some(ESTABLISH_SEQ_NUM + 1));
    assert!(client.is_send_empty());
    assert!(client.poll_segment().is_none());
}

#[test]
fn window_limits_segments_in_flight() {
    let (mut client, mut server, _) = connect();
    for _ in 0..12 {
        client.write(b"x").unwrap();
        client.flush().unwrap();
    }
    let nums = deliver(&mut client, &mut server);
    assert_eq!(nums.len(), 10);
    acknowledge(&mut server, &mut client);
    let nums = deliver(&mut client, &mut server);
    assert_eq!(nums.len(), 2);
    assert_eq!(read_all(&mut server), vec![b'x'; 12]);
}

#[test]
fn segments_out_of_order_are_read_in_order() {
    let (_, mut server, _) = connect();
    let first = ESTABLISH_SEQ_NUM + 1;
    let data = |b: &[u8]| SeqSegment::Data { data: DataSegment::try_from(b).unwrap() };
    assert_eq!(server.recv_segment(Segment::Sequential { seq_num: first + 2, variant: data(b"3") }), None);
    assert_eq!(server.recv_segment(Segment::Sequential { seq_num: first + 1, variant: data(b"2") }), None);
    assert_eq!(read_all(&mut server), Vec::<u8>::new());
    assert_eq!(server.recv_segment(Segment::Sequential { seq_num: first, variant: data(b"1") }), None);
    assert_eq!(read_all(&mut server), b"123".to_vec());
}

#[test]
fn duplicate_segment_is_read_once() {
    let (_, mut server, _) = connect();
    let first = ESTABLISH_SEQ_NUM + 1;
    let data = || SeqSegment::Data { data: DataSegment::try_from(b"dup").unwrap() };
    assert_eq!(server.recv_segment(Segment::Sequential { seq_num: first, variant: data() }), None);
    assert_eq!(server.recv_segment(Segment::Sequential { seq_num: first, variant: data() }), None);
    assert_eq!(read_all(&mut server), b"dup".to_vec());
    assert_eq!(server.stream_state(), Ok(()));
}

#[test]
fn different_segment_under_same_number_is_unreliable() {
    let (_, mut server, _) = connect();
    let first = ESTABLISH_SEQ_NUM + 1;
    let data = SeqSegment::Data { data: DataSegment::try_from(b"one").unwrap() };
    assert_eq!(server.recv_segment(Segment::Sequential { seq_num: first + 1, variant: data }), None);
    assert_eq!(
        server.recv_segment(Segment::Sequential { seq_num: first + 1, variant: SeqSegment::Finish }),
        Some(true)
    );
    assert!(matches!(server.stream_state(), Err(MdswpError::Unreliable { .. })));
}

#[test]
fn number_outside_window_fails_connection() {
    let (_, mut server, _) = connect();
    let far = ESTABLISH_SEQ_NUM + 50;
    assert_eq!(
        server.recv_segment(Segment::Sequential { seq_num: far, variant: SeqSegment::Finish }),
        Some(true)
    );
    assert_eq!(
        server.stream_state(),
        Err(MdswpError::InvalidSeqNum {
            seq_num: far,
            lower_bound: ESTABLISH_SEQ_NUM + 1,
            upper_bound: ESTABLISH_SEQ_NUM + 11,
        })
    );
}

#[test]
fn invalid_acknowledgement_fails_connection() {
    let (mut client, _, _) = connect();
    assert_eq!(client.recv_segment(Segment::Acknowledge { seq_num: 10 }), Some(true));
    assert_eq!(client.stream_state(), Err(MdswpError::InvalidAckNum { ack_num: 10 }));
}

#[test]
fn establish_in_middle_fails_connection() {
    let (mut client, _, _) = connect();
    assert_eq!(client.recv_segment(Segment::Establish { start_seq_num: 1 }), Some(true));
    assert_eq!(client.stream_state(), Err(MdswpError::UnexpectedEstablish));
}

#[test]
fn reset_by_peer_owes_no_reset() {
    let (mut client, _, _) = connect();
    assert_eq!(client.recv_segment(Segment::Reset), Some(false));
    assert_eq!(client.stream_state(), Err(MdswpError::ResetByPeer));
    assert!(client.is_err());
}

#[test]
fn first_error_is_kept() {
    let (mut client, _, _) = connect();
    assert_eq!(client.fail(MdswpError::TimedOut, false), Some(false));
    assert_eq!(client.fail(MdswpError::ResetByPeer, true), None);
    assert_eq!(client.stream_state(), Err(MdswpError::TimedOut));
    assert_eq!(client.write(b"late"), Err(MdswpError::TimedOut));
    assert_eq!(client.read_start(), Err(MdswpError::TimedOut));
}

#[test]
fn reset_happens_once() {
    let (mut client, _, _) = connect();
    assert_eq!(client.reset(), Ok(()));
    assert_eq!(client.stream_state(), Err(MdswpError::ResetLocal));
    assert_eq!(client.reset(), Err(MdswpError::ResetLocal));
}

#[test]
fn nothing_is_written_after_finish() {
    let (mut client, mut server, _) = connect();
    client.write(b"last").unwrap();
    client.flush().unwrap();
    assert!(client.push_finish().is_ok());
    assert_eq!(client.write(b"more"), Err(MdswpError::WriteFinished));
    match client.push_finish() {
        Err(f) => {
            assert_eq!(f.error, MdswpError::WriteFinished);
            assert!(f.send_reset);
        }
        Ok(()) => panic!("FINISH queued twice"),
    }
    let _ = &mut server;
}

#[test]
fn finish_completes_once_acknowledged() {
    let (mut client, mut server, _) = connect();
    assert!(client.push_finish().is_ok());
    assert!(!client.try_complete_finish());
    deliver(&mut client, &mut server);
    acknowledge(&mut server, &mut client);
    assert!(client.try_complete_finish());
    assert_eq!(client.is_write_finished(), Ok(true));
}

#[test]
fn reading_after_peer_finished_is_end_of_file() {
    let (mut client, mut server, _) = connect();
    client.write(b"bye").unwrap();
    client.flush().unwrap();
    assert!(client.push_finish().is_ok());
    deliver(&mut client, &mut server);
    assert_eq!(server.read_step(64), Ok(Some(b"bye".to_vec())));
    assert_eq!(server.read_step(64), Ok(Some(Vec::new())));
    assert_eq!(server.is_read_finished(), Ok(true));
    assert_eq!(server.read_start(), Err(MdswpError::ReadFinished));
}

#[test]
fn read_step_takes_at_most_max_bytes() {
    let (mut client, mut server, _) = connect();
    client.write(b"0123456789").unwrap();
    client.flush().unwrap();
    deliver(&mut client, &mut server);
    assert_eq!(server.read_step(4), Ok(Some(b"0123".to_vec())));
    assert_eq!(server.read_step(4), Ok(Some(b"4567".to_vec())));
    assert_eq!(server.read_step(4), Ok(Some(b"89".to_vec())));
    assert_eq!(server.read_step(4), Ok(None));
}

#[test]
fn both_directions_carry_data() {
    let (mut client, mut server, _) = connect();
    server.write(b"from server").unwrap();
    server.flush().unwrap();
    client.write(b"from client").unwrap();
    client.flush().unwrap();
    deliver(&mut server, &mut client);
    deliver(&mut client, &mut server);
    assert_eq!(read_all(&mut client), b"from server".to_vec());
    assert_eq!(read_all(&mut server), b"from client".to_vec());
}

#[test]
fn full_window_jump_keeps_the_oldest_segments() {
    let (_, mut server, _) = connect();
    let first = ESTABLISH_SEQ_NUM.wrapping_add(1);
    let seg = |n: u8| SeqSegment::Data { data: DataSegment::try_from(&[n]).unwrap() };
    // Ten segments in order: the window stands ten above the lower bound.
    for n in 0..10u8 {
        let r = server.recv_segment(Segment::Sequential { seq_num: first + n, variant: seg(n) });
        assert_eq!(r, None);
    }
    // The next nine, then the one at the window: the window jumps by ten.
    for n in (10..20u8).rev() {
        let r = server.recv_segment(Segment::Sequential { seq_num: first + n, variant: seg(n) });
        assert_eq!(r, None);
    }
    // The lower bound stayed, so a late copy of the oldest segment is still
    // known and only asks for an acknowledgement.
    let r = server.recv_segment(Segment::Sequential { seq_num: first, variant: seg(0) });
    assert_eq!(r, None);
    assert_eq!(server.stream_state(), Ok(()));
    assert_eq!(read_all(&mut server), (0..20u8).collect::<Vec<u8>>());
}

#[test]
fn write_is_finished_only_after_finish() {
    let (mut client, mut server, _) = connect();
    assert!(!client.is_write_closed());
    client.write(b"data").unwrap();
    client.flush().unwrap();
    deliver(&mut client, &mut server);
    assert_eq!(client.is_write_finished(), Ok(false));
    assert!(client.push_finish().is_ok());
    assert!(client.is_write_closed());
    deliver(&mut client, &mut server);
    acknowledge(&mut server, &mut client);
    assert!(client.try_complete_finish());
    assert_eq!(client.is_write_finished(), Ok(true));
}

#[test]
fn sending_work_ends_when_both_sides_finished_or_failed() {
    let (mut client, mut server, _) = connect();
    assert!(!client.thread_done());
    assert!(client.push_finish().is_ok());
    deliver(&mut client, &mut server);
    acknowledge(&mut server, &mut client);
    assert!(client.try_complete_finish());
    // Writing is finished, but the peer's data has not been read yet.
    assert!(!client.thread_done());
    assert!(server.push_finish().is_ok());
    deliver(&mut server, &mut client);
    assert_eq!(client.read_step(8), Ok(Some(Vec::new())));
    assert!(client.thread_done());
    assert_eq!(server.reset(), Ok(()));
    assert!(server.thread_done());
}

#[test]
fn connection_attempts_and_addresses() {
    assert_eq!(CONNECT_ATTEMPTS, 3);
    assert_eq!(after_attempt(1, false), AttemptStep::TryAgain);
    assert_eq!(after_attempt(2, false), AttemptStep::TryAgain);
    assert_eq!(after_attempt(3, false), AttemptStep::Return);
    assert_eq!(after_attempt(1, true), AttemptStep::Return);
    assert_eq!(after_address(2, false), AttemptStep::TryAgain);
    assert_eq!(after_address(0, false), AttemptStep::Return);
    assert_eq!(after_address(5, true), AttemptStep::Return);
}

#[test]
fn failed_connection_keeps_reporting_its_first_error() {
    let (mut client, _, _) = connect();
    assert_eq!(client.recv_segment(Segment::Reset), Some(false));
    assert_eq!(client.write(b"x"), Err(MdswpError::ResetByPeer));
    assert_eq!(client.flush(), Err(MdswpError::ResetByPeer));
    assert_eq!(client.reset(), Err(MdswpError::ResetByPeer));
    assert_eq!(client.read_step(4), Err(MdswpError::ResetByPeer));
    assert_eq!(client.recv_segment(Segment::Establish { start_seq_num: 0 }), None);
    assert_eq!(client.stream_state(), Err(MdswpError::ResetByPeer));
}
