use mdswp::listener::read_datagram;
use mdswp::listener::route_datagram;
use mdswp::listener::Route;
use mdswp::segment::DataSegment;
use mdswp::segment::Segment;
use mdswp::segment::SeqSegment;
use mdswp::storage::recv::RecvStorage as KeepingRecvStorage;
use mdswp::storage::send::SendStorage as RegistrySendStorage;
use mdswp::storage::SendDataStorage;
use mdswp::storage::Shutdown;
use mdswp::storage::StreamDataStorage;
use mdswp::stream::recv::RecvStorage;
use mdswp::stream::send::SendStorage;
use mdswp::util::IoKind;
use mdswp::util::MdswpError;
use mdswp::util::OrderFault;
use mdswp::util::SegmentFault;

fn data(bytes: &[u8]) -> SeqSegment {
    SeqSegment::Data { data: DataSegment::try_from(bytes).unwrap() }
}

#[test]
fn send_data_storage_write_keeps_rest_in_buffer() {
    let mut s = SendDataStorage::new();
    assert_eq!(s.write(&[1u8; 600]), Ok(600));
    // One DATA segment of 510 bytes is queued at number 0.
    assert_eq!(s.update_send_time(0), Ok(()));
    assert_eq!(s.update_send_time(1), Err(MdswpError::AckNotFound { ack_num: 1 }));
    assert_eq!(s.flush(), Ok(()));
    assert_eq!(s.update_send_time(1), Ok(()));
    assert!(!s.has_finished());
}

#[test]
fn send_data_storage_finish_refuses_more() {
    let mut s = SendDataStorage::new();
    assert_eq!(s.finish(), Ok(()));
    assert!(s.has_finished());
    assert_eq!(s.finish(), Err(MdswpError::WriteFinished));
    assert_eq!(s.write(b"x"), Err(MdswpError::WriteFinished));
    assert_eq!(s.flush(), Err(MdswpError::WriteFinished));
}

#[test]
fn send_data_storage_acknowledge_moves_window() {
    let mut s = SendDataStorage::new();
    s.flush().unwrap();
    s.flush().unwrap();
    s.flush().unwrap();
    assert_eq!(s.register_acknowledge(7), Err(MdswpError::AckNotFound { ack_num: 7 }));
    assert_eq!(s.register_acknowledge(1), Ok(()));
    // The window now starts at 2, where the one segment left is queued.
    assert_eq!(s.update_send_time(2), Ok(()));
    assert_eq!(s.update_send_time(3), Err(MdswpError::AckNotFound { ack_num: 3 }));
}

#[test]
fn send_data_storage_acknowledges_one_after_another() {
    let mut s = SendDataStorage::new();
    assert_eq!(s.write(b"a"), Ok(1));
    assert_eq!(s.flush(), Ok(()));
    assert_eq!(s.write(b"b"), Ok(1));
    assert_eq!(s.flush(), Ok(()));
    assert_eq!(s.register_acknowledge(0), Ok(()));
    assert_eq!(s.register_acknowledge(1), Ok(()));
    assert_eq!(s.register_acknowledge(1), Err(MdswpError::AckNotFound { ack_num: 1 }));
}

#[test]
fn send_data_storage_refuses_writes_after_acknowledged_finish() {
    let mut s = SendDataStorage::new();
    assert_eq!(s.finish(), Ok(()));
    // The empty DATA segment and FINISH are numbered 0 and 1.
    assert_eq!(s.register_acknowledge(1), Ok(()));
    assert!(s.has_finished());
    assert_eq!(s.write(b"x"), Err(MdswpError::WriteFinished));
    assert_eq!(s.flush(), Err(MdswpError::WriteFinished));
    assert_eq!(s.finish(), Err(MdswpError::WriteFinished));
}

#[test]
fn unknown_acknowledgement_of_data_storage_is_not_found() {
    let mut s = SendDataStorage::new();
    let e = s.register_acknowledge(0).unwrap_err();
    assert_eq!(e, MdswpError::AckNotFound { ack_num: 0 });
    assert_eq!(e.io_kind(), IoKind::NotFound);
}

#[test]
fn stream_data_storage_reset_shuts_down() {
    let mut s = StreamDataStorage::new();
    assert_eq!(s.assert_alive(), Ok(()));
    s.register_received_data(&[0x00]);
    assert!(s.is_err());
    assert_eq!(s.assert_alive(), Err(MdswpError::ResetByPeer));
}

#[test]
fn stream_data_storage_registers_acknowledgement() {
    let mut s = StreamDataStorage::new();
    assert_eq!(s.write(b"abc"), Ok(3));
    assert_eq!(s.flush(), Ok(()));
    s.register_received_data(&[0x10, 0]);
    assert_eq!(s.assert_alive(), Ok(()));
    s.register_received_data(&[0x10, 9]);
    assert_eq!(s.assert_alive(), Err(MdswpError::AckNotFound { ack_num: 9 }));
}

#[test]
fn stream_data_storage_malformed_and_unexpected() {
    let mut s = StreamDataStorage::new();
    s.register_received_data(&[0x7f]);
    assert_eq!(
        s.assert_alive(),
        Err(MdswpError::MalformedSegment { fault: SegmentFault::UnknownType })
    );
    let mut s = StreamDataStorage::new();
    s.register_received_data(&[0x01, 5]);
    assert!(matches!(s.assert_alive(), Err(MdswpError::UnexpectedSegment { .. })));
}

#[test]
fn stream_data_storage_shutdown_write() {
    let mut s = StreamDataStorage::new();
    assert!(!s.write_finished());
    assert_eq!(s.shutdown(Shutdown::Write), Ok(()));
    assert!(s.write_finished());
    assert_eq!(s.write(b"x"), Err(MdswpError::WriteFinished));
    s.shutdown_with_error(MdswpError::TimedOut);
    assert_eq!(s.assert_alive(), Err(MdswpError::TimedOut));
}

fn popped_bytes(s: Option<SeqSegment>) -> Vec<u8> {
    match s {
        Some(SeqSegment::Data { data }) => data.as_ref().to_vec(),
        _ => panic!("no DATA read"),
    }
}

#[test]
fn keeping_recv_storage_delivers_in_order() {
    let mut s = KeepingRecvStorage::new_by_local(40);
    assert!(s.pop().is_none());
    assert_eq!(s.recv(42, data(b"b")), Ok(()));
    assert!(s.pop().is_none());
    assert_eq!(s.recv(41, data(b"a")), Ok(()));
    assert_eq!(popped_bytes(s.pop()), b"a".to_vec());
    assert_eq!(popped_bytes(s.pop()), b"b".to_vec());
    assert!(s.pop().is_none());
    // The window has moved past every segment received, so no number is
    // left to acknowledge.
    assert_eq!(s.pop_acknowledge_with(true, std::time::Instant::now()), None);
}

#[test]
fn keeping_recv_storage_by_peer_accepts_from_establish_on() {
    let mut s = KeepingRecvStorage::new_by_peer(100);
    assert_eq!(s.recv(100, data(b"a")), Ok(()));
    assert_eq!(
        s.recv(99, data(b"z")),
        Err(MdswpError::InvalidSeqNum { seq_num: 99, lower_bound: 100, upper_bound: 109 })
    );
    assert!(s.pop().is_none());
}

#[test]
fn keeping_recv_storage_checks_order() {
    let mut s = KeepingRecvStorage::new_by_local(40);
    assert_eq!(s.recv(41, SeqSegment::Finish), Ok(()));
    assert!(!s.finished());
    assert!(s.pop().is_some());
    assert!(s.finished());
    assert_eq!(
        s.recv(42, data(b"late")),
        Err(MdswpError::OutOfOrder {
            seq_num: 42,
            kind: mdswp::util::SeqSegmentKind::Data { len: 4 },
            fault: OrderFault::AfterFinish,
        })
    );
    assert!(matches!(
        s.recv(41, data(b"x")),
        Err(MdswpError::Unreliable { .. })
    ));
}

#[test]
fn keeping_recv_storage_accept_only_first() {
    let mut s = KeepingRecvStorage::new_by_local(40);
    assert_eq!(
        s.recv(43, SeqSegment::Accept),
        Err(MdswpError::OutOfOrder {
            seq_num: 43,
            kind: mdswp::util::SeqSegmentKind::Accept,
            fault: OrderFault::AcceptInMiddle,
        })
    );
    assert!(matches!(s.recv(200, data(b"x")), Err(MdswpError::InvalidSeqNum { .. })));
}

#[test]
fn registry_send_storage_push_and_finish() {
    let mut s = RegistrySendStorage::new(10);
    assert!(!s.finished());
    assert_eq!(s.push(SeqSegment::Accept), Ok(10));
    assert_eq!(s.push(data(b"a")), Ok(11));
    assert_eq!(s.push(SeqSegment::Finish), Ok(12));
    assert!(s.finished());
    assert_eq!(s.push(data(b"b")), Err(MdswpError::WriteFinished));
}

#[test]
fn stream_send_storage_pops_in_order() {
    let mut s = SendStorage::new_by_local(5);
    assert_eq!(s.push(data(b"a")), Ok(()));
    assert_eq!(s.push(data(b"b")), Ok(()));
    assert_eq!(s.pop().map(|p| p.0), Some(6));
    assert_eq!(s.pop().map(|p| p.0), Some(7));
    assert!(s.pop().is_none());
    assert_eq!(s.acknowledge(7), Ok(()));
    assert!(s.is_empty());
}

#[test]
fn stream_send_storage_refuses_after_finish() {
    let mut s = SendStorage::new_by_local(5);
    assert_eq!(s.push(SeqSegment::Finish), Ok(()));
    assert_eq!(s.push(data(b"a")), Err(MdswpError::WriteFinished));
    assert_eq!(s.acknowledge(100), Err(MdswpError::InvalidAckNum { ack_num: 100 }));
}

#[test]
fn stream_recv_storage_acknowledges_run() {
    let mut s = RecvStorage::new_by_peer(20);
    assert_eq!(s.recv(21, data(b"a")), Ok(()));
    assert_eq!(s.recv(22, data(b"b")), Ok(()));
    assert_eq!(s.pop_acknowledge_with(false, std::time::Instant::now()), Some(22));
    // Nothing new: no acknowledgement unless it is urgent or due.
    assert_eq!(s.pop_acknowledge_with(false, std::time::Instant::now()), None);
    assert_eq!(s.pop_acknowledge_with(true, std::time::Instant::now()), Some(22));
    // A duplicate makes the acknowledgement urgent.
    assert_eq!(s.recv(21, data(b"a")), Ok(()));
    assert_eq!(s.pop_acknowledge_with(false, std::time::Instant::now()), Some(22));
}

#[test]
fn route_of_datagrams() {
    assert!(matches!(route_datagram(&[0x01, 9], false), Route::Open { establish_seq_num: 9 }));
    assert!(matches!(route_datagram(&[0x10, 9], false), Route::Reject));
    assert!(matches!(route_datagram(&[], false), Route::Reject));
    assert!(matches!(route_datagram(&[0x10, 9], true), Route::Deliver { .. }));
    assert!(matches!(
        route_datagram(&[0x00, 1], true),
        Route::FailConnection { error: MdswpError::MalformedSegment { fault: SegmentFault::Reset } }
    ));
}

#[test]
fn read_datagram_of_nothing_is_none() {
    assert!(matches!(read_datagram(&[]), Ok(None)));
    assert!(matches!(read_datagram(&[0x00]), Ok(Some(Segment::Reset))));
    assert!(matches!(
        read_datagram(&[0x12]),
        Err(MdswpError::MalformedSegment { fault: SegmentFault::Finish })
    ));
}

#[test]
fn error_kinds() {
    assert_eq!(MdswpError::ReadFinished.io_kind(), IoKind::UnexpectedEof);
    assert_eq!(MdswpError::ResetByPeer.io_kind(), IoKind::ConnectionReset);
    assert_eq!(MdswpError::ResetLocal.io_kind(), IoKind::ConnectionReset);
    assert_eq!(MdswpError::TimedOut.io_kind(), IoKind::TimedOut);
    assert_eq!(MdswpError::WriteFinished.io_kind(), IoKind::ConnectionAborted);
    assert_eq!(MdswpError::DataTooLong.io_kind(), IoKind::InvalidInput);
    assert_eq!(MdswpError::UnexpectedEstablish.io_kind(), IoKind::BrokenPipe);
    assert_eq!(MdswpError::InvalidAckNum { ack_num: 1 }.io_kind(), IoKind::BrokenPipe);
    assert_eq!(MdswpError::Io { kind: IoKind::AddrInUse }.io_kind(), IoKind::AddrInUse);
}

#[test]
fn shut_down_stream_stays_shut_down() {
    let mut s = StreamDataStorage::new();
    s.register_received_data(&[0x00]);
    assert!(s.is_err());
    s.register_received_data(&[0x10, 0]);
    assert!(s.is_err());
    assert_eq!(s.assert_alive(), Err(MdswpError::AckNotFound { ack_num: 0 }));
}

#[test]
fn acknowledgement_is_due_after_half_the_timeout() {
    let now = std::time::Instant::now();
    let mut s = RecvStorage::new_by_peer(20);
    assert_eq!(s.recv(21, data(b"a")), Ok(()));
    assert_eq!(s.pop_acknowledge_after(0, now), Some(21));
    assert_eq!(s.pop_acknowledge_after(1_500_000_000, now), None);
    assert_eq!(s.pop_acknowledge_after(1_500_000_001, now), Some(21));
}

#[test]
fn segment_is_sent_again_after_half_the_timeout() {
    let now = std::time::Instant::now();
    let mut s = SendStorage::new_by_local(5);
    assert_eq!(s.push(data(b"a")), Ok(()));
    assert_eq!(s.pop_after(0, now).map(|p| p.0), Some(6));
    assert!(s.pop_after(1_500_000_000, now).is_none());
    assert_eq!(s.pop_after(1_500_000_001, now).map(|p| p.0), Some(6));
}

#[test]
fn send_time_is_recorded_in_the_window_only() {
    let now = std::time::Instant::now();
    let mut s = SendDataStorage::new();
    s.flush().unwrap();
    assert_eq!(s.update_send_time_at(0, now), Ok(()));
    assert_eq!(s.update_send_time_at(1, now), Err(MdswpError::AckNotFound { ack_num: 1 }));
}

#[test]
fn stream_send_storage_stays_closed_after_finish_is_acknowledged() {
    let mut s = SendStorage::new_by_local(5);
    assert_eq!(s.push(SeqSegment::Finish), Ok(()));
    assert!(s.finished());
    assert_eq!(s.pop().map(|p| p.0), Some(6));
    assert_eq!(s.acknowledge(6), Ok(()));
    assert!(s.is_empty());
    assert!(s.finished());
    assert_eq!(s.push(data(b"late")), Err(MdswpError::WriteFinished));
    assert_eq!(s.push(SeqSegment::Finish), Err(MdswpError::WriteFinished));
    s.clear();
    assert!(!s.finished());
    assert_eq!(s.push(data(b"again")), Ok(()));
}
