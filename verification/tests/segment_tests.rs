use mdswp::segment::DataSegment;
use mdswp::segment::Segment;
use mdswp::segment::SeqSegment;
use mdswp::util::MdswpError;
use mdswp::util::SegmentFault;
use mdswp::util::SegmentSummary;
use mdswp::util::SeqSegmentKind;

fn seg_bytes(s: Segment) -> Vec<u8> {
    s.to_bytes()
}

#[test]
fn establish_round_trip() {
    let bytes = seg_bytes(Segment::Establish { start_seq_num: 128 });
    assert_eq!(bytes, vec![0x01, 128]);
    match Segment::try_from(&bytes) {
        Ok(Segment::Establish { start_seq_num }) => assert_eq!(start_seq_num, 128),
        _ => panic!("ESTABLISH not read back"),
    }
}

#[test]
fn data_round_trip() {
    let data = DataSegment::try_from(&[1, 2, 3]).unwrap();
    let bytes = seg_bytes(Segment::Sequential { seq_num: 7, variant: SeqSegment::Data { data } });
    assert_eq!(bytes, vec![0x13, 7, 1, 2, 3]);
    match Segment::try_from(&bytes) {
        Ok(Segment::Sequential { seq_num, variant: SeqSegment::Data { data } }) => {
            assert_eq!(seq_num, 7);
            assert_eq!(data.as_ref(), &[1, 2, 3]);
        }
        _ => panic!("DATA not read back"),
    }
}

#[test]
fn empty_datagram_is_malformed() {
    match Segment::try_from(&[]) {
        Err(MdswpError::MalformedSegment { fault: SegmentFault::Length }) => {}
        _ => panic!("empty datagram accepted"),
    }
}

fn fault_of(bytes: &[u8]) -> SegmentFault {
    match Segment::try_from(bytes) {
        Err(MdswpError::MalformedSegment { fault }) => fault,
        _ => panic!("malformed bytes accepted"),
    }
}

#[test]
fn every_kind_is_written_with_its_code() {
    assert_eq!(seg_bytes(Segment::Reset), vec![0x00]);
    assert_eq!(seg_bytes(Segment::Acknowledge { seq_num: 9 }), vec![0x10, 9]);
    assert_eq!(
        seg_bytes(Segment::Sequential { seq_num: 4, variant: SeqSegment::Accept }),
        vec![0x11, 4]
    );
    assert_eq!(
        seg_bytes(Segment::Sequential { seq_num: 5, variant: SeqSegment::Finish }),
        vec![0x12, 5]
    );
}

#[test]
fn short_segments_read_back() {
    assert!(matches!(Segment::try_from(&[0x00]), Ok(Segment::Reset)));
    assert!(matches!(Segment::try_from(&[0x10, 200]), Ok(Segment::Acknowledge { seq_num: 200 })));
    assert!(matches!(
        Segment::try_from(&[0x11, 1]),
        Ok(Segment::Sequential { seq_num: 1, variant: SeqSegment::Accept })
    ));
    assert!(matches!(
        Segment::try_from(&[0x12, 2]),
        Ok(Segment::Sequential { seq_num: 2, variant: SeqSegment::Finish })
    ));
}

#[test]
fn each_malformed_segment_names_its_fault() {
    assert_eq!(fault_of(&[0x01]), SegmentFault::Establish);
    assert_eq!(fault_of(&[0x01, 1, 2]), SegmentFault::Establish);
    assert_eq!(fault_of(&[0x00, 0]), SegmentFault::Reset);
    assert_eq!(fault_of(&[0x11]), SegmentFault::Accept);
    assert_eq!(fault_of(&[0x12, 1, 1]), SegmentFault::Finish);
    assert_eq!(fault_of(&[0x10]), SegmentFault::Acknowledge);
    assert_eq!(fault_of(&[0x13]), SegmentFault::Data);
    assert_eq!(fault_of(&[0x42, 1]), SegmentFault::UnknownType);
    assert_eq!(fault_of(&[0x13; 513]), SegmentFault::Length);
}

#[test]
fn largest_data_segment_round_trips() {
    let payload = vec![0xabu8; 510];
    let data = DataSegment::try_from(&payload).unwrap();
    assert_eq!(data.len(), 510);
    assert_eq!(data.iter().count(), 510);
    let bytes = seg_bytes(Segment::Sequential { seq_num: 255, variant: SeqSegment::Data { data } });
    assert_eq!(bytes.len(), 512);
    match Segment::try_from(&bytes) {
        Ok(Segment::Sequential { seq_num: 255, variant: SeqSegment::Data { data } }) => {
            assert_eq!(data.into_vec(), payload);
        }
        _ => panic!("largest DATA not read back"),
    }
}

#[test]
fn too_much_data_is_refused() {
    assert!(matches!(DataSegment::try_from(&[0u8; 511]), Err(MdswpError::DataTooLong)));
    assert!(matches!(DataSegment::from_vec(vec![0u8; 600]), Err(MdswpError::DataTooLong)));
    assert!(DataSegment::from_vec(Vec::new()).is_ok());
}

#[test]
fn summary_names_the_segment() {
    let data = DataSegment::try_from(&[1, 2]).unwrap();
    let s = Segment::Sequential { seq_num: 3, variant: SeqSegment::Data { data } };
    assert_eq!(
        s.summary(),
        SegmentSummary::Sequential { seq_num: 3, kind: SeqSegmentKind::Data { len: 2 } }
    );
    assert_eq!(Segment::Establish { start_seq_num: 8 }.summary(), SegmentSummary::Establish { start_seq_num: 8 });
}

#[test]
fn empty_data_segment_round_trips() {
    let data = DataSegment::try_from(&[]).unwrap();
    let bytes = seg_bytes(Segment::Sequential { seq_num: 6, variant: SeqSegment::Data { data } });
    assert_eq!(bytes, vec![0x13, 6]);
    match Segment::try_from(&bytes) {
        Ok(Segment::Sequential { seq_num: 6, variant: SeqSegment::Data { data } }) => {
            assert_eq!(data.len(), 0);
        }
        _ => panic!("empty DATA not read back"),
    }
}
