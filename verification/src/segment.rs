//! Wire format of MDSWP segments.
//!
//! The first byte of a segment is its instruction code. All segments but
//! `RESET` carry a sequence number in the second byte, and a `DATA` segment
//! carries its payload after the sequence number.

use vstd::prelude::*;

use crate::util::MdswpError;
use crate::util::SegmentFault;
use crate::util::SegmentSummary;
use crate::util::SeqSegmentKind;

verus! {

/// Type used as sequence number.
pub type SeqNumber = u8;

/// Maximum length of one segment in bytes.
pub const MAX_SEGMENT_LEN: usize = 512;

/// Maximum length of the payload carried by one `DATA` segment: a segment
/// without its instruction code and sequence number.
pub const MAX_DATA_LEN: usize = 510;

pub const INSTR_CODE_RESET: u8 = 0x00;
pub const INSTR_CODE_ESTABLISH: u8 = 0x01;
pub const INSTR_CODE_ACKNOWLEDGE: u8 = 0x10;
pub const INSTR_CODE_ACCEPT: u8 = 0x11;
pub const INSTR_CODE_FINISH: u8 = 0x12;
pub const INSTR_CODE_DATA: u8 = 0x13;

/// Mathematical value of a [`SeqSegment`].
pub enum SeqSegmentView {
    Accept,
    Finish,
    Data(Seq<u8>),
}

/// Mathematical value of a [`Segment`].
pub enum SegmentView {
    Establish(u8),
    Reset,
    Acknowledge(u8),
    Sequential(u8, SeqSegmentView),
}

/// The bytes that represent a segment on the wire.
pub open spec fn encode(s: SegmentView) -> Seq<u8> {
    match s {
        SegmentView::Establish(n) => seq![INSTR_CODE_ESTABLISH, n],
        SegmentView::Reset => seq![INSTR_CODE_RESET],
        SegmentView::Acknowledge(n) => seq![INSTR_CODE_ACKNOWLEDGE, n],
        SegmentView::Sequential(n, SeqSegmentView::Accept) => seq![INSTR_CODE_ACCEPT, n],
        SegmentView::Sequential(n, SeqSegmentView::Finish) => seq![INSTR_CODE_FINISH, n],
        SegmentView::Sequential(n, SeqSegmentView::Data(d)) => seq![INSTR_CODE_DATA, n] + d,
    }
}

/// Reading bytes as a segment: the segment they represent, or the check that
/// they fail.
pub open spec fn decode(b: Seq<u8>) -> Result<SegmentView, SegmentFault> {
    if b.len() == 0 || b.len() > MAX_SEGMENT_LEN {
        Err(SegmentFault::Length)
    } else if b[0] == INSTR_CODE_ESTABLISH {
        if b.len() == 2 { Ok(SegmentView::Establish(b[1])) } else { Err(SegmentFault::Establish) }
    } else if b[0] == INSTR_CODE_RESET {
        if b.len() == 1 { Ok(SegmentView::Reset) } else { Err(SegmentFault::Reset) }
    } else if b[0] == INSTR_CODE_ACCEPT {
        if b.len() == 2 {
            Ok(SegmentView::Sequential(b[1], SeqSegmentView::Accept))
        } else {
            Err(SegmentFault::Accept)
        }
    } else if b[0] == INSTR_CODE_FINISH {
        if b.len() == 2 {
            Ok(SegmentView::Sequential(b[1], SeqSegmentView::Finish))
        } else {
            Err(SegmentFault::Finish)
        }
    } else if b[0] == INSTR_CODE_ACKNOWLEDGE {
        if b.len() == 2 { Ok(SegmentView::Acknowledge(b[1])) } else { Err(SegmentFault::Acknowledge) }
    } else if b[0] == INSTR_CODE_DATA {
        if b.len() >= 2 {
            Ok(SegmentView::Sequential(b[1], SeqSegmentView::Data(b.subrange(2, b.len() as int))))
        } else {
            Err(SegmentFault::Data)
        }
    } else {
        Err(SegmentFault::UnknownType)
    }
}

/// A segment that can be sent and read back: a `DATA` segment carries at most
/// [`MAX_DATA_LEN`] bytes.
pub open spec fn encodable(s: SegmentView) -> bool {
    match s {
        SegmentView::Sequential(_, SeqSegmentView::Data(d)) => d.len() <= MAX_DATA_LEN,
        _ => true,
    }
}

/// The summary of a sequential segment that error messages carry.
pub open spec fn seq_segment_kind(v: SeqSegmentView) -> SeqSegmentKind {
    match v {
        SeqSegmentView::Accept => SeqSegmentKind::Accept,
        SeqSegmentView::Finish => SeqSegmentKind::Finish,
        SeqSegmentView::Data(d) => SeqSegmentKind::Data { len: d.len() as usize },
    }
}

/// The summary of a segment that error messages carry.
pub open spec fn segment_summary(v: SegmentView) -> SegmentSummary {
    match v {
        SegmentView::Establish(n) => SegmentSummary::Establish { start_seq_num: n },
        SegmentView::Reset => SegmentSummary::Reset,
        SegmentView::Acknowledge(n) => SegmentSummary::Acknowledge { seq_num: n },
        SegmentView::Sequential(n, v) => SegmentSummary::Sequential {
            seq_num: n,
            kind: seq_segment_kind(v),
        },
    }
}

/// Copies `src[from..to]` into a new vector.
fn copy_range(src: &[u8], from: usize, to: usize) -> (out: Vec<u8>)
    requires
        from <= to <= src@.len(),
    ensures
        out@ == src@.subrange(from as int, to as int),
{
    let mut out: Vec<u8> = Vec::new();
    let mut i: usize = from;
    while i < to
        invariant
            from <= i <= to <= src@.len(),
            out@ == src@.subrange(from as int, i as int),
        decreases to - i,
    {
        out.push(src[i]);
        i = i + 1;
    }
    out
}

/// Data carried by a `DATA` segment: at most [`MAX_DATA_LEN`] bytes, never
/// changed once constructed.
pub struct DataSegment {
    data: Vec<u8>,
}

impl View for DataSegment {
    type V = Seq<u8>;

    closed spec fn view(&self) -> Seq<u8> {
        self.data@
    }
}

impl DataSegment {
    #[verifier::type_invariant]
    spec fn fits(self) -> bool {
        self.data@.len() <= MAX_DATA_LEN
    }

    /// Copies the bytes of `data` into a new data segment. Fails with
    /// [`MdswpError::DataTooLong`] exactly when there are more than
    /// [`MAX_DATA_LEN`] of them.
    pub fn try_from(data: &[u8]) -> (r: Result<DataSegment, MdswpError>)
        ensures
            match r {
                Ok(d) => data@.len() <= MAX_DATA_LEN && d@ == data@,
                Err(e) => data@.len() > MAX_DATA_LEN && e == MdswpError::DataTooLong,
            },
    {
        if data.len() > MAX_DATA_LEN {
            Err(MdswpError::DataTooLong)
        } else {
            let bytes = copy_range(data, 0, data.len());
            proof {
                assert(data@.subrange(0, data@.len() as int) =~= data@);
            }
            Ok(DataSegment { data: bytes })
        }
    }

    /// Moves the bytes of a vector into a data segment.
    pub fn from_vec(data: Vec<u8>) -> (r: Result<DataSegment, MdswpError>)
        ensures
            match r {
                Ok(d) => data@.len() <= MAX_DATA_LEN && d@ == data@,
                Err(e) => data@.len() > MAX_DATA_LEN && e == MdswpError::DataTooLong,
            },
    {
        if data.len() > MAX_DATA_LEN {
            Err(MdswpError::DataTooLong)
        } else {
            Ok(DataSegment { data })
        }
    }

    /// Returns the length of the data; never more than [`MAX_DATA_LEN`].
    pub fn len(&self) -> (n: usize)
        ensures
            n == self@.len(),
            n <= MAX_DATA_LEN,
    {
        proof {
            use_type_invariant(self);
        }
        self.data.len()
    }

    /// Borrows the data as a slice of bytes.
    pub fn as_ref(&self) -> (s: &[u8])
        ensures
            s@ == self@,
    {
        self.data.as_slice()
    }

    /// Returns an iterator over the bytes that leaves the segment in place.
    pub fn iter(&self) -> (it: std::slice::Iter<'_, u8>)
        ensures
            vstd::std_specs::iter::IteratorSpec::remaining(&it) == self@.as_ref(),
    {
        let s = self.data.as_slice();
        proof {
            vstd::std_specs::slice::axiom_spec_slice_iter(s);
        }
        s.iter()
    }

    /// Turns the segment into its bytes.
    pub fn into_vec(self) -> (v: Vec<u8>)
        ensures
            v@ == self@,
    {
        self.data
    }

    /// Whether two data segments carry the same bytes.
    pub fn same_as(&self, other: &DataSegment) -> (r: bool)
        ensures
            r == (self@ == other@),
    {
        if self.data.len() != other.data.len() {
            return false;
        }
        let mut i: usize = 0;
        while i < self.data.len()
            invariant
                self.data@.len() == other.data@.len(),
                i <= self.data@.len(),
                forall|j: int| 0 <= j < i ==> self.data@[j] == other.data@[j],
            decreases self.data@.len() - i,
        {
            if self.data[i] != other.data[i] {
                return false;
            }
            i = i + 1;
        }
        proof {
            assert(self.data@ =~= other.data@);
        }
        true
    }
}

impl Clone for DataSegment {
    fn clone(&self) -> (r: Self)
        ensures
            r@ == self@,
    {
        proof {
            use_type_invariant(self);
        }
        let bytes = copy_range(self.data.as_slice(), 0, self.data.len());
        proof {
            assert(self.data@.subrange(0, self.data@.len() as int) =~= self.data@);
        }
        DataSegment { data: bytes }
    }
}

/// The message carried by a segment that must be acknowledged.
pub enum SeqSegment {
    /// Accepts an incoming connection; sent only in reply to `ESTABLISH`.
    Accept,
    /// Closes sending for one side; the other side may still send data.
    Finish,
    /// Carries user data.
    Data { data: DataSegment },
}

impl View for SeqSegment {
    type V = SeqSegmentView;

    open spec fn view(&self) -> SeqSegmentView {
        match self {
            SeqSegment::Accept => SeqSegmentView::Accept,
            SeqSegment::Finish => SeqSegmentView::Finish,
            SeqSegment::Data { data } => SeqSegmentView::Data(data@),
        }
    }
}

impl Clone for SeqSegment {
    fn clone(&self) -> (r: Self)
        ensures
            r@ == self@,
    {
        match self {
            SeqSegment::Accept => SeqSegment::Accept,
            SeqSegment::Finish => SeqSegment::Finish,
            SeqSegment::Data { data } => SeqSegment::Data { data: data.clone() },
        }
    }
}

impl SeqSegment {
    /// Whether two sequential segments are the same message.
    pub fn same_as(&self, other: &SeqSegment) -> (r: bool)
        ensures
            r == (self@ == other@),
    {
        match (self, other) {
            (SeqSegment::Accept, SeqSegment::Accept) => true,
            (SeqSegment::Finish, SeqSegment::Finish) => true,
            (SeqSegment::Data { data: a }, SeqSegment::Data { data: b }) => a.same_as(b),
            _ => false,
        }
    }

    /// Whether this is a `FINISH` segment.
    pub fn is_finish(&self) -> (r: bool)
        ensures
            r == (self@ == SeqSegmentView::Finish),
    {
        match self {
            SeqSegment::Finish => true,
            _ => false,
        }
    }

    /// The summary of the segment that error messages carry.
    pub fn kind(&self) -> (k: SeqSegmentKind)
        ensures
            k == seq_segment_kind(self@),
    {
        match self {
            SeqSegment::Accept => SeqSegmentKind::Accept,
            SeqSegment::Finish => SeqSegmentKind::Finish,
            SeqSegment::Data { data } => SeqSegmentKind::Data { len: data.len() },
        }
    }
}

/// A segment: the unit that MDSWP sends in one UDP datagram.
pub enum Segment {
    /// Opens a connection; must be the first message sent. The receiver answers
    /// with `ACCEPT`, or with `RESET` to refuse.
    Establish { start_seq_num: SeqNumber },
    /// Stops the communication immediately; also refuses a connection.
    Reset,
    /// Confirms that the sequential segments up to `seq_num` have arrived.
    Acknowledge { seq_num: SeqNumber },
    /// A segment that must be acknowledged.
    Sequential { seq_num: SeqNumber, variant: SeqSegment },
}

impl View for Segment {
    type V = SegmentView;

    open spec fn view(&self) -> SegmentView {
        match self {
            Segment::Establish { start_seq_num } => SegmentView::Establish(*start_seq_num),
            Segment::Reset => SegmentView::Reset,
            Segment::Acknowledge { seq_num } => SegmentView::Acknowledge(*seq_num),
            Segment::Sequential { seq_num, variant } => SegmentView::Sequential(
                *seq_num,
                variant@,
            ),
        }
    }
}

impl Clone for Segment {
    fn clone(&self) -> (r: Self)
        ensures
            r@ == self@,
    {
        match self {
            Segment::Establish { start_seq_num } => Segment::Establish {
                start_seq_num: *start_seq_num,
            },
            Segment::Reset => Segment::Reset,
            Segment::Acknowledge { seq_num } => Segment::Acknowledge { seq_num: *seq_num },
            Segment::Sequential { seq_num, variant } => Segment::Sequential {
                seq_num: *seq_num,
                variant: variant.clone(),
            },
        }
    }
}

/// Returns the instruction code of a byte sequence, if it has one.
fn instr_code_of(segment: &[u8]) -> (r: Option<u8>)
    ensures
        r == (if segment@.len() >= 1 { Some(segment@[0]) } else { None::<u8> }),
{
    if segment.len() >= 1 {
        Some(segment[0])
    } else {
        None
    }
}

/// Returns the sequence number of a byte sequence, if it has one.
fn seq_num_of(segment: &[u8]) -> (r: Option<u8>)
    ensures
        r == (if segment@.len() >= 2 { Some(segment@[1]) } else { None::<u8> }),
{
    if segment.len() >= 2 {
        Some(segment[1])
    } else {
        None
    }
}

/// Returns the user data of a byte sequence: the bytes after the sequence
/// number, if there are any and they fit in a data segment.
fn data_of(segment: &[u8]) -> (r: Option<DataSegment>)
    ensures
        match r {
            Some(d) => 2 < segment@.len() <= MAX_DATA_LEN + 2 && d@ == segment@.subrange(
                2,
                segment@.len() as int,
            ),
            None => segment@.len() <= 2 || segment@.len() > MAX_DATA_LEN + 2,
        },
{
    if segment.len() <= 2 {
        return None;
    }
    let bytes = copy_range(segment, 2, segment.len());
    match DataSegment::from_vec(bytes) {
        Ok(d) => Some(d),
        Err(_) => None,
    }
}

impl Segment {
    /// The bytes that represent this segment on the wire.
    pub fn to_bytes(self) -> (out: Vec<u8>)
        ensures
            out@ == encode(self@),
    {
        let mut out: Vec<u8> = Vec::new();
        match self {
            Segment::Establish { start_seq_num } => {
                out.push(INSTR_CODE_ESTABLISH);
                out.push(start_seq_num);
            },
            Segment::Reset => {
                out.push(INSTR_CODE_RESET);
            },
            Segment::Acknowledge { seq_num } => {
                out.push(INSTR_CODE_ACKNOWLEDGE);
                out.push(seq_num);
            },
            Segment::Sequential { seq_num, variant } => match variant {
                SeqSegment::Accept => {
                    out.push(INSTR_CODE_ACCEPT);
                    out.push(seq_num);
                },
                SeqSegment::Finish => {
                    out.push(INSTR_CODE_FINISH);
                    out.push(seq_num);
                },
                SeqSegment::Data { data } => {
                    out.push(INSTR_CODE_DATA);
                    out.push(seq_num);
                    let bytes = data.as_ref();
                    let mut i: usize = 0;
                    while i < bytes.len()
                        invariant
                            i <= bytes@.len(),
                            bytes@ == data@,
                            out@ == seq![INSTR_CODE_DATA, seq_num] + bytes@.subrange(0, i as int),
                        decreases bytes@.len() - i,
                    {
                        out.push(bytes[i]);
                        i = i + 1;
                        proof {
                            assert(bytes@.subrange(0, i as int) =~= bytes@.subrange(
                                0,
                                i - 1,
                            ).push(bytes@[i - 1]));
                        }
                    }
                    proof {
                        assert(bytes@.subrange(0, bytes@.len() as int) =~= bytes@);
                    }
                },
            },
        }
        proof {
            assert(out@ =~= encode(self@));
        }
        out
    }

    /// Reads a byte sequence as a segment. Fails with
    /// [`MdswpError::MalformedSegment`] naming the check that failed.
    pub fn try_from(segment: &[u8]) -> (r: Result<Segment, MdswpError>)
        ensures
            match decode(segment@) {
                Ok(v) => r matches Ok(s) && s@ == v,
                Err(fault) => r == Err::<Segment, MdswpError>(
                    MdswpError::MalformedSegment { fault },
                ),
            },
    {
        if segment.len() > MAX_SEGMENT_LEN {
            return Err(MdswpError::MalformedSegment { fault: SegmentFault::Length });
        }
        let instr_code = instr_code_of(segment);
        let seq_num = seq_num_of(segment);
        let data = data_of(segment);
        let instr_code = match instr_code {
            None => return Err(MdswpError::MalformedSegment { fault: SegmentFault::Length }),
            Some(code) => code,
        };
        let len = segment.len();
        if instr_code == INSTR_CODE_ESTABLISH {
            match (seq_num, data) {
                (Some(n), None) => Ok(Segment::Establish { start_seq_num: n }),
                _ => Err(MdswpError::MalformedSegment { fault: SegmentFault::Establish }),
            }
        } else if instr_code == INSTR_CODE_RESET {
            match seq_num {
                None => Ok(Segment::Reset),
                Some(_) => Err(MdswpError::MalformedSegment { fault: SegmentFault::Reset }),
            }
        } else if instr_code == INSTR_CODE_ACCEPT {
            match (seq_num, data) {
                (Some(n), None) => Ok(Segment::Sequential { seq_num: n, variant: SeqSegment::Accept }),
                _ => Err(MdswpError::MalformedSegment { fault: SegmentFault::Accept }),
            }
        } else if instr_code == INSTR_CODE_FINISH {
            match (seq_num, data) {
                (Some(n), None) => Ok(Segment::Sequential { seq_num: n, variant: SeqSegment::Finish }),
                _ => Err(MdswpError::MalformedSegment { fault: SegmentFault::Finish }),
            }
        } else if instr_code == INSTR_CODE_ACKNOWLEDGE {
            match (seq_num, data) {
                (Some(n), None) => Ok(Segment::Acknowledge { seq_num: n }),
                _ => Err(MdswpError::MalformedSegment { fault: SegmentFault::Acknowledge }),
            }
        } else if instr_code == INSTR_CODE_DATA {
            match (seq_num, data) {
                (Some(n), Some(d)) => Ok(
                    Segment::Sequential { seq_num: n, variant: SeqSegment::Data { data: d } },
                ),
                (Some(n), None) => if len == 2 {
                    match DataSegment::from_vec(Vec::new()) {
                        Ok(d) => {
                            proof {
                                assert(d@ =~= segment@.subrange(2, 2));
                            }
                            Ok(Segment::Sequential { seq_num: n, variant: SeqSegment::Data { data: d } })
                        },
                        Err(e) => Err(e),
                    }
                } else {
                    Err(MdswpError::MalformedSegment { fault: SegmentFault::Data })
                },
                _ => Err(MdswpError::MalformedSegment { fault: SegmentFault::Data }),
            }
        } else {
            Err(MdswpError::MalformedSegment { fault: SegmentFault::UnknownType })
        }
    }

    /// The summary of the segment that error messages carry.
    pub fn summary(&self) -> (s: SegmentSummary)
        ensures
            s == segment_summary(self@),
    {
        match self {
            Segment::Establish { start_seq_num } => SegmentSummary::Establish {
                start_seq_num: *start_seq_num,
            },
            Segment::Reset => SegmentSummary::Reset,
            Segment::Acknowledge { seq_num } => SegmentSummary::Acknowledge { seq_num: *seq_num },
            Segment::Sequential { seq_num, variant } => SegmentSummary::Sequential {
                seq_num: *seq_num,
                kind: variant.kind(),
            },
        }
    }
}

/// Reading back the bytes of an encodable segment gives the segment.
pub proof fn lemma_decode_encode(s: SegmentView)
    requires
        encodable(s),
    ensures
        decode(encode(s)) == Ok::<SegmentView, SegmentFault>(s),
{
    match s {
        SegmentView::Sequential(n, SeqSegmentView::Data(d)) => {
            let b = encode(s);
            assert(b.subrange(2, b.len() as int) =~= d);
        },
        _ => {},
    }
}

/// Bytes that read as a segment are exactly the bytes of that segment, and the
/// segment is encodable.
pub proof fn lemma_encode_decode(b: Seq<u8>)
    requires
        decode(b) is Ok,
    ensures
        encode(decode(b)->Ok_0) == b,
        encodable(decode(b)->Ok_0),
{
    let s = decode(b)->Ok_0;
    if b[0] == INSTR_CODE_DATA {
        assert(encode(s) =~= b);
    } else if b[0] == INSTR_CODE_RESET {
        assert(encode(s) =~= b);
    } else {
        assert(encode(s) =~= b);
    }
}

} // verus!
