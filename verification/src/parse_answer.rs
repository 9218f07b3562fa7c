//! Decoding the answer section of a reply.
//!
//! The reply is a byte buffer. The spec functions of this module say, for a
//! byte sequence and a cursor, which records the answer section holds; the
//! executable functions compute exactly that and fail with an error wherever
//! the bytes run out.

use crate::dns_header::DnsHeader;
use crate::error::DnsError;
use crate::name_reader::{lemma_name_ref_in_bounds, name_ref_at};
use crate::wire::{get_u16, get_u32, u16_at, u32_at};
use vstd::prelude::*;
use vstd::slice::{slice_subrange, slice_to_vec};

verus! {

/// Type code of an IPv4 address record.
pub const TYPE_A: u16 = 1;

/// Type code of a canonical-name record.
pub const TYPE_CNAME: u16 = 5;

/// Type code of a mail-exchange record.
pub const TYPE_MX: u16 = 15;

/// Type code of a text record.
pub const TYPE_TXT: u16 = 16;

/// Type code of an IPv6 address record.
pub const TYPE_AAAA: u16 = 28;

/// Bytes of a record between its name and its body: type, class, ttl, length.
pub const RECORD_FIXED_LEN: usize = 10;

/// The type-specific body of a resource record.
#[derive(Debug, PartialEq, Eq)]
pub enum RData {
    A([u8; 4]),
    AAAA([u8; 16]),
    MX { preference: u16, exchange_offset: u16 },
    CNAME { name_offset: u16 },
    Unknown { rtype: u16, data: Vec<u8> },
}

/// One decoded resource record. Names are kept as offsets into the message.
#[derive(Debug, PartialEq, Eq)]
pub struct IpAnswer {
    pub name_offset: u16,
    pub class: u16,
    pub ttl: u32,
    pub rdata: RData,
}

/// A reply: its header and the records of its answer section, in wire order.
#[derive(Debug)]
pub struct DnsResponse {
    pub header: DnsHeader,
    pub answers: Vec<IpAnswer>,
}

/// The record types a query can ask for.
#[derive(Debug, Clone, Copy, PartialEq, Eq, Structural)]
pub enum RecordType {
    A,
    MX,
    TXT,
    AAAA,
}

/// What an `RData` holds, with byte strings as sequences.
pub enum RDataView {
    A(Seq<u8>),
    AAAA(Seq<u8>),
    MX { preference: u16, exchange_offset: u16 },
    CNAME { name_offset: u16 },
    Unknown { rtype: u16, data: Seq<u8> },
}

/// What an `IpAnswer` holds.
pub struct IpAnswerView {
    pub name_offset: u16,
    pub class: u16,
    pub ttl: u32,
    pub rdata: RDataView,
}

/// What a `DnsResponse` holds.
pub struct DnsResponseView {
    pub header: DnsHeader,
    pub answers: Seq<IpAnswerView>,
}

impl View for RData {
    type V = RDataView;

    open spec fn view(&self) -> RDataView {
        match *self {
            RData::A(ip) => RDataView::A(ip@),
            RData::AAAA(ip) => RDataView::AAAA(ip@),
            RData::MX { preference, exchange_offset } => RDataView::MX {
                preference,
                exchange_offset,
            },
            RData::CNAME { name_offset } => RDataView::CNAME { name_offset },
            RData::Unknown { rtype, data } => RDataView::Unknown { rtype, data: data@ },
        }
    }
}

impl View for IpAnswer {
    type V = IpAnswerView;

    open spec fn view(&self) -> IpAnswerView {
        IpAnswerView {
            name_offset: self.name_offset,
            class: self.class,
            ttl: self.ttl,
            rdata: self.rdata@,
        }
    }
}

impl View for DnsResponse {
    type V = DnsResponseView;

    open spec fn view(&self) -> DnsResponseView {
        DnsResponseView { header: self.header, answers: answers_view(self.answers@) }
    }
}

/// The views of a sequence of records, in the same order.
pub open spec fn answers_view(answers: Seq<IpAnswer>) -> Seq<IpAnswerView> {
    answers.map_values(|a: IpAnswer| a@)
}

/// The body of a record of type `rtype` whose body starts at `pos` and whose
/// declared length is `rdlength`, and the cursor past it.
///
/// MX and CNAME bodies end where their name reference ends; the declared
/// length does not bound them. Every other body takes `rdlength` bytes, which
/// must lie inside the buffer; an A body must then be 4 bytes long and an
/// AAAA body 16.
pub open spec fn rdata_at(buf: Seq<u8>, pos: int, rtype: u16, rdlength: u16) -> Result<
    (RDataView, int),
    DnsError,
> {
    if rtype == TYPE_MX {
        if pos + 2 > buf.len() {
            Err(DnsError::TruncatedMessage)
        } else {
            match name_ref_at(buf, pos + 2) {
                Ok((exchange_offset, next)) => Ok(
                    (RDataView::MX { preference: u16_at(buf, pos), exchange_offset }, next),
                ),
                Err(e) => Err(e),
            }
        }
    } else if rtype == TYPE_CNAME {
        match name_ref_at(buf, pos) {
            Ok((name_offset, next)) => Ok((RDataView::CNAME { name_offset }, next)),
            Err(e) => Err(e),
        }
    } else if pos + rdlength > buf.len() {
        Err(DnsError::TruncatedMessage)
    } else if rtype == TYPE_A {
        if rdlength != 4 {
            Err(DnsError::MalformedRecord)
        } else {
            Ok((RDataView::A(buf.subrange(pos, pos + 4)), pos + 4))
        }
    } else if rtype == TYPE_AAAA {
        if rdlength != 16 {
            Err(DnsError::MalformedRecord)
        } else {
            Ok((RDataView::AAAA(buf.subrange(pos, pos + 16)), pos + 16))
        }
    } else {
        Ok((RDataView::Unknown { rtype, data: buf.subrange(pos, pos + rdlength) }, pos + rdlength))
    }
}

/// The record that starts at `pos`, and the cursor past it: a name reference,
/// then type, class, ttl and body length in ten bytes, then the body.
pub open spec fn record_at(buf: Seq<u8>, pos: int) -> Result<(IpAnswerView, int), DnsError> {
    match name_ref_at(buf, pos) {
        Err(e) => Err(e),
        Ok((name_offset, fixed)) => {
            if fixed + RECORD_FIXED_LEN > buf.len() {
                Err(DnsError::TruncatedMessage)
            } else {
                match rdata_at(
                    buf,
                    fixed + RECORD_FIXED_LEN,
                    u16_at(buf, fixed),
                    u16_at(buf, fixed + 8),
                ) {
                    Err(e) => Err(e),
                    Ok((rdata, next)) => Ok(
                        (
                            IpAnswerView {
                                name_offset,
                                class: u16_at(buf, fixed + 2),
                                ttl: u32_at(buf, fixed + 4),
                                rdata,
                            },
                            next,
                        ),
                    ),
                }
            }
        },
    }
}

/// The outcome of reading a run of records: those that were read before the
/// run ended, and how it ended (the final cursor, or the first error).
pub struct AnswerRun {
    pub records: Seq<IpAnswerView>,
    pub end: Result<int, DnsError>,
}

/// Reading `count` records one after another from `pos` on, stopping at the
/// first one that fails.
pub open spec fn answers_at(buf: Seq<u8>, pos: int, count: nat) -> AnswerRun
    decreases count,
{
    if count == 0 {
        AnswerRun { records: Seq::empty(), end: Ok(pos) }
    } else {
        match record_at(buf, pos) {
            Err(e) => AnswerRun { records: Seq::empty(), end: Err(e) },
            Ok((record, next)) => {
                let rest = answers_at(buf, next, (count - 1) as nat);
                AnswerRun { records: seq![record] + rest.records, end: rest.end }
            },
        }
    }
}

/// A record that can be read lies inside the buffer, whatever the bytes are:
/// its name, its ten fixed bytes and its body end at or before the end of the
/// buffer. A record that would reach further is never read.
pub proof fn lemma_record_in_bounds(buf: Seq<u8>, pos: int)
    ensures
        record_at(buf, pos) matches Ok((_, next)) ==> 0 <= pos && pos + RECORD_FIXED_LEN < next
            <= buf.len(),
{
    lemma_name_ref_in_bounds(buf, pos);
    if let Ok((_, fixed)) = name_ref_at(buf, pos) {
        lemma_name_ref_in_bounds(buf, fixed + RECORD_FIXED_LEN);
        lemma_name_ref_in_bounds(buf, fixed + RECORD_FIXED_LEN + 2);
    }
}

/// A run of records that ends well ends inside the buffer, and holds as
/// many records as were asked for. A run that fails holds fewer.
pub proof fn lemma_answers_in_bounds(buf: Seq<u8>, pos: int, count: nat)
    requires
        0 <= pos <= buf.len(),
    ensures
        answers_at(buf, pos, count).end matches Ok(end) ==> pos <= end <= buf.len()
            && answers_at(buf, pos, count).records.len() == count,
        answers_at(buf, pos, count).end is Err ==> answers_at(buf, pos, count).records.len()
            < count,
    decreases count,
{
    if count > 0 {
        lemma_record_in_bounds(buf, pos);
        if let Ok((_, next)) = record_at(buf, pos) {
            lemma_answers_in_bounds(buf, next, (count - 1) as nat);
        }
    }
}

/// A record whose body would reach past the end of the buffer fails with
/// `TruncatedMessage`, and so does every run of records that starts with it.
/// This holds of every type whose body is measured by its declared length,
/// that is, of every type but MX and CNAME.
pub proof fn lemma_truncated_body(buf: Seq<u8>, pos: int, name_offset: u16, fixed: int, count: nat)
    requires
        name_ref_at(buf, pos) == Ok::<(u16, int), DnsError>((name_offset, fixed)),
        fixed + RECORD_FIXED_LEN <= buf.len(),
        u16_at(buf, fixed) != TYPE_MX,
        u16_at(buf, fixed) != TYPE_CNAME,
        fixed + RECORD_FIXED_LEN + u16_at(buf, fixed + 8) > buf.len(),
        count > 0,
    ensures
        record_at(buf, pos) == Err::<(IpAnswerView, int), DnsError>(DnsError::TruncatedMessage),
        answers_at(buf, pos, count).end == Err::<int, DnsError>(DnsError::TruncatedMessage),
        answers_at(buf, pos, count).records == Seq::<IpAnswerView>::empty(),
{
}

/// A record cut off inside its ten fixed bytes fails with `TruncatedMessage`.
pub proof fn lemma_truncated_fields(buf: Seq<u8>, pos: int, name_offset: u16, fixed: int)
    requires
        name_ref_at(buf, pos) == Ok::<(u16, int), DnsError>((name_offset, fixed)),
        fixed + RECORD_FIXED_LEN > buf.len(),
    ensures
        record_at(buf, pos) == Err::<(IpAnswerView, int), DnsError>(DnsError::TruncatedMessage),
{
}

/// A record of a type that is not decoded (any but A, AAAA, MX and CNAME)
/// whose body lies inside the buffer is read as `Unknown`: it carries the type
/// code and exactly the bytes of the body. The records behind it are read as if
/// the run had started right behind its body.
pub proof fn lemma_unknown_record(buf: Seq<u8>, pos: int, name_offset: u16, fixed: int, count: nat)
    requires
        name_ref_at(buf, pos) == Ok::<(u16, int), DnsError>((name_offset, fixed)),
        u16_at(buf, fixed) != TYPE_A,
        u16_at(buf, fixed) != TYPE_AAAA,
        u16_at(buf, fixed) != TYPE_MX,
        u16_at(buf, fixed) != TYPE_CNAME,
        fixed + RECORD_FIXED_LEN + u16_at(buf, fixed + 8) <= buf.len(),
    ensures
        record_at(buf, pos) == Ok::<(IpAnswerView, int), DnsError>(
            (
                IpAnswerView {
                    name_offset,
                    class: u16_at(buf, fixed + 2),
                    ttl: u32_at(buf, fixed + 4),
                    rdata: RDataView::Unknown {
                        rtype: u16_at(buf, fixed),
                        data: buf.subrange(
                            fixed + RECORD_FIXED_LEN,
                            fixed + RECORD_FIXED_LEN + u16_at(buf, fixed + 8),
                        ),
                    },
                },
                fixed + RECORD_FIXED_LEN + u16_at(buf, fixed + 8),
            ),
        ),
        answers_at(buf, pos, count + 1).records == seq![record_at(buf, pos)->Ok_0.0] + answers_at(
            buf,
            fixed + RECORD_FIXED_LEN + u16_at(buf, fixed + 8),
            count,
        ).records,
        answers_at(buf, pos, count + 1).end == answers_at(
            buf,
            fixed + RECORD_FIXED_LEN + u16_at(buf, fixed + 8),
            count,
        ).end,
{
}

impl RecordType {
    /// The record type with the given type code, if a query can ask for it.
    pub open spec fn spec_from_u16(v: u16) -> Option<RecordType> {
        if v == TYPE_A {
            Some(RecordType::A)
        } else if v == TYPE_MX {
            Some(RecordType::MX)
        } else if v == TYPE_TXT {
            Some(RecordType::TXT)
        } else if v == TYPE_AAAA {
            Some(RecordType::AAAA)
        } else {
            None
        }
    }

    /// The type code of this record type.
    pub open spec fn code(self) -> u16 {
        match self {
            RecordType::A => TYPE_A,
            RecordType::MX => TYPE_MX,
            RecordType::TXT => TYPE_TXT,
            RecordType::AAAA => TYPE_AAAA,
        }
    }

    /// The record type with the given type code, if a query can ask for it.
    pub fn from_u16(v: u16) -> (r: Option<Self>)
        ensures
            r == Self::spec_from_u16(v),
    {
        match v {
            1 => Some(Self::A),
            15 => Some(Self::MX),
            16 => Some(Self::TXT),
            28 => Some(Self::AAAA),
            _ => None,
        }
    }

    /// The type code that goes on the wire for this record type.
    pub fn to_u16(self) -> (v: u16)
        ensures
            v == self.code(),
            Self::spec_from_u16(v) == Some(self),
    {
        match self {
            RecordType::A => TYPE_A,
            RecordType::MX => TYPE_MX,
            RecordType::TXT => TYPE_TXT,
            RecordType::AAAA => TYPE_AAAA,
        }
    }
}

/// The four bytes of `buf` from `at` on.
fn copy4(buf: &[u8], at: usize) -> (a: [u8; 4])
    requires
        at + 4 <= buf.len(),
    ensures
        a@ == buf@.subrange(at as int, at + 4),
{
    let a = [buf[at], buf[at + 1], buf[at + 2], buf[at + 3]];
    assert(a@ =~= buf@.subrange(at as int, at + 4));
    a
}

/// The sixteen bytes of `buf` from `at` on.
fn copy16(buf: &[u8], at: usize) -> (a: [u8; 16])
    requires
        at + 16 <= buf.len(),
    ensures
        a@ == buf@.subrange(at as int, at + 16),
{
    let a = [
        buf[at],
        buf[at + 1],
        buf[at + 2],
        buf[at + 3],
        buf[at + 4],
        buf[at + 5],
        buf[at + 6],
        buf[at + 7],
        buf[at + 8],
        buf[at + 9],
        buf[at + 10],
        buf[at + 11],
        buf[at + 12],
        buf[at + 13],
        buf[at + 14],
        buf[at + 15],
    ];
    assert(a@ =~= buf@.subrange(at as int, at + 16));
    a
}

/// Reads the body of a record of type `rtype` at `ptr`.
pub fn read_rdata(buf: &[u8], ptr: usize, rtype: u16, rdlength: u16) -> (r: Result<
    (RData, usize),
    DnsError,
>)
    ensures
        match rdata_at(buf@, ptr as int, rtype, rdlength) {
            Ok((rdata, next)) => r matches Ok((got, cursor)) && got@ == rdata && cursor == next,
            Err(e) => r matches Err(got) && got == e,
        },
{
    let len = buf.len();
    match RecordType::from_u16(rtype) {
        Some(RecordType::MX) => {
            if ptr > len || len - ptr < 2 {
                return Err(DnsError::TruncatedMessage);
            }
            let preference = get_u16(buf, ptr);
            let (exchange_offset, next) = DnsResponse::read_name(buf, ptr + 2)?;
            Ok((RData::MX { preference, exchange_offset }, next))
        },
        Some(RecordType::A) => {
            if ptr > len || len - ptr < rdlength as usize {
                return Err(DnsError::TruncatedMessage);
            }
            if rdlength != 4 {
                return Err(DnsError::MalformedRecord);
            }
            Ok((RData::A(copy4(buf, ptr)), ptr + 4))
        },
        Some(RecordType::AAAA) => {
            if ptr > len || len - ptr < rdlength as usize {
                return Err(DnsError::TruncatedMessage);
            }
            if rdlength != 16 {
                return Err(DnsError::MalformedRecord);
            }
            Ok((RData::AAAA(copy16(buf, ptr)), ptr + 16))
        },
        _ => {
            if rtype == TYPE_CNAME {
                let (name_offset, next) = DnsResponse::read_name(buf, ptr)?;
                Ok((RData::CNAME { name_offset }, next))
            } else {
                if ptr > len || len - ptr < rdlength as usize {
                    return Err(DnsError::TruncatedMessage);
                }
                let end = ptr + rdlength as usize;
                let data = slice_to_vec(slice_subrange(buf, ptr, end));
                Ok((RData::Unknown { rtype, data }, end))
            }
        },
    }
}

/// Reads the record that starts at `ptr`.
pub fn read_record(buf: &[u8], ptr: usize) -> (r: Result<(IpAnswer, usize), DnsError>)
    ensures
        match record_at(buf@, ptr as int) {
            Ok((record, next)) => r matches Ok((got, cursor)) && got@ == record && cursor == next,
            Err(e) => r matches Err(got) && got == e,
        },
{
    let (name_offset, fixed) = DnsResponse::read_name(buf, ptr)?;
    if buf.len() - fixed < RECORD_FIXED_LEN {
        return Err(DnsError::TruncatedMessage);
    }
    let rtype = get_u16(buf, fixed);
    let class = get_u16(buf, fixed + 2);
    let ttl = get_u32(buf, fixed + 4);
    let rdlength = get_u16(buf, fixed + 8);
    let (rdata, next) = read_rdata(buf, fixed + RECORD_FIXED_LEN, rtype, rdlength)?;
    Ok((IpAnswer { name_offset, class, ttl, rdata }, next))
}

impl DnsResponse {
    /// Whether the id in the first two bytes of `buf` is the id of this
    /// response's header. A mismatch is for the caller to report; decoding
    /// does not depend on it.
    pub fn id_matches(&self, buf: &[u8; 512]) -> (same: bool)
        ensures
            same == (self.header.id == u16_at(buf@, 0)),
    {
        self.header.id == get_u16(buf, 0)
    }

    /// Decodes the answer section of the reply in `buf` and appends its
    /// records to `self.answers`.
    ///
    /// The answer section starts behind the header and the echoed question,
    /// at `12 + question_size`, and holds as many records as the reply's own
    /// header announces in its answer count. Records are appended in wire
    /// order. At the first record that cannot be read the error is returned,
    /// and the records before it stay appended.
    pub fn parse_response(&mut self, buf: &[u8; 512], question_size: usize) -> (r: Result<
        (),
        DnsError,
    >)
        ensures
            final(self).header == old(self).header,
            final(self)@.answers == old(self)@.answers + answers_at(
                buf@,
                12 + question_size,
                u16_at(buf@, 6) as nat,
            ).records,
            match answers_at(buf@, 12 + question_size, u16_at(buf@, 6) as nat).end {
                Ok(_) => r is Ok,
                Err(e) => r == Err::<(), DnsError>(e),
            },
    {
        let ancount = get_u16(buf, 6);
        let ghost before = self@.answers;
        let ghost all = answers_at(buf@, 12 + question_size, ancount as nat);
        if ancount == 0 {
            assert(before + all.records =~= before);
            return Ok(());
        }
        if question_size > usize::MAX - 12 {
            assert(before + all.records =~= before);
            return Err(DnsError::TruncatedMessage);
        }
        let mut ptr = 12 + question_size;
        let mut i: u16 = 0;
        let ghost mut done = Seq::<IpAnswerView>::empty();
        assert(all.records =~= done + all.records);
        while i < ancount
            invariant
                i <= ancount,
                ancount == u16_at(buf@, 6),
                before == old(self)@.answers,
                all == answers_at(buf@, 12 + question_size, ancount as nat),
                self.header == old(self).header,
                self@.answers == before + done,
                all.records == done + answers_at(buf@, ptr as int, (ancount - i) as nat).records,
                all.end == answers_at(buf@, ptr as int, (ancount - i) as nat).end,
            decreases ancount - i,
        {
            let ghost rest = answers_at(buf@, ptr as int, (ancount - i) as nat);
            match read_record(buf, ptr) {
                Err(e) => {
                    assert(rest.records =~= Seq::empty());
                    assert(before + all.records =~= before + done);
                    return Err(e);
                },
                Ok((answer, next)) => {
                    let ghost record = answer@;
                    let ghost held = self.answers@;
                    let ghost tail = answers_at(buf@, next as int, (ancount - i - 1) as nat);
                    assert(rest.records == seq![record] + tail.records);
                    assert(done + rest.records =~= done.push(record) + tail.records);
                    self.answers.push(answer);
                    assert(answers_view(held.push(answer)) =~= answers_view(held).push(record));
                    assert(before + done.push(record) =~= (before + done).push(record));
                    proof {
                        done = done.push(record);
                    }
                    ptr = next;
                },
            }
            i += 1;
        }
        assert(before + all.records =~= before + done);
        Ok(())
    }

    /// Decodes a whole reply: the header in its first twelve bytes, then the
    /// answer section behind the echoed question of `question_size` bytes.
    /// Fails with the first error of the answer section.
    pub fn parse(buf: &[u8; 512], question_size: usize) -> (r: Result<DnsResponse, DnsError>)
        ensures
            match answers_at(buf@, 12 + question_size, u16_at(buf@, 6) as nat).end {
                Ok(_) => r matches Ok(response) && response@ == (DnsResponseView {
                    header: DnsHeader::from_wire(buf@),
                    answers: answers_at(buf@, 12 + question_size, u16_at(buf@, 6) as nat).records,
                }),
                Err(e) => r matches Err(got) && got == e,
            },
    {
        let mut response = DnsResponse { header: DnsHeader::read_header(buf), answers: Vec::new() };
        assert(response@.answers =~= Seq::empty());
        match response.parse_response(buf, question_size) {
            Ok(()) => {
                assert(response@.answers =~= answers_at(
                    buf@,
                    12 + question_size,
                    u16_at(buf@, 6) as nat,
                ).records);
                Ok(response)
            },
            Err(e) => Err(e),
        }
    }
}

} // verus!
