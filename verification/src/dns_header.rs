//! The fixed 12-byte header that opens every DNS message.

use crate::wire::{be16, get_u16, overwrite, put_u16, u16_at};
use rand::Rng;
use vstd::prelude::*;

verus! {

/// Number of bytes the header takes on the wire.
pub const HEADER_LEN: usize = 12;

/// Flags of a standard query with recursion desired.
pub const QUERY_FLAGS: u16 = 0x0100;

/// The six 16-bit fields of a DNS message header.
#[derive(Debug, Clone, Copy, PartialEq, Eq, Structural)]
pub struct DnsHeader {
    pub id: u16,
    pub flags: u16,
    pub qdcount: u16,
    pub ancount: u16,
    pub nscount: u16,
    pub arcount: u16,
}

/// Draws a 16-bit value from the thread-local generator of `rand`
/// (`rand::rng()`, then `Rng::random`). The value is random, so nothing is
/// stated of it. The generator takes its seed from the operating system, when
/// a thread first uses it and again after every 64 kB drawn; `rand` panics if
/// the operating system cannot supply it.
#[verifier::external_body]
fn random_u16() -> u16 {
    let mut rng = rand::rng();
    rng.random()
}

impl DnsHeader {
    /// The header of a query for one question, sent under `id`.
    pub open spec fn query(id: u16) -> DnsHeader {
        DnsHeader { id, flags: QUERY_FLAGS, qdcount: 1, ancount: 0, nscount: 0, arcount: 0 }
    }

    /// The twelve bytes of the header: each field big-endian, in declaration order.
    pub open spec fn wire(self) -> Seq<u8> {
        be16(self.id) + be16(self.flags) + be16(self.qdcount) + be16(self.ancount) + be16(
            self.nscount,
        ) + be16(self.arcount)
    }

    /// The header that the first twelve bytes of `buf` spell out.
    pub open spec fn from_wire(buf: Seq<u8>) -> DnsHeader
        recommends
            buf.len() >= HEADER_LEN,
    {
        DnsHeader {
            id: u16_at(buf, 0),
            flags: u16_at(buf, 2),
            qdcount: u16_at(buf, 4),
            ancount: u16_at(buf, 6),
            nscount: u16_at(buf, 8),
            arcount: u16_at(buf, 10),
        }
    }

    /// A query header with the given id: recursion desired, one question.
    pub fn new(id: u16) -> (h: Self)
        ensures
            h == Self::query(id),
    {
        Self { id, flags: QUERY_FLAGS, qdcount: 1, ancount: 0, nscount: 0, arcount: 0 }
    }

    /// A query header under a randomly drawn id. Whatever id is drawn, the
    /// header is the query header for it. The id comes from `rand`, which
    /// panics if the operating system cannot seed its generator; `new` takes
    /// an id from the caller instead.
    pub fn with_random_id() -> (h: Self)
        ensures
            h == Self::query(h.id),
    {
        Self::new(random_u16())
    }

    /// Writes the header into `buf[0..12]` and leaves the rest of `buf` alone.
    pub fn write_header(&self, buf: &mut [u8; 512])
        ensures
            final(buf)@ == overwrite(old(buf)@, 0, self.wire()),
    {
        put_u16(buf, 0, self.id);
        put_u16(buf, 2, self.flags);
        put_u16(buf, 4, self.qdcount);
        put_u16(buf, 6, self.ancount);
        put_u16(buf, 8, self.nscount);
        put_u16(buf, 10, self.arcount);
        assert(buf@ =~= overwrite(old(buf)@, 0, self.wire()));
    }

    /// Reads a header from `buf[0..12]`. No field is checked against any query.
    pub fn read_header(buf: &[u8; 512]) -> (h: Self)
        ensures
            h == Self::from_wire(buf@),
    {
        Self {
            id: get_u16(buf, 0),
            flags: get_u16(buf, 2),
            qdcount: get_u16(buf, 4),
            ancount: get_u16(buf, 6),
            nscount: get_u16(buf, 8),
            arcount: get_u16(buf, 10),
        }
    }

    /// Reading back a header that was written gives the same header, whatever
    /// the buffer held before.
    pub proof fn lemma_write_then_read(self, buf: Seq<u8>)
        requires
            buf.len() >= HEADER_LEN,
        ensures
            self.wire().len() == HEADER_LEN,
            Self::from_wire(overwrite(buf, 0, self.wire())) == self,
    {
        let w = overwrite(buf, 0, self.wire());
        assert(u16_at(w, 0) == self.id);
        assert(u16_at(w, 2) == self.flags);
        assert(u16_at(w, 4) == self.qdcount);
        assert(u16_at(w, 6) == self.ancount);
        assert(u16_at(w, 8) == self.nscount);
        assert(u16_at(w, 10) == self.arcount);
    }
}

} // verus!
