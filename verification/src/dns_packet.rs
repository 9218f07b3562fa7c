//! A query message: the header followed by one question.

use crate::dns_header::{DnsHeader, HEADER_LEN};
use crate::dns_question::DnsQuestion;
use crate::wire::overwrite;
use vstd::prelude::*;

verus! {

/// A query with a single question. Nothing follows the question on the wire.
pub struct DnsPacket {
    pub header: DnsHeader,
    pub question: DnsQuestion,
}

impl DnsPacket {
    /// The message on the wire: the twelve bytes of the header, then the
    /// question.
    pub open spec fn wire(&self) -> Seq<u8> {
        self.header.wire() + self.question.wire()
    }

    /// Writes the message to the front of `buf`. What lies behind the message
    /// in `buf` is left as it was; it is padding and no part of the message.
    pub fn write_packet(&self, buf: &mut [u8; 512])
        requires
            self.question.wf(),
        ensures
            final(buf)@ == overwrite(old(buf)@, 0, self.wire()),
    {
        self.header.write_header(buf);
        self.question.write_question(buf);
        assert(buf@ =~= overwrite(old(buf)@, 0, self.wire()));
    }

    /// The number of bytes of the buffer that make up the message, and so the
    /// number of bytes to send: header, name, type and class.
    pub fn used_len(&self) -> (n: usize)
        requires
            self.question.wf(),
        ensures
            n == HEADER_LEN + self.question.qname_len + 4,
            n == self.wire().len(),
            n <= 512,
    {
        HEADER_LEN + self.question.qname_len + 4
    }
}

} // verus!
