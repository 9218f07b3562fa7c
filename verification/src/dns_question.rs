//! The question of a query: an encoded name, a type and a class.

use crate::dns_name::{
    encode_name, labels_after, labels_error, labels_len, labels_wire, lemma_error_extends,
    lemma_labels_wire_len, lemma_next_dot, split_labels, DOT, MAX_LABEL_LEN, NAME_CAPACITY,
};
use crate::error::DnsError;
use crate::wire::{be16, overwrite, put_u16};
use vstd::prelude::*;
use vstd::string::StringSliceAdditionalSpecFns;

verus! {

/// Where the question starts in a message: right behind the header.
pub const QUESTION_OFFSET: usize = 12;

/// Type code of an address query, the type a new builder asks for.
pub const QTYPE_A: u16 = 1;

/// Class code of the Internet, the only class asked for.
pub const QCLASS_IN: u16 = 1;

/// What a question holds: the encoded name (empty as long as none was set),
/// the type and the class.
pub struct QuestionView {
    pub name: Seq<u8>,
    pub qtype: u16,
    pub qclass: u16,
}

/// A question ready to be written into a message. The name is the first
/// `qname_len` bytes of `qname`.
#[derive(Debug, Clone, Copy)]
pub struct DnsQuestion {
    pub qname: [u8; 128],
    pub qname_len: usize,
    pub qtype: u16,
    pub qclass: u16,
}

/// Builds a question step by step.
#[derive(Debug)]
pub struct DnsQuestionBuilder {
    qname: [u8; 128],
    qname_len: usize,
    qtype: u16,
    qclass: u16,
}

impl View for DnsQuestion {
    type V = QuestionView;

    open spec fn view(&self) -> QuestionView {
        QuestionView {
            name: self.qname@.take(self.qname_len as int),
            qtype: self.qtype,
            qclass: self.qclass,
        }
    }
}

impl View for DnsQuestionBuilder {
    type V = QuestionView;

    closed spec fn view(&self) -> QuestionView {
        QuestionView {
            name: self.qname@.take(self.qname_len as int),
            qtype: self.qtype,
            qclass: self.qclass,
        }
    }
}

impl DnsQuestion {
    /// The name lies inside the name buffer.
    pub open spec fn wf(&self) -> bool {
        self.qname_len <= NAME_CAPACITY
    }

    /// The question on the wire: the name, then type and class big-endian.
    pub open spec fn wire(&self) -> Seq<u8> {
        self@.name + be16(self.qtype) + be16(self.qclass)
    }

    /// A builder for an address query in class IN, with no name yet and a
    /// name buffer of zeros.
    pub fn builder() -> (b: DnsQuestionBuilder)
        ensures
            b@ == (QuestionView { name: Seq::empty(), qtype: QTYPE_A, qclass: QCLASS_IN }),
            b.buffer() == Seq::new(NAME_CAPACITY as nat, |i: int| 0u8),
    {
        let b = DnsQuestionBuilder {
            qname: [0;128],
            qname_len: 0,
            qtype: QTYPE_A,
            qclass: QCLASS_IN,
        };
        assert(b@.name =~= Seq::empty());
        assert(b.buffer() =~= Seq::new(NAME_CAPACITY as nat, |i: int| 0u8));
        b
    }

    /// The number of bytes the question takes on the wire.
    pub fn wire_len(&self) -> (n: usize)
        requires
            self.wf(),
        ensures
            n == self.qname_len + 4,
            n == self.wire().len(),
    {
        self.qname_len + 4
    }

    /// Writes the question into `buf` from byte 12 on and leaves the rest of
    /// `buf` alone.
    pub fn write_question(&self, buf: &mut [u8; 512])
        requires
            self.wf(),
        ensures
            final(buf)@ == overwrite(old(buf)@, QUESTION_OFFSET as int, self.wire()),
    {
        let mut i: usize = 0;
        while i < self.qname_len
            invariant
                self.wf(),
                i <= self.qname_len,
                buf@ == overwrite(old(buf)@, QUESTION_OFFSET as int, self@.name.take(i as int)),
            decreases self.qname_len - i,
        {
            buf[QUESTION_OFFSET + i] = self.qname[i];
            assert(buf@ =~= overwrite(
                old(buf)@,
                QUESTION_OFFSET as int,
                self@.name.take(i + 1),
            ));
            i += 1;
        }
        let offset = QUESTION_OFFSET + self.qname_len;
        put_u16(buf, offset, self.qtype);
        put_u16(buf, offset + 2, self.qclass);
        assert(buf@ =~= overwrite(old(buf)@, QUESTION_OFFSET as int, self.wire()));
    }
}

impl DnsQuestionBuilder {
    #[verifier::type_invariant]
    spec fn name_fits(self) -> bool {
        self.qname_len <= NAME_CAPACITY
    }

    /// All 128 bytes of the name buffer, those behind the name included.
    pub closed spec fn buffer(&self) -> Seq<u8> {
        self.qname@
    }

    /// Sets the name of the question to the wire form of `domain`.
    ///
    /// The domain is split at its dots. Each label must have 1 to 63 bytes,
    /// and all labels with their length bytes must take fewer than 128 bytes,
    /// so that the final zero still fits the name buffer. The first label that
    /// breaks one of the two rules decides the error. The bytes of a label go
    /// on the wire as they are. The name is written to the front of the name
    /// buffer; the bytes of the buffer behind it stay as they were.
    pub fn name(self, domain: &str) -> (r: Result<Self, DnsError>)
        ensures
            match encode_name(domain.spec_bytes()) {
                Ok(name) => r matches Ok(b) && b@ == (QuestionView { name, ..self@ })
                    && b.buffer() == overwrite(self.buffer(), 0, name),
                Err(e) => r matches Err(got) && got == e,
            },
    {
        let bytes = domain.as_bytes();
        let n = bytes.len();
        let ghost all = split_labels(bytes@);
        let mut qname = self.qname;
        let mut pos: usize = 0;
        let mut start: usize = 0;
        let ghost mut done = Seq::<Seq<u8>>::empty();
        assert(done + labels_after(bytes@, 0) =~= all);
        assert(qname@.take(0) =~= labels_wire(done));
        loop
            invariant_except_break
                start <= n,
                all == done + labels_after(bytes@, start as int),
            invariant
                n == bytes@.len(),
                bytes@ == domain.spec_bytes(),
                all == split_labels(bytes@),
                pos < NAME_CAPACITY,
                labels_error(done) is None,
                pos == labels_len(done),
                qname@.take(pos as int) == labels_wire(done),
                forall|i: int| pos <= i < NAME_CAPACITY ==> qname@[i] == self.qname@[i],
            ensures
                all == done,
            decreases n - start,
        {
            let mut end = start;
            while end < n && bytes[end] != DOT
                invariant
                    n == bytes@.len(),
                    start <= end <= n,
                    forall|j: int| start <= j < end ==> bytes@[j] != DOT,
                decreases n - end,
            {
                end += 1;
            }
            let len = end - start;
            let ghost label = bytes@.subrange(start as int, end as int);
            let ghost rest = if end < n {
                labels_after(bytes@, end + 1)
            } else {
                Seq::<Seq<u8>>::empty()
            };
            proof {
                lemma_next_dot(bytes@, start as int, end as int);
                assert(labels_after(bytes@, start as int) =~= seq![label] + rest);
                assert(all =~= done.push(label) + rest);
                assert(done.push(label).drop_last() =~= done);
                lemma_labels_wire_len(done.push(label));
            }
            if len == 0 || len > MAX_LABEL_LEN {
                proof {
                    lemma_error_extends(done.push(label), rest);
                }
                return Err(DnsError::InvalidLabel);
            }
            if pos + 1 + len >= NAME_CAPACITY {
                proof {
                    lemma_error_extends(done.push(label), rest);
                }
                return Err(DnsError::NameTooLong);
            }
            let ghost unset = qname@;
            qname[pos] = len as u8;
            assert(qname@.take(pos + 1) =~= unset.take(pos as int).push(len as u8));
            assert(qname@.take(pos + 1) =~= labels_wire(done) + seq![len as u8] + label.take(0));
            let mut j: usize = 0;
            while j < len
                invariant
                    n == bytes@.len(),
                    start + len == end <= n,
                    j <= len,
                    pos + 1 + len < NAME_CAPACITY,
                    label == bytes@.subrange(start as int, end as int),
                    qname@.take(pos + 1 + j) == labels_wire(done) + seq![len as u8] + label.take(
                        j as int,
                    ),
                    forall|i: int|
                        pos + 1 + j <= i < NAME_CAPACITY ==> qname@[i] == self.qname@[i],
                decreases len - j,
            {
                let ghost held = qname@;
                qname[pos + 1 + j] = bytes[start + j];
                proof {
                    assert(label[j as int] == bytes@[start + j]);
                    assert(qname@.take(pos + 1 + j + 1) =~= held.take(pos + 1 + j).push(
                        label[j as int],
                    ));
                    assert(label.take(j + 1) =~= label.take(j as int).push(label[j as int]));
                    assert(qname@.take(pos + 1 + j + 1) =~= labels_wire(done) + seq![len as u8]
                        + label.take(j + 1));
                }
                j += 1;
            }
            proof {
                assert(label.take(len as int) =~= label);
                assert(labels_wire(done.push(label)) =~= labels_wire(done) + seq![len as u8]
                    + label);
                assert(labels_error(done.push(label)) is None);
                done = done.push(label);
            }
            pos = pos + 1 + len;
            if end == n {
                assert(all =~= done);
                break ;
            }
            start = end + 1;
        }
        proof {
            use_type_invariant(&self);
        }
        let ghost unset = qname@;
        qname[pos] = 0;
        let b = Self { qname, qname_len: pos + 1, qtype: self.qtype, qclass: self.qclass };
        assert(b@.name =~= unset.take(pos as int).push(0));
        assert(b.buffer() =~= overwrite(self.buffer(), 0, b@.name));
        Ok(b)
    }

    /// Sets the type code to ask for. Any code is accepted. The name and the
    /// whole name buffer stay as they were.
    pub fn qtype(self, qtype: u16) -> (b: Self)
        ensures
            b@ == (QuestionView { qtype, ..self@ }),
            b.buffer() == self.buffer(),
    {
        proof {
            use_type_invariant(&self);
        }
        Self { qname: self.qname, qname_len: self.qname_len, qtype, qclass: self.qclass }
    }

    /// The question that was built: the builder's name, type and class, and
    /// its name buffer byte for byte. The name is as long as `qname_len` says.
    pub fn build(self) -> (q: DnsQuestion)
        ensures
            q@ == self@,
            q.qname@ == self.buffer(),
            q.qname_len == self@.name.len(),
            q.wf(),
    {
        proof {
            use_type_invariant(&self);
        }
        DnsQuestion {
            qname: self.qname,
            qname_len: self.qname_len,
            qtype: self.qtype,
            qclass: self.qclass,
        }
    }
}

} // verus!
