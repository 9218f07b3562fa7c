//! The encoder and the decoder agree: a name that was encoded is read back
//! as the labels it was made of.

use crate::dns_name::{
    encode_name, labels_len, labels_wire, lemma_encodable, lemma_labels_wire_len, split_labels,
    valid_label,
};
use crate::error::DnsError;
use crate::name_reader::{is_pointer, labels_from, name_labels_at, name_ref_at, skip_labels};
use vstd::prelude::*;

verus! {

/// The length byte of a valid label is neither zero nor a compression pointer.
proof fn lemma_length_byte(len: u8)
    requires
        1 <= len <= 63,
    ensures
        !is_pointer(len),
{
    assert(1 <= len <= 63 ==> len & 0xC0 != 0xC0) by (bit_vector);
}

/// The wire form of labels starts with the first label behind its length.
proof fn lemma_labels_wire_front(first: Seq<u8>, rest: Seq<Seq<u8>>)
    ensures
        labels_wire(seq![first] + rest) == seq![first.len() as u8] + first + labels_wire(rest),
    decreases rest.len(),
{
    let all = seq![first] + rest;
    if rest.len() == 0 {
        assert(all.drop_last() =~= Seq::<Seq<u8>>::empty());
        assert(all.last() == first);
        assert(labels_wire(all.drop_last()) =~= Seq::<u8>::empty());
        assert(labels_wire(all) =~= seq![first.len() as u8] + first + labels_wire(rest));
    } else {
        assert(all.drop_last() =~= seq![first] + rest.drop_last());
        lemma_labels_wire_front(first, rest.drop_last());
        assert(labels_wire(all) =~= seq![first.len() as u8] + first + labels_wire(rest));
    }
}

/// Every label takes at least its length byte on the wire.
proof fn lemma_labels_count(labels: Seq<Seq<u8>>)
    ensures
        labels.len() <= labels_len(labels),
    decreases labels.len(),
{
    if labels.len() > 0 {
        lemma_labels_count(labels.drop_last());
    }
}

/// Valid labels that lie in `buf` at `at` in wire form, with their final zero,
/// are read back by the full reader and skipped whole by the compact one.
proof fn lemma_labels_read_back(buf: Seq<u8>, at: int, labels: Seq<Seq<u8>>, steps: nat)
    requires
        forall|i: int| 0 <= i < labels.len() ==> valid_label(#[trigger] labels[i]),
        0 <= at,
        at + labels_len(labels) + 1 <= buf.len(),
        buf.subrange(at, at + labels_len(labels) + 1) == labels_wire(labels).push(0),
        steps > labels.len(),
    ensures
        labels_from(buf, at, steps) == Ok::<Seq<Seq<u8>>, DnsError>(labels),
        skip_labels(buf, at) == Some(at + labels_len(labels) + 1),
    decreases labels.len(),
{
    let held = buf.subrange(at, at + labels_len(labels) + 1);
    lemma_labels_wire_len(labels);
    if labels.len() == 0 {
        assert(buf[at] == held[0]);
        assert(0u8 & 0xC0 != 0xC0) by (bit_vector);
        assert(labels =~= Seq::<Seq<u8>>::empty());
    } else {
        let first = labels[0];
        let rest = labels.skip(1);
        let len = first.len() as int;
        let next = at + 1 + len;
        assert(labels =~= seq![first] + rest);
        lemma_labels_wire_front(first, rest);
        lemma_labels_wire_len(rest);
        assert(valid_label(labels[0]));
        assert(buf[at] == held[0]);
        assert(buf[at] == len);
        lemma_length_byte(buf[at]);
        assert(buf.subrange(at + 1, next) =~= first) by {
            assert forall|j: int| 0 <= j < len implies buf[at + 1 + j] == first[j] by {
                assert(buf[at + 1 + j] == held[1 + j]);
            }
        }
        assert(buf.subrange(next, next + labels_len(rest) + 1) =~= labels_wire(rest).push(0)) by {
            assert forall|j: int| 0 <= j < labels_len(rest) + 1 implies buf[next + j]
                == labels_wire(rest).push(0)[j] by {
                assert(buf[next + j] == held[1 + len + j]);
            }
        }
        assert forall|i: int| 0 <= i < rest.len() implies valid_label(#[trigger] rest[i]) by {
            assert(rest[i] == labels[i + 1]);
        }
        lemma_labels_read_back(buf, next, rest, (steps - 1) as nat);
    }
}

/// Reading back what was encoded: wherever the wire form of a domain lies in a
/// buffer, the full reader finds there the labels of the domain, and the
/// compact reader takes it for an inline name that ends where the wire form
/// ends.
pub proof fn lemma_encoded_name_reads_back(domain: Seq<u8>, buf: Seq<u8>, at: int)
    requires
        0 <= at,
        encode_name(domain) matches Ok(name) && at + name.len() <= buf.len() && buf.subrange(
            at,
            at + name.len(),
        ) == name,
    ensures
        name_labels_at(buf, at) == Ok::<Seq<Seq<u8>>, DnsError>(split_labels(domain)),
        name_ref_at(buf, at) == Ok::<(u16, int), DnsError>(
            (at as u16, at + encode_name(domain)->Ok_0.len()),
        ),
{
    let labels = split_labels(domain);
    lemma_encodable(labels);
    lemma_labels_wire_len(labels);
    lemma_labels_count(labels);
    lemma_labels_read_back(buf, at, labels, buf.len() + 1);
    if labels.len() > 0 {
        assert(valid_label(labels[0]));
        assert(buf[at] == buf.subrange(at, at + labels_len(labels) + 1)[0]);
        assert(labels =~= seq![labels[0]] + labels.skip(1));
        lemma_labels_wire_front(labels[0], labels.skip(1));
        lemma_length_byte(buf[at]);
    } else {
        assert(buf[at] == buf.subrange(at, at + labels_len(labels) + 1)[0]);
        assert(0u8 & 0xC0 != 0xC0) by (bit_vector);
    }
}

} // verus!
