//! The wire form of a domain name.
//!
//! A domain is a byte string of labels separated by dots. On the wire each
//! label stands behind one byte that holds its length, and a zero byte ends
//! the name. A label has 1 to 63 bytes, and the whole name must fit a buffer
//! of 128 bytes.

use crate::error::DnsError;
use vstd::prelude::*;

verus! {

/// The longest label a name may hold.
pub const MAX_LABEL_LEN: usize = 63;

/// Size of the buffer that holds an encoded name.
pub const NAME_CAPACITY: usize = 128;

/// The byte that separates the labels of a domain.
pub const DOT: u8 = 0x2E;

/// The first position at or behind `from` that holds a dot, or the length of
/// `s` where there is none.
pub open spec fn next_dot(s: Seq<u8>, from: int) -> int
    decreases s.len() - from,
{
    if from < 0 || from >= s.len() {
        s.len() as int
    } else if s[from] == DOT {
        from
    } else {
        next_dot(s, from + 1)
    }
}

/// The labels of `s` that start at or behind `from`: the stretches between
/// dots, in order. A dot at the very end is followed by one empty label.
pub open spec fn labels_after(s: Seq<u8>, from: int) -> Seq<Seq<u8>>
    decreases s.len() - from,
{
    let end = next_dot(s, from);
    if from < 0 || end < from || end >= s.len() {
        seq![s.subrange(from, s.len() as int)]
    } else {
        seq![s.subrange(from, end)] + labels_after(s, end + 1)
    }
}

/// The labels of a domain: what lies between its dots. There is always at
/// least one label, and a label is empty where two dots meet, or where the
/// domain starts or ends with a dot, or is itself empty.
pub open spec fn split_labels(domain: Seq<u8>) -> Seq<Seq<u8>> {
    labels_after(domain, 0)
}

/// The parts joined into one sequence, with `sep` between neighbours.
pub open spec fn join_with<T>(parts: Seq<Seq<T>>, sep: T) -> Seq<T>
    decreases parts.len(),
{
    if parts.len() == 0 {
        Seq::empty()
    } else if parts.len() == 1 {
        parts[0]
    } else {
        parts[0] + seq![sep] + join_with(parts.skip(1), sep)
    }
}

/// A label may go on the wire if it has between 1 and 63 bytes.
pub open spec fn valid_label(label: Seq<u8>) -> bool {
    1 <= label.len() <= MAX_LABEL_LEN
}

/// The bytes the labels take on the wire, without the final zero: for each
/// label one byte for its length and then the label itself.
pub open spec fn labels_len(labels: Seq<Seq<u8>>) -> nat
    decreases labels.len(),
{
    if labels.len() == 0 {
        0
    } else {
        labels_len(labels.drop_last()) + 1 + labels.last().len()
    }
}

/// The labels on the wire, without the final zero: each label behind the byte
/// that holds its length.
pub open spec fn labels_wire(labels: Seq<Seq<u8>>) -> Seq<u8>
    decreases labels.len(),
{
    if labels.len() == 0 {
        Seq::empty()
    } else {
        labels_wire(labels.drop_last()) + seq![labels.last().len() as u8] + labels.last()
    }
}

/// What stops the labels from being encoded, if anything does. Labels are
/// taken in order, and the first one that fails decides: it is not valid, or
/// with it the labels would take 128 bytes or more, leaving no room for the
/// final zero.
pub open spec fn labels_error(labels: Seq<Seq<u8>>) -> Option<DnsError>
    decreases labels.len(),
{
    if labels.len() == 0 {
        None
    } else {
        match labels_error(labels.drop_last()) {
            Some(e) => Some(e),
            None => {
                if !valid_label(labels.last()) {
                    Some(DnsError::InvalidLabel)
                } else if labels_len(labels) >= NAME_CAPACITY {
                    Some(DnsError::NameTooLong)
                } else {
                    None
                }
            },
        }
    }
}

/// The label at `i` is empty or too long, and the labels before it take fewer
/// than 128 bytes on the wire.
pub open spec fn invalid_at(labels: Seq<Seq<u8>>, i: int) -> bool {
    &&& 0 <= i < labels.len()
    &&& !valid_label(labels[i])
    &&& labels_len(labels.take(i)) < NAME_CAPACITY
}

/// The labels up to and including the one at `k` are valid, and together they
/// take 128 bytes or more on the wire.
pub open spec fn overflows_at(labels: Seq<Seq<u8>>, k: int) -> bool {
    &&& 0 <= k < labels.len()
    &&& labels_len(labels.take(k + 1)) >= NAME_CAPACITY
    &&& forall|j: int| 0 <= j <= k ==> valid_label(#[trigger] labels[j])
}

/// The wire form of a name with the given labels, or why it has none.
pub open spec fn encode_labels(labels: Seq<Seq<u8>>) -> Result<Seq<u8>, DnsError> {
    match labels_error(labels) {
        Some(e) => Err(e),
        None => Ok(labels_wire(labels).push(0)),
    }
}

/// The wire form of a domain, or why it has none.
pub open spec fn encode_name(domain: Seq<u8>) -> Result<Seq<u8>, DnsError> {
    encode_labels(split_labels(domain))
}

/// `next_dot` finds `end` when no dot lies between `from` and `end` and `end`
/// holds a dot or is the end of `s`.
pub proof fn lemma_next_dot(s: Seq<u8>, from: int, end: int)
    requires
        0 <= from <= end <= s.len(),
        forall|j: int| from <= j < end ==> s[j] != DOT,
        end == s.len() || s[end] == DOT,
    ensures
        next_dot(s, from) == end,
    decreases end - from,
{
    if from < end {
        lemma_next_dot(s, from + 1, end);
    }
}

/// Between `from` and the next dot there is no dot, and the next dot lies in
/// `s` or is its end.
pub proof fn lemma_next_dot_is_first(s: Seq<u8>, from: int)
    requires
        0 <= from <= s.len(),
    ensures
        from <= next_dot(s, from) <= s.len(),
        next_dot(s, from) < s.len() ==> s[next_dot(s, from)] == DOT,
        forall|j: int| from <= j < next_dot(s, from) ==> s[j] != DOT,
    decreases s.len() - from,
{
    if from < s.len() && s[from] != DOT {
        lemma_next_dot_is_first(s, from + 1);
    }
}

/// Joining can be read from the end as well: the last part stands behind
/// the others joined and one separator.
pub proof fn lemma_join_with_last<T>(parts: Seq<Seq<T>>, sep: T)
    requires
        parts.len() >= 2,
    ensures
        join_with(parts, sep) == join_with(parts.drop_last(), sep) + seq![sep] + parts.last(),
    decreases parts.len(),
{
    let front = parts.drop_last();
    if parts.len() == 2 {
        assert(parts.skip(1).len() == 1);
        assert(parts.skip(1)[0] == parts.last());
        assert(front.len() == 1);
        assert(front[0] == parts[0]);
        assert(join_with(parts.skip(1), sep) == parts.last());
        assert(join_with(front, sep) == parts[0]);
        assert(join_with(parts, sep) =~= join_with(front, sep) + seq![sep] + parts.last());
    } else {
        lemma_join_with_last(parts.skip(1), sep);
        assert(parts.skip(1).drop_last() =~= front.skip(1));
        assert(parts.skip(1).last() == parts.last());
        assert(front.len() >= 2);
        assert(front[0] == parts[0]);
        assert(join_with(parts, sep) =~= join_with(front, sep) + seq![sep] + parts.last());
    }
}

/// The labels behind `from` hold no dot, and joined with dots they are `s`
/// from `from` on.
pub proof fn lemma_labels_after(s: Seq<u8>, from: int)
    requires
        0 <= from <= s.len(),
    ensures
        labels_after(s, from).len() >= 1,
        forall|i: int, j: int|
            0 <= i < labels_after(s, from).len() && 0 <= j < labels_after(s, from)[i].len()
                ==> #[trigger] labels_after(s, from)[i][j] != DOT,
        join_with(labels_after(s, from), DOT) == s.subrange(from, s.len() as int),
    decreases s.len() - from,
{
    let end = next_dot(s, from);
    let labels = labels_after(s, from);
    lemma_next_dot_is_first(s, from);
    if end < s.len() {
        let rest = labels_after(s, end + 1);
        lemma_labels_after(s, end + 1);
        assert(labels.skip(1) =~= rest);
        assert(labels[0] == s.subrange(from, end));
        assert(join_with(labels, DOT) =~= s.subrange(from, s.len() as int));
        assert forall|i: int, j: int|
            0 <= i < labels.len() && 0 <= j < labels[i].len() implies #[trigger] labels[i][j]
            != DOT by {
            if i > 0 {
                assert(labels[i] == rest[i - 1]);
                assert(rest[i - 1][j] != DOT);
            }
        }
    }
}

/// Splitting is the only way to cut `s` from `from` on into parts that hold
/// no dot and that give `s` back when joined with dots.
pub proof fn lemma_labels_after_unique(s: Seq<u8>, from: int, parts: Seq<Seq<u8>>)
    requires
        0 <= from <= s.len(),
        parts.len() >= 1,
        forall|i: int, j: int|
            0 <= i < parts.len() && 0 <= j < parts[i].len() ==> #[trigger] parts[i][j] != DOT,
        join_with(parts, DOT) == s.subrange(from, s.len() as int),
    ensures
        labels_after(s, from) == parts,
    decreases parts.len(),
{
    let tail = s.subrange(from, s.len() as int);
    let end = from + parts[0].len();
    if parts.len() == 1 {
        assert forall|j: int| from <= j < s.len() implies s[j] != DOT by {
            assert(s[j] == tail[j - from]);
            assert(parts[0][j - from] != DOT);
        }
        lemma_next_dot(s, from, s.len() as int);
        assert(labels_after(s, from) =~= parts);
    } else {
        let rest = parts.skip(1);
        assert(tail == parts[0] + seq![DOT] + join_with(rest, DOT));
        assert forall|j: int| from <= j < end implies s[j] != DOT by {
            assert(s[j] == tail[j - from]);
            assert(parts[0][j - from] != DOT);
        }
        assert(s[end] == tail[end - from]);
        lemma_next_dot(s, from, end);
        assert(s.subrange(from, end) =~= parts[0]);
        assert(s.subrange(end + 1, s.len() as int) =~= join_with(rest, DOT)) by {
            assert forall|j: int| 0 <= j < s.len() - end - 1 implies s[end + 1 + j] == join_with(
                rest,
                DOT,
            )[j] by {
                assert(s[end + 1 + j] == tail[end + 1 + j - from]);
            }
        }
        assert forall|i: int, j: int|
            0 <= i < rest.len() && 0 <= j < rest[i].len() implies #[trigger] rest[i][j] != DOT by {
            assert(rest[i][j] == parts[i + 1][j]);
        }
        lemma_labels_after_unique(s, end + 1, rest);
        assert(labels_after(s, from) =~= parts);
    }
}

/// Splitting undoes joining: the labels of a domain hold no dot, there is at
/// least one of them, and joined with dots they give the domain back.
pub proof fn lemma_split_then_join(domain: Seq<u8>)
    ensures
        split_labels(domain).len() >= 1,
        forall|i: int, j: int|
            0 <= i < split_labels(domain).len() && 0 <= j < split_labels(domain)[i].len()
                ==> #[trigger] split_labels(domain)[i][j] != DOT,
        join_with(split_labels(domain), DOT) == domain,
{
    lemma_labels_after(domain, 0);
    assert(domain.subrange(0, domain.len() as int) =~= domain);
}

/// The labels of parts joined with dots are those parts, as long as no part
/// holds a dot itself.
pub proof fn lemma_join_then_split(parts: Seq<Seq<u8>>)
    requires
        parts.len() >= 1,
        forall|i: int, j: int|
            0 <= i < parts.len() && 0 <= j < parts[i].len() ==> #[trigger] parts[i][j] != DOT,
    ensures
        split_labels(join_with(parts, DOT)) == parts,
{
    let s = join_with(parts, DOT);
    assert(s.subrange(0, s.len() as int) =~= s);
    lemma_labels_after_unique(s, 0, parts);
}

/// The bytes that labels take on the wire are as many as `labels_len` counts.
pub proof fn lemma_labels_wire_len(labels: Seq<Seq<u8>>)
    ensures
        labels_wire(labels).len() == labels_len(labels),
    decreases labels.len(),
{
    if labels.len() > 0 {
        lemma_labels_wire_len(labels.drop_last());
    }
}

/// An error among the first labels is the error of the whole name.
pub proof fn lemma_error_extends(head: Seq<Seq<u8>>, tail: Seq<Seq<u8>>)
    requires
        labels_error(head) is Some,
    ensures
        labels_error(head + tail) == labels_error(head),
    decreases tail.len(),
{
    if tail.len() == 0 {
        assert(head + tail =~= head);
    } else {
        assert((head + tail).drop_last() =~= head + tail.drop_last());
        lemma_error_extends(head, tail.drop_last());
    }
}

/// A name can be encoded exactly when each of its labels has 1 to 63 bytes
/// and together they take fewer than 128 bytes, so that with the final zero
/// the name has at most 128.
pub proof fn lemma_encodable(labels: Seq<Seq<u8>>)
    ensures
        labels_error(labels) is None <==> (forall|i: int|
            0 <= i < labels.len() ==> valid_label(#[trigger] labels[i])) && labels_len(labels)
            < NAME_CAPACITY,
    decreases labels.len(),
{
    if labels.len() > 0 {
        let front = labels.drop_last();
        lemma_encodable(front);
        if labels_error(labels) is None {
            assert forall|i: int| 0 <= i < labels.len() implies valid_label(
                #[trigger] labels[i],
            ) by {
                if i < front.len() {
                    assert(labels[i] == front[i]);
                }
            }
        }
        if (forall|i: int| 0 <= i < labels.len() ==> valid_label(#[trigger] labels[i]))
            && labels_len(labels) < NAME_CAPACITY {
            assert forall|i: int| 0 <= i < front.len() implies valid_label(#[trigger] front[i]) by {
                assert(front[i] == labels[i]);
            }
        }
    }
}

/// Encoding a name fails with one of two errors only.
pub proof fn lemma_error_kinds(labels: Seq<Seq<u8>>)
    ensures
        labels_error(labels) is None || labels_error(labels) == Some(DnsError::InvalidLabel)
            || labels_error(labels) == Some(DnsError::NameTooLong),
    decreases labels.len(),
{
    if labels.len() > 0 {
        lemma_error_kinds(labels.drop_last());
    }
}

/// A name fails with `NameTooLong` only if its labels take 128 bytes or more.
pub proof fn lemma_too_long_is_long(labels: Seq<Seq<u8>>)
    requires
        labels_error(labels) == Some(DnsError::NameTooLong),
    ensures
        labels_len(labels) >= NAME_CAPACITY,
    decreases labels.len(),
{
    if labels.len() > 0 && labels_error(labels.drop_last()) is Some {
        lemma_too_long_is_long(labels.drop_last());
    }
}

/// A name fails with `InvalidLabel` only if one of its labels is not valid.
pub proof fn lemma_invalid_has_invalid(labels: Seq<Seq<u8>>)
    requires
        labels_error(labels) == Some(DnsError::InvalidLabel),
    ensures
        exists|i: int| 0 <= i < labels.len() && !valid_label(#[trigger] labels[i]),
    decreases labels.len(),
{
    if labels.len() > 0 {
        let front = labels.drop_last();
        if labels_error(front) is Some {
            lemma_invalid_has_invalid(front);
            let i = choose|i: int| 0 <= i < front.len() && !valid_label(#[trigger] front[i]);
            assert(!valid_label(labels[i]));
        } else {
            assert(!valid_label(labels[labels.len() - 1]));
        }
    }
}

/// A name fails with `InvalidLabel` exactly when one of its labels is empty
/// or longer than 63 bytes and the labels before it take fewer than 128 bytes
/// on the wire. Where they take 128 or more, an earlier label has already
/// decided how the name fails.
pub proof fn lemma_invalid_label(labels: Seq<Seq<u8>>)
    ensures
        labels_error(labels) == Some(DnsError::InvalidLabel) <==> exists|i: int|
            #[trigger] invalid_at(labels, i),
    decreases labels.len(),
{
    if labels.len() > 0 {
        let n = labels.len() as int;
        let front = labels.drop_last();
        lemma_invalid_label(front);
        lemma_encodable(front);
        assert(labels.take(n - 1) =~= front);
        if labels_error(labels) == Some(DnsError::InvalidLabel) {
            if labels_error(front) == Some(DnsError::InvalidLabel) {
                let i = choose|i: int| #[trigger] invalid_at(front, i);
                assert(front.take(i) =~= labels.take(i));
                assert(invalid_at(labels, i));
            } else {
                assert(invalid_at(labels, n - 1));
            }
        }
        if exists|i: int| #[trigger] invalid_at(labels, i) {
            let i = choose|i: int| #[trigger] invalid_at(labels, i);
            if i < n - 1 {
                assert(front.take(i) =~= labels.take(i));
                assert(invalid_at(front, i));
            } else {
                lemma_error_kinds(front);
                if labels_error(front) == Some(DnsError::NameTooLong) {
                    lemma_too_long_is_long(front);
                }
            }
        }
    }
}

/// A name fails with `NameTooLong` exactly when, reading its labels in order,
/// the bytes they take on the wire reach 128 at some label while that label
/// and all before it are valid.
pub proof fn lemma_too_long(labels: Seq<Seq<u8>>)
    ensures
        labels_error(labels) == Some(DnsError::NameTooLong) <==> exists|k: int|
            #[trigger] overflows_at(labels, k),
    decreases labels.len(),
{
    if labels.len() > 0 {
        let n = labels.len() as int;
        let front = labels.drop_last();
        lemma_too_long(front);
        lemma_encodable(front);
        assert(labels.take(n) =~= labels);
        if labels_error(labels) == Some(DnsError::NameTooLong) {
            if labels_error(front) == Some(DnsError::NameTooLong) {
                let k = choose|k: int| #[trigger] overflows_at(front, k);
                assert(front.take(k + 1) =~= labels.take(k + 1));
                assert forall|j: int| 0 <= j <= k implies valid_label(#[trigger] labels[j]) by {
                    assert(labels[j] == front[j]);
                }
                assert(overflows_at(labels, k));
            } else {
                assert forall|j: int| 0 <= j <= n - 1 implies valid_label(
                    #[trigger] labels[j],
                ) by {
                    if j < n - 1 {
                        assert(labels[j] == front[j]);
                    }
                }
                assert(overflows_at(labels, n - 1));
            }
        }
        if exists|k: int| #[trigger] overflows_at(labels, k) {
            let k = choose|k: int| #[trigger] overflows_at(labels, k);
            if k < n - 1 {
                assert(front.take(k + 1) =~= labels.take(k + 1));
                assert forall|j: int| 0 <= j <= k implies valid_label(#[trigger] front[j]) by {
                    assert(labels[j] == front[j]);
                }
                assert(overflows_at(front, k));
            } else {
                assert forall|j: int| 0 <= j < front.len() implies valid_label(
                    #[trigger] front[j],
                ) by {
                    assert(labels[j] == front[j]);
                }
                lemma_error_kinds(front);
                if labels_error(front) == Some(DnsError::InvalidLabel) {
                    lemma_invalid_has_invalid(front);
                }
            }
        }
    }
}

/// A domain has a wire form exactly when each of its labels has 1 to 63
/// bytes and the labels with their length bytes take fewer than 128 bytes.
/// The wire form then holds these bytes and one zero byte behind them: its
/// last byte is zero, and its length is one more than the sum, over the
/// labels, of the label's length plus one. It fits the name buffer.
pub proof fn lemma_name_encoded(domain: Seq<u8>)
    ensures
        encode_name(domain) is Ok <==> (forall|i: int|
            0 <= i < split_labels(domain).len() ==> valid_label(
                #[trigger] split_labels(domain)[i],
            )) && labels_len(split_labels(domain)) < NAME_CAPACITY,
        encode_name(domain) matches Ok(name) ==> {
            &&& name == labels_wire(split_labels(domain)).push(0)
            &&& name.len() == labels_len(split_labels(domain)) + 1
            &&& name.len() <= NAME_CAPACITY
            &&& name.last() == 0
        },
{
    lemma_encodable(split_labels(domain));
    lemma_labels_wire_len(split_labels(domain));
}

/// A domain fails with `InvalidLabel` exactly when one of its labels is empty
/// or longer than 63 bytes and the labels before that one take fewer than 128
/// bytes on the wire. In particular a domain whose first label is empty or
/// too long always fails so.
pub proof fn lemma_name_invalid_label(domain: Seq<u8>)
    ensures
        encode_name(domain) == Err::<Seq<u8>, DnsError>(DnsError::InvalidLabel) <==> exists|
            i: int,
        | #[trigger] invalid_at(split_labels(domain), i),
        !valid_label(split_labels(domain)[0]) ==> encode_name(domain) == Err::<
            Seq<u8>,
            DnsError,
        >(DnsError::InvalidLabel),
{
    let labels = split_labels(domain);
    lemma_invalid_label(labels);
    lemma_split_then_join(domain);
    if !valid_label(labels[0]) {
        assert(labels.take(0) =~= Seq::empty());
        assert(invalid_at(labels, 0));
    }
}

/// A domain fails with `NameTooLong` exactly when, reading its labels in
/// order, the bytes they take on the wire reach 128 at some label while that
/// label and all before it are valid. In particular a domain of valid labels
/// fails so when labels and length bytes take 128 bytes or more, that is, when
/// the name with its final zero would take more than 128.
pub proof fn lemma_name_too_long(domain: Seq<u8>)
    ensures
        encode_name(domain) == Err::<Seq<u8>, DnsError>(DnsError::NameTooLong) <==> exists|
            k: int,
        | #[trigger] overflows_at(split_labels(domain), k),
        (forall|i: int|
            0 <= i < split_labels(domain).len() ==> valid_label(
                #[trigger] split_labels(domain)[i],
            )) && labels_len(split_labels(domain)) >= NAME_CAPACITY ==> encode_name(domain)
            == Err::<Seq<u8>, DnsError>(DnsError::NameTooLong),
{
    let labels = split_labels(domain);
    lemma_too_long(labels);
    lemma_split_then_join(domain);
    if (forall|i: int| 0 <= i < labels.len() ==> valid_label(#[trigger] labels[i])) && labels_len(
        labels,
    ) >= NAME_CAPACITY {
        assert(labels.take(labels.len() - 1 + 1) =~= labels);
        assert(overflows_at(labels, labels.len() - 1));
    }
}

} // verus!
