//! Names inside a message.
//!
//! A name in a message is a run of labels, each behind a byte that holds its
//! length, ended by a zero byte or by a compression pointer: two bytes whose
//! 14 low bits are the offset where the name goes on. There are two readers.
//! The compact one reads a single name reference and follows nothing; the
//! full one follows pointers and collects the labels.

use crate::dns_name::{join_with, lemma_join_with_last};
use crate::error::DnsError;
use crate::parse_answer::DnsResponse;
use vstd::prelude::*;
use vstd::slice::{slice_subrange, slice_to_vec};
use vstd::utf8::{decode_utf8, valid_utf8};

verus! {

/// A byte with its two top bits set opens a two-byte compression pointer.
pub open spec fn is_pointer(b: u8) -> bool {
    b & 0xC0 == 0xC0
}

/// The 14-bit offset that the two bytes of a compression pointer carry.
pub open spec fn pointer_offset(hi: u8, lo: u8) -> u16 {
    (((hi as u16) << 8) | (lo as u16)) & 0x3FFF
}

/// The cursor just past an inline name that starts at `pos`: every non-zero
/// byte is taken as the length of a label and skipped together with that
/// label, up to and including the zero byte that ends the name. `None` when
/// the walk leaves the buffer first.
pub open spec fn skip_labels(buf: Seq<u8>, pos: int) -> Option<int>
    decreases buf.len() - pos,
{
    if pos < 0 || pos >= buf.len() {
        None
    } else if buf[pos] == 0 {
        Some(pos + 1)
    } else if pos + 1 + buf[pos] >= buf.len() {
        None
    } else {
        skip_labels(buf, pos + 1 + buf[pos])
    }
}

/// A name reference read at `pos`, as the compact reader sees it: for a
/// compression pointer its 14-bit offset, for an inline name the position
/// where it starts (as a `u16`); and with it the cursor past the reference.
pub open spec fn name_ref_at(buf: Seq<u8>, pos: int) -> Result<(u16, int), DnsError> {
    if pos < 0 || pos >= buf.len() {
        Err(DnsError::TruncatedMessage)
    } else if is_pointer(buf[pos]) {
        if pos + 1 >= buf.len() {
            Err(DnsError::TruncatedMessage)
        } else {
            Ok((pointer_offset(buf[pos], buf[pos + 1]), pos + 2))
        }
    } else {
        match skip_labels(buf, pos) {
            Some(end) => Ok((pos as u16, end)),
            None => Err(DnsError::TruncatedMessage),
        }
    }
}

/// `r` with the labels `acc` put in front of those it holds.
pub open spec fn with_prefix(acc: Seq<Seq<u8>>, r: Result<Seq<Seq<u8>>, DnsError>) -> Result<
    Seq<Seq<u8>>,
    DnsError,
> {
    match r {
        Ok(rest) => Ok(acc + rest),
        Err(e) => Err(e),
    }
}

/// The labels of the name that starts at `pos`, with compression pointers
/// followed, in at most `steps` steps. One step reads one label, follows one
/// pointer or meets the zero byte that ends the name. A byte that is neither a
/// pointer nor zero is the length of the label behind it.
pub open spec fn labels_from(buf: Seq<u8>, pos: int, steps: nat) -> Result<
    Seq<Seq<u8>>,
    DnsError,
>
    decreases steps,
{
    if steps == 0 {
        Err(DnsError::CompressionLoop)
    } else if pos < 0 || pos >= buf.len() {
        Err(DnsError::TruncatedMessage)
    } else if is_pointer(buf[pos]) {
        if pos + 1 >= buf.len() {
            Err(DnsError::TruncatedMessage)
        } else {
            labels_from(buf, pointer_offset(buf[pos], buf[pos + 1]) as int, (steps - 1) as nat)
        }
    } else if buf[pos] == 0 {
        Ok(Seq::empty())
    } else if pos + 1 + buf[pos] > buf.len() {
        Err(DnsError::TruncatedMessage)
    } else {
        with_prefix(
            seq![buf.subrange(pos + 1, pos + 1 + buf[pos])],
            labels_from(buf, pos + 1 + buf[pos], (steps - 1) as nat),
        )
    }
}

/// The labels of the name that starts at `pos`. The walk may take one step
/// more than the buffer has bytes; a walk that needs more has run into a
/// cycle of pointers.
pub open spec fn name_labels_at(buf: Seq<u8>, pos: int) -> Result<Seq<Seq<u8>>, DnsError> {
    labels_from(buf, pos, buf.len() + 1)
}

/// The text that `String::from_utf8_lossy` makes of `bytes`: their decoding
/// as UTF-8, with the replacement character wherever they are not valid.
pub uninterp spec fn utf8_lossy(bytes: Seq<u8>) -> Seq<char>;

/// The dotted text of a name: each label as text, joined by dots.
pub open spec fn name_text(labels: Seq<Seq<u8>>) -> Seq<char> {
    join_with(labels.map_values(|label: Seq<u8>| utf8_lossy(label)), '.')
}

/// Every label is valid UTF-8.
pub open spec fn all_utf8(labels: Seq<Seq<u8>>) -> bool {
    forall|i: int| 0 <= i < labels.len() ==> valid_utf8(#[trigger] labels[i])
}

/// The dotted text of a name whose labels are valid UTF-8: each label
/// decoded, joined by dots.
pub open spec fn decoded_text(labels: Seq<Seq<u8>>) -> Seq<char> {
    join_with(labels.map_values(|label: Seq<u8>| decode_utf8(label)), '.')
}

/// The byte strings that a vector of labels holds.
pub open spec fn labels_view(labels: Seq<Vec<u8>>) -> Seq<Seq<u8>> {
    labels.map_values(|label: Vec<u8>| label@)
}

/// The texts that a vector of strings holds.
pub open spec fn texts_view(parts: Seq<String>) -> Seq<Seq<char>> {
    parts.map_values(|part: String| part@)
}

/// An inline name that can be skipped lies inside the buffer.
pub proof fn lemma_skip_labels_in_bounds(buf: Seq<u8>, pos: int)
    ensures
        skip_labels(buf, pos) matches Some(end) ==> 0 <= pos < end <= buf.len(),
    decreases buf.len() - pos,
{
    if 0 <= pos < buf.len() && buf[pos] != 0 && pos + 1 + buf[pos] < buf.len() {
        lemma_skip_labels_in_bounds(buf, pos + 1 + buf[pos]);
    }
}

/// A name reference that can be read lies inside the buffer: the cursor
/// moves forward and does not leave it.
pub proof fn lemma_name_ref_in_bounds(buf: Seq<u8>, pos: int)
    ensures
        name_ref_at(buf, pos) matches Ok((_, next)) ==> 0 <= pos < next <= buf.len(),
{
    if name_ref_at(buf, pos) is Ok && !is_pointer(buf[pos]) {
        lemma_skip_labels_in_bounds(buf, pos);
    }
}

/// `String::from_utf8_lossy` of std: the text of `bytes`, where every
/// sequence that is not valid UTF-8 becomes the replacement character. The
/// result depends on the bytes alone and goes by the name `utf8_lossy`; of
/// bytes that are valid UTF-8 it is their decoding.
#[verifier::external_body]
fn lossy_text(bytes: &[u8]) -> (text: String)
    ensures
        text@ == utf8_lossy(bytes@),
        valid_utf8(bytes@) ==> text@ == decode_utf8(bytes@),
{
    String::from_utf8_lossy(bytes).into_owned()
}

/// Joins the parts into one text, with a dot between neighbours.
pub fn join_labels(parts: &Vec<String>) -> (text: String)
    ensures
        text@ == join_with(texts_view(parts@), '.'),
{
    let ghost texts = texts_view(parts@);
    let mut text = String::new();
    let mut i: usize = 0;
    assert(texts.take(0) =~= Seq::empty());
    while i < parts.len()
        invariant
            i <= parts.len(),
            texts == texts_view(parts@),
            text@ == join_with(texts.take(i as int), '.'),
        decreases parts.len() - i,
    {
        proof {
            reveal_strlit(".");
            assert(texts.take(i + 1).drop_last() =~= texts.take(i as int));
            assert(texts.take(i + 1).last() == parts@[i as int]@);
            if i > 0 {
                lemma_join_with_last(texts.take(i + 1), '.');
            }
        }
        if i > 0 {
            text.append(".");
            assert("."@ =~= seq!['.']);
        }
        text.append(parts[i].as_str());
        assert(text@ =~= join_with(texts.take(i + 1), '.'));
        i += 1;
    }
    assert(texts.take(parts.len() as int) =~= texts);
    text
}

/// Reads the labels of the name that starts at `ptr`, following compression
/// pointers. Fails with `TruncatedMessage` where a read would leave the
/// buffer, and with `CompressionLoop` where the walk would take more steps
/// than `buf.len() + 1`.
pub fn name_labels(buf: &[u8], ptr: usize) -> (r: Result<Vec<Vec<u8>>, DnsError>)
    ensures
        match name_labels_at(buf@, ptr as int) {
            Ok(labels) => r matches Ok(got) && labels_view(got@) == labels,
            Err(e) => r matches Err(got) && got == e,
        },
{
    let len = buf.len();
    let ghost whole = name_labels_at(buf@, ptr as int);
    let mut labels: Vec<Vec<u8>> = Vec::new();
    let mut cur = ptr;
    // Steps that may still follow the one under way.
    let mut budget = len;
    assert(labels_view(labels@) =~= Seq::empty());
    assert(whole == with_prefix(labels_view(labels@), whole)) by {
        if whole is Ok {
            assert(Seq::<Seq<u8>>::empty() + whole->Ok_0 =~= whole->Ok_0);
        }
    }
    loop
        invariant
            len == buf@.len(),
            budget <= len,
            whole == name_labels_at(buf@, ptr as int),
            whole == with_prefix(
                labels_view(labels@),
                labels_from(buf@, cur as int, (budget + 1) as nat),
            ),
        decreases budget,
    {
        if cur >= len {
            return Err(DnsError::TruncatedMessage);
        }
        let first = buf[cur];
        let next: usize;
        if first & 0xC0 == 0xC0 {
            if len - cur < 2 {
                return Err(DnsError::TruncatedMessage);
            }
            let offset = (((first as u16) << 8) | (buf[cur + 1] as u16)) & 0x3FFF;
            next = offset as usize;
            assert(whole == with_prefix(
                labels_view(labels@),
                labels_from(buf@, next as int, budget as nat),
            ));
        } else if first == 0 {
            assert(labels_view(labels@) + Seq::<Seq<u8>>::empty() =~= labels_view(labels@));
            return Ok(labels);
        } else {
            let label_len = first as usize;
            if label_len > len - cur - 1 {
                return Err(DnsError::TruncatedMessage);
            }
            let ghost held = labels@;
            let ghost rest = labels_from(buf@, cur + 1 + label_len, budget as nat);
            let label = slice_to_vec(slice_subrange(buf, cur + 1, cur + 1 + label_len));
            let ghost bytes = label@;
            labels.push(label);
            proof {
                assert(labels_view(held.push(label)) =~= labels_view(held).push(bytes));
                if rest is Ok {
                    assert(labels_view(held) + (seq![bytes] + rest->Ok_0) =~= labels_view(
                        held,
                    ).push(bytes) + rest->Ok_0);
                }
            }
            next = cur + 1 + label_len;
            assert(whole == with_prefix(
                labels_view(labels@),
                labels_from(buf@, next as int, budget as nat),
            ));
        }
        if budget == 0 {
            return Err(DnsError::CompressionLoop);
        }
        budget = budget - 1;
        cur = next;
    }
}

impl DnsResponse {
    /// The compact name reader: reads one name reference at `ptr` without
    /// following it. Gives the offset that stands for the name and the cursor
    /// past the reference.
    pub fn read_name(buf: &[u8], ptr: usize) -> (r: Result<(u16, usize), DnsError>)
        ensures
            match name_ref_at(buf@, ptr as int) {
                Ok((offset, next)) => r == Ok::<(u16, usize), DnsError>((offset, next as usize))
                    && ptr < next <= buf@.len(),
                Err(e) => r == Err::<(u16, usize), DnsError>(e),
            },
    {
        let len = buf.len();
        if ptr >= len {
            return Err(DnsError::TruncatedMessage);
        }
        let first = buf[ptr];
        if first & 0xC0 == 0xC0 {
            if len - ptr < 2 {
                return Err(DnsError::TruncatedMessage);
            }
            let offset = (((first as u16) << 8) | (buf[ptr + 1] as u16)) & 0x3FFF;
            Ok((offset, ptr + 2))
        } else {
            let mut cur = ptr;
            while buf[cur] != 0
                invariant
                    len == buf@.len(),
                    ptr <= cur < len,
                    !is_pointer(buf@[ptr as int]),
                    skip_labels(buf@, cur as int) == skip_labels(buf@, ptr as int),
                decreases len - cur,
            {
                let label = buf[cur] as usize;
                if 1 + label >= len - cur {
                    return Err(DnsError::TruncatedMessage);
                }
                cur = cur + 1 + label;
            }
            Ok((#[verifier::truncate] (ptr as u16), cur + 1))
        }
    }

    /// Full name decompression: the name that starts at `ptr`, with
    /// compression pointers followed, as dotted text. Each label becomes text
    /// by `String::from_utf8_lossy`; where every label is valid UTF-8 the
    /// text is the labels decoded and joined by dots.
    pub fn decode_name(buf: &[u8], ptr: usize) -> (r: Result<String, DnsError>)
        ensures
            match name_labels_at(buf@, ptr as int) {
                Ok(labels) => r matches Ok(text) && text@ == name_text(labels) && (all_utf8(labels)
                    ==> text@ == decoded_text(labels)),
                Err(e) => r matches Err(got) && got == e,
            },
    {
        let labels = name_labels(buf, ptr)?;
        let ghost bytes = labels_view(labels@);
        let ghost texts = bytes.map_values(|label: Seq<u8>| utf8_lossy(label));
        let mut parts: Vec<String> = Vec::new();
        let mut i: usize = 0;
        assert(texts_view(parts@) =~= texts.take(0));
        while i < labels.len()
            invariant
                i <= labels.len(),
                bytes == labels_view(labels@),
                texts == bytes.map_values(|label: Seq<u8>| utf8_lossy(label)),
                texts_view(parts@) == texts.take(i as int),
                forall|k: int|
                    0 <= k < i && valid_utf8(bytes[k]) ==> #[trigger] texts[k] == decode_utf8(
                        bytes[k],
                    ),
            decreases labels.len() - i,
        {
            let ghost held = parts@;
            let part = lossy_text(labels[i].as_slice());
            assert(part@ == texts[i as int]);
            parts.push(part);
            assert(texts_view(held.push(part)) =~= texts.take(i as int).push(part@));
            assert(texts.take(i as int).push(texts[i as int]) =~= texts.take(i + 1));
            i += 1;
        }
        assert(texts.take(labels.len() as int) =~= texts);
        proof {
            if all_utf8(bytes) {
                assert(texts =~= bytes.map_values(|label: Seq<u8>| decode_utf8(label)));
            }
        }
        Ok(join_labels(&parts))
    }
}

} // verus!
