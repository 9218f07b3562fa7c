//! Domains as text.
//!
//! The encoder works on the bytes of a domain and cuts them at every dot
//! byte. In UTF-8 the dot byte stands for the dot character and for nothing
//! else, so the labels are the encodings of the pieces of text between the
//! dot characters.

use crate::dns_name::{join_with, lemma_join_then_split, split_labels, DOT};
use vstd::prelude::*;
use vstd::utf8::{
    char_is_scalar, encode_scalar, encode_utf8, has_width_1_encoding, has_width_2_encoding,
    has_width_3_encoding,
};

verus! {

/// The encodings of the pieces, in the same order.
pub open spec fn encode_pieces(pieces: Seq<Seq<char>>) -> Seq<Seq<u8>> {
    pieces.map_values(|piece: Seq<char>| encode_utf8(piece))
}

/// The dot character is encoded as the dot byte alone, and no other
/// character has a dot byte anywhere in its encoding.
pub proof fn lemma_dot_byte(c: char)
    ensures
        c == '.' ==> encode_scalar(c as u32) == seq![DOT],
        c != '.' ==> forall|j: int|
            0 <= j < encode_scalar(c as u32).len() ==> #[trigger] encode_scalar(c as u32)[j] != DOT,
{
    let v = c as u32;
    char_is_scalar(c);
    if has_width_1_encoding(v) {
        assert((v & 0x7F) as u8 == v) by (bit_vector)
            requires
                v <= 0x7F,
        ;
        if c == '.' {
            assert(encode_scalar(v) =~= seq![DOT]);
        }
    } else {
        let lead2 = ((v >> 6) & 0x1F) as u8;
        let lead3 = ((v >> 12) & 0x0F) as u8;
        let lead4 = ((v >> 18) & 0x7) as u8;
        let last = (v & 0x3F) as u8;
        let second = ((v >> 6) & 0x3F) as u8;
        let third = ((v >> 12) & 0x3F) as u8;
        assert(0xC0u8 | lead2 != 0x2E) by (bit_vector);
        assert(0xE0u8 | lead3 != 0x2E) by (bit_vector);
        assert(0xF0u8 | lead4 != 0x2E) by (bit_vector);
        assert(0x80u8 | last != 0x2E) by (bit_vector);
        assert(0x80u8 | second != 0x2E) by (bit_vector);
        assert(0x80u8 | third != 0x2E) by (bit_vector);
    }
}

/// The encoding of two texts in a row is the encoding of the first followed
/// by the encoding of the second.
pub proof fn lemma_encode_concat(a: Seq<char>, b: Seq<char>)
    ensures
        encode_utf8(a + b) == encode_utf8(a) + encode_utf8(b),
    decreases a.len(),
{
    if a.len() == 0 {
        assert(a + b =~= b);
        assert(encode_utf8(a) + encode_utf8(b) =~= encode_utf8(b));
    } else {
        assert((a + b).drop_first() =~= a.drop_first() + b);
        lemma_encode_concat(a.drop_first(), b);
        assert(encode_utf8(a + b) =~= encode_utf8(a) + encode_utf8(b));
    }
}

/// A text without a dot character has no dot byte in its encoding.
pub proof fn lemma_no_dot_inside(text: Seq<char>)
    requires
        forall|j: int| 0 <= j < text.len() ==> #[trigger] text[j] != '.',
    ensures
        forall|j: int| 0 <= j < encode_utf8(text).len() ==> #[trigger] encode_utf8(text)[j] != DOT,
    decreases text.len(),
{
    if text.len() > 0 {
        let head = encode_scalar(text[0] as u32);
        lemma_dot_byte(text[0]);
        lemma_no_dot_inside(text.drop_first());
        assert forall|j: int| 0 <= j < encode_utf8(text).len() implies #[trigger] encode_utf8(
            text,
        )[j] != DOT by {
            if j < head.len() {
                assert(encode_utf8(text)[j] == head[j]);
            } else {
                assert(encode_utf8(text)[j] == encode_utf8(text.drop_first())[j - head.len()]);
            }
        }
    }
}

/// Encoding pieces joined with dot characters gives their encodings joined
/// with dot bytes.
pub proof fn lemma_encode_joined(pieces: Seq<Seq<char>>)
    ensures
        encode_utf8(join_with(pieces, '.')) == join_with(encode_pieces(pieces), DOT),
    decreases pieces.len(),
{
    let encoded = encode_pieces(pieces);
    if pieces.len() >= 2 {
        let rest = pieces.skip(1);
        lemma_encode_joined(rest);
        assert(encoded.skip(1) =~= encode_pieces(rest));
        lemma_dot_byte('.');
        lemma_encode_concat(pieces[0] + seq!['.'], join_with(rest, '.'));
        lemma_encode_concat(pieces[0], seq!['.']);
        let dot = seq!['.'];
        assert(dot[0] == '.');
        assert(dot.drop_first() =~= Seq::<char>::empty());
        assert(encode_utf8(dot.drop_first()) =~= Seq::<u8>::empty());
        assert(encode_utf8(dot) =~= seq![DOT]);
    }
}

/// The labels of a domain are the encodings of the pieces of text between
/// its dots: for pieces that hold no dot character, the domain made of them
/// with a dot between neighbours has, as bytes, exactly their UTF-8 encodings
/// as labels.
pub proof fn lemma_labels_of_text(pieces: Seq<Seq<char>>)
    requires
        pieces.len() >= 1,
        forall|i: int, j: int|
            0 <= i < pieces.len() && 0 <= j < pieces[i].len() ==> #[trigger] pieces[i][j] != '.',
    ensures
        split_labels(encode_utf8(join_with(pieces, '.'))) == encode_pieces(pieces),
{
    let encoded = encode_pieces(pieces);
    lemma_encode_joined(pieces);
    assert forall|i: int, j: int|
        0 <= i < encoded.len() && 0 <= j < encoded[i].len() implies #[trigger] encoded[i][j]
        != DOT by {
        assert forall|k: int| 0 <= k < pieces[i].len() implies #[trigger] pieces[i][k] != '.' by {
            assert(pieces[i][k] != '.');
        }
        lemma_no_dot_inside(pieces[i]);
    }
    lemma_join_then_split(encoded);
}

} // verus!
