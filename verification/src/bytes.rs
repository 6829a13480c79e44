//! Bytes: where a message head ends, and what text bytes encode.
use crate::text::chars_of;
use vstd::prelude::*;
use vstd::utf8::*;

verus! {

/// The error of `core::str::from_utf8`.
#[verifier::external_type_specification]
#[verifier::external_body]
pub struct ExUtf8Error(core::str::Utf8Error);

/// `core::str::from_utf8` succeeds on well-formed UTF-8 and on nothing else, and
/// hands out the text that the bytes encode.
pub assume_specification[ core::str::from_utf8 ](v: &[u8]) -> (r: Result<
    &str,
    core::str::Utf8Error,
>)
    ensures
        r is Ok <==> valid_utf8(v@),
        r matches Ok(s) ==> s@ == decode_utf8(v@),
;

/// Whether an empty line stands in `b` at `i`: two carriage return, line feed pairs.
pub open spec fn blank_line_at(b: Seq<u8>, i: int) -> bool {
    0 <= i && i + 4 <= b.len() && b[i] == 13 && b[i + 1] == 10 && b[i + 2] == 13 && b[i + 3] == 10
}

/// The bytes of `chunks`, one after another.
pub open spec fn concat(chunks: Seq<Seq<u8>>) -> Seq<u8>
    decreases chunks.len(),
{
    if chunks.len() == 0 {
        Seq::empty()
    } else {
        chunks[0] + concat(chunks.skip(1))
    }
}

/// The position of the first empty line of `b` at or after `from`.
pub open spec fn head_end_from(b: Seq<u8>, from: int) -> Option<nat>
    decreases b.len() - from,
{
    if from + 4 > b.len() {
        None
    } else if blank_line_at(b, from) {
        Some(from as nat)
    } else {
        head_end_from(b, from + 1)
    }
}

/// The length of the head of the message in `b`: all that stands before the first
/// empty line.
pub open spec fn head_end(b: Seq<u8>) -> Option<nat> {
    head_end_from(b, 0)
}

/// The head ends at an empty line, and no empty line comes sooner.
pub proof fn lemma_head_end(b: Seq<u8>, from: int)
    requires
        0 <= from,
    ensures
        head_end_from(b, from) matches Some(e) ==> {
            &&& from <= e
            &&& blank_line_at(b, e as int)
            &&& forall|i: int| from <= i < e ==> !blank_line_at(b, i)
        },
        head_end_from(b, from) is None ==> forall|i: int| from <= i ==> !blank_line_at(b, i),
    decreases b.len() - from,
{
    if from + 4 <= b.len() && !blank_line_at(b, from) {
        lemma_head_end(b, from + 1);
    }
}

/// A head that has ended does not move when more bytes follow.
pub proof fn lemma_head_end_stays(b: Seq<u8>, more: Seq<u8>, from: int)
    requires
        0 <= from,
        head_end_from(b, from) is Some,
    ensures
        head_end_from(b + more, from) == head_end_from(b, from),
    decreases b.len() - from,
{
    assert(blank_line_at(b + more, from) == blank_line_at(b, from));
    if !blank_line_at(b, from) {
        lemma_head_end_stays(b, more, from + 1);
    }
}

/// The encoding of a text in two parts is the encodings of the parts.
pub proof fn lemma_encode_concat(a: Seq<char>, b: Seq<char>)
    ensures
        encode_utf8(a + b) == encode_utf8(a) + encode_utf8(b),
    decreases a.len(),
{
    if a.len() == 0 {
        assert(a + b == b);
        assert(encode_utf8(a) + encode_utf8(b) == encode_utf8(b));
    } else {
        lemma_encode_concat(a.drop_first(), b);
        assert((a + b).drop_first() == a.drop_first() + b);
        assert(encode_utf8(a + b) =~= encode_utf8(a) + encode_utf8(b));
    }
}

/// The bytes of one character: itself where it is ASCII, else none below 128.
pub proof fn lemma_encode_one(c: char)
    ensures
        c as u32 == c as int,
        c as u32 <= 127 ==> encode_scalar(c as u32) == seq![c as u8] && c as u8 == c as int,
        c as u32 > 127 ==> forall|i: int|
            0 <= i < encode_scalar(c as u32).len() ==> #[trigger] encode_scalar(c as u32)[i] >= 128,
{
    let u = c as u32;
    char_is_scalar(c);
    if u <= 127 {
        assert(leading_byte_width_1(u) == u as u8) by (bit_vector)
            requires
                u <= 127,
        ;
    } else {
        assert(leading_byte_width_2(u) >= 128 && leading_byte_width_3(u) >= 128
            && leading_byte_width_4(u) >= 128 && last_continuation_byte(u) >= 128
            && second_last_continuation_byte(u) >= 128 && third_last_continuation_byte(u) >= 128)
            by (bit_vector);
    }
}

/// An ASCII character that a text does not hold is no byte of its encoding.
pub proof fn lemma_encode_ascii(s: Seq<char>, c: char)
    requires
        c as u32 <= 127,
        !s.contains(c),
    ensures
        !encode_utf8(s).contains(c as u8),
    decreases s.len(),
{
    if s.len() > 0 {
        let rest = s.drop_first();
        assert forall|i: int| 0 <= i < rest.len() implies rest[i] != c by {
            assert(s.contains(s[i + 1]));
        }
        lemma_encode_ascii(rest, c);
        lemma_encode_one(s[0]);
        assert(s.contains(s[0]));
        let head = encode_scalar(s[0] as u32);
        assert forall|i: int| 0 <= i < encode_utf8(s).len() implies encode_utf8(s)[i]
            != c as u8 by {
            if i < head.len() {
                assert(encode_utf8(s)[i] == head[i]);
            } else {
                assert(encode_utf8(s)[i] == encode_utf8(rest)[i - head.len()]);
                assert(encode_utf8(rest).contains(encode_utf8(rest)[i - head.len()]));
            }
        }
    }
}

/// Where the head of the message in `buffer` ends, if it has ended.
pub fn find_header_end(buffer: &[u8]) -> (r: Option<usize>)
    ensures
        r is Some <==> head_end(buffer@) is Some,
        r matches Some(e) ==> head_end(buffer@) == Some(e as nat) && e + 4 <= buffer@.len(),
{
    let mut i: usize = 0;
    while i < buffer.len() && buffer.len() - i >= 4
        invariant
            i <= buffer.len(),
            head_end(buffer@) == head_end_from(buffer@, i as int),
        decreases buffer.len() - i,
    {
        if buffer[i] == 13 && buffer[i + 1] == 10 && buffer[i + 2] == 13 && buffer[i + 3] == 10 {
            return Some(i);
        }
        i = i + 1;
    }
    None
}

/// The text that `bytes` encode, or nothing where they are not UTF-8.
pub fn decode(bytes: &[u8]) -> (r: Option<Vec<char>>)
    ensures
        r is Some <==> valid_utf8(bytes@),
        r matches Some(text) ==> text@ == decode_utf8(bytes@),
{
    match core::str::from_utf8(bytes) {
        Ok(s) => Some(chars_of(s)),
        Err(_) => None,
    }
}

/// The bytes of `s`.
pub fn encode(s: &str) -> (r: Vec<u8>)
    ensures
        r@ == encode_utf8(s@),
{
    s.as_bytes_vec()
}

/// Appends `tail` to `out`.
pub fn append(out: &mut Vec<u8>, tail: &[u8])
    ensures
        final(out)@ == old(out)@ + tail@,
{
    out.extend_from_slice(tail);
    assert(out@ =~= old(out)@ + tail@);
}

} // verus!
