use vstd::prelude::*;
use vstd::string::StringSliceAdditionalSpecFns;
use vstd::utf8::{decode_utf8, encode_utf8, is_char_boundary, valid_utf8};

verus! {

/// What `bstr::decode_last_utf8` reports for a byte string: the scalar that its last
/// bytes encode, if they encode one, and the number of bytes taken.
pub uninterp spec fn last_scalar_of(bytes: Seq<u8>) -> (Option<char>, usize);

/// A character with the Unicode property White_Space.
pub open spec fn whitespace_char(c: char) -> bool {
    let u = c as u32;
    (0x09 <= u <= 0x0d) || u == 0x20 || u == 0x85 || u == 0xa0 || u == 0x1680 || (0x2000 <= u
        <= 0x200a) || u == 0x2028 || u == 0x2029 || u == 0x202f || u == 0x205f || u == 0x3000
}

/// Reads bytes as text with `std::str::from_utf8`: the text comes back exactly where the
/// bytes are valid UTF-8, and its bytes are the ones given.
#[verifier::external_body]
pub(crate) fn utf8_text(bytes: &[u8]) -> (text: Option<&str>)
    ensures
        text is Some <==> valid_utf8(bytes@),
        text is Some ==> text->0.spec_bytes() == bytes@,
{
    std::str::from_utf8(bytes).ok()
}

/// `len` bytes of `bytes` are valid UTF-8, and no longer prefix is.
pub open spec fn is_valid_len(bytes: Seq<u8>, len: int) -> bool {
    &&& 0 <= len <= bytes.len()
    &&& valid_utf8(bytes.subrange(0, len))
    &&& forall|longer: int|
        len < longer <= bytes.len() ==> !valid_utf8(#[trigger] bytes.subrange(0, longer))
}

/// The length of the longest prefix of `bytes` that is valid UTF-8.
pub open spec fn valid_len(bytes: Seq<u8>) -> int {
    choose|len: int| is_valid_len(bytes, len)
}

/// The length of the longest prefix of `bytes` that is valid UTF-8, as
/// `Utf8Error::valid_up_to` reports it after `std::str::from_utf8` (the whole length where
/// all of it is valid).
#[verifier::external_body]
pub(crate) fn utf8_valid_len(bytes: &[u8]) -> (len: usize)
    ensures
        is_valid_len(bytes@, len as int),
{
    match std::str::from_utf8(bytes) {
        Ok(_) => bytes.len(),
        Err(e) => e.valid_up_to(),
    }
}

/// Decodes the last scalar of `bytes` with `bstr::decode_last_utf8`.
#[verifier::external_body]
pub(crate) fn last_scalar(bytes: &[u8]) -> (r: (Option<char>, usize))
    ensures
        r == last_scalar_of(bytes@),
{
    bstr::decode_last_utf8(bytes)
}

/// Asks `char::is_whitespace`, which holds of the characters with the Unicode property
/// White_Space.
#[verifier::external_body]
pub(crate) fn is_whitespace(c: char) -> (r: bool)
    ensures
        r == whitespace_char(c),
{
    c.is_whitespace()
}

/// The length of the longest prefix of `bytes` that is valid UTF-8.
pub fn valid_prefix_len(bytes: &[u8]) -> (len: usize)
    ensures
        len == valid_len(bytes@),
        is_valid_len(bytes@, len as int),
{
    let len = utf8_valid_len(bytes);
    proof {
        let other = valid_len(bytes@);
        assert(is_valid_len(bytes@, other));
        if other < len {
            assert(!valid_utf8(bytes@.subrange(0, len as int)));
        }
        if len < other {
            assert(!valid_utf8(bytes@.subrange(0, other)));
        }
    }
    len
}

/// A text is the decoding of its bytes, and its bytes are valid UTF-8.
pub proof fn lemma_text_bytes(text: &str)
    ensures
        valid_utf8(text.spec_bytes()),
        decode_utf8(text.spec_bytes()) == text@,
        is_char_boundary(text.spec_bytes(), 0),
        is_char_boundary(text.spec_bytes(), text.spec_bytes().len() as int),
{
    vstd::utf8::encode_utf8_valid_utf8(text@);
    vstd::utf8::encode_utf8_decode_utf8(text@);
    vstd::utf8::is_char_boundary_start_end_of_seq(text.spec_bytes());
}

/// Two texts with the same bytes are the same text.
pub proof fn lemma_same_bytes(a: Seq<char>, b: Seq<char>)
    requires
        encode_utf8(a) == encode_utf8(b),
    ensures
        a == b,
{
    vstd::utf8::encode_utf8_decode_utf8(a);
    vstd::utf8::encode_utf8_decode_utf8(b);
}

/// A character boundary of a text is one of each prefix that reaches it.
pub proof fn lemma_boundary_in_prefix(bytes: Seq<u8>, start: int, end: int)
    requires
        valid_utf8(bytes),
        0 <= start <= end <= bytes.len(),
        is_char_boundary(bytes, start),
        is_char_boundary(bytes, end),
    ensures
        valid_utf8(bytes.subrange(0, end)),
        is_char_boundary(bytes.subrange(0, end), start),
{
    let prefix = bytes.subrange(0, end);
    vstd::utf8::valid_utf8_split(bytes, end);
    if start == end {
        vstd::utf8::is_char_boundary_start_end_of_seq(prefix);
    } else {
        vstd::utf8::is_char_boundary_iff_not_is_continuation_byte(bytes, start);
        vstd::utf8::is_char_boundary_iff_not_is_continuation_byte(prefix, start);
    }
}

/// The part of `text` between two of its character boundaries.
pub fn sub_str<'a>(text: &'a str, start: usize, end: usize) -> (part: &'a str)
    requires
        start <= end <= text.spec_bytes().len(),
        is_char_boundary(text.spec_bytes(), start as int),
        is_char_boundary(text.spec_bytes(), end as int),
    ensures
        part.spec_bytes() == text.spec_bytes().subrange(start as int, end as int),
        part@ == decode_utf8(text.spec_bytes().subrange(start as int, end as int)),
{
    proof {
        lemma_text_bytes(text);
        lemma_boundary_in_prefix(text.spec_bytes(), start as int, end as int);
    }
    let (head, _) = text.split_at(end);
    let (_, part) = head.split_at(start);
    proof {
        assert(part.spec_bytes() =~= text.spec_bytes().subrange(start as int, end as int));
        lemma_text_bytes(part);
    }
    part
}

/// The first index after `from` that is a character boundary of `text` or lies past its end.
pub open spec fn next_char_boundary(text: Seq<u8>, from: int) -> int
    decreases text.len() - from,
{
    if from + 1 >= text.len() {
        from + 1
    } else if is_char_boundary(text, from + 1) {
        from + 1
    } else {
        next_char_boundary(text, from + 1)
    }
}

/// The next boundary lies after `from`; within the text it is a character boundary.
pub proof fn lemma_next_char_boundary(text: Seq<u8>, from: int)
    requires
        valid_utf8(text),
        0 <= from,
    ensures
        from < next_char_boundary(text, from),
        next_char_boundary(text, from) <= text.len() ==> is_char_boundary(
            text,
            next_char_boundary(text, from),
        ),
        from < text.len() ==> next_char_boundary(text, from) <= text.len(),
    decreases text.len() - from,
{
    if from + 1 >= text.len() {
        vstd::utf8::is_char_boundary_start_end_of_seq(text);
    } else if !is_char_boundary(text, from + 1) {
        lemma_next_char_boundary(text, from + 1);
    }
}

/// The first character boundary of `text` after `from`.
pub fn char_boundary_after(text: &str, from: usize) -> (next: usize)
    requires
        from < text.spec_bytes().len(),
    ensures
        next == next_char_boundary(text.spec_bytes(), from as int),
        from < next <= text.spec_bytes().len(),
        is_char_boundary(text.spec_bytes(), next as int),
{
    let bytes = text.as_bytes();
    proof {
        lemma_text_bytes(text);
        lemma_next_char_boundary(text.spec_bytes(), from as int);
    }
    let n: usize = bytes.len();
    let mut next: usize = from + 1;
    while next < n && !text.is_char_boundary(next)
        invariant
            bytes@ == text.spec_bytes(),
            n == bytes@.len(),
            valid_utf8(text.spec_bytes()),
            from < next <= bytes@.len(),
            next_char_boundary(text.spec_bytes(), from as int) == next_char_boundary(
                text.spec_bytes(),
                next - 1,
            ),
        decreases bytes@.len() - next,
    {
        next = next + 1;
    }
    next
}

} // verus!
