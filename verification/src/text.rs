//! Text and its UTF-8 bytes.
//!
//! The rules of the store are stated over text, character by character. The
//! code scans the bytes of the text instead. This module holds the scans, and
//! the facts that carry what a scan finds in the bytes over to the text.

use vstd::prelude::*;
use vstd::utf8::*;

verus! {

/// The byte of the separator `'/'`, which is its whole encoding.
pub const SEPARATOR_BYTE: u8 = 0x2f;

/// Every byte of `bytes` is the separator byte.
pub open spec fn all_separator_bytes(bytes: Seq<u8>) -> bool {
    forall|i: int| 0 <= i < bytes.len() ==> bytes[i] == SEPARATOR_BYTE
}

/// No byte of `bytes` is the separator byte.
pub open spec fn no_separator_byte(bytes: Seq<u8>) -> bool {
    forall|i: int| 0 <= i < bytes.len() ==> bytes[i] != SEPARATOR_BYTE
}

/// `a` and `b` agree on their first `n` bytes.
pub open spec fn agree_upto(a: Seq<u8>, b: Seq<u8>, n: int) -> bool {
    forall|k: int| 0 <= k < n ==> a[k] == b[k]
}

/// The encoding of a concatenation is the concatenation of the encodings.
pub proof fn lemma_encode_concat(a: Seq<char>, b: Seq<char>)
    ensures
        encode_utf8(a + b) == encode_utf8(a) + encode_utf8(b),
    decreases a.len(),
{
    if a.len() == 0 {
        assert(a + b =~= b);
        assert(encode_utf8(a) + encode_utf8(b) =~= encode_utf8(b));
    } else {
        lemma_encode_concat(a.drop_first(), b);
        assert((a + b).drop_first() =~= a.drop_first() + b);
        assert((a + b)[0] == a[0]);
        assert(encode_utf8(a + b) =~= encode_utf8(a) + encode_utf8(b));
    }
}

/// Two texts with the same encoding are the same text.
pub proof fn lemma_encode_injective(a: Seq<char>, b: Seq<char>)
    requires
        encode_utf8(a) == encode_utf8(b),
    ensures
        a == b,
{
    encode_utf8_decode_utf8(a);
    encode_utf8_decode_utf8(b);
}

/// A text whose encoding is that of `head` followed by that of `tail` is
/// `head` followed by `tail`.
pub proof fn lemma_split_text(whole: Seq<char>, head: Seq<char>, tail: Seq<char>)
    requires
        encode_utf8(whole) == encode_utf8(head) + encode_utf8(tail),
    ensures
        whole == head + tail,
{
    lemma_encode_concat(head, tail);
    lemma_encode_injective(whole, head + tail);
}

/// Only the empty text has an empty encoding.
pub proof fn lemma_encode_empty(a: Seq<char>)
    ensures
        encode_utf8(a).len() == 0 <==> a.len() == 0,
{
    if a.len() > 0 {
        assert(encode_scalar(a[0] as u32).len() > 0);
    }
}

/// The separator is encoded as the separator byte alone, and the text `"/"`
/// is the separator alone.
pub proof fn lemma_separator_encoding()
    ensures
        encode_utf8(seq!['/']) == seq![SEPARATOR_BYTE],
        "/"@ == seq!['/'],
{
    reveal_strlit("/");
    assert("/"@ =~= seq!['/']);
    let s = seq!['/'];
    let c = s[0] as u32;
    assert(c == 0x2f);
    assert(leading_byte_width_1(c) == 0x2f) by (bit_vector)
        requires
            c == 0x2f,
    ;
    assert(encode_utf8(s.drop_first()) =~= Seq::<u8>::empty()) by {
        assert(s.drop_first().len() == 0);
    }
    assert(encode_utf8(s) =~= seq![SEPARATOR_BYTE]);
}

/// In well-formed text a character begins wherever a separator byte stands.
pub proof fn lemma_separator_starts_char(bytes: Seq<u8>, i: int)
    requires
        valid_utf8(bytes),
        0 <= i < bytes.len(),
        bytes[i] == SEPARATOR_BYTE,
    ensures
        is_char_boundary(bytes, i),
{
    is_char_boundary_iff_not_is_continuation_byte(bytes, i);
}

/// In well-formed text that begins with a separator byte, a character
/// begins right after it.
pub proof fn lemma_char_after_separator(bytes: Seq<u8>)
    requires
        valid_utf8(bytes),
        bytes.len() > 0,
        bytes[0] == SEPARATOR_BYTE,
    ensures
        is_char_boundary(bytes, 1),
{
    assert(length_of_first_scalar(bytes) == 1);
    assert(valid_utf8(pop_first_scalar(bytes)));
    assert(is_char_boundary(pop_first_scalar(bytes), 0));
}

/// A text whose encoding begins the encoding of another text begins that
/// text.
pub proof fn lemma_prefix_of_encoding(a: Seq<char>, b: Seq<char>)
    requires
        encode_utf8(a).is_prefix_of(encode_utf8(b)),
    ensures
        a.is_prefix_of(b),
    decreases a.len(),
{
    let ea = encode_utf8(a);
    let eb = encode_utf8(b);
    if a.len() == 0 {
        assert(a =~= b.subrange(0, 0));
    } else {
        lemma_encode_empty(a);
        lemma_encode_empty(b);
        encode_utf8_first_scalar(a);
        encode_utf8_first_scalar(b);
        let width = length_of_first_scalar(ea);
        assert(ea[0] == eb[0]);
        assert(width == length_of_first_scalar(eb));
        assert(width <= ea.len());
        assert(forall|k: int| 0 <= k < width ==> ea[k] == eb[k]);
        assert(decode_first_scalar(ea) == decode_first_scalar(eb));
        char_u32_cast(a[0], a[0] as u32);
        char_u32_cast(b[0], b[0] as u32);
        assert(a[0] == b[0]);
        let head = encode_scalar(a[0] as u32);
        let ra = encode_utf8(a.drop_first());
        let rb = encode_utf8(b.drop_first());
        assert(ea == head + ra);
        assert(eb == head + rb);
        assert(ra =~= rb.subrange(0, ra.len() as int)) by {
            assert forall|k: int| 0 <= k < ra.len() implies ra[k] == rb[k] by {
                assert(ea[head.len() + k] == ra[k]);
                assert(eb[head.len() + k] == rb[k]);
            }
        }
        lemma_prefix_of_encoding(a.drop_first(), b.drop_first());
        assert(a =~= b.subrange(0, a.len() as int)) by {
            assert forall|k: int| 0 <= k < a.len() implies a[k] == b[k] by {
                if k > 0 {
                    assert(a.drop_first()[k - 1] == a[k]);
                    assert(b.drop_first()[k - 1] == b[k]);
                }
            }
        }
    }
}

/// A text that begins another text has an encoding that begins the
/// encoding of that text.
pub proof fn lemma_encoding_of_prefix(a: Seq<char>, b: Seq<char>)
    requires
        a.is_prefix_of(b),
    ensures
        encode_utf8(a).is_prefix_of(encode_utf8(b)),
{
    let rest = b.subrange(a.len() as int, b.len() as int);
    assert(b =~= a + rest);
    lemma_encode_concat(a, rest);
    let ea = encode_utf8(a);
    assert(ea =~= (ea + encode_utf8(rest)).subrange(0, ea.len() as int));
}

/// A text whose encoding begins with the separator byte begins with the
/// separator.
pub proof fn lemma_first_is_separator(text: Seq<char>)
    requires
        encode_utf8(text).len() > 0,
        encode_utf8(text)[0] == SEPARATOR_BYTE,
    ensures
        text.len() > 0,
        text[0] == '/',
        encode_utf8(text) == seq![SEPARATOR_BYTE] + encode_utf8(text.drop_first()),
{
    lemma_encode_empty(text);
    encode_utf8_first_scalar(text);
    let bytes = encode_utf8(text);
    let b = bytes[0];
    assert(codepoint_width_1(b) == 0x2f) by (bit_vector)
        requires
            b == 0x2f,
    ;
    assert(decode_first_scalar(bytes) == 0x2f);
    char_u32_cast(text[0], text[0] as u32);
    char_u32_cast('/', '/' as u32);
    assert(text[0] == '/');
    lemma_separator_encoding();
    assert(text =~= seq!['/'] + text.drop_first());
    lemma_encode_concat(seq!['/'], text.drop_first());
}

/// A text whose bytes are all separator bytes is made of separators alone.
pub proof fn lemma_all_separators(text: Seq<char>)
    requires
        all_separator_bytes(encode_utf8(text)),
    ensures
        forall|i: int| 0 <= i < text.len() ==> text[i] == '/',
    decreases text.len(),
{
    if text.len() > 0 {
        lemma_encode_empty(text);
        assert(encode_utf8(text)[0] == SEPARATOR_BYTE);
        lemma_first_is_separator(text);
        let rest = text.drop_first();
        assert(all_separator_bytes(encode_utf8(rest))) by {
            assert forall|i: int| 0 <= i < encode_utf8(rest).len() implies encode_utf8(rest)[i]
                == SEPARATOR_BYTE by {
                assert(encode_utf8(text)[i + 1] == encode_utf8(rest)[i]);
            }
        }
        lemma_all_separators(rest);
        assert forall|i: int| 0 <= i < text.len() implies text[i] == '/' by {
            if i > 0 {
                assert(rest[i - 1] == text[i]);
            }
        }
    }
}

/// The encoding of a text that holds a separator holds a separator byte.
pub proof fn lemma_separator_shows(text: Seq<char>, i: int)
    requires
        0 <= i < text.len(),
        text[i] == '/',
    ensures
        !no_separator_byte(encode_utf8(text)),
        i == text.len() - 1 ==> encode_utf8(text).last() == SEPARATOR_BYTE,
{
    let before = text.subrange(0, i);
    let after = text.subrange(i + 1, text.len() as int);
    assert(text =~= before + seq!['/'] + after);
    lemma_separator_encoding();
    lemma_encode_concat(before, seq!['/']);
    lemma_encode_concat(before + seq!['/'], after);
    let at = encode_utf8(before).len() as int;
    assert(encode_utf8(text)[at] == SEPARATOR_BYTE);
    if i == text.len() - 1 {
        lemma_encode_empty(after);
    }
}

/// A text whose encoding holds no separator byte holds no separator.
pub proof fn lemma_no_separator(text: Seq<char>)
    requires
        no_separator_byte(encode_utf8(text)),
    ensures
        forall|i: int| 0 <= i < text.len() ==> text[i] != '/',
{
    assert forall|i: int| 0 <= i < text.len() implies text[i] != '/' by {
        if text[i] == '/' {
            lemma_separator_shows(text, i);
        }
    }
}

/// Whether two byte strings are the same.
pub fn same_bytes(a: &[u8], b: &[u8]) -> (r: bool)
    ensures
        r == (a@ == b@),
{
    if a.len() != b.len() {
        return false;
    }
    let mut i: usize = 0;
    while i < a.len()
        invariant
            i <= a.len(),
            a.len() == b.len(),
            agree_upto(a@, b@, i as int),
        decreases a.len() - i,
    {
        if a[i] != b[i] {
            return false;
        }
        i += 1;
    }
    assert(a@ =~= b@);
    true
}

/// Whether `prefix` is an initial part of `whole`.
pub fn starts_with(whole: &[u8], prefix: &[u8]) -> (r: bool)
    ensures
        r == prefix@.is_prefix_of(whole@),
{
    if prefix.len() > whole.len() {
        return false;
    }
    let mut i: usize = 0;
    while i < prefix.len()
        invariant
            i <= prefix.len() <= whole.len(),
            agree_upto(whole@, prefix@, i as int),
        decreases prefix.len() - i,
    {
        if whole[i] != prefix[i] {
            return false;
        }
        i += 1;
    }
    assert(prefix@ =~= whole@.subrange(0, prefix@.len() as int));
    true
}

/// The length of `bytes` without the separator bytes at its end.
pub fn trimmed_len(bytes: &[u8]) -> (n: usize)
    ensures
        n <= bytes.len(),
        all_separator_bytes(bytes@.subrange(n as int, bytes.len() as int)),
        n > 0 ==> bytes[n - 1] != SEPARATOR_BYTE,
{
    let mut n: usize = bytes.len();
    while n > 0 && bytes[n - 1] == SEPARATOR_BYTE
        invariant
            n <= bytes.len(),
            forall|i: int| n <= i < bytes.len() ==> bytes[i] == SEPARATOR_BYTE,
        decreases n,
    {
        n -= 1;
    }
    n
}

/// The place of the last separator byte of `bytes`, if it has one.
pub fn last_separator(bytes: &[u8]) -> (r: Option<usize>)
    ensures
        match r {
            Some(i) => i < bytes.len() && bytes[i as int] == SEPARATOR_BYTE && no_separator_byte(
                bytes@.subrange(i + 1, bytes.len() as int),
            ),
            None => no_separator_byte(bytes@),
        },
{
    let mut n: usize = bytes.len();
    while n > 0
        invariant
            n <= bytes.len(),
            forall|i: int| n <= i < bytes.len() ==> bytes[i] != SEPARATOR_BYTE,
        decreases n,
    {
        if bytes[n - 1] == SEPARATOR_BYTE {
            return Some(n - 1);
        }
        n -= 1;
    }
    None
}

} // verus!
