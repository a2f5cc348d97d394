//! Digests of texts, and their hexadecimal form.
use crate::search::{ascii_hex_digit, is_hex_digit};
use crate::text::chars_of;
use vstd::prelude::*;
use vstd::utf8::encode_utf8;

verus! {

/// The digest that `md5::compute` gives for `bytes`.
pub uninterp spec fn md5_digest(bytes: Seq<u8>) -> Seq<u8>;

/// Calls `md5::compute`. The digest depends on the bytes alone; how is not stated.
#[verifier::external_body]
fn compute_md5(bytes: &[u8]) -> (r: [u8; 16])
    ensures
        r@ == md5_digest(bytes@),
{
    md5::compute(bytes).0
}

/// The lower-case hexadecimal digit for a number below sixteen.
pub open spec fn hex_char(n: int) -> char {
    if n < 10 {
        (48 + n) as char
    } else {
        (87 + n) as char
    }
}

/// Bytes in hexadecimal, two digits for each.
pub open spec fn hex(bytes: Seq<u8>) -> Seq<char>
    decreases bytes.len(),
{
    if bytes.len() == 0 {
        Seq::empty()
    } else {
        hex(bytes.drop_last()).push(hex_char(bytes.last() as int / 16)).push(
            hex_char(bytes.last() as int % 16),
        )
    }
}

fn hex_digit(n: u8) -> (r: char)
    requires
        n < 16,
    ensures
        r == hex_char(n as int),
{
    if n < 10 {
        (48 + n) as char
    } else {
        (87 + n) as char
    }
}

/// Bytes in hexadecimal, two digits for each.
pub fn hex_text(bytes: &[u8]) -> (r: String)
    ensures
        r@ == hex(bytes@),
{
    let mut out = String::new();
    let mut i: usize = 0;
    assert(bytes@.take(0) =~= Seq::<u8>::empty());
    while i < bytes.len()
        invariant
            i <= bytes.len(),
            out@ == hex(bytes@.take(i as int)),
        decreases bytes.len() - i,
    {
        let b = bytes[i];
        out.push(hex_digit(b / 16));
        out.push(hex_digit(b % 16));
        i += 1;
        assert(bytes@.take(i as int).drop_last() =~= bytes@.take(i - 1));
    }
    assert(bytes@.take(i as int) =~= bytes@);
    out
}

/// Two texts of digests agree only where the digests do, and every text of a digest is made of
/// hexadecimal digits.
pub proof fn law_hex_is_faithful(a: Seq<u8>, b: Seq<u8>)
    ensures
        hex(a).len() == 2 * a.len(),
        forall|i: int| 0 <= i < hex(a).len() ==> ascii_hex_digit(#[trigger] hex(a)[i]),
        hex(a) == hex(b) ==> a == b,
    decreases a.len(),
{
    lemma_hex_len(a);
    if a.len() > 0 {
        law_hex_is_faithful(a.drop_last(), a.drop_last());
    }
    if b.len() > 0 {
        lemma_hex_len(b);
        if a.len() > 0 && hex(a) == hex(b) {
            law_hex_is_faithful(a.drop_last(), b.drop_last());
            let n = hex(a).len();
            assert(hex(a).take(n - 2) =~= hex(a.drop_last()));
            assert(hex(b).take(n - 2) =~= hex(b.drop_last()));
            assert(hex(a)[n - 1] == hex(b)[n - 1] && hex(a)[n - 2] == hex(b)[n - 2]);
            assert(a.last() == b.last());
            assert(a =~= a.drop_last().push(a.last()));
            assert(b =~= b.drop_last().push(b.last()));
        }
    } else {
        assert(a.len() == 0 ==> a =~= b);
    }
}

proof fn lemma_hex_len(b: Seq<u8>)
    ensures
        hex(b).len() == 2 * b.len(),
    decreases b.len(),
{
    if b.len() > 0 {
        lemma_hex_len(b.drop_last());
    }
}

/// The digest of a text, in hexadecimal.
pub open spec fn text_digest(text: Seq<char>) -> Seq<char> {
    hex(md5_digest(encode_utf8(text)))
}

/// The digest of the bytes of `text`, in hexadecimal.
pub fn digest_of(text: &str) -> (r: String)
    ensures
        r@ == text_digest(text@),
        r@.len() == 32,
{
    let digest = compute_md5(text.as_bytes());
    proof {
        lemma_hex_len(digest@);
    }
    hex_text(&digest)
}

/// Whether a text has the form of a digest in hexadecimal: its length, and hexadecimal digits
/// of either case.
pub open spec fn digest_form(text: Seq<char>) -> bool {
    text.len() == 32 && forall|i: int| 0 <= i < text.len() ==> ascii_hex_digit(#[trigger] text[i])
}

/// Whether `text` has the form of a digest in hexadecimal.
pub fn is_hex_digest(text: &str) -> (r: bool)
    ensures
        r == digest_form(text@),
{
    let chars = chars_of(text);
    if chars.len() != 32 {
        return false;
    }
    let mut i: usize = 0;
    while i < 32
        invariant
            i <= 32,
            chars@ == text@,
            chars@.len() == 32,
            forall|j: int| 0 <= j < i ==> ascii_hex_digit(#[trigger] text@[j]),
        decreases 32 - i,
    {
        if !is_hex_digit(chars[i]) {
            return false;
        }
        i += 1;
    }
    true
}

/// A byte is written by its two digits, the higher one first, and bytes in their order.
pub proof fn law_bytes_are_written_high_digit_first(bytes: Seq<u8>, b: u8)
    ensures
        hex(bytes.push(b)).len() == hex(bytes).len() + 2,
        hex(bytes.push(b)).take(hex(bytes).len() as int) == hex(bytes),
        ({
            let high = hex(bytes.push(b))[hex(bytes).len() as int];
            let low = hex(bytes.push(b)).last();
            let value = |c: char|
                if '0' <= c && c <= '9' {
                    c as int - 48
                } else {
                    c as int - 97 + 10
                };
            value(high) * 16 + value(low) == b
        }),
{
    assert(bytes.push(b).drop_last() =~= bytes);
    let all = hex(bytes.push(b));
    assert(all.take(hex(bytes).len() as int) =~= hex(bytes));
}

}
