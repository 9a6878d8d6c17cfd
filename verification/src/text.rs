//! Reading characters from a `Chars` iterator without losing one's place.

use std::str::Chars;
use vstd::prelude::*;
use vstd::std_specs::iter::IteratorSpec;
use vstd::utf8::{encode_scalar, encode_utf8, has_width_1_encoding, leading_byte_width_1};

verus! {

/// `Chars::as_str` of the standard library: the part of the text that the
/// iterator has not yet handed out, as a string slice that lives as long as
/// the text itself. Its characters are those that the iterator will still
/// yield, in the same order; the iterator stays as it is.
pub assume_specification<'a>[ Chars::<'a>::as_str ](chars: &Chars<'a>) -> (s: &'a str)
    ensures
        s@ == chars.remaining(),
;

/// The first character of `s`, if it has one.
pub open spec fn head(s: Seq<char>) -> Option<char> {
    if s.len() > 0 {
        Some(s[0])
    } else {
        None
    }
}

/// `s` without its first character; an empty `s` stays empty.
pub open spec fn tail(s: Seq<char>) -> Seq<char> {
    if s.len() > 0 {
        s.drop_first()
    } else {
        s
    }
}

/// A value that holds a text and can lend it out as a string slice.
pub trait AsText: View<V = Seq<char>> {
    /// The text of this value.
    fn as_text(&self) -> (s: &str)
        ensures
            s@ == self@,
    ;
}

impl AsText for &str {
    fn as_text(&self) -> (s: &str) {
        *self
    }
}

impl AsText for String {
    fn as_text(&self) -> (s: &str) {
        self.as_str()
    }
}

/// The first character of `s`, if it has one.
pub fn first_char(s: &str) -> (c: Option<char>)
    ensures
        c == head(s@),
{
    let mut probe = s.chars();
    probe.next()
}

/// The character that `chars` would yield next, without advancing it.
pub fn peek(chars: &Chars<'_>) -> (c: Option<char>)
    ensures
        c == head(chars.remaining()),
{
    first_char(chars.as_str())
}

/// The bytes that stand for the ASCII characters `s`, one for each.
pub open spec fn ascii_bytes(s: Seq<char>) -> Seq<u8> {
    Seq::new(s.len(), |i: int| s[i] as u8)
}

/// The characters that the bytes `b` stand for when each byte is taken as a
/// character by itself.
pub open spec fn byte_chars(b: Seq<u8>) -> Seq<char> {
    Seq::new(b.len(), |i: int| b[i] as char)
}

/// Whether the first `n` characters of `s` are ASCII.
pub open spec fn ascii_prefix(s: Seq<char>, n: int) -> bool {
    0 <= n <= s.len() && forall|i: int| 0 <= i < n ==> '\0' <= #[trigger] s[i] <= '\x7f'
}

/// In UTF-8 an ASCII character is one byte, its own code. So where a text
/// starts with `n` ASCII characters, its encoding starts with their `n`
/// codes.
pub proof fn lemma_ascii_prefix_bytes(s: Seq<char>, n: int)
    requires
        ascii_prefix(s, n),
    ensures
        encode_utf8(s).len() >= n,
        forall|i: int| 0 <= i < n ==> #[trigger] encode_utf8(s)[i] == s[i] as u8,
        byte_chars(encode_utf8(s).take(n)) == s.take(n),
    decreases n,
{
    if n > 0 {
        let c0 = s[0] as u32;
        assert(has_width_1_encoding(c0));
        assert(c0 as u8 == leading_byte_width_1(c0)) by (bit_vector)
            requires
                has_width_1_encoding(c0),
        ;
        let t = s.drop_first();
        assert forall|i: int| 0 <= i < n - 1 implies '\0' <= #[trigger] t[i] <= '\x7f' by {
            assert(t[i] == s[i + 1]);
        }
        lemma_ascii_prefix_bytes(t, n - 1);
        assert(encode_utf8(s) == encode_scalar(c0) + encode_utf8(t));
        assert forall|i: int| 0 <= i < n implies #[trigger] encode_utf8(s)[i] == s[i] as u8 by {
            if i > 0 {
                assert(encode_utf8(s)[i] == encode_utf8(t)[i - 1]);
                assert(t[i - 1] == s[i]);
            }
        }
    }
    assert(byte_chars(encode_utf8(s).take(n)) =~= s.take(n));
}

} // verus!
