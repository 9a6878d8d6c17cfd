//! Numbers of any length, read from the digits of a text.

use crate::digits::{
    after_run, canonical, decimal_value, first_difference, is_digit, lemma_first_difference,
    lemma_first_difference_found, lemma_run_len_is, lemma_shorter_is_smaller,
    lemma_stripped_run_canonical, lemma_zeros_len_is, stripped_run,
};
use crate::order::nat_order;
use crate::text::{ascii_bytes, byte_chars, lemma_ascii_prefix_bytes};
use std::cmp::Ordering;
use std::str::Chars;
use vstd::prelude::*;
use vstd::std_specs::iter::IteratorSpec;
use vstd::string::StringSliceAdditionalSpecFns;
use vstd::utf8::encode_utf8;

verus! {

/// A natural number of any length, held as a reference to its digits within
/// a text. The zeros in front of the number are left out, so that zero has no
/// digit at all.
#[derive(Debug)]
pub struct BigNum<'a>(&'a [u8]);

impl<'a> View for BigNum<'a> {
    type V = Seq<char>;

    /// The digits of the number, without zeros in front.
    closed spec fn view(&self) -> Seq<char> {
        byte_chars(self.0@)
    }
}

/// The first place at which `a` and `b`, which have one length, differ, or
/// that length if they are the same.
fn first_mismatch(a: &[u8], b: &[u8]) -> (k: usize)
    requires
        a@.len() == b@.len(),
    ensures
        k == first_difference(byte_chars(a@), byte_chars(b@), 0),
{
    let mut k: usize = 0;
    while k < a.len() && a[k] == b[k]
        invariant
            a@.len() == b@.len(),
            k <= a@.len(),
            first_difference(byte_chars(a@), byte_chars(b@), 0) == first_difference(
                byte_chars(a@),
                byte_chars(b@),
                k as int,
            ),
        decreases a@.len() - k,
    {
        k += 1;
    }
    k
}

impl<'a> BigNum<'a> {
    #[verifier::type_invariant]
    spec fn wf(&self) -> bool {
        canonical(self@)
    }

    /// The number itself.
    pub open spec fn value(&self) -> nat {
        decimal_value(self@)
    }

    /// Takes the digit run at the front of `src` out of it and returns the
    /// number that it stands for. Where `src` does not start with a digit,
    /// nothing is taken and `Err` is returned.
    pub fn extract(src: &mut Chars<'a>) -> (r: Result<BigNum<'a>, ()>)
        ensures
            match r {
                Ok(n) => {
                    &&& (*old(src)).remaining().len() > 0
                    &&& is_digit((*old(src)).remaining()[0])
                    &&& n@ == stripped_run((*old(src)).remaining())
                    &&& (*final(src)).remaining() == after_run((*old(src)).remaining())
                },
                Err(_) => {
                    &&& (*old(src)).remaining().len() == 0 || !is_digit((*old(src)).remaining()[0])
                    &&& *final(src) == *old(src)
                },
            },
    {
        let s: &'a str = src.as_str();
        let bytes: &'a [u8] = s.as_bytes();
        let ghost text = s@;
        let mut probe = s.chars();
        let mut start: usize = 0;
        let mut stop: usize = 0;
        loop
            invariant_except_break
                probe.remaining() == text.skip(stop as int),
            invariant
                bytes@ == encode_utf8(text),
                start <= stop <= text.len(),
                forall|i: int| 0 <= i < stop ==> is_digit(#[trigger] text[i]),
                forall|i: int| 0 <= i < start ==> #[trigger] text[i] == '0',
                start < stop ==> text[start as int] != '0',
            ensures
                stop < text.len() ==> !is_digit(text[stop as int]),
            decreases text.len() - stop,
        {
            match probe.next() {
                Some(c) => {
                    assert(c == text[stop as int]);
                    if !is_digit(c) {
                        break ;
                    }
                    proof {
                        lemma_ascii_prefix_bytes(text, stop + 1);
                        assert(bytes.len() == bytes@.len());
                    }
                    if start == stop && c == '0' {
                        start += 1;
                    }
                    stop += 1;
                    assert(probe.remaining() == text.skip(stop as int));
                },
                None => {
                    break ;
                },
            }
        }
        if stop == 0 {
            return Err(());
        }
        proof {
            lemma_run_len_is(text, stop as int);
            lemma_zeros_len_is(text, start as int);
            lemma_stripped_run_canonical(text);
            lemma_ascii_prefix_bytes(text, stop as int);
        }
        let mut taken: usize = 0;
        while taken < stop
            invariant
                taken <= stop <= text.len(),
                (*src).remaining() == text.skip(taken as int),
            decreases stop - taken,
        {
            let _ = src.next();
            taken += 1;
            assert(text.skip(taken - 1).drop_first() == text.skip(taken as int));
        }
        let digits: &'a [u8] = &bytes[start..stop];
        assert(byte_chars(digits@) == stripped_run(text));
        Ok(BigNum(digits))
    }

    /// The digits of the number as they stand in the text, without zeros in
    /// front, each as its ASCII code.
    pub fn digits(&self) -> (d: &'a [u8])
        ensures
            d@ == ascii_bytes(self@),
            canonical(self@),
    {
        proof {
            use_type_invariant(self);
        }
        assert(ascii_bytes(byte_chars(self.0@)) == self.0@);
        self.0
    }

    /// Compares two numbers by their values.
    pub fn cmp(&self, other: &Self) -> (r: Ordering)
        ensures
            r == nat_order(self.value(), other.value()),
    {
        proof {
            use_type_invariant(self);
            use_type_invariant(other);
        }
        if self.0.len() < other.0.len() {
            proof {
                lemma_shorter_is_smaller(self@, other@);
            }
            Ordering::Less
        } else if self.0.len() > other.0.len() {
            proof {
                lemma_shorter_is_smaller(other@, self@);
            }
            Ordering::Greater
        } else {
            let k = first_mismatch(self.0, other.0);
            proof {
                lemma_first_difference_found(self@, other@, 0);
            }
            if k == self.0.len() {
                Ordering::Equal
            } else if self.0[k] < other.0[k] {
                proof {
                    lemma_first_difference(self@, other@, first_difference(self@, other@, 0));
                }
                Ordering::Less
            } else {
                proof {
                    lemma_first_difference(other@, self@, first_difference(self@, other@, 0));
                }
                Ordering::Greater
            }
        }
    }
}

impl<'a> PartialEq for BigNum<'a> {
    /// Whether two numbers are the same.
    fn eq(&self, other: &Self) -> (r: bool) {
        if self.0.len() != other.0.len() {
            return false;
        }
        proof {
            lemma_first_difference_found(self@, other@, 0);
        }
        first_mismatch(self.0, other.0) == self.0.len()
    }
}

impl<'a> vstd::std_specs::cmp::PartialEqSpecImpl for BigNum<'a> {
    open spec fn obeys_eq_spec() -> bool {
        true
    }

    open spec fn eq_spec(&self, other: &Self) -> bool {
        self@ == other@
    }
}

impl<'a> Eq for BigNum<'a> {

}

impl<'a> PartialOrd for BigNum<'a> {
    /// How two numbers compare by their values. There is always an answer.
    fn partial_cmp(&self, other: &Self) -> (r: Option<Ordering>) {
        Some(self.cmp(other))
    }
}

impl<'a> vstd::std_specs::cmp::PartialOrdSpecImpl for BigNum<'a> {
    open spec fn obeys_partial_cmp_spec() -> bool {
        true
    }

    open spec fn partial_cmp_spec(&self, other: &Self) -> Option<Ordering> {
        Some(nat_order(self.value(), other.value()))
    }
}

} // verus!
