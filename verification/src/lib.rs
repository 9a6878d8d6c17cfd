//! Sorting and comparing texts in the order that a reader expects: runs of
//! digits count as numbers, so that `file2` stands before `file10`.
//!
//! Texts are compared character by character, except for runs of digits,
//! which are compared by the numbers they stand for. Nothing is copied out of
//! the texts and no number is ever computed, so neither the length of a text
//! nor that of a number in it is limited.

pub mod big_num;
pub mod digits;
pub mod iter_pair;
pub mod order;
pub mod sorting;
pub mod text;

use crate::big_num::BigNum;
use crate::digits::{
    is_digit, lemma_run_len_bounds, lemma_stripped_run_value,
};
use crate::order::{
    lemma_first_tokens_by_char, lemma_first_tokens_by_magnitude, lemma_natural_order_unfold,
    natural_order,
};
use crate::sorting::{is_stable_sort, lemma_stable_sort_of_sorted, sorted, texts};
use crate::text::{first_char, AsText};
use std::cmp::Ordering;
use std::str::Chars;
use vstd::prelude::*;
use vstd::std_specs::iter::IteratorSpec;

verus! {

/// Sorts `arr` into the natural order of its texts. Items whose texts compare
/// equal, as `a7` and `a007` do, keep the order they had; so sorting what is
/// sorted already changes nothing.
pub fn sort<T: AsText>(arr: &mut [T])
    ensures
        is_stable_sort(old(arr)@, final(arr)@),
        sorted(texts(old(arr)@)) ==> final(arr)@ == old(arr)@,
{
    sort_by_natural_order(arr);
    proof {
        if sorted(texts(old(arr)@)) {
            lemma_stable_sort_of_sorted(old(arr)@, arr@);
        }
    }
}

/// `<[T]>::sort_by` of the standard library, called with `compare` on the
/// texts of the items as its order. The standard library documents it as a
/// stable sort: it puts the items in ascending order and leaves items that
/// compare equal in the order they had. It asks for a total order, which the
/// natural order is.
#[verifier::external_body]
fn sort_by_natural_order<T: AsText>(arr: &mut [T])
    ensures
        is_stable_sort(old(arr)@, final(arr)@),
{
    arr.sort_by(|a, b| compare(a.as_text(), b.as_text()));
}

/// Compares two texts in their natural order.
pub fn compare(s1: &str, s2: &str) -> (r: Ordering)
    ensures
        r == natural_order(s1@, s2@),
{
    compare_chars_iters(s1.chars(), s2.chars())
}

/// Compares in their natural order the two texts that `c1` and `c2` have yet
/// to yield.
pub fn compare_chars_iters<'a>(c1: Chars<'a>, c2: Chars<'a>) -> (r: Ordering)
    ensures
        r == natural_order(c1.remaining(), c2.remaining()),
{
    let mut it1 = c1;
    let mut it2 = c2;
    let mut rest1 = it1.as_str();
    let mut rest2 = it2.as_str();
    loop
        invariant
            rest1@ == it1.remaining(),
            rest2@ == it2.remaining(),
            natural_order(c1.remaining(), c2.remaining()) == natural_order(rest1@, rest2@),
        decreases rest1@.len(),
    {
        proof {
            lemma_natural_order_unfold(rest1@, rest2@);
        }
        match (first_char(rest1), first_char(rest2)) {
            (Some(x), Some(y)) => {
                if is_digit(x) && is_digit(y) {
                    proof {
                        lemma_first_tokens_by_magnitude(rest1@, rest2@);
                        lemma_stripped_run_value(rest1@);
                        lemma_stripped_run_value(rest2@);
                        lemma_run_len_bounds(rest1@);
                    }
                    let n1 = BigNum::extract(&mut it1).unwrap();
                    let n2 = BigNum::extract(&mut it2).unwrap();
                    match n1.cmp(&n2) {
                        Ordering::Equal => {},
                        decided => {
                            return decided;
                        },
                    }
                } else {
                    proof {
                        lemma_first_tokens_by_char(rest1@, rest2@);
                    }
                    if x < y {
                        return Ordering::Less;
                    } else if x > y {
                        return Ordering::Greater;
                    }
                    let _ = it1.next();
                    let _ = it2.next();
                }
            },
            (Some(_), None) => {
                return Ordering::Greater;
            },
            (None, Some(_)) => {
                return Ordering::Less;
            },
            (None, None) => {
                return Ordering::Equal;
            },
        }
        rest1 = it1.as_str();
        rest2 = it2.as_str();
    }
}

} // verus!
