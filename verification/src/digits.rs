//! Digit runs and the numbers they denote.
//!
//! A digit is one of the ten ASCII characters `0` to `9`; no other Unicode
//! decimal digit counts. A digit run stands for the natural number that its
//! digits spell in base ten, whatever its length.

use vstd::prelude::*;

verus! {

/// Whether `c` is one of the ASCII digits `0` to `9`.
pub open spec fn spec_is_digit(c: char) -> bool {
    '0' <= c && c <= '9'
}

/// Whether `c` is one of the ASCII digits `0` to `9`.
#[verifier::when_used_as_spec(spec_is_digit)]
pub fn is_digit(c: char) -> (r: bool)
    ensures
        r == spec_is_digit(c),
{
    '0' <= c && c <= '9'
}

/// Whether every character of `s` is a digit.
pub open spec fn all_digits(s: Seq<char>) -> bool {
    forall|i: int| 0 <= i < s.len() ==> is_digit(#[trigger] s[i])
}

/// Whether `s` is the shortest way to write a number: digits only, and no
/// zero in front. Zero itself is written with no digit at all.
pub open spec fn canonical(s: Seq<char>) -> bool {
    all_digits(s) && (s.len() > 0 ==> s[0] != '0')
}

/// The number of digits that `s` starts with.
pub open spec fn run_len(s: Seq<char>) -> nat
    decreases s.len(),
{
    if s.len() > 0 && is_digit(s[0]) {
        1 + run_len(s.drop_first())
    } else {
        0
    }
}

/// The number of zeros that `s` starts with.
pub open spec fn zeros_len(s: Seq<char>) -> nat
    decreases s.len(),
{
    if s.len() > 0 && s[0] == '0' {
        1 + zeros_len(s.drop_first())
    } else {
        0
    }
}

/// The digits that `s` starts with: its leading digit run.
pub open spec fn digit_run(s: Seq<char>) -> Seq<char> {
    s.take(run_len(s) as int)
}

/// The leading digit run of `s` without the zeros in front of it.
pub open spec fn stripped_run(s: Seq<char>) -> Seq<char> {
    s.subrange(zeros_len(s) as int, run_len(s) as int)
}

/// What is left of `s` behind its leading digit run.
pub open spec fn after_run(s: Seq<char>) -> Seq<char> {
    s.skip(run_len(s) as int)
}

/// The number that the digit `c` stands for.
pub open spec fn digit_value(c: char) -> nat {
    (c as int - '0' as int) as nat
}

/// The number that the digits `d` spell in base ten, the first digit being
/// the most significant one. No digit at all spells zero.
pub open spec fn decimal_value(d: Seq<char>) -> nat
    decreases d.len(),
{
    if d.len() == 0 {
        0
    } else {
        10 * decimal_value(d.drop_last()) + digit_value(d.last())
    }
}

/// The number that the leading digit run of `s` stands for.
pub open spec fn magnitude(s: Seq<char>) -> nat {
    decimal_value(digit_run(s))
}

/// Ten to the power of `n`.
pub open spec fn pow10(n: nat) -> nat
    decreases n,
{
    if n == 0 {
        1
    } else {
        10 * pow10((n - 1) as nat)
    }
}

/// The leading digit run is no longer than the text, holds digits only, and
/// ends where the text ends or a character that is no digit stands.
pub proof fn lemma_run_len_bounds(s: Seq<char>)
    ensures
        run_len(s) <= s.len(),
        forall|i: int| 0 <= i < run_len(s) ==> is_digit(#[trigger] s[i]),
        run_len(s) < s.len() ==> !is_digit(s[run_len(s) as int]),
        s.len() > 0 && is_digit(s[0]) ==> run_len(s) >= 1,
    decreases s.len(),
{
    if s.len() > 0 && is_digit(s[0]) {
        let t = s.drop_first();
        lemma_run_len_bounds(t);
        assert forall|i: int| 0 <= i < run_len(s) implies is_digit(#[trigger] s[i]) by {
            if i > 0 {
                assert(s[i] == t[i - 1]);
            }
        }
        if run_len(s) < s.len() {
            assert(s[run_len(s) as int] == t[run_len(t) as int]);
        }
    }
}

/// A prefix of digits that cannot be made longer is the leading digit run.
pub proof fn lemma_run_len_is(s: Seq<char>, n: int)
    requires
        0 <= n <= s.len(),
        forall|i: int| 0 <= i < n ==> is_digit(#[trigger] s[i]),
        n < s.len() ==> !is_digit(s[n]),
    ensures
        run_len(s) == n,
    decreases n,
{
    if n > 0 {
        let t = s.drop_first();
        assert forall|i: int| 0 <= i < n - 1 implies is_digit(#[trigger] t[i]) by {
            assert(t[i] == s[i + 1]);
        }
        if n - 1 < t.len() {
            assert(t[n - 1] == s[n]);
        }
        lemma_run_len_is(t, n - 1);
    }
}

/// The zeros in front are part of the leading digit run, and a character
/// that is not a zero follows them, if any character does.
pub proof fn lemma_zeros_len_bounds(s: Seq<char>)
    ensures
        zeros_len(s) <= run_len(s) <= s.len(),
        forall|i: int| 0 <= i < zeros_len(s) ==> #[trigger] s[i] == '0',
        zeros_len(s) < s.len() ==> s[zeros_len(s) as int] != '0',
    decreases s.len(),
{
    lemma_run_len_bounds(s);
    if s.len() > 0 && s[0] == '0' {
        let t = s.drop_first();
        lemma_zeros_len_bounds(t);
        assert forall|i: int| 0 <= i < zeros_len(s) implies #[trigger] s[i] == '0' by {
            if i > 0 {
                assert(s[i] == t[i - 1]);
            }
        }
        if zeros_len(s) < s.len() {
            assert(s[zeros_len(s) as int] == t[zeros_len(t) as int]);
        }
    }
}

/// A prefix of zeros that cannot be made longer holds all the zeros in front.
pub proof fn lemma_zeros_len_is(s: Seq<char>, n: int)
    requires
        0 <= n <= s.len(),
        forall|i: int| 0 <= i < n ==> #[trigger] s[i] == '0',
        n < s.len() ==> s[n] != '0',
    ensures
        zeros_len(s) == n,
    decreases n,
{
    if n > 0 {
        let t = s.drop_first();
        assert forall|i: int| 0 <= i < n - 1 implies #[trigger] t[i] == '0' by {
            assert(t[i] == s[i + 1]);
        }
        if n - 1 < t.len() {
            assert(t[n - 1] == s[n]);
        }
        lemma_zeros_len_is(t, n - 1);
    }
}

/// The stripped run is canonical.
pub proof fn lemma_stripped_run_canonical(s: Seq<char>)
    ensures
        canonical(stripped_run(s)),
        all_digits(digit_run(s)),
{
    lemma_run_len_bounds(s);
    lemma_zeros_len_bounds(s);
}

/// A zero in front of the digits does not change the number.
pub proof fn lemma_leading_zero(d: Seq<char>)
    requires
        d.len() > 0,
        d[0] == '0',
    ensures
        decimal_value(d) == decimal_value(d.drop_first()),
    decreases d.len(),
{
    if d.len() == 1 {
        assert(d.drop_last().len() == 0);
        assert(d.drop_first().len() == 0);
        assert(decimal_value(d.drop_last()) == 0);
    } else {
        lemma_leading_zero(d.drop_last());
        assert(d.drop_last().drop_first() =~= d.drop_first().drop_last());
        assert(d.drop_first().last() == d.last());
    }
}

/// Zeros in front of the digits do not change the number.
pub proof fn lemma_leading_zeros(d: Seq<char>, n: int)
    requires
        0 <= n <= d.len(),
        forall|i: int| 0 <= i < n ==> #[trigger] d[i] == '0',
    ensures
        decimal_value(d) == decimal_value(d.skip(n)),
    decreases n,
{
    if n == 0 {
        assert(d.skip(0) =~= d);
    } else {
        lemma_leading_zero(d);
        let t = d.drop_first();
        assert forall|i: int| 0 <= i < n - 1 implies #[trigger] t[i] == '0' by {
            assert(t[i] == d[i + 1]);
        }
        lemma_leading_zeros(t, n - 1);
        assert(t.skip(n - 1) =~= d.skip(n));
    }
}

/// The stripped run stands for the same number as the whole run.
pub proof fn lemma_stripped_run_value(s: Seq<char>)
    ensures
        decimal_value(stripped_run(s)) == magnitude(s),
{
    lemma_run_len_bounds(s);
    lemma_zeros_len_bounds(s);
    let run = digit_run(s);
    let z = zeros_len(s) as int;
    lemma_leading_zeros(run, z);
    assert(run.skip(z) =~= stripped_run(s));
}

/// `n` digits spell a number below ten to the `n`; without a zero in front,
/// the number is at least ten to the `n - 1`.
pub proof fn lemma_decimal_value_bounds(d: Seq<char>)
    requires
        all_digits(d),
    ensures
        decimal_value(d) < pow10(d.len()),
        d.len() > 0 && d[0] != '0' ==> decimal_value(d) >= pow10((d.len() - 1) as nat),
    decreases d.len(),
{
    if d.len() > 0 {
        let p = d.drop_last();
        assert(all_digits(p)) by {
            assert forall|i: int| 0 <= i < p.len() implies is_digit(#[trigger] p[i]) by {
                assert(p[i] == d[i]);
            }
        }
        lemma_decimal_value_bounds(p);
        assert(is_digit(d[d.len() - 1]));
        assert(digit_value(d.last()) <= 9);
        if d.len() > 1 {
            assert(p[0] == d[0]);
        } else {
            assert(is_digit(d[0]));
        }
    }
}

/// Ten to the `n` grows with `n`.
pub proof fn lemma_pow10_monotonic(m: nat, n: nat)
    requires
        m <= n,
    ensures
        pow10(m) <= pow10(n),
        pow10(m) >= 1,
    decreases n,
{
    if m < n {
        lemma_pow10_monotonic(m, (n - 1) as nat);
    } else if n > 0 {
        lemma_pow10_monotonic((m - 1) as nat, (n - 1) as nat);
    }
}

/// Of two canonical numbers the one with fewer digits is the smaller.
pub proof fn lemma_shorter_is_smaller(a: Seq<char>, b: Seq<char>)
    requires
        canonical(a),
        canonical(b),
        a.len() < b.len(),
    ensures
        decimal_value(a) < decimal_value(b),
{
    lemma_decimal_value_bounds(a);
    lemma_decimal_value_bounds(b);
    lemma_pow10_monotonic(a.len(), (b.len() - 1) as nat);
}

/// Of two digit sequences of one length, the one with the smaller digit at
/// the first place where they differ is the smaller number.
pub proof fn lemma_first_difference(a: Seq<char>, b: Seq<char>, k: int)
    requires
        all_digits(a),
        all_digits(b),
        a.len() == b.len(),
        0 <= k < a.len(),
        forall|i: int| 0 <= i < k ==> a[i] == b[i],
        a[k] < b[k],
    ensures
        decimal_value(a) < decimal_value(b),
    decreases a.len(),
{
    let pa = a.drop_last();
    let pb = b.drop_last();
    assert(is_digit(a[a.len() - 1]) && is_digit(b[b.len() - 1]));
    if k == a.len() - 1 {
        assert(pa =~= pb);
    } else {
        assert(all_digits(pa)) by {
            assert forall|i: int| 0 <= i < pa.len() implies is_digit(#[trigger] pa[i]) by {
                assert(pa[i] == a[i]);
            }
        }
        assert(all_digits(pb)) by {
            assert forall|i: int| 0 <= i < pb.len() implies is_digit(#[trigger] pb[i]) by {
                assert(pb[i] == b[i]);
            }
        }
        lemma_first_difference(pa, pb, k);
    }
}

/// The first place at or behind `from` where `a` and `b` differ, or their
/// length where there is none.
pub open spec fn first_difference(a: Seq<char>, b: Seq<char>, from: int) -> int
    decreases a.len() - from,
{
    if 0 <= from < a.len() && a[from] == b[from] {
        first_difference(a, b, from + 1)
    } else {
        from
    }
}

/// What `first_difference` finds in two sequences of one length that agree
/// before `from`: a place where they differ if they are not equal.
pub proof fn lemma_first_difference_found(a: Seq<char>, b: Seq<char>, from: int)
    requires
        a.len() == b.len(),
        0 <= from <= a.len(),
        forall|i: int| 0 <= i < from ==> a[i] == b[i],
    ensures
        from <= first_difference(a, b, from) <= a.len(),
        forall|i: int| 0 <= i < first_difference(a, b, from) ==> a[i] == b[i],
        first_difference(a, b, from) < a.len() ==> a[first_difference(a, b, from)]
            != b[first_difference(a, b, from)],
        first_difference(a, b, from) == a.len() ==> a == b,
    decreases a.len() - from,
{
    if from < a.len() && a[from] == b[from] {
        lemma_first_difference_found(a, b, from + 1);
    } else if from == a.len() {
        assert(a =~= b);
    }
}

/// Whether `a` goes before `b` when the shorter of two digit sequences goes
/// first and, of two with one length, the one with the smaller digit at the
/// first place where they differ.
pub open spec fn shortlex_less(a: Seq<char>, b: Seq<char>) -> bool {
    ||| a.len() < b.len()
    ||| {
        &&& a.len() == b.len()
        &&& first_difference(a, b, 0) < a.len()
        &&& a[first_difference(a, b, 0)] < b[first_difference(a, b, 0)]
    }
}

/// **Numbers compare as their canonical digits do.** Of two canonical
/// numbers the smaller is the one with fewer digits or, where both have as
/// many, with the smaller digit at the first place where they differ; and
/// they are the same number only if they are the same digits.
pub proof fn lemma_shortlex_is_numeric(a: Seq<char>, b: Seq<char>)
    requires
        canonical(a),
        canonical(b),
    ensures
        shortlex_less(a, b) <==> decimal_value(a) < decimal_value(b),
        a == b <==> decimal_value(a) == decimal_value(b),
{
    if a.len() < b.len() {
        lemma_shorter_is_smaller(a, b);
    } else if b.len() < a.len() {
        lemma_shorter_is_smaller(b, a);
    } else {
        let k = first_difference(a, b, 0);
        lemma_first_difference_found(a, b, 0);
        if k < a.len() {
            if a[k] < b[k] {
                lemma_first_difference(a, b, k);
            } else {
                lemma_first_difference(b, a, k);
            }
        }
    }
}

/// **Zeros in front do not count.** Two digit runs stand for the same number
/// exactly when they are the same digits once the zeros in front of them are
/// taken away.
pub proof fn lemma_magnitude_equal(s: Seq<char>, t: Seq<char>)
    ensures
        magnitude(s) == magnitude(t) <==> stripped_run(s) == stripped_run(t),
{
    lemma_stripped_run_value(s);
    lemma_stripped_run_value(t);
    lemma_stripped_run_canonical(s);
    lemma_stripped_run_canonical(t);
    lemma_shortlex_is_numeric(stripped_run(s), stripped_run(t));
}

/// Digits behind a number do not make it smaller.
pub proof fn lemma_decimal_value_append(d: Seq<char>, more: Seq<char>)
    ensures
        decimal_value(d + more) >= decimal_value(d),
    decreases more.len(),
{
    if more.len() == 0 {
        assert(d + more =~= d);
    } else {
        assert((d + more).drop_last() =~= d + more.drop_last());
        lemma_decimal_value_append(d, more.drop_last());
    }
}

/// What is appended to a text whose leading digit run ends before the text
/// does leaves that run as it is and comes to stand behind what follows it.
pub proof fn lemma_append_behind_run(s: Seq<char>, more: Seq<char>)
    requires
        run_len(s) < s.len(),
    ensures
        digit_run(s + more) == digit_run(s),
        after_run(s + more) == after_run(s) + more,
        after_run(s).len() > 0,
        after_run(s).last() == s.last(),
{
    lemma_run_len_bounds(s);
    let n = run_len(s) as int;
    let whole = s + more;
    assert forall|i: int| 0 <= i < n implies is_digit(#[trigger] whole[i]) by {
        assert(whole[i] == s[i]);
    }
    assert(whole[n] == s[n]);
    lemma_run_len_is(whole, n);
    assert(digit_run(whole) =~= digit_run(s));
    assert(after_run(whole) =~= after_run(s) + more);
}

/// What is appended to a text of digits makes its leading digit run longer
/// by the digits that it starts with, and the number no smaller; where it
/// starts with no digit, run and number stay as they are.
pub proof fn lemma_append_to_digits(s: Seq<char>, more: Seq<char>)
    requires
        all_digits(s),
    ensures
        run_len(s) == s.len(),
        run_len(s + more) == s.len() + run_len(more),
        magnitude(s + more) >= magnitude(s),
        after_run(s).len() == 0,
        after_run(s + more) == after_run(more),
        run_len(more) == 0 ==> magnitude(s + more) == magnitude(s) && after_run(s + more) == more,
{
    lemma_run_len_is(s, s.len() as int);
    lemma_run_len_bounds(more);
    let whole = s + more;
    let n = (s.len() + run_len(more)) as int;
    assert forall|i: int| 0 <= i < n implies is_digit(#[trigger] whole[i]) by {
        if i < s.len() {
            assert(whole[i] == s[i]);
        } else {
            assert(whole[i] == more[i - s.len()]);
        }
    }
    if n < whole.len() {
        assert(whole[n] == more[run_len(more) as int]);
    }
    lemma_run_len_is(whole, n);
    assert(digit_run(s) =~= s);
    assert(digit_run(whole) =~= s + digit_run(more));
    lemma_decimal_value_append(s, digit_run(more));
    assert(after_run(whole) =~= after_run(more));
    if run_len(more) == 0 {
        assert(digit_run(whole) =~= s);
        assert(after_run(more) =~= more);
    }
}

} // verus!
