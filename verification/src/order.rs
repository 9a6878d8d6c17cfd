//! The natural order of texts.
//!
//! A text is read as a sequence of tokens: every maximal run of digits is
//! one token, a number, and every other character is a token by itself, a
//! symbol. Two texts are ranked token by token, the first pair of tokens that
//! differ in rank deciding; a text that ends first goes first. Characters are
//! taken as they are: upper and lower case differ.

use crate::digits::{
    after_run, is_digit, lemma_append_behind_run, lemma_append_to_digits, lemma_run_len_bounds,
    magnitude, run_len,
};
use std::cmp::Ordering;
use vstd::prelude::*;

verus! {

/// One unit of a text under the natural order.
pub enum Token {
    /// A maximal run of digits, by the number it stands for.
    Number(nat),
    /// A character that is no digit.
    Symbol(char),
}

impl Token {
    /// The code point that ranks this token against a token of the other
    /// kind: a symbol's own, and for every number that of the digit zero.
    /// No symbol shares the code point of a digit, so a number falls behind
    /// the symbols below the digits and before those above them.
    pub open spec fn leader(self) -> nat {
        match self {
            Token::Number(_) => '0' as nat,
            Token::Symbol(c) => c as nat,
        }
    }

    /// What ranks two tokens with the same leader: a number's magnitude.
    pub open spec fn size(self) -> nat {
        match self {
            Token::Number(n) => n,
            Token::Symbol(_) => 0,
        }
    }
}

/// The token at the front of the text `s`, which is not empty.
pub open spec fn first_token(s: Seq<char>) -> Token {
    if is_digit(s[0]) {
        Token::Number(magnitude(s))
    } else {
        Token::Symbol(s[0])
    }
}

/// What is left of the text `s`, which is not empty, behind its first token.
pub open spec fn after_first_token(s: Seq<char>) -> Seq<char> {
    if is_digit(s[0]) {
        after_run(s)
    } else {
        s.drop_first()
    }
}

/// The tokens of the text `s`, in the order in which they stand.
pub open spec fn tokens(s: Seq<char>) -> Seq<Token>
    decreases s.len(),
    via tokens_decreases
{
    if s.len() == 0 {
        Seq::empty()
    } else {
        seq![first_token(s)] + tokens(after_first_token(s))
    }
}

#[via_fn]
proof fn tokens_decreases(s: Seq<char>) {
    lemma_run_len_bounds(s);
}

/// How two natural numbers compare.
pub open spec fn nat_order(x: nat, y: nat) -> Ordering {
    if x < y {
        Ordering::Less
    } else if x == y {
        Ordering::Equal
    } else {
        Ordering::Greater
    }
}

/// How two characters compare, by code point.
pub open spec fn char_order(x: char, y: char) -> Ordering {
    if x < y {
        Ordering::Less
    } else if x == y {
        Ordering::Equal
    } else {
        Ordering::Greater
    }
}

/// The same comparison seen from the other side.
pub open spec fn flip(o: Ordering) -> Ordering {
    match o {
        Ordering::Less => Ordering::Greater,
        Ordering::Equal => Ordering::Equal,
        Ordering::Greater => Ordering::Less,
    }
}

/// How two tokens compare: by leader first, then by size.
pub open spec fn token_order(x: Token, y: Token) -> Ordering {
    if x.leader() != y.leader() {
        nat_order(x.leader(), y.leader())
    } else {
        nat_order(x.size(), y.size())
    }
}

/// How two token sequences compare: by the first pair of tokens that do not
/// compare equal, and a sequence that ends first goes first.
pub open spec fn lex_order(a: Seq<Token>, b: Seq<Token>) -> Ordering
    decreases a.len(),
{
    if a.len() == 0 && b.len() == 0 {
        Ordering::Equal
    } else if a.len() == 0 {
        Ordering::Less
    } else if b.len() == 0 {
        Ordering::Greater
    } else {
        match token_order(a[0], b[0]) {
            Ordering::Equal => lex_order(a.drop_first(), b.drop_first()),
            o => o,
        }
    }
}

/// The natural order of two texts.
pub open spec fn natural_order(a: Seq<char>, b: Seq<char>) -> Ordering {
    lex_order(tokens(a), tokens(b))
}

/// Whether the text `a` may stand before the text `b`.
pub open spec fn precedes(a: Seq<char>, b: Seq<char>) -> bool {
    natural_order(a, b) != Ordering::Greater
}

/// The natural order read one token at a time: an empty text goes before
/// any other, and two texts that are not empty compare as their first tokens
/// do, or, where those compare equal, as what follows them.
pub proof fn lemma_natural_order_unfold(a: Seq<char>, b: Seq<char>)
    ensures
        a.len() == 0 && b.len() == 0 ==> natural_order(a, b) == Ordering::Equal,
        a.len() == 0 && b.len() > 0 ==> natural_order(a, b) == Ordering::Less,
        a.len() > 0 && b.len() == 0 ==> natural_order(a, b) == Ordering::Greater,
        a.len() > 0 && b.len() > 0 ==> natural_order(a, b) == (match token_order(
            first_token(a),
            first_token(b),
        ) {
            Ordering::Equal => natural_order(after_first_token(a), after_first_token(b)),
            o => o,
        }),
{
    if a.len() > 0 && b.len() > 0 {
        let ta = tokens(a);
        let tb = tokens(b);
        assert(ta[0] == first_token(a));
        assert(tb[0] == first_token(b));
        assert(ta.drop_first() =~= tokens(after_first_token(a)));
        assert(tb.drop_first() =~= tokens(after_first_token(b)));
    }
}

/// Two texts of which at least one does not start with a digit compare as
/// their first characters do, unless these are the same.
pub proof fn lemma_first_tokens_by_char(a: Seq<char>, b: Seq<char>)
    requires
        a.len() > 0,
        b.len() > 0,
        !(is_digit(a[0]) && is_digit(b[0])),
    ensures
        token_order(first_token(a), first_token(b)) == char_order(a[0], b[0]),
{
}

/// Two texts that both start with a digit compare as the numbers that their
/// leading digit runs stand for, unless these are the same.
pub proof fn lemma_first_tokens_by_magnitude(a: Seq<char>, b: Seq<char>)
    requires
        a.len() > 0,
        b.len() > 0,
        is_digit(a[0]),
        is_digit(b[0]),
    ensures
        token_order(first_token(a), first_token(b)) == nat_order(magnitude(a), magnitude(b)),
{
}

/// Every token compares equal to itself, and two tokens compare the other
/// way round when they change places.
proof fn lemma_token_order_flip(x: Token, y: Token)
    ensures
        token_order(x, x) == Ordering::Equal,
        token_order(y, x) == flip(token_order(x, y)),
{
}

/// The order of tokens is transitive.
proof fn lemma_token_order_transitive(x: Token, y: Token, z: Token)
    ensures
        token_order(x, y) == Ordering::Equal ==> token_order(x, z) == token_order(y, z),
        token_order(y, z) == Ordering::Equal ==> token_order(x, z) == token_order(x, y),
        token_order(x, y) == Ordering::Less && token_order(y, z) == Ordering::Less ==> token_order(
            x,
            z,
        ) == Ordering::Less,
{
}

proof fn lemma_lex_order_reflexive(a: Seq<Token>)
    ensures
        lex_order(a, a) == Ordering::Equal,
    decreases a.len(),
{
    if a.len() > 0 {
        lemma_token_order_flip(a[0], a[0]);
        lemma_lex_order_reflexive(a.drop_first());
    }
}

proof fn lemma_lex_order_flip(a: Seq<Token>, b: Seq<Token>)
    ensures
        lex_order(b, a) == flip(lex_order(a, b)),
    decreases a.len(),
{
    if a.len() > 0 && b.len() > 0 {
        lemma_token_order_flip(a[0], b[0]);
        lemma_lex_order_flip(a.drop_first(), b.drop_first());
    }
}

proof fn lemma_lex_order_transitive(a: Seq<Token>, b: Seq<Token>, c: Seq<Token>)
    ensures
        lex_order(a, b) == Ordering::Equal ==> lex_order(a, c) == lex_order(b, c),
        lex_order(b, c) == Ordering::Equal ==> lex_order(a, c) == lex_order(a, b),
        lex_order(a, b) == Ordering::Less && lex_order(b, c) == Ordering::Less ==> lex_order(a, c)
            == Ordering::Less,
    decreases a.len(),
{
    if a.len() > 0 && b.len() > 0 && c.len() > 0 {
        lemma_token_order_transitive(a[0], b[0], c[0]);
        lemma_lex_order_transitive(a.drop_first(), b.drop_first(), c.drop_first());
    }
}

/// Two token sequences compare equal only if they rank alike token by token.
proof fn lemma_lex_order_equal(a: Seq<Token>, b: Seq<Token>)
    ensures
        lex_order(a, b) == Ordering::Equal <==> a.len() == b.len() && forall|i: int|
            0 <= i < a.len() ==> token_order(#[trigger] a[i], b[i]) == Ordering::Equal,
    decreases a.len(),
{
    if a.len() > 0 && b.len() > 0 {
        let ta = a.drop_first();
        let tb = b.drop_first();
        lemma_lex_order_equal(ta, tb);
        if lex_order(a, b) == Ordering::Equal {
            assert forall|i: int| 0 <= i < a.len() implies token_order(#[trigger] a[i], b[i])
                == Ordering::Equal by {
                if i > 0 {
                    assert(a[i] == ta[i - 1]);
                    assert(b[i] == tb[i - 1]);
                }
            }
        }
        if a.len() == b.len() && forall|i: int|
            0 <= i < a.len() ==> token_order(#[trigger] a[i], b[i]) == Ordering::Equal {
            assert forall|i: int| 0 <= i < ta.len() implies token_order(#[trigger] ta[i], tb[i])
                == Ordering::Equal by {
                assert(ta[i] == a[i + 1]);
                assert(tb[i] == b[i + 1]);
            }
        }
    }
}

/// Whether `t` is a token that a text can give: no symbol is a digit.
pub open spec fn token_wf(t: Token) -> bool {
    match t {
        Token::Number(_) => true,
        Token::Symbol(c) => !is_digit(c),
    }
}

/// Every token of a text is well formed.
pub proof fn lemma_tokens_wf(s: Seq<char>)
    ensures
        forall|i: int| 0 <= i < tokens(s).len() ==> token_wf(#[trigger] tokens(s)[i]),
    decreases s.len(),
{
    if s.len() > 0 {
        lemma_run_len_bounds(s);
        let rest = tokens(after_first_token(s));
        lemma_tokens_wf(after_first_token(s));
        assert forall|i: int| 0 <= i < tokens(s).len() implies token_wf(
            #[trigger] tokens(s)[i],
        ) by {
            if i > 0 {
                assert(tokens(s)[i] == rest[i - 1]);
            }
        }
    }
}

/// **Reflexivity.** Every text compares equal to itself.
pub proof fn lemma_natural_order_reflexive(a: Seq<char>)
    ensures
        natural_order(a, a) == Ordering::Equal,
{
    lemma_lex_order_reflexive(tokens(a));
}

/// **Antisymmetry.** Two texts compare the other way round when they change
/// places: `a` is less than `b` exactly when `b` is greater than `a`, and
/// they compare equal from one side exactly when they do from the other.
pub proof fn lemma_natural_order_flip(a: Seq<char>, b: Seq<char>)
    ensures
        natural_order(b, a) == flip(natural_order(a, b)),
{
    lemma_lex_order_flip(tokens(a), tokens(b));
}

/// **Totality.** Of two texts exactly one of these holds: the first is less
/// than the second, the two compare equal, or the second is less than the
/// first.
pub proof fn lemma_natural_order_total(a: Seq<char>, b: Seq<char>)
    ensures
        natural_order(a, b) == Ordering::Less || natural_order(a, b) == Ordering::Equal
            || natural_order(b, a) == Ordering::Less,
        !(natural_order(a, b) == Ordering::Less && natural_order(a, b) == Ordering::Equal),
        !(natural_order(a, b) == Ordering::Less && natural_order(b, a) == Ordering::Less),
        !(natural_order(a, b) == Ordering::Equal && natural_order(b, a) == Ordering::Less),
{
    lemma_natural_order_flip(a, b);
}

/// **Transitivity.** If `a` is less than `b` and `b` is less than `c`, then
/// `a` is less than `c`. Texts that compare equal take each other's place
/// in every comparison, on either side.
pub proof fn lemma_natural_order_transitive(a: Seq<char>, b: Seq<char>, c: Seq<char>)
    ensures
        natural_order(a, b) == Ordering::Less && natural_order(b, c) == Ordering::Less
            ==> natural_order(a, c) == Ordering::Less,
        natural_order(a, b) == Ordering::Equal ==> natural_order(a, c) == natural_order(b, c),
        natural_order(b, c) == Ordering::Equal ==> natural_order(a, c) == natural_order(a, b),
{
    lemma_lex_order_transitive(tokens(a), tokens(b), tokens(c));
}

/// **Order of precedence.** `precedes` is a total preorder: of two texts one
/// may stand before the other, and what may stand before a text may stand
/// before all that this text may stand before.
pub proof fn lemma_precedes_total_preorder(a: Seq<char>, b: Seq<char>, c: Seq<char>)
    ensures
        precedes(a, a),
        precedes(a, b) || precedes(b, a),
        precedes(a, b) && precedes(b, c) ==> precedes(a, c),
{
    lemma_natural_order_reflexive(a);
    lemma_natural_order_flip(a, b);
    lemma_natural_order_flip(a, c);
    lemma_natural_order_flip(b, c);
    lemma_natural_order_transitive(a, b, c);
    lemma_natural_order_transitive(c, b, a);
}

/// **Equivalence.** Two texts compare equal exactly when they have the same
/// tokens: when they differ at most in the zeros in front of their numbers.
pub proof fn lemma_natural_order_equal(a: Seq<char>, b: Seq<char>)
    ensures
        natural_order(a, b) == Ordering::Equal <==> tokens(a) == tokens(b),
{
    let ta = tokens(a);
    let tb = tokens(b);
    lemma_lex_order_equal(ta, tb);
    lemma_tokens_wf(a);
    lemma_tokens_wf(b);
    if natural_order(a, b) == Ordering::Equal {
        assert forall|i: int| 0 <= i < ta.len() implies ta[i] == tb[i] by {
            assert(token_order(ta[i], tb[i]) == Ordering::Equal);
            assert(token_wf(ta[i]) && token_wf(tb[i]));
        }
        assert(ta =~= tb);
    }
    if ta == tb {
        lemma_lex_order_reflexive(ta);
    }
}

/// **A text goes before what it is the start of.** No text goes behind a
/// text that starts with it. It is less than every longer such text, unless a
/// number at its end runs on into the longer text; it may then compare equal,
/// as `a0` and `a00` do.
pub proof fn lemma_prefix_goes_first(a: Seq<char>, more: Seq<char>)
    ensures
        natural_order(a, a + more) != Ordering::Greater,
        more.len() > 0 && (a.len() == 0 || !is_digit(a.last()) || !is_digit(more[0]))
            ==> natural_order(a, a + more) == Ordering::Less,
    decreases a.len(),
{
    let b = a + more;
    lemma_natural_order_unfold(a, b);
    if a.len() > 0 {
        assert(b[0] == a[0]);
        lemma_run_len_bounds(a);
        if !is_digit(a[0]) {
            lemma_first_tokens_by_char(a, b);
            assert(b.drop_first() =~= a.drop_first() + more);
            if a.len() > 1 {
                assert(a.drop_first().last() == a.last());
            }
            lemma_prefix_goes_first(a.drop_first(), more);
        } else if run_len(a) < a.len() {
            lemma_first_tokens_by_magnitude(a, b);
            lemma_append_behind_run(a, more);
            lemma_prefix_goes_first(after_run(a), more);
        } else {
            lemma_first_tokens_by_magnitude(a, b);
            lemma_append_to_digits(a, more);
            lemma_run_len_bounds(more);
            lemma_natural_order_unfold(after_run(a), after_run(b));
        }
    }
}

} // verus!
