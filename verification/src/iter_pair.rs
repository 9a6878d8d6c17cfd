//! Two texts read side by side.

use crate::text::{head, peek, tail};
use std::str::Chars;
use vstd::prelude::*;
use vstd::std_specs::iter::IteratorSpec;

verus! {

/// Two character iterators that are read side by side.
pub struct IterPair<'a> {
    pub fst: Chars<'a>,
    pub lst: Chars<'a>,
}

impl<'a> IterPair<'a> {
    /// Pairs up two iterators, each where it stands.
    pub fn from(i1: Chars<'a>, i2: Chars<'a>) -> (pair: Self)
        ensures
            pair.fst == i1,
            pair.lst == i2,
    {
        Self { fst: i1, lst: i2 }
    }

    /// Takes the next character from each side. A side that is at its end
    /// gives `None` and stays at its end, whatever the other side does.
    pub fn next(&mut self) -> (r: [Option<char>; 2])
        ensures
            r[0] == head(old(self).fst.remaining()),
            r[1] == head(old(self).lst.remaining()),
            final(self).fst.remaining() == tail(old(self).fst.remaining()),
            final(self).lst.remaining() == tail(old(self).lst.remaining()),
    {
        let a = self.fst.next();
        let b = self.lst.next();
        [a, b]
    }

    /// The next character of each side, without taking it.
    pub fn peek(&self) -> (r: [Option<char>; 2])
        ensures
            r[0] == head(self.fst.remaining()),
            r[1] == head(self.lst.remaining()),
    {
        [peek(&self.fst), peek(&self.lst)]
    }
}

} // verus!
