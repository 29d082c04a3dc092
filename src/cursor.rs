use vstd::prelude::*;
use crate::text::{byte_len, collect_chars, offset, utf8_width, lemma_offset_step, lemma_offset_bounds, lemma_offset_mono};

verus! {

/// A forward-only reader over the characters of a source text, which counts
/// the bytes it has consumed.
pub struct Cursor<'src> {
    /// The text being read.
    pub source: &'src str,
    /// The characters of `source`, in order.
    pub chars: Vec<char>,
    /// How many characters have been consumed.
    pub index: usize,
    /// How many bytes of `source` have been consumed.
    pub consumed: usize,
}

impl<'src> Cursor<'src> {
    /// The characters consumed so far are a prefix of the text, and `consumed`
    /// is their length in bytes.
    pub open spec fn wf(&self) -> bool {
        &&& self.chars@ == self.source@
        &&& self.index <= self.chars.len()
        &&& self.consumed == offset(self.chars@, self.index as int)
        &&& byte_len(self.chars@) <= usize::MAX
    }

    /// The character `n` places after the current position, if any.
    pub open spec fn spec_peek(&self, n: int) -> Option<char> {
        if 0 <= self.index + n < self.chars.len() {
            Some(self.chars@[self.index + n])
        } else {
            None
        }
    }

    /// The same text, with the position moved to character index `i`.
    pub open spec fn moved_to(&self, other: &Cursor<'src>, i: int) -> bool {
        &&& other.source == self.source
        &&& other.chars@ == self.chars@
        &&& other.index == i
        &&& other.wf()
    }

    /// Creates a cursor at the start of `source`.
    pub fn new(source: &'src str) -> (r: Cursor<'src>)
        requires
            byte_len(source@) <= usize::MAX,
        ensures
            r.wf(),
            r.source == source,
            r.index == 0,
            r.consumed == 0,
    {
        let chars = collect_chars(source);
        proof {
            lemma_offset_bounds(chars@);
        }
        Cursor { source, chars, index: 0, consumed: 0 }
    }

    /// Returns the text not consumed yet.
    pub fn as_str(&self) -> (r: &'src str)
        requires
            self.wf(),
        ensures
            r@ == self.chars@.skip(self.index as int),
    {
        let r = self.source.substring_char(self.index, self.chars.len());
        assert(r@ =~= self.chars@.skip(self.index as int));
        r
    }

    /// Returns the next character without consuming it, if any.
    pub fn peek(&self) -> (r: Option<char>)
        requires
            self.wf(),
        ensures
            r == self.spec_peek(0),
    {
        if self.index < self.chars.len() {
            Some(self.chars[self.index])
        } else {
            None
        }
    }

    /// Returns the character `n` places after the next one without consuming
    /// anything, if any.
    pub fn peek_nth(&self, n: usize) -> (r: Option<char>)
        requires
            self.wf(),
        ensures
            r == self.spec_peek(n as int),
    {
        if n < self.chars.len() - self.index {
            Some(self.chars[self.index + n])
        } else {
            None
        }
    }

    /// Consumes and returns the next character; at the end of the text, does
    /// nothing and returns `None`.
    pub fn next(&mut self) -> (r: Option<char>)
        requires
            old(self).wf(),
        ensures
            r == old(self).spec_peek(0),
            old(self).moved_to(final(self), if r is Some { old(self).index + 1 } else { old(self).index as int }),
    {
        if self.index < self.chars.len() {
            let c = self.chars[self.index];
            proof {
                lemma_offset_step(self.chars@, self.index as int);
                lemma_offset_mono(self.chars@, self.index + 1, self.chars.len() as int);
                lemma_offset_bounds(self.chars@);
            }
            self.consumed = self.consumed + utf8_width(c);
            self.index = self.index + 1;
            Some(c)
        } else {
            None
        }
    }

    /// Consumes the characters up to and including the one `n` places after
    /// the next one, and returns that one; where there is no such character,
    /// does nothing and returns `None`.
    pub fn next_nth(&mut self, n: usize) -> (r: Option<char>)
        requires
            old(self).wf(),
        ensures
            r == old(self).spec_peek(n as int),
            old(self).moved_to(final(self), if r is Some { old(self).index + n + 1 } else { old(self).index as int }),
    {
        if n < self.chars.len() - self.index {
            let target = self.index + n + 1;
            while self.index < target
                invariant
                    self.wf(),
                    self.source == old(self).source,
                    self.chars@ == old(self).chars@,
                    old(self).index <= self.index <= target <= self.chars.len(),
                decreases target - self.index,
            {
                self.next();
            }
            Some(self.chars[target - 1])
        } else {
            None
        }
    }

    /// Consumes characters for as long as `predicate` holds of the next one.
    pub fn advance_while<F: Fn(char) -> bool>(&mut self, predicate: F)
        requires
            old(self).wf(),
            forall|c: char| predicate.requires((c,)),
        ensures
            old(self).moved_to(final(self), final(self).index as int),
            old(self).index <= final(self).index,
            forall|k: int|
                old(self).index <= k < final(self).index ==> predicate.ensures(
                    (#[trigger] final(self).chars@[k],),
                    true,
                ),
            final(self).index < final(self).chars.len() ==> predicate.ensures(
                (final(self).chars@[final(self).index as int],),
                false,
            ),
    {
        loop
            invariant
                self.wf(),
                self.source == old(self).source,
                self.chars@ == old(self).chars@,
                old(self).index <= self.index,
                forall|c: char| predicate.requires((c,)),
                forall|k: int|
                    old(self).index <= k < self.index ==> predicate.ensures(
                        (#[trigger] self.chars@[k],),
                        true,
                    ),
            ensures
                self.wf(),
                self.source == old(self).source,
                self.chars@ == old(self).chars@,
                old(self).index <= self.index,
                forall|k: int|
                    old(self).index <= k < self.index ==> predicate.ensures(
                        (#[trigger] self.chars@[k],),
                        true,
                    ),
                self.index < self.chars.len() ==> predicate.ensures(
                    (self.chars@[self.index as int],),
                    false,
                ),
            decreases self.chars.len() - self.index,
        {
            match self.peek() {
                Some(c) => {
                    if predicate(c) {
                        self.next();
                    } else {
                        break;
                    }
                },
                None => {
                    break;
                },
            }
        }
    }
}

} // verus!
