//! A start-of-message detector: a sliding window over the received
//! characters that reports when the last `window_size` characters were all
//! distinct.

use vstd::prelude::*;

verus! {

/// All characters of `s` are pairwise distinct.
pub open spec fn all_distinct(s: Seq<char>) -> bool {
    forall|i: int, j: int| 0 <= i < j < s.len() ==> (#[trigger] s[i]) != (#[trigger] s[j])
}

/// The sliding-window detector: the number of characters consumed and the
/// last up-to-`window_size` of them.
pub struct Communicator {
    pub window_size: usize,
    pub char_count: usize,
    pub buffer: Vec<char>,
}

impl Communicator {
    /// A detector for markers of `window_size` distinct characters.
    pub fn new(window_size: usize) -> (c: Self)
        ensures
            c.window_size == window_size,
            c.char_count == 0,
            c.buffer@ =~= Seq::<char>::empty(),
    {
        Communicator { window_size, char_count: 0, buffer: Vec::new() }
    }

    /// Drops the oldest buffered character.
    pub fn remove_char(&mut self)
        requires
            old(self).buffer@.len() > 0,
        ensures
            final(self).buffer@ == old(self).buffer@.drop_first(),
            final(self).window_size == old(self).window_size,
            final(self).char_count == old(self).char_count,
    {
        self.buffer.remove(0);
        proof {
            assert(self.buffer@ =~= old(self).buffer@.drop_first());
        }
    }

    /// Consumes one character: it joins the window, and the oldest falls
    /// out once the window is full.
    pub fn process_char(&mut self, chr: char)
        requires
            old(self).char_count < usize::MAX,
            old(self).buffer@.len() <= old(self).window_size,
        ensures
            final(self).window_size == old(self).window_size,
            final(self).char_count == old(self).char_count + 1,
            final(self).buffer@ == if old(self).buffer@.len() == old(self).window_size && old(
                self,
            ).window_size > 0 {
                old(self).buffer@.drop_first().push(chr)
            } else {
                old(self).buffer@.push(chr)
            },
    {
        self.char_count = self.char_count + 1;
        if self.buffer.len() == self.window_size && self.window_size > 0 {
            self.remove_char();
        }
        self.buffer.push(chr);
    }

    /// Whether the window is full of pairwise distinct characters.
    pub fn has_start_marker(&self) -> (r: bool)
        ensures
            r == (self.buffer@.len() == self.window_size && all_distinct(self.buffer@)),
    {
        if self.buffer.len() != self.window_size {
            return false;
        }
        let mut i: usize = 0;
        while i < self.buffer.len()
            invariant
                0 <= i <= self.buffer@.len(),
                forall|a: int, b: int|
                    0 <= a < b < self.buffer@.len() && a < i ==> (#[trigger] self.buffer@[a]) != (
                    #[trigger] self.buffer@[b]),
            decreases self.buffer@.len() - i,
        {
            let mut j: usize = i + 1;
            while j < self.buffer.len()
                invariant
                    0 <= i < j <= self.buffer@.len(),
                    forall|b: int|
                        i < b < j ==> (#[trigger] self.buffer@[b]) != self.buffer@[i as int],
                decreases self.buffer@.len() - j,
            {
                if self.buffer[i] == self.buffer[j] {
                    proof {
                        assert(self.buffer@[i as int] == self.buffer@[j as int]);
                    }
                    return false;
                }
                j = j + 1;
            }
            i = i + 1;
        }
        true
    }

    /// How many characters were consumed so far.
    pub fn chars_seen(&self) -> (n: usize)
        ensures
            n == self.char_count,
    {
        self.char_count
    }
}

} // verus!
