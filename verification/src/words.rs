//! A small word-splitting iterator over a borrowed string.

use vstd::prelude::*;

use crate::matcher::find_char_from;
use crate::model::find_char;
use crate::model::lemma_find_char_is;

verus! {

/// This struct keeps track of where we're up to in the string.
///
/// `position` is a character index into `string`; it sits at the start of
/// the next word, or at the end of the string once every word has been
/// handed out.
pub struct WordIterator<'s> {
    pub position: usize,
    pub string: &'s str,
}

impl<'s> WordIterator<'s> {
    /// Creates a new WordIterator based on a string, positioned at its
    /// beginning.
    pub fn new(string: &'s str) -> (r: WordIterator<'s>)
        ensures
            r.position == 0,
            r.string@ == string@,
    {
        WordIterator { position: 0, string }
    }

    /// Gives the next word: the characters from the current position up
    /// to the next space, which is skipped. `None` if there aren't any
    /// words left.
    pub fn next_word(&mut self) -> (r: Option<&'s str>)
        ensures
            final(self).string == old(self).string,
            ({
                let s = old(self).string@;
                let p = old(self).position as int;
                if p >= s.len() {
                    r is None && final(self).position == old(self).position
                } else {
                    let j = find_char(s.skip(p), ' ');
                    &&& r matches Some(w) && w@ == s.skip(p).take(j)
                    &&& final(self).position == if p + j + 1 <= s.len() {
                        p + j + 1
                    } else {
                        s.len() as int
                    }
                }
            }),
    {
        let n = self.string.unicode_len();
        if self.position >= n {
            return None;
        }
        let p = self.position;
        let j = find_char_from(self.string, p, ' ');
        let w = self.string.substring_char(p, j);
        proof {
            let s = self.string@;
            assert forall|k: int| 0 <= k < j - p implies s.skip(p as int)[k] != ' ' by {
                assert(s.skip(p as int)[k] == s[p + k]);
            }
            if j < n {
                assert(s.skip(p as int)[j - p] == s[j as int]);
            }
            lemma_find_char_is(s.skip(p as int), ' ', j - p);
            assert(w@ =~= s.skip(p as int).take(j - p));
        }
        if j < n {
            self.position = j + 1;
        } else {
            self.position = n;
        }
        Some(w)
    }
}

} // verus!
