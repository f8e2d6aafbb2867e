//! A cursor over the characters of a text.

use vstd::prelude::*;

verus! {

/// The characters of a text and the place of the next one to read.
pub struct Scanner {
    cursor: usize,
    characters: Vec<char>,
}

/// Why a scan failed: at a character that does not fit, or at the end of
/// the text.
#[derive(Debug, Clone, Copy, PartialEq, Eq)]
pub enum ScannerError {
    Character(usize),
    EndOfLine,
}

/// What a scan is to do after the characters read so far.
pub enum Action<T> {
    /// If next iteration returns None, return T without advancing
    /// the cursor.
    Request(T),
    /// If the next iteration returns None, return None without advancing
    /// the cursor.
    Require,
    /// Immediately advance the cursor and return T.
    Return(T),
}

impl Scanner {
    /// The place of the next character to read.
    pub closed spec fn cursor(&self) -> nat {
        self.cursor as nat
    }

    /// The characters of the text.
    pub closed spec fn characters(&self) -> Seq<char> {
        self.characters@
    }

    /// The cursor stands in the text or at its end.
    pub open spec fn wf(&self) -> bool {
        self.cursor() <= self.characters().len()
    }

    /// A scanner at the start of `string`.
    pub fn new(string: &str) -> (scanner: Scanner)
        ensures
            scanner.wf(),
            scanner.cursor() == 0,
            scanner.characters() == string@,
    {
        let mut characters: Vec<char> = Vec::new();
        for c in it: string.chars()
            invariant
                it.seq() == string@,
                characters@ == string@.take(it.index() as int),
        {
            proof {
                assert(string@.take(it.index() as int).push(c) =~= string@.take(it.index() as int + 1));
            }
            characters.push(c);
        }
        proof {
            assert(string@.take(string@.len() as int) =~= string@);
        }
        Scanner { cursor: 0, characters }
    }

    /// The next character, which stays unread.
    pub fn peek(&self) -> (c: Option<&char>)
        ensures
            match c {
                Some(c) => self.cursor() < self.characters().len() && *c == self.characters()[self.cursor() as int],
                None => self.cursor() >= self.characters().len(),
            },
    {
        if self.cursor < self.characters.len() {
            Some(&self.characters[self.cursor])
        } else {
            None
        }
    }

    /// The character read last.
    pub fn prev(&self) -> (c: Option<&char>)
        requires
            self.cursor() > 0,
        ensures
            match c {
                Some(c) => self.cursor() <= self.characters().len() && *c == self.characters()[
                    self.cursor() - 1
                ],
                None => self.cursor() > self.characters().len(),
            },
    {
        if self.cursor - 1 < self.characters.len() {
            Some(&self.characters[self.cursor - 1])
        } else {
            None
        }
    }

    /// Whether the cursor stands at the end of the text.
    pub fn is_done(&self) -> (done: bool)
        ensures
            done == (self.cursor() == self.characters().len()),
    {
        self.cursor == self.characters.len()
    }

    /// Reads the next character, if there is one.
    pub fn pop(&mut self) -> (c: Option<&char>)
        requires
            old(self).wf(),
        ensures
            final(self).wf(),
            final(self).characters() == old(self).characters(),
            match c {
                Some(c) => old(self).cursor() < old(self).characters().len() && *c == old(
                    self,
                ).characters()[old(self).cursor() as int] && final(self).cursor() == old(self).cursor()
                    + 1,
                None => old(self).cursor() == old(self).characters().len() && final(self).cursor()
                    == old(self).cursor(),
            },
    {
        if self.cursor < self.characters.len() {
            let character = &self.characters[self.cursor];
            self.cursor += 1;
            Some(character)
        } else {
            None
        }
    }

    /// Returns true if the `target` is found at the current cursor position,
    /// and advances the cursor.
    /// Otherwise, returns false leaving the cursor unchanged.
    pub fn take(&mut self, target: &char) -> (found: bool)
        requires
            old(self).wf(),
        ensures
            final(self).wf(),
            final(self).characters() == old(self).characters(),
            found == (old(self).cursor() < old(self).characters().len() && old(self).characters()[old(
                self,
            ).cursor() as int] == *target),
            final(self).cursor() == if found {
                old(self).cursor() + 1
            } else {
                old(self).cursor()
            },
    {
        if self.cursor < self.characters.len() {
            if *target == self.characters[self.cursor] {
                self.cursor += 1;
                true
            } else {
                false
            }
        } else {
            false
        }
    }
}

} // verus!
