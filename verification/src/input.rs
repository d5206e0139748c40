//! A forward cursor over the characters of a pattern.

use vstd::prelude::*;

verus! {

/// The characters of a pattern and a position in them. The cursor looks at
/// one character ahead and only ever moves forward.
pub struct Input {
    chars: Vec<char>,
    pos: usize,
}

impl Input {
    #[verifier::type_invariant]
    spec fn in_bounds(self) -> bool {
        self.pos <= self.chars.len()
    }

    /// All the characters of the pattern, consumed or not.
    pub closed spec fn text(self) -> Seq<char> {
        self.chars@
    }

    /// How many characters have been consumed. Never more than the text
    /// has, also of a value that no cursor ever holds.
    pub closed spec fn offset(self) -> int {
        if self.pos <= self.chars.len() {
            self.pos as int
        } else {
            self.chars.len() as int
        }
    }

    /// The cursor stands within the text or at its end.
    pub broadcast proof fn lemma_offset_in_text(self)
        ensures
            0 <= #[trigger] self.offset() <= self.text().len() <= usize::MAX,
    {
    }

    /// A cursor at the start of `pattern`.
    pub fn new(pattern: &str) -> (res: Input)
        ensures
            res.text() == pattern@,
            res.offset() == 0,
    {
        let mut chars: Vec<char> = Vec::new();
        for c in it: pattern.chars()
            invariant
                it.seq() == pattern@,
                chars@ == it.seq().take(it.index()),
        {
            chars.push(c);
        }
        Input { chars, pos: 0 }
    }

    /// The offset of the cursor in the text.
    pub fn position(&self) -> (res: usize)
        ensures
            res == self.offset(),
    {
        proof {
            use_type_invariant(self);
        }
        self.pos
    }

    /// The character under the cursor, or `None` at the end of the text.
    pub fn peek(&self) -> (res: Option<char>)
        ensures
            res == if self.offset() < self.text().len() {
                Some(self.text()[self.offset()])
            } else {
                None
            },
    {
        proof {
            use_type_invariant(self);
        }
        if self.pos < self.chars.len() {
            Some(self.chars[self.pos])
        } else {
            None::<char>
        }
    }

    /// Moves the cursor over one character; at the end of the text it stays.
    pub fn advance(&mut self)
        ensures
            final(self).text() == old(self).text(),
            final(self).offset() == if old(self).offset() < old(self).text().len() {
                old(self).offset() + 1
            } else {
                old(self).offset()
            },
    {
        proof {
            use_type_invariant(&*self);
        }
        if self.pos < self.chars.len() {
            self.pos = self.pos + 1;
        }
    }
}

} // verus!
