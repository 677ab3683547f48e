use vstd::prelude::*;

verus! {

/// A position in source text: byte offset, zero-based line and zero-based column.
#[derive(Debug, Default, Copy, Clone, PartialEq, Eq, Structural)]
pub struct Location {
    pub offset: usize,
    pub line: usize,
    pub column: usize,
}

impl Location {
    /// Moves to the start of the next line.
    pub fn ln(&mut self)
        ensures
            final(self).offset == old(self).offset,
            final(self).line == sat_inc(old(self).line),
            final(self).column == 0,
    {
        self.line = self.line.saturating_add(1);
        self.column = 0;
    }

    /// Steps over one byte `c`.
    pub fn advance(&mut self, c: u8)
        ensures
            *final(self) == old(self).advanced(c),
    {
        self.offset = self.offset.saturating_add(1);
        self.column = self.column.saturating_add(1);
        if c == 10u8 {
            self.ln();
        }
    }

    pub fn offset(&self) -> (r: usize)
        ensures
            r == self.offset,
    {
        self.offset
    }

    pub open spec fn advanced(self, c: u8) -> Location {
        if c == 10 {
            Location { offset: sat_inc(self.offset), line: sat_inc(self.line), column: 0 }
        } else {
            Location {
                offset: sat_inc(self.offset),
                line: self.line,
                column: sat_inc(self.column),
            }
        }
    }
}

pub open spec fn sat_inc(x: usize) -> usize {
    if x == usize::MAX {
        x
    } else {
        (x + 1) as usize
    }
}

} // verus!
