use vstd::prelude::*;

use crate::heap::Ref;

verus! {

/// The largest number of constants a chunk can hold: indices must fit in a `u16`.
pub const MAX_CONSTANTS: usize = 65536;

#[derive(Copy, Clone, Debug, PartialEq, Eq, Structural)]
pub enum Instruction {
    Return,
    Constant(u16),
    Negate,
    Add,
    Subtract,
    Multiply,
    Divide,
    False,
    Nil,
    True,
    Not,
    Equal,
    Greater,
    Less,
}

/// A value of the language. A number is an IEEE-754 double held as its bit pattern.
#[derive(Copy, Clone, Debug, PartialEq, Eq, Structural)]
pub enum Value {
    Number(u64),
    Bool(bool),
    Nil,
    String(Ref),
}

pub open spec fn falsey(v: Value) -> bool {
    v is Nil || v == Value::Bool(false)
}

impl Value {
    /// `Nil` and `false` are falsey; every other value is truthy.
    pub fn is_falsey(&self) -> (r: bool)
        ensures
            r == falsey(*self),
            r <==> (*self == Value::Nil || *self == Value::Bool(false)),
    {
        match self {
            Value::Number(_) => false,
            Value::Bool(val) => !*val,
            Value::Nil => true,
            Value::String(_) => false,
        }
    }
}

/// The first instruction index that belongs to a source line.
#[derive(Copy, Clone, Debug, PartialEq, Eq, Structural)]
pub struct LineStart {
    pub offset: usize,
    pub line: usize,
}

impl LineStart {
    pub fn new(offset: usize, line: usize) -> (r: Self)
        ensures
            r.offset == offset,
            r.line == line,
    {
        Self { offset, line }
    }
}

/// The line of instruction `i`: that of the last entry that starts at or before it.
pub open spec fn line_at(lines: Seq<LineStart>, i: int) -> usize
    decreases lines.len(),
{
    if lines.len() == 0 {
        0
    } else if lines.last().offset <= i {
        lines.last().line
    } else {
        line_at(lines.drop_last(), i)
    }
}

/// A unit of bytecode: instructions, constant pool and run-length line map.
#[derive(Debug)]
pub struct Chunk {
    pub code: Vec<Instruction>,
    pub constants: Vec<Value>,
    pub lines: Vec<LineStart>,
}

impl Chunk {
    pub open spec fn wf(&self) -> bool {
        &&& self.constants.len() <= MAX_CONSTANTS
        &&& (self.lines.len() == 0 <==> self.code.len() == 0)
        &&& self.lines.len() > 0 ==> self.lines@[0].offset == 0
        &&& forall|k: int|
            0 <= k < self.lines.len() ==> #[trigger] self.lines@[k].offset < self.code.len()
        &&& forall|a: int, b: int|
            0 <= a < b < self.lines.len() ==> #[trigger] self.lines@[a].offset < #[trigger] self.lines@[b].offset
    }

    /// Every `Constant` instruction names an entry of the pool.
    pub open spec fn constants_addressed(&self) -> bool {
        forall|k: int|
            0 <= k < self.code.len() ==> (#[trigger] self.code@[k] matches Instruction::Constant(i)
                ==> i < self.constants.len())
    }

    /// The line entries are in order of source line too.
    pub open spec fn lines_sorted(&self) -> bool {
        forall|a: int, b: int|
            0 <= a < b < self.lines.len() ==> #[trigger] self.lines@[a].line <= #[trigger] self.lines@[b].line
    }

    pub open spec fn line_of(&self, i: int) -> usize {
        line_at(self.lines@, i)
    }

    pub fn new() -> (c: Self)
        ensures
            c.wf(),
            c.lines_sorted(),
            c.code@ == Seq::<Instruction>::empty(),
            c.constants@ == Seq::<Value>::empty(),
    {
        Self { code: Vec::new(), constants: Vec::new(), lines: Vec::new() }
    }

    /// Appends `instruction`, attributed to `line`, and returns its index.
    pub fn write(&mut self, instruction: Instruction, line: usize) -> (index: usize)
        requires
            old(self).wf(),
            old(self).code.len() < usize::MAX,
        ensures
            final(self).wf(),
            index == old(self).code.len(),
            final(self).code@ == old(self).code@.push(instruction),
            final(self).constants@ == old(self).constants@,
            final(self).line_of(index as int) == line,
            forall|j: int| 0 <= j < index ==> final(self).line_of(j) == old(self).line_of(j),
            old(self).lines_sorted() && (old(self).code.len() > 0 ==> old(self).line_of(
                old(self).code.len() - 1,
            ) <= line) ==> final(self).lines_sorted(),
            final(self).lines@ == (if old(self).lines@.len() > 0 && old(self).lines@.last().line
                == line {
                old(self).lines@
            } else {
                old(self).lines@.push(LineStart { offset: index, line })
            }),
            old(self).code.len() > 0 && old(self).line_of(old(self).code.len() - 1) == line
                ==> final(self).lines@ == old(self).lines@,
    {
        let index = self.code.len();
        self.code.push(instruction);
        let n = self.lines.len();
        if n > 0 {
            proof {
                lemma_line_at_last(self.lines@, index as int - 1);
            }
        }
        if n == 0 || self.lines[n - 1].line != line {
            self.lines.push(LineStart::new(index, line));
            proof {
                let ls = self.lines@;
                assert(ls.drop_last() =~= old(self).lines@);
            }
        } else {
            proof {
                lemma_line_at_last(self.lines@, index as int);
            }
        }
        index
    }

    /// Appends `value` to the pool and returns its index; fails once the pool is full.
    pub fn add_constant(&mut self, value: Value) -> (r: Result<u16, ()>)
        requires
            old(self).wf(),
        ensures
            final(self).wf(),
            final(self).code@ == old(self).code@,
            final(self).lines@ == old(self).lines@,
            old(self).constants.len() < MAX_CONSTANTS ==> r == Ok::<u16, ()>(
                old(self).constants.len() as u16,
            ) && final(self).constants@ == old(self).constants@.push(value),
            old(self).constants.len() >= MAX_CONSTANTS ==> r == Err::<u16, ()>(())
                && final(self).constants@ == old(self).constants@,
    {
        let index = self.constants.len();
        if index < MAX_CONSTANTS {
            self.constants.push(value);
            Ok(index as u16)
        } else {
            Err(())
        }
    }

    /// The source line of instruction `instruction_idx`, by binary search over the line map.
    pub fn get_line(&self, instruction_idx: usize) -> (line: usize)
        requires
            self.wf(),
            instruction_idx < self.code.len(),
        ensures
            line == self.line_of(instruction_idx as int),
    {
        // Find the last entry whose offset is at most the index; entry 0 starts at 0.
        let mut lo: usize = 0;
        let mut hi: usize = self.lines.len();
        while lo + 1 < hi
            invariant
                self.wf(),
                instruction_idx < self.code.len(),
                0 <= lo < hi <= self.lines.len(),
                self.lines@[lo as int].offset <= instruction_idx,
                hi < self.lines.len() ==> self.lines@[hi as int].offset > instruction_idx,
            decreases hi - lo,
        {
            let mid = lo + (hi - lo) / 2;
            if self.lines[mid].offset <= instruction_idx {
                lo = mid;
            } else {
                hi = mid;
            }
        }
        proof {
            lemma_line_at_found(self.lines@, instruction_idx as int, lo as int);
        }
        self.lines[lo].line
    }
}

/// In a well-formed chunk whose line entries follow source order, the line of an
/// instruction never decreases along the code.
pub proof fn lemma_get_line_monotone(c: &Chunk, i: int, j: int)
    requires
        c.wf(),
        c.lines_sorted(),
        0 <= i <= j < c.code.len(),
    ensures
        c.line_of(i) <= c.line_of(j),
{
    lemma_line_at_monotone(c.lines@, i, j);
}

proof fn lemma_line_at_le_last(lines: Seq<LineStart>, i: int)
    requires
        lines.len() > 0,
        forall|a: int, b: int| 0 <= a < b < lines.len() ==> #[trigger] lines[a].line <= #[trigger] lines[b].line,
    ensures
        line_at(lines, i) <= lines.last().line,
    decreases lines.len(),
{
    if lines.last().offset > i {
        let d = lines.drop_last();
        if lines.len() > 1 {
            lemma_line_at_le_last(d, i);
            assert(d.last() == lines[lines.len() - 2]);
            assert(lines[lines.len() - 2].line <= lines[lines.len() - 1].line);
        } else {
            assert(line_at(d, i) == 0);
        }
    }
}

proof fn lemma_line_at_monotone(lines: Seq<LineStart>, i: int, j: int)
    requires
        i <= j,
        forall|a: int, b: int| 0 <= a < b < lines.len() ==> #[trigger] lines[a].line <= #[trigger] lines[b].line,
    ensures
        line_at(lines, i) <= line_at(lines, j),
    decreases lines.len(),
{
    if lines.len() > 0 {
        let d = lines.drop_last();
        if lines.last().offset > j {
            lemma_line_at_monotone(d, i, j);
        } else if lines.last().offset > i {
            if d.len() > 0 {
                lemma_line_at_le_last(d, i);
                assert(d.last() == lines[lines.len() - 2]);
                assert(lines[lines.len() - 2].line <= lines[lines.len() - 1].line);
            } else {
                assert(line_at(d, i) == 0);
            }
        }
    }
}

/// With offsets increasing, the line of `i` is that of the last entry when it starts at or
/// before `i`.
proof fn lemma_line_at_last(lines: Seq<LineStart>, i: int)
    requires
        lines.len() > 0,
        lines.last().offset <= i,
    ensures
        line_at(lines, i) == lines.last().line,
{
}

proof fn lemma_line_at_found(lines: Seq<LineStart>, i: int, k: int)
    requires
        0 <= k < lines.len(),
        lines[k].offset <= i,
        k + 1 < lines.len() ==> lines[k + 1].offset > i,
        forall|a: int, b: int| 0 <= a < b < lines.len() ==> #[trigger] lines[a].offset < #[trigger] lines[b].offset,
    ensures
        line_at(lines, i) == lines[k].line,
    decreases lines.len(),
{
    if k + 1 < lines.len() {
        assert(lines.last().offset > i);
        let d = lines.drop_last();
        lemma_line_at_found(d, i, k);
    }
}

} // verus!
