use vstd::prelude::*;

use crate::chunk::{Chunk, Instruction, Value, MAX_CONSTANTS};
use crate::error::{CompilationError, RoxError, RoxErrorKind};
use crate::heap::{Heap, Ref};
use crate::location::Location;
use crate::grammar::{Expr, last_pos, line_of_pos, lines_of, lemma_lines_len, code_of, continues_at, lemma_full_first, lemma_tail_lits, lemma_tail_stop, reads_literal, reads_lits, split, full, lits, literal_value, operand, tail, tighter, tok};
use crate::scanner::{Scanner, SpecToken, lemma_loc_line_monotone, lemma_scan_progress, loc_at, scan_token};
use crate::token::{Token, TokenErrorKind, TokenKind};
use vstd::string::StringSliceAdditionalSpecFns;

verus! {

/// Binding power of operators, from loosest to tightest.
#[derive(Copy, Clone, Debug, PartialEq, Eq, Structural)]
pub enum Precedence {
    Lowest,
    Assignment,
    Or,
    And,
    Equality,
    Comparison,
    Term,
    Factor,
    Unary,
    Call,
    Primary,
}

impl Precedence {
    pub open spec fn rank(self) -> nat {
        match self {
            Precedence::Lowest => 0,
            Precedence::Assignment => 1,
            Precedence::Or => 2,
            Precedence::And => 3,
            Precedence::Equality => 4,
            Precedence::Comparison => 5,
            Precedence::Term => 6,
            Precedence::Factor => 7,
            Precedence::Unary => 8,
            Precedence::Call => 9,
            Precedence::Primary => 10,
        }
    }

    pub fn level(&self) -> (r: u8)
        ensures
            r == self.rank(),
    {
        match self {
            Precedence::Lowest => 0,
            Precedence::Assignment => 1,
            Precedence::Or => 2,
            Precedence::And => 3,
            Precedence::Equality => 4,
            Precedence::Comparison => 5,
            Precedence::Term => 6,
            Precedence::Factor => 7,
            Precedence::Unary => 8,
            Precedence::Call => 9,
            Precedence::Primary => 10,
        }
    }

    /// The next tighter level; `Primary` wraps round to `None`.
    pub fn next(&self) -> (r: Precedence)
        ensures
            r == tighter(*self),
            self.rank() < 10 ==> r.rank() == self.rank() + 1,
            self.rank() == 10 ==> r == Precedence::Lowest,
    {
        match self {
            Precedence::Lowest => Precedence::Assignment,
            Precedence::Assignment => Precedence::Or,
            Precedence::Or => Precedence::And,
            Precedence::And => Precedence::Equality,
            Precedence::Equality => Precedence::Comparison,
            Precedence::Comparison => Precedence::Term,
            Precedence::Term => Precedence::Factor,
            Precedence::Factor => Precedence::Unary,
            Precedence::Unary => Precedence::Call,
            Precedence::Call => Precedence::Primary,
            Precedence::Primary => Precedence::Lowest,
        }
    }
}

#[derive(Copy, Clone, Debug, PartialEq, Eq, Structural)]
pub enum PrefixRule {
    Grouping,
    Unary,
    Number,
    String,
    Literal,
}

/// How a token kind parses: its prefix rule, whether it is a binary operator, and how
/// tightly it binds as one.
#[derive(Copy, Clone, Debug, PartialEq, Eq, Structural)]
pub struct ParseRule {
    pub prefix: Option<PrefixRule>,
    pub infix: bool,
    pub precedence: Precedence,
}

pub open spec fn rule_of(kind: TokenKind) -> ParseRule {
    match kind {
        TokenKind::LeftParen => ParseRule {
            prefix: Some(PrefixRule::Grouping),
            infix: false,
            precedence: Precedence::Lowest,
        },
        TokenKind::Minus => ParseRule {
            prefix: Some(PrefixRule::Unary),
            infix: true,
            precedence: Precedence::Term,
        },
        TokenKind::Plus => ParseRule { prefix: None, infix: true, precedence: Precedence::Term },
        TokenKind::Slash => ParseRule { prefix: None, infix: true, precedence: Precedence::Factor },
        TokenKind::Star => ParseRule { prefix: None, infix: true, precedence: Precedence::Factor },
        TokenKind::Bang => ParseRule {
            prefix: Some(PrefixRule::Unary),
            infix: false,
            precedence: Precedence::Lowest,
        },
        TokenKind::BangEqual => ParseRule {
            prefix: None,
            infix: true,
            precedence: Precedence::Equality,
        },
        TokenKind::EqualEqual => ParseRule {
            prefix: None,
            infix: true,
            precedence: Precedence::Equality,
        },
        TokenKind::Greater => ParseRule {
            prefix: None,
            infix: true,
            precedence: Precedence::Comparison,
        },
        TokenKind::GreaterEqual => ParseRule {
            prefix: None,
            infix: true,
            precedence: Precedence::Comparison,
        },
        TokenKind::Less => ParseRule {
            prefix: None,
            infix: true,
            precedence: Precedence::Comparison,
        },
        TokenKind::LessEqual => ParseRule {
            prefix: None,
            infix: true,
            precedence: Precedence::Comparison,
        },
        TokenKind::String => ParseRule {
            prefix: Some(PrefixRule::String),
            infix: false,
            precedence: Precedence::Lowest,
        },
        TokenKind::Number => ParseRule {
            prefix: Some(PrefixRule::Number),
            infix: false,
            precedence: Precedence::Lowest,
        },
        TokenKind::False => ParseRule {
            prefix: Some(PrefixRule::Literal),
            infix: false,
            precedence: Precedence::Lowest,
        },
        TokenKind::True => ParseRule {
            prefix: Some(PrefixRule::Literal),
            infix: false,
            precedence: Precedence::Lowest,
        },
        TokenKind::Nil => ParseRule {
            prefix: Some(PrefixRule::Literal),
            infix: false,
            precedence: Precedence::Lowest,
        },
        _ => ParseRule { prefix: None, infix: false, precedence: Precedence::Lowest },
    }
}

pub fn get_rule(kind: TokenKind) -> (r: ParseRule)
    ensures
        r == rule_of(kind),
{
    match kind {
        TokenKind::LeftParen => ParseRule {
            prefix: Some(PrefixRule::Grouping),
            infix: false,
            precedence: Precedence::Lowest,
        },
        TokenKind::Minus => ParseRule {
            prefix: Some(PrefixRule::Unary),
            infix: true,
            precedence: Precedence::Term,
        },
        TokenKind::Plus => ParseRule { prefix: None, infix: true, precedence: Precedence::Term },
        TokenKind::Slash => ParseRule { prefix: None, infix: true, precedence: Precedence::Factor },
        TokenKind::Star => ParseRule { prefix: None, infix: true, precedence: Precedence::Factor },
        TokenKind::Bang => ParseRule {
            prefix: Some(PrefixRule::Unary),
            infix: false,
            precedence: Precedence::Lowest,
        },
        TokenKind::BangEqual => ParseRule {
            prefix: None,
            infix: true,
            precedence: Precedence::Equality,
        },
        TokenKind::EqualEqual => ParseRule {
            prefix: None,
            infix: true,
            precedence: Precedence::Equality,
        },
        TokenKind::Greater => ParseRule {
            prefix: None,
            infix: true,
            precedence: Precedence::Comparison,
        },
        TokenKind::GreaterEqual => ParseRule {
            prefix: None,
            infix: true,
            precedence: Precedence::Comparison,
        },
        TokenKind::Less => ParseRule {
            prefix: None,
            infix: true,
            precedence: Precedence::Comparison,
        },
        TokenKind::LessEqual => ParseRule {
            prefix: None,
            infix: true,
            precedence: Precedence::Comparison,
        },
        TokenKind::String => ParseRule {
            prefix: Some(PrefixRule::String),
            infix: false,
            precedence: Precedence::Lowest,
        },
        TokenKind::Number => ParseRule {
            prefix: Some(PrefixRule::Number),
            infix: false,
            precedence: Precedence::Lowest,
        },
        TokenKind::False => ParseRule {
            prefix: Some(PrefixRule::Literal),
            infix: false,
            precedence: Precedence::Lowest,
        },
        TokenKind::True => ParseRule {
            prefix: Some(PrefixRule::Literal),
            infix: false,
            precedence: Precedence::Lowest,
        },
        TokenKind::Nil => ParseRule {
            prefix: Some(PrefixRule::Literal),
            infix: false,
            precedence: Precedence::Lowest,
        },
        _ => ParseRule { prefix: None, infix: false, precedence: Precedence::Lowest },
    }
}

/// The instructions a binary operator compiles to. `!=`, `>=` and `<=` have no opcode of
/// their own: they are the negation of `==`, `<` and `>`.
pub open spec fn binary_code(op: TokenKind) -> Seq<Instruction> {
    match op {
        TokenKind::Plus => seq![Instruction::Add],
        TokenKind::Minus => seq![Instruction::Subtract],
        TokenKind::Star => seq![Instruction::Multiply],
        TokenKind::Slash => seq![Instruction::Divide],
        TokenKind::EqualEqual => seq![Instruction::Equal],
        TokenKind::BangEqual => seq![Instruction::Equal, Instruction::Not],
        TokenKind::Greater => seq![Instruction::Greater],
        TokenKind::GreaterEqual => seq![Instruction::Less, Instruction::Not],
        TokenKind::Less => seq![Instruction::Less],
        TokenKind::LessEqual => seq![Instruction::Greater, Instruction::Not],
        _ => Seq::empty(),
    }
}

/// `a` is a prefix of `b`.
pub open spec fn prefix_of<T>(a: Seq<T>, b: Seq<T>) -> bool {
    &&& a.len() <= b.len()
    &&& forall|k: int| 0 <= k < a.len() ==> #[trigger] b[k] == a[k]
}

proof fn lemma_continues_trans(a: &Parser, b: &Parser, c: &Parser)
    requires
        a.continues(b),
        b.continues(c),
    ensures
        a.continues(c),
{
}

proof fn lemma_emitted_extends<P: Fn(Vec<u8>) -> Option<u64>>(
    p: &Parser,
    prev: &Parser,
    h1: Heap,
    h2: Heap,
    parse_number: P,
    e: Expr,
)
    requires
        p.emitted(prev, h1, parse_number, e),
        h2.extends(&h1),
    ensures
        p.emitted(prev, h2, parse_number, e),
{
    let s = p.source();
    let base = prev.constants().len() as int;
    assert forall|k: int| 0 <= k < lits(s, e).len() implies #[trigger] literal_value(
        s,
        h2,
        parse_number,
        lits(s, e)[k],
        p.constants()[base + k],
    ) by {
        assert(literal_value(s, h1, parse_number, lits(s, e)[k], p.constants()[base + k]));
        let v = p.constants()[base + k];
        if v is String {
            assert(h1.live(v->String_0));
        }
    }
}

/// After `binary` returned `r` at `p`, the code since `start` is that of `left op r`.
proof fn lemma_emitted_binary<P: Fn(Vec<u8>) -> Option<u64>>(
    p: &Parser,
    op_state: &Parser,
    before: &Parser,
    start: &Parser,
    heap: Heap,
    parse_number: P,
    left: Expr,
    r: Expr,
    m: int,
)
    requires
        before.emitted(start, heap, parse_number, left),
        op_state.code() == before.code(),
        op_state.constants() == before.constants(),
        p.source() == before.source(),
        before.source() == start.source(),
        op_state.source() == before.source(),
        prefix_of(before.constants(), p.constants()),
        tok(p.source(), m).kind == op_state.previous_kind(),
        ({
            let s = op_state.source();
            let base = op_state.constants().len() as int;
            &&& p.code() == op_state.code() + code_of(s, r, base) + binary_code(
                op_state.previous_kind(),
            )
            &&& p.constants().len() == base + lits(s, r).len()
            &&& forall|k: int|
                0 <= k < lits(s, r).len() ==> #[trigger] literal_value(
                    s,
                    heap,
                    parse_number,
                    lits(s, r)[k],
                    p.constants()[base + k],
                )
            &&& forall|k: int|
                0 <= k < lines_of(s, r).len() ==> #[trigger] p.code_line(op_state.code().len() + k)
                    == lines_of(s, r)[k]
            &&& forall|k: int|
                op_state.code().len() + code_of(s, r, base).len() <= k < p.code().len()
                    ==> #[trigger] p.code_line(k) == line_of_pos(s, last_pos(r))
        }),
        forall|k: int| 0 <= k < before.code().len() ==> #[trigger] p.code_line(k) == before.code_line(k),
    ensures
        p.emitted(start, heap, parse_number, Expr::Binary(m, Box::new(left), Box::new(r))),
{
    let s = p.source();
    let e = Expr::Binary(m, Box::new(left), Box::new(r));
    let b0 = start.constants().len() as int;
    let nl = lits(s, left).len();
    let c0 = start.code().len() as int;
    assert(lits(s, e) == lits(s, left) + lits(s, r));
    assert(p.code() =~= start.code() + code_of(s, e, b0));
    lemma_lines_len(s, left, b0);
    lemma_lines_len(s, r, b0 + nl);
    let cl = code_of(s, left, b0).len() as int;
    let cr = code_of(s, r, b0 + nl).len() as int;
    assert forall|k: int| 0 <= k < lines_of(s, e).len() implies #[trigger] p.code_line(c0 + k)
        == lines_of(s, e)[k] by {
        if k < cl {
            assert(p.code_line(c0 + k) == before.code_line(c0 + k));
        } else if k < cl + cr {
            let j = k - cl;
            assert(c0 + k == op_state.code().len() + j);
            assert(p.code_line(op_state.code().len() + j) == lines_of(s, r)[j]);
        } else {
            assert(p.code_line(c0 + k) == line_of_pos(s, last_pos(r)));
        }
    }
    assert forall|k: int| 0 <= k < lits(s, e).len() implies #[trigger] literal_value(
        s,
        heap,
        parse_number,
        lits(s, e)[k],
        p.constants()[b0 + k],
    ) by {
        if k < nl {
            assert(lits(s, e)[k] == lits(s, left)[k]);
            assert(literal_value(s, heap, parse_number, lits(s, left)[k], before.constants()[b0 + k]));
            assert(p.constants()[b0 + k] == before.constants()[b0 + k]);
        } else {
            let j = k - nl;
            assert(lits(s, e)[k] == lits(s, r)[j]);
            assert(literal_value(s, heap, parse_number, lits(s, r)[j], p.constants()[b0 + nl + j]));
        }
    }
}

/// Every string constant of `values` is live in `heap`.
pub open spec fn strings_live(values: Seq<Value>, heap: Heap) -> bool {
    forall|k: int|
        0 <= k < values.len() ==> (#[trigger] values[k] matches Value::String(r) ==> heap.live(r))
}

/// Single-pass compiler: a precedence-climbing parser that emits bytecode as it goes.
pub struct Parser {
    scanner: Scanner,
    current: Token,
    previous: Token,
    chunk: Chunk,
    /// The scan positions the look-ahead and the previous token were read from.
    cpos: Ghost<int>,
    ppos: Ghost<int>,
}

/// `t` is the token the lexical rules give as `st`.
pub open spec fn matches_token(t: Token, st: SpecToken) -> bool {
    &&& t.kind == st.kind
    &&& t.start_loc.offset == st.start
    &&& t.end_loc.offset == st.end
}

/// A token whose lexeme lies within a source of `len` bytes.
pub open spec fn token_in(t: Token, len: int) -> bool {
    &&& t.start_loc.offset <= t.end_loc.offset <= len
    &&& t.kind == TokenKind::String ==> t.start_loc.offset + 2 <= t.end_loc.offset
}

impl Parser {
    /// Where the look-ahead token starts; it only moves forward.
    pub closed spec fn mark(&self) -> int {
        self.current.start_loc.offset as int
    }

    pub closed spec fn source_len(&self) -> int {
        self.scanner.source().len() as int
    }

    pub closed spec fn code(&self) -> Seq<Instruction> {
        self.chunk.code@
    }

    /// The source line recorded for instruction `k`.
    pub closed spec fn code_line(&self, k: int) -> usize {
        self.chunk.line_of(k)
    }

    pub closed spec fn constants(&self) -> Seq<Value> {
        self.chunk.constants@
    }

    pub closed spec fn source(&self) -> Seq<u8> {
        self.scanner.source()
    }

    /// The position the look-ahead token was scanned from.
    pub closed spec fn cpos(&self) -> int {
        self.cpos@
    }

    /// The position the previous token was scanned from.
    pub closed spec fn ppos(&self) -> int {
        self.ppos@
    }

    /// Nothing compiled yet, and the look-ahead is the first token.
    pub closed spec fn fresh(&self) -> bool {
        &&& self.chunk.code.len() == 0
        &&& self.chunk.constants.len() == 0
        &&& self.cpos@ == 0
    }

    pub closed spec fn previous_kind(&self) -> TokenKind {
        self.previous.kind
    }

    pub closed spec fn current_kind(&self) -> TokenKind {
        self.current.kind
    }

    pub closed spec fn wf(&self) -> bool {
        &&& self.scanner.wf()
        &&& self.chunk.wf()
        &&& self.chunk.constants_addressed()
        &&& self.scanner.source().len() <= usize::MAX / 4
        &&& token_in(self.current, self.scanner.source().len() as int)
        &&& token_in(self.previous, self.scanner.source().len() as int)
        &&& self.current.end_loc.offset == self.scanner.position()
        &&& (self.current.kind == TokenKind::Eof <==> self.current.start_loc.offset
            == self.scanner.source().len())
        &&& self.current.kind != TokenKind::Eof ==> self.current.start_loc.offset
            < self.current.end_loc.offset
        &&& 0 <= self.cpos@ <= self.current.start_loc.offset
        &&& 0 <= self.ppos@ <= self.previous.start_loc.offset
        &&& matches_token(self.current, tok(self.scanner.source(), self.cpos@))
        &&& 0 <= self.ppos@ <= self.scanner.source().len()
        &&& matches_token(self.previous, tok(self.scanner.source(), self.ppos@))
        &&& self.current.start_loc == loc_at(
            self.scanner.source(),
            self.current.start_loc.offset as int,
        )
        &&& self.previous.start_loc == loc_at(
            self.scanner.source(),
            self.previous.start_loc.offset as int,
        )
        &&& self.previous.start_loc.offset <= self.current.start_loc.offset
        &&& self.chunk.lines_sorted()
        &&& self.chunk.code.len() > 0 ==> self.chunk.line_of(self.chunk.code.len() - 1)
            <= self.previous.start_loc.line
    }

    /// `self` continues `prev`: same source, code and constants only appended to.
    pub open spec fn continues(&self, prev: &Parser) -> bool {
        &&& self.source_len() == prev.source_len()
        &&& self.source() == prev.source()
        &&& prefix_of(prev.code(), self.code())
        &&& prefix_of(prev.constants(), self.constants())
        &&& self.mark() >= prev.mark()
        &&& self.cpos() >= prev.cpos()
        &&& forall|k: int| 0 <= k < prev.code().len() ==> #[trigger] self.code_line(k) == prev.code_line(k)
    }

    /// Code grows by at most two instructions for each source byte the look-ahead passed.
    pub open spec fn within_budget(&self, prev: &Parser, extra: int) -> bool {
        self.code().len() - prev.code().len() <= 2 * (self.mark() - prev.mark()) + extra
    }

    /// Starts a compiler on `code` and reads the first token. The bound on the length keeps
    /// the number of emitted instructions, at most two per source byte, within `usize`.
    pub fn new(code: &str) -> (p: Parser)
        requires
            code.spec_bytes().len() <= usize::MAX / 4,
        ensures
            p.wf(),
            p.fresh(),
            p.source() == code.spec_bytes(),
    {
        let mut scanner = Scanner::new(code);
        let ghost s = scanner.source();
        proof {
            lemma_scan_progress(s, 0);
        }
        let current = scanner.next_token();
        proof {
            reveal(scan_token);
        }
        let chunk = Chunk::new();
        Parser {
            scanner,
            current,
            previous: current,
            chunk,
            cpos: Ghost(0),
            ppos: Ghost(0),
        }
    }

    fn error_at(&self, token: Token, kind: CompilationError) -> (e: RoxError)
        ensures
            e.src == RoxErrorKind::CompilationError(kind),
            e.line == token.start_loc.line,
    {
        RoxError::new(RoxErrorKind::CompilationError(kind), token.start_loc.line)
    }

    pub closed spec fn previous_lexeme(&self) -> Seq<u8> {
        self.previous.lexeme_of(self.scanner.source())
    }

    /// The contents of the string literal in `previous`, without its quotes.
    pub closed spec fn previous_string(&self) -> Seq<u8> {
        self.scanner.source().subrange(
            self.previous.start_loc.offset + 1,
            self.previous.end_loc.offset - 1,
        )
    }

    /// Appends `value` to the pool and emits the instruction that loads it.
    fn emit_constant(&mut self, value: Value) -> (r: Result<(), RoxError>)
        requires
            old(self).wf(),
            old(self).code().len() < usize::MAX,
        ensures
            final(self).ppos() == old(self).ppos(),
            final(self).code().len() > old(self).code().len() ==> final(self).code_line(
                old(self).code().len() as int,
            ) == line_of_pos(old(self).source(), old(self).ppos()),
            final(self).wf(),
            final(self).continues(old(self)),
            final(self).mark() == old(self).mark(),
            final(self).cpos() == old(self).cpos(),
            r is Ok <==> old(self).constants().len() < MAX_CONSTANTS,
            r is Ok ==> final(self).constants() == old(self).constants().push(value)
                && final(self).code() == old(self).code().push(
                Instruction::Constant(old(self).constants().len() as u16),
            ),
            r is Err ==> final(self).constants() == old(self).constants() && final(self).code()
                == old(self).code() && r->Err_0 == error_at_pos(
                old(self).source(),
                old(self).ppos(),
                CompilationError::TooManyConstants(65535),
            ),
            r is Err ==> r->Err_0.src is CompilationError,
    {
        match self.chunk.add_constant(value) {
            Ok(index) => {
                self.emit(Instruction::Constant(index));
                Ok(())
            },
            Err(_) => Err(
                self.error_at(self.previous, CompilationError::TooManyConstants(u16::MAX as u64)),
            ),
        }
    }

    /// Compiles the number literal in `previous`, read by `parse_number`.
    fn number<P: Fn(Vec<u8>) -> Option<u64>>(&mut self, parse_number: &P) -> (r: Result<
        (),
        RoxError,
    >)
        requires
            old(self).wf(),
            old(self).previous_kind() == TokenKind::Number,
            old(self).code().len() < usize::MAX,
            forall|v: Vec<u8>| call_requires(*parse_number, (v,)),
        ensures
            final(self).ppos() == old(self).ppos(),
            final(self).code().len() > old(self).code().len() ==> final(self).code_line(
                old(self).code().len() as int,
            ) == line_of_pos(old(self).source(), old(self).ppos()),
            final(self).wf(),
            final(self).continues(old(self)),
            final(self).mark() == old(self).mark(),
            final(self).cpos() == old(self).cpos(),
            r is Ok ==> final(self).constants().len() == old(self).constants().len() + 1
                && final(self).constants().drop_last() == old(self).constants()
                && final(self).code() == old(self).code().push(
                Instruction::Constant(old(self).constants().len() as u16),
            ) && forall|h: Heap|
                literal_value(
                    old(self).source(),
                    h,
                    *parse_number,
                    old(self).ppos(),
                    #[trigger] final(self).constants()[old(self).constants().len() as int],
                ),
            r is Err ==> final(self).constants() == old(self).constants() && final(self).code()
                == old(self).code(),
            r is Err ==> r->Err_0.src is CompilationError,
            reads_literal(old(self).source(), *parse_number, old(self).ppos()) && old(self).constants().len()
                < MAX_CONSTANTS ==> r is Ok,
    {
        let lexeme = self.scanner.lexeme(&self.previous);
        let arg = lexeme.clone();
        let ghost garg = arg;
        match parse_number(arg) {
            Some(bits) => {
                let r = self.emit_constant(Value::Number(bits));
                proof {
                    if r is Ok {
                        let s = old(self).source();
                        let t = tok(s, old(self).ppos());
                        assert(garg@ == s.subrange(t.start, t.end));
                        assert(t.kind == TokenKind::Number);
                        assert(self.constants()[old(self).constants().len() as int] == Value::Number(bits));
                        assert(self.constants().drop_last() =~= old(self).constants());
                        assert forall|h: Heap|
                            literal_value(
                                s,
                                h,
                                *parse_number,
                                old(self).ppos(),
                                #[trigger] self.constants()[old(self).constants().len() as int],
                            ) by {
                            assert(call_ensures(*parse_number, (garg,), Some(bits)));
                            assert(exists|lx: Vec<u8>| lx@ == s.subrange(t.start, t.end) && #[trigger] call_ensures(*parse_number, (lx,), Some(bits)));
                            let v = self.constants()[old(self).constants().len() as int];
                            assert(v is Number);
                            assert(v->Number_0 == bits);
                        }
                    }
                }
                r
            },
            None => Err(
                self.error_at(self.previous, CompilationError::InvalidNumberLiteral(lexeme)),
            ),
        }
    }

    /// What every parsing step keeps: both structures well formed, the parser moved on,
    /// the heap grown, and every string constant live.
    pub open spec fn stepped(&self, prev: &Parser, heap: Heap, prev_heap: Heap) -> bool {
        &&& self.wf()
        &&& self.continues(prev)
        &&& heap.wf()
        &&& heap.extends(&prev_heap)
        &&& strings_live(self.constants(), heap)
    }

    /// Compiles the string literal in `previous`: its contents are interned.
    fn string(&mut self, heap: &mut Heap) -> (r: Result<(), RoxError>)
        requires
            old(self).wf(),
            old(self).previous_kind() == TokenKind::String,
            old(self).code().len() < usize::MAX,
            old(heap).wf(),
            strings_live(old(self).constants(), *old(heap)),
        ensures
            final(self).ppos() == old(self).ppos(),
            final(self).code().len() > old(self).code().len() ==> final(self).code_line(
                old(self).code().len() as int,
            ) == line_of_pos(old(self).source(), old(self).ppos()),
            final(self).stepped(old(self), *final(heap), *old(heap)),
            final(self).mark() == old(self).mark(),
            final(self).cpos() == old(self).cpos(),
            final(self).code().len() <= old(self).code().len() + 1,
            r is Ok ==> exists|h: Ref|
                {
                    &&& Heap::alloc_string_post(*old(heap), old(self).previous_string(), *final(heap), h)
                    &&& final(self).constants() == old(self).constants().push(Value::String(h))
                    &&& final(self).code() == old(self).code().push(
                        Instruction::Constant(old(self).constants().len() as u16),
                    )
                },
            r is Err ==> r->Err_0.src is CompilationError,
            old(self).constants().len() < MAX_CONSTANTS ==> r is Ok,
    {
        let content = self.scanner.bytes_between(
            self.previous.start_loc.offset + 1,
            self.previous.end_loc.offset - 1,
        );
        assert(content@ == self.previous_string());
        let reference = heap.alloc_string(content);
        let r = self.emit_constant(Value::String(reference));
        proof {
            assert(Heap::alloc_string_post(*old(heap), old(self).previous_string(), *heap, reference));
            let c = self.constants();
            assert forall|k: int| 0 <= k < c.len() implies (#[trigger] c[k] matches Value::String(q)
                ==> heap.live(q)) by {
                if k < old(self).constants().len() {
                    assert(c[k] == old(self).constants()[k]);
                }
            }
        }
        r
    }

    /// Compiles `false`, `true` or `nil` in `previous`.
    fn literal(&mut self)
        requires
            old(self).wf(),
            old(self).code().len() < usize::MAX,
            rule_of(old(self).previous_kind()).prefix == Some(PrefixRule::Literal),
        ensures
            final(self).ppos() == old(self).ppos(),
            final(self).code().len() > old(self).code().len() ==> final(self).code_line(
                old(self).code().len() as int,
            ) == line_of_pos(old(self).source(), old(self).ppos()),
            final(self).wf(),
            final(self).continues(old(self)),
            final(self).mark() == old(self).mark(),
            final(self).cpos() == old(self).cpos(),
            final(self).constants() == old(self).constants(),
            final(self).code() == old(self).code().push(
                match old(self).previous_kind() {
                    TokenKind::False => Instruction::False,
                    TokenKind::True => Instruction::True,
                    _ => Instruction::Nil,
                },
            ),
    {
        match self.previous.kind {
            TokenKind::False => self.emit(Instruction::False),
            TokenKind::True => self.emit(Instruction::True),
            _ => self.emit(Instruction::Nil),
        }
    }

    /// Consumes the look-ahead token if it is of `kind`, else fails with `error` at it.
    fn consume(&mut self, kind: TokenKind, error: CompilationError) -> (r: Result<(), RoxError>)
        requires
            old(self).wf(),
        ensures
            final(self).wf(),
            final(self).continues(old(self)),
            final(self).code() == old(self).code(),
            final(self).constants() == old(self).constants(),
            old(self).current_kind() != kind ==> r == Err::<(), RoxError>(
                error_at_pos(old(self).source(), old(self).cpos(), error),
            ),
            old(self).current_kind() == kind && r is Err ==> lexical_error_at(
                old(self).source(),
                tok(old(self).source(), old(self).cpos()).end,
                r->Err_0,
            ),
            r is Ok ==> old(self).current_kind() == kind && final(self).cpos() == tok(
                old(self).source(),
                old(self).cpos(),
            ).end,
            old(self).current_kind() == kind && !(tok(
                old(self).source(),
                tok(old(self).source(), old(self).cpos()).end,
            ).kind is Error) ==> r is Ok,
            r is Ok ==> final(self).ppos() == old(self).cpos(),
            r is Err ==> r->Err_0.src is CompilationError,
    {
        if self.current.kind == kind {
            return self.advance();
        }
        Err(self.error_at(self.current, error))
    }

    /// Since `prev`, the code grew by the code of `e` and the pool by the constants of its
    /// literals.
    pub open spec fn emitted<P: Fn(Vec<u8>) -> Option<u64>>(
        &self,
        prev: &Parser,
        heap: Heap,
        parse_number: P,
        e: Expr,
    ) -> bool {
        let s = self.source();
        let base = prev.constants().len() as int;
        &&& self.code() == prev.code() + code_of(s, e, base)
        &&& forall|k: int|
            0 <= k < lines_of(s, e).len() ==> #[trigger] self.code_line(prev.code().len() + k)
                == lines_of(s, e)[k]
        &&& self.constants().len() == base + lits(s, e).len()
        &&& forall|k: int|
            0 <= k < lits(s, e).len() ==> #[trigger] literal_value(
                s,
                heap,
                parse_number,
                lits(s, e)[k],
                self.constants()[base + k],
            )
    }

    fn expression<P: Fn(Vec<u8>) -> Option<u64>>(&mut self, heap: &mut Heap, parse_number: &P, target: Ghost<Option<(Expr, int)>>) -> (r:
        (Result<(), RoxError>, Ghost<Expr>))
        requires
            old(self).wf(),
            old(self).code().len() <= 2 * old(self).mark(),
            old(heap).wf(),
            strings_live(old(self).constants(), *old(heap)),
            forall|v: Vec<u8>| call_requires(*parse_number, (v,)),
            full_target(old(self).source(), old(self).cpos(), Precedence::Assignment, target@, old(self).constants().len() as int, *parse_number),
        ensures
            final(self).stepped(old(self), *final(heap), *old(heap)),
            final(self).within_budget(old(self), 0),
            r.0 is Ok ==> full(
                old(self).source(),
                old(self).cpos(),
                Precedence::Assignment,
                r.1@,
                final(self).cpos(),
            ) && final(self).emitted(old(self), *final(heap), *parse_number, r.1@),
            r.0 is Err ==> r.0->Err_0.src is CompilationError,
            found(target@, r.0 is Ok, r.1@, final(self).cpos()),
            r.0 is Ok ==> final(self).ppos() == last_pos(r.1@),
            ({
                let s = old(self).source();
                let c1 = tok(s, old(self).cpos()).end;
                &&& tok(s, c1).kind is Error ==> r.0 is Err && lexical_error_at(s, c1, r.0->Err_0)
                &&& !(tok(s, c1).kind is Error) && rule_of(tok(s, old(self).cpos()).kind).prefix is None
                    ==> r.0 == Err::<(), RoxError>(
                    error_at_pos(s, old(self).cpos(), CompilationError::MissingExpression),
                )
            }),
        decreases old(self).source_len() - old(self).mark(), 1int,
    {
        self.parse_precedence(Precedence::Assignment, heap, parse_number, target)
    }

    /// Parses an expression whose operators bind at least as tightly as `precedence`.
    fn parse_precedence<P: Fn(Vec<u8>) -> Option<u64>>(
        &mut self,
        precedence: Precedence,
        heap: &mut Heap,
        parse_number: &P, target: Ghost<Option<(Expr, int)>>,
    ) -> (r: (Result<(), RoxError>, Ghost<Expr>))
        requires
            old(self).wf(),
            precedence.rank() >= 1,
            old(self).code().len() <= 2 * old(self).mark(),
            old(heap).wf(),
            strings_live(old(self).constants(), *old(heap)),
            forall|v: Vec<u8>| call_requires(*parse_number, (v,)),
            full_target(old(self).source(), old(self).cpos(), precedence, target@, old(self).constants().len() as int, *parse_number),
        ensures
            final(self).stepped(old(self), *final(heap), *old(heap)),
            final(self).within_budget(old(self), 0),
            r.0 is Ok ==> full(old(self).source(), old(self).cpos(), precedence, r.1@, final(self).cpos())
                && final(self).emitted(old(self), *final(heap), *parse_number, r.1@),
            r.0 is Err ==> r.0->Err_0.src is CompilationError,
            found(target@, r.0 is Ok, r.1@, final(self).cpos()),
            r.0 is Ok ==> final(self).ppos() == last_pos(r.1@),
            ({
                let s = old(self).source();
                let c1 = tok(s, old(self).cpos()).end;
                &&& tok(s, c1).kind is Error ==> r.0 is Err && lexical_error_at(s, c1, r.0->Err_0)
                    && final(self).code() == old(self).code() && final(self).constants()
                    == old(self).constants()
                &&& !(tok(s, c1).kind is Error) && rule_of(tok(s, old(self).cpos()).kind).prefix is None
                    ==> r.0 == Err::<(), RoxError>(
                    error_at_pos(s, old(self).cpos(), CompilationError::MissingExpression),
                ) && final(self).code() == old(self).code() && final(self).constants()
                    == old(self).constants()
            }),
        decreases old(self).source_len() - old(self).mark(), 0int,
    {
        let ghost start = *self;
        let ghost start_heap = *heap;
        let ghost s = self.source();
        let ghost base = self.constants().len() as int;
        let ghost c0 = self.cpos();
        let ghost dummy = Expr::Literal(0);
        // The operand and the end of the operand that an expected parse starts with.
        let ghost mut first = dummy;
        let ghost mut first_end: int = 0;
        proof {
            if target@ is Some {
                let (e, q) = target@->Some_0;
                let (a, b) = choose|a: Expr, b: int|
                    #[trigger] split(a, b) && 0 <= c0 < b <= s.len() && operand(s, c0, a, b) && tail(
                        s,
                        precedence,
                        a,
                        b,
                        e,
                        q,
                    );
                first = a;
                first_end = b;
                lemma_tail_stop(s, precedence, a, b, e, q);
                lemma_tail_lits(s, precedence, a, b, e, q);
                assert forall|k: int| 0 <= k < lits(s, a).len() implies #[trigger] reads_literal(
                    s,
                    *parse_number,
                    lits(s, a)[k],
                ) by {
                    assert(lits(s, e)[k] == lits(s, a)[k]);
                }
                let t = tok(s, c0);
                if t.kind == TokenKind::Minus || t.kind == TokenKind::Bang {
                    lemma_full_first(s, t.end, Precedence::Unary, *a->Unary_1, b);
                } else if t.kind == TokenKind::LeftParen {
                    let m = a->Group_1;
                    lemma_full_first(s, t.end, Precedence::Assignment, *a->Group_0, m);
                }
            }
        }
        match self.advance() {
            Ok(()) => {},
            Err(e) => return (Err(e), Ghost(dummy)),
        }
        let rule = get_rule(self.previous.kind);
        let prefix = match rule.prefix {
            Some(p) => p,
            None => return (
                Err(self.error_at(self.previous, CompilationError::MissingExpression)),
                Ghost(dummy),
            ),
        };
        let ghost mut left = Expr::Literal(c0);
        let ghost after_advance = *self;
        proof {
            assert(c0 < after_advance.cpos());
        }
        let res = match prefix {
            PrefixRule::Grouping => {
                let (r, g) = self.grouping(
                    heap,
                    parse_number,
                    Ghost(if target@ is Some { Some((first, first_end)) } else { None }),
                    Ghost(None),
                );
                proof {
                    left = g@;
                }
                r
            },
            PrefixRule::Unary => {
                let (r, g) = self.unary(
                    heap,
                    parse_number,
                    Ghost(if target@ is Some { Some((first, first_end)) } else { None }),
                );
                proof {
                    left = g@;
                }
                r
            },
            PrefixRule::Number => {
                proof {
                    if target@ is Some {
                        assert(first == Expr::Literal(c0));
                        assert(lits(s, first) =~= seq![c0]);
                        assert(base + 1 <= MAX_CONSTANTS);
                        assert(lits(s, target@->Some_0.0)[0] == c0);
                        assert(reads_literal(s, *parse_number, c0));
                        assert(self.constants().len() < MAX_CONSTANTS);
                    }
                }
                let r = self.number(parse_number);
                proof {
                    if r is Ok {
                        assert(self.code() =~= start.code() + code_of(s, left, base));
                        assert(lits(s, left) =~= seq![c0]);
                        assert(literal_value(s, *heap, *parse_number, c0, self.constants()[base]));
                    }
                }
                r
            },
            PrefixRule::String => {
                proof {
                    if target@ is Some {
                        assert(first == Expr::Literal(c0));
                        assert(lits(s, first) =~= seq![c0]);
                        assert(base + 1 <= MAX_CONSTANTS);
                    }
                }
                let r = self.string(heap);
                proof {
                    if r is Ok {
                        assert(self.code() =~= start.code() + code_of(s, left, base));
                        assert(lits(s, left) =~= seq![c0]);
                        assert(literal_value(s, *heap, *parse_number, c0, self.constants()[base]));
                    }
                }
                r
            },
            PrefixRule::Literal => {
                self.literal();
                proof {
                    assert(self.code() =~= start.code() + code_of(s, left, base));
                    assert(lits(s, left) =~= Seq::<int>::empty());
                }
                Ok(())
            },
        };
        match res {
            Ok(()) => {},
            Err(e) => return (Err(e), Ghost(dummy)),
        }
        proof {
            assert(operand(s, c0, left, self.cpos()));
            assert(self.emitted(&start, *heap, *parse_number, left));
            assert forall|e: Expr, q: int| tail(s, precedence, left, self.cpos(), e, q) implies full(
                s,
                c0,
                precedence,
                e,
                q,
            ) by {
                assert(operand(s, c0, left, self.cpos()));
                assert(split(left, self.cpos()));
            }
        }
        while precedence.level() <= get_rule(self.current.kind).precedence.level()
            invariant
                self.stepped(&start, *heap, start_heap),
                self.within_budget(&start, 0),
                precedence.rank() >= 1,
                start.wf(),
                start_heap.wf(),
                forall|v: Vec<u8>| call_requires(*parse_number, (v,)),
                self.source_len() == start.source_len(),
                s == self.source(),
                start == *old(self),
                start_heap == *old(heap),
                start.code().len() <= 2 * start.mark(),
                c0 == start.cpos(),
                base == start.constants().len(),
                self.emitted(&start, *heap, *parse_number, left),
                self.ppos() == last_pos(left),
                !(tok(s, tok(s, c0).end).kind is Error),
                rule_of(tok(s, c0).kind).prefix is Some,
                forall|e: Expr, q: int|
                    #[trigger] tail(s, precedence, left, self.cpos(), e, q) ==> full(
                        s,
                        c0,
                        precedence,
                        e,
                        q,
                    ),
                full_target(s, c0, precedence, target@, base, *parse_number),
                target@ is Some ==> tail(
                    s,
                    precedence,
                    left,
                    self.cpos(),
                    target@->Some_0.0,
                    target@->Some_0.1,
                ),
            decreases self.source_len() - self.mark(),
        {
            let ghost before = *self;
            let ghost before_heap = *heap;
            let ghost m = self.cpos();
            assert(rule_of(self.current.kind).precedence.rank() >= 1);
            assert(continues_at(tok(s, m).kind, precedence));
            assert(self.current.kind != TokenKind::Eof);
            assert(self.code().len() <= 2 * self.mark());
            // The right operand that an expected parse continues with.
            let ghost mut right = dummy;
            let ghost mut right_end: int = 0;
            proof {
                if target@ is Some {
                    let (e, q) = target@->Some_0;
                    let t = tok(s, m);
                    let (r, j) = choose|r: Expr, j: int|
                        #[trigger] split(r, j) && t.end <= j <= s.len() && full(
                            s,
                            t.end,
                            tighter(rule_of(t.kind).precedence),
                            r,
                            j,
                        ) && tail(s, precedence, Expr::Binary(m, Box::new(left), Box::new(r)), j, e, q);
                    right = r;
                    right_end = j;
                    let b = Expr::Binary(m, Box::new(left), Box::new(r));
                    lemma_tail_stop(s, precedence, b, j, e, q);
                    lemma_tail_lits(s, precedence, b, j, e, q);
                    assert(lits(s, b) == lits(s, left) + lits(s, r));
                    let nl = lits(s, left).len() as int;
                    assert forall|k: int| 0 <= k < lits(s, r).len() implies #[trigger] reads_literal(
                        s,
                        *parse_number,
                        lits(s, r)[k],
                    ) by {
                        assert(lits(s, b)[nl + k] == lits(s, r)[k]);
                        assert(lits(s, e)[nl + k] == lits(s, b)[nl + k]);
                    }
                    lemma_full_first(s, t.end, tighter(rule_of(t.kind).precedence), r, j);
                }
            }
            let advanced = self.advance();
            proof {
                lemma_continues_trans(&*self, &before, &start);
            }
            match advanced {
                Ok(()) => {},
                Err(e) => return (Err(e), Ghost(dummy)),
            }
            let ghost op_state = *self;
            let (b, g) = self.binary(
                heap,
                parse_number,
                Ghost(if target@ is Some { Some((right, right_end)) } else { None }),
            );
            match b {
                Ok(()) => {},
                Err(e) => return (Err(e), Ghost(dummy)),
            }
            proof {
                let j = self.cpos();
                let new_left = Expr::Binary(m, Box::new(left), Box::new(g@));
                lemma_emitted_extends(&before, &start, before_heap, *heap, *parse_number, left);
                lemma_emitted_binary(&*self, &op_state, &before, &start, *heap, *parse_number, left, g@, m);
                let t = tok(s, m);
                assert(t.kind == op_state.previous.kind);
                assert(op_state.cpos() == t.end);
                assert(0 <= m < t.end <= s.len());
                assert(t.end <= j <= s.len());
                assert(full(s, t.end, tighter(rule_of(t.kind).precedence), g@, j));
                assert forall|e: Expr, q: int| #[trigger] tail(s, precedence, new_left, j, e, q) implies full(
                    s,
                    c0,
                    precedence,
                    e,
                    q,
                ) by {
                    let t = tok(s, m);
                    assert(t.end <= j <= s.len() && full(s, t.end, tighter(rule_of(t.kind).precedence), g@, j)
                        && tail(s, precedence, Expr::Binary(m, Box::new(left), Box::new(g@)), j, e, q));
                    assert(split(g@, j));
                    assert(tail(s, precedence, left, m, e, q));
                }
                left = new_left;
            }
        }
        proof {
            assert(tail(s, precedence, left, self.cpos(), left, self.cpos()));
        }
        (Ok(()), Ghost(left))
    }

    /// Compiles `-x` or `!x`; the operator is in `previous`.
    fn unary<P: Fn(Vec<u8>) -> Option<u64>>(&mut self, heap: &mut Heap, parse_number: &P, target: Ghost<Option<(Expr, int)>>) -> (r:
        (Result<(), RoxError>, Ghost<Expr>))
        requires
            old(self).wf(),
            old(self).previous_kind() == TokenKind::Minus || old(self).previous_kind()
                == TokenKind::Bang,
            old(self).cpos() == tok(old(self).source(), old(self).ppos()).end,
            old(self).code().len() + 2 <= 2 * old(self).mark(),
            old(heap).wf(),
            strings_live(old(self).constants(), *old(heap)),
            forall|v: Vec<u8>| call_requires(*parse_number, (v,)),
            operand_target(old(self).source(), old(self).ppos(), target@, old(self).constants().len() as int, *parse_number),
        ensures
            final(self).stepped(old(self), *final(heap), *old(heap)),
            final(self).within_budget(old(self), 2),
            r.0 is Ok ==> operand(old(self).source(), old(self).ppos(), r.1@, final(self).cpos())
                && final(self).emitted(old(self), *final(heap), *parse_number, r.1@),
            r.0 is Err ==> r.0->Err_0.src is CompilationError,
            found(target@, r.0 is Ok, r.1@, final(self).cpos()),
            r.0 is Ok ==> final(self).ppos() == last_pos(r.1@),
        decreases old(self).source_len() - old(self).mark(), 1int,
    {
        let kind = self.previous.kind;
        let ghost p = self.ppos();
        let ghost inner = if target@ is Some {
            Some((*target@->Some_0.0->Unary_1, target@->Some_0.1))
        } else {
            None
        };
        let (r, g) = self.parse_precedence(Precedence::Unary, heap, parse_number, Ghost(inner));
        match r {
            Ok(()) => {},
            Err(e) => return (Err(e), Ghost(Expr::Literal(p))),
        }
        let ghost operand_done = *self;
        if kind == TokenKind::Minus {
            self.emit(Instruction::Negate);
        } else {
            self.emit(Instruction::Not);
        }
        let ghost e = Expr::Unary(p, Box::new(g@));
        proof {
            let s = self.source();
            assert(code_of(s, e, old(self).constants().len() as int) =~= code_of(s, g@, old(self).constants().len() as int) + seq![
                if tok(s, p).kind == TokenKind::Minus {
                    Instruction::Negate
                } else {
                    Instruction::Not
                },
            ]);
            assert(self.code() =~= old(self).code() + code_of(s, e, old(self).constants().len() as int));
            let n0 = old(self).code().len() as int;
            lemma_lines_len(s, g@, old(self).constants().len() as int);
            assert forall|k: int| 0 <= k < lines_of(s, e).len() implies #[trigger] self.code_line(n0 + k)
                == lines_of(s, e)[k] by {
                if k < lines_of(s, g@).len() {
                    assert(self.code_line(n0 + k) == operand_done.code_line(n0 + k));
                }
            }
        }
        (Ok(()), Ghost(e))
    }

    /// Compiles `( expression )`; the `(` is in `previous`.
    /// `contents`, when given, is a parse expected of the contents alone; it lets the
    /// contract say what happens when no `)` follows them.
    fn grouping<P: Fn(Vec<u8>) -> Option<u64>>(
        &mut self,
        heap: &mut Heap,
        parse_number: &P,
        target: Ghost<Option<(Expr, int)>>,
        contents: Ghost<Option<(Expr, int)>>,
    ) -> (r:
        (Result<(), RoxError>, Ghost<Expr>))
        requires
            old(self).wf(),
            old(self).previous_kind() == TokenKind::LeftParen,
            old(self).cpos() == tok(old(self).source(), old(self).ppos()).end,
            old(self).code().len() + 2 <= 2 * old(self).mark(),
            old(heap).wf(),
            strings_live(old(self).constants(), *old(heap)),
            forall|v: Vec<u8>| call_requires(*parse_number, (v,)),
            operand_target(old(self).source(), old(self).ppos(), target@, old(self).constants().len() as int, *parse_number),
            full_target(
                old(self).source(),
                old(self).cpos(),
                Precedence::Assignment,
                contents@,
                old(self).constants().len() as int,
                *parse_number,
            ),
        ensures
            final(self).stepped(old(self), *final(heap), *old(heap)),
            final(self).within_budget(old(self), 2),
            r.0 is Ok ==> operand(old(self).source(), old(self).ppos(), r.1@, final(self).cpos())
                && final(self).emitted(old(self), *final(heap), *parse_number, r.1@),
            r.0 is Err ==> r.0->Err_0.src is CompilationError,
            found(target@, r.0 is Ok, r.1@, final(self).cpos()),
            r.0 is Ok ==> final(self).ppos() == last_pos(r.1@),
            target@ is None && contents@ is Some && tok(old(self).source(), contents@->Some_0.1).kind
                != TokenKind::RightParen ==> r.0 == Err::<(), RoxError>(
                error_at_pos(
                    old(self).source(),
                    contents@->Some_0.1,
                    CompilationError::MissingClosingParenthesis,
                ),
            ),
        decreases old(self).source_len() - old(self).mark(), 2int,
    {
        let ghost p = self.ppos();
        let ghost mut inner: Option<(Expr, int)> = contents@;
        proof {
            if target@ is Some {
                let s = self.source();
                let (e, q) = target@->Some_0;
                let t = tok(s, p);
                let m = e->Group_1;
                inner = Some((*e->Group_0, m));
            }
        }
        let (r, g) = self.expression(heap, parse_number, Ghost(inner));
        match r {
            Ok(()) => {},
            Err(e) => return (Err(e), Ghost(Expr::Literal(p))),
        }
        let ghost m = self.cpos();
        let ghost inner = *self;
        let c = self.consume(TokenKind::RightParen, CompilationError::MissingClosingParenthesis);
        let ghost e = Expr::Group(Box::new(g@), m);
        proof {
            if c is Ok {
                let s = self.source();
                assert(full(s, tok(s, p).end, Precedence::Assignment, g@, m));
                assert(inner.current.kind == tok(s, m).kind);
                assert(tok(s, m).kind == TokenKind::RightParen);
                assert(self.cpos() == tok(s, m).end);
                assert(tok(s, p).end <= m <= s.len());
                assert(0 <= p < tok(s, p).end);
                assert(tok(s, p).kind == TokenKind::LeftParen);
                assert(*e->Group_0 == g@);
                assert(operand(s, p, e, self.cpos()));
                let n0 = old(self).code().len() as int;
                assert forall|k: int| 0 <= k < lines_of(s, e).len() implies #[trigger] self.code_line(n0 + k)
                    == lines_of(s, e)[k] by {
                    lemma_lines_len(s, g@, old(self).constants().len() as int);
                    assert(self.code_line(n0 + k) == inner.code_line(n0 + k));
                }
                assert(self.emitted(old(self), *heap, *parse_number, e));
            }
        }
        (c, Ghost(e))
    }

    /// Compiles the right operand of the binary operator in `previous`, then the operator.
    fn binary<P: Fn(Vec<u8>) -> Option<u64>>(&mut self, heap: &mut Heap, parse_number: &P, target: Ghost<Option<(Expr, int)>>) -> (r:
        (Result<(), RoxError>, Ghost<Expr>))
        requires
            old(self).wf(),
            rule_of(old(self).previous_kind()).infix,
            old(self).code().len() + 2 <= 2 * old(self).mark(),
            old(heap).wf(),
            strings_live(old(self).constants(), *old(heap)),
            forall|v: Vec<u8>| call_requires(*parse_number, (v,)),
            full_target(old(self).source(), old(self).cpos(), tighter(rule_of(old(self).previous_kind()).precedence), target@, old(self).constants().len() as int, *parse_number),
        ensures
            final(self).stepped(old(self), *final(heap), *old(heap)),
            final(self).within_budget(old(self), 2),
            r.0 is Ok ==> {
                let c = final(self).code();
                let b = binary_code(old(self).previous_kind());
                &&& c.len() >= old(self).code().len() + b.len()
                &&& c.subrange(c.len() - b.len(), c.len() as int) == b
            },
            r.0 is Ok ==> {
                let s = old(self).source();
                let base = old(self).constants().len() as int;
                &&& full(
                    s,
                    old(self).cpos(),
                    tighter(rule_of(old(self).previous_kind()).precedence),
                    r.1@,
                    final(self).cpos(),
                )
                &&& final(self).code() == old(self).code() + code_of(s, r.1@, base) + binary_code(
                    old(self).previous_kind(),
                )
                &&& forall|k: int|
                    0 <= k < lines_of(s, r.1@).len() ==> #[trigger] final(self).code_line(
                        old(self).code().len() + k,
                    ) == lines_of(s, r.1@)[k]
                &&& forall|k: int|
                    old(self).code().len() + code_of(s, r.1@, base).len() <= k < final(self).code().len()
                        ==> #[trigger] final(self).code_line(k) == line_of_pos(
                        s,
                        last_pos(r.1@),
                    )
                &&& final(self).constants().len() == base + lits(s, r.1@).len()
                &&& forall|k: int|
                    0 <= k < lits(s, r.1@).len() ==> #[trigger] literal_value(
                        s,
                        *final(heap),
                        *parse_number,
                        lits(s, r.1@)[k],
                        final(self).constants()[base + k],
                    )
            },
            r.0 is Err ==> r.0->Err_0.src is CompilationError,
            found(target@, r.0 is Ok, r.1@, final(self).cpos()),
            r.0 is Ok ==> final(self).ppos() == last_pos(r.1@),
        decreases old(self).source_len() - old(self).mark(), 1int,
    {
        let operator = self.previous.kind;
        let rule = get_rule(operator);
        let (r, g) = self.parse_precedence(rule.precedence.next(), heap, parse_number, target);
        match r {
            Ok(()) => {},
            Err(e) => return (Err(e), g),
        }
        let ghost mid = self.code();
        let ghost rhs_done = *self;
        match operator {
            TokenKind::Plus => self.emit(Instruction::Add),
            TokenKind::Minus => self.emit(Instruction::Subtract),
            TokenKind::Star => self.emit(Instruction::Multiply),
            TokenKind::Slash => self.emit(Instruction::Divide),
            TokenKind::BangEqual => {
                self.emit(Instruction::Equal);
                self.emit(Instruction::Not);
            },
            TokenKind::EqualEqual => self.emit(Instruction::Equal),
            TokenKind::Greater => self.emit(Instruction::Greater),
            TokenKind::GreaterEqual => {
                self.emit(Instruction::Less);
                self.emit(Instruction::Not);
            },
            TokenKind::Less => self.emit(Instruction::Less),
            _ => {
                self.emit(Instruction::Greater);
                self.emit(Instruction::Not);
            },
        }
        proof {
            let c = self.code();
            let b = binary_code(operator);
            assert(c =~= mid + b);
            assert(c.subrange(c.len() - b.len(), c.len() as int) =~= b);
            let s = old(self).source();
            let n0 = old(self).code().len() as int;
            assert forall|k: int| 0 <= k < lines_of(s, g@).len() implies #[trigger] self.code_line(n0 + k)
                == lines_of(s, g@)[k] by {
                lemma_lines_len(s, g@, old(self).constants().len() as int);
                assert(self.code_line(n0 + k) == rhs_done.code_line(n0 + k));
            }
        }
        (Ok(()), g)
    }

    /// Compiles the expression of the source into a chunk ending with `Return`, or returns
    /// the errors found.
    pub fn compile<P: Fn(Vec<u8>) -> Option<u64>>(
        self,
        heap: &mut Heap,
        parse_number: &P,
    ) -> (r: Result<Chunk, Vec<RoxError>>)
        requires
            self.wf(),
            self.fresh(),
            old(heap).wf(),
            forall|v: Vec<u8>| call_requires(*parse_number, (v,)),
        ensures
            final(heap).wf(),
            final(heap).extends(old(heap)),
            match r {
                Ok(c) => compiled(c, *final(heap)) && compiles_to(
                    self.source(),
                    *final(heap),
                    *parse_number,
                    c,
                ),
                Err(es) => es.len() == 1 && es[0].src is CompilationError,
            },
            compilable(self.source(), *parse_number) ==> r is Ok,
            first_errors(self.source(), r),
    {
        let mut parser = self;
        let mut errors: Vec<RoxError> = Vec::new();
        let ghost start = parser;
        let ghost s = parser.source();
        let ghost mut tree = Expr::Literal(0);
        let ghost mut expected: Option<(Expr, int)> = None;
        proof {
            if compilable(s, *parse_number) {
                let (e, q) = choose|e: Expr, q: int|
                    #[trigger] full(s, 0, Precedence::Assignment, e, q) && !(tok(s, q).kind is Error)
                        && lits(s, e).len() <= MAX_CONSTANTS && reads_lits(s, *parse_number, e);
                expected = Some((e, q));
                lemma_full_first(s, 0, Precedence::Assignment, e, q);
            }
        }
        let res = match parser.check_current() {
            Ok(()) => {
                let (r, g) = parser.expression(heap, parse_number, Ghost(expected));
                proof {
                    tree = g@;
                }
                r
            },
            Err(e) => Err(e),
        };
        match res {
            Ok(()) => {},
            Err(e) => errors.push(e),
        }
        let ghost before_return = parser;
        parser.emit(Instruction::Return);
        proof {
            if res is Ok {
                assert(start.code() == Seq::<Instruction>::empty());
                assert(before_return.code() =~= code_of(s, tree, 0));
                assert(parser.code() =~= code_of(s, tree, 0).push(Instruction::Return));
                assert(split(tree, before_return.cpos()));
                assert(full(s, 0, Precedence::Assignment, tree, before_return.cpos()));
                assert forall|k: int| 0 <= k < lits(s, tree).len() implies #[trigger] literal_value(
                    s,
                    *heap,
                    *parse_number,
                    lits(s, tree)[k],
                    parser.chunk.constants@[k],
                ) by {
                    assert(literal_value(s, *heap, *parse_number, lits(s, tree)[k], before_return.constants()[0 + k]));
                }
            }
        }
        if errors.len() == 0 {
            proof {
                assert(res is Ok);
                assert(parser.chunk.code@ == code_of(s, tree, 0).push(Instruction::Return));
                assert(parser.chunk.constants@.len() == lits(s, tree).len());
                lemma_lines_len(s, tree, 0);
                let ls = lines_of(s, tree).push(line_of_pos(s, last_pos(tree)));
                assert forall|k: int| 0 <= k < parser.chunk.code.len() implies #[trigger] parser.chunk.line_of(k)
                    == ls[k] by {
                    if k < lines_of(s, tree).len() {
                        assert(parser.code_line(0 + k) == lines_of(s, tree)[k]);
                    }
                }
                assert(compiles_to(s, *heap, *parse_number, parser.chunk));
            }
            Ok(parser.chunk)
        } else {
            Err(errors)
        }
    }

    /// Reports the look-ahead token when it is a lexical error.
    fn check_current(&self) -> (r: Result<(), RoxError>)
        requires
            self.wf(),
        ensures
            r is Ok <==> !(self.current.kind is Error),
            r is Err ==> r->Err_0.src is CompilationError,
            r is Err ==> lexical_error_at(self.source(), self.cpos(), r->Err_0),
    {
        match self.current.kind {
            TokenKind::Error(TokenErrorKind::InvalidLexeme) => {
                let lexeme = self.scanner.lexeme(&self.current);
                Err(self.error_at(self.current, CompilationError::InvalidLexeme(lexeme)))
            },
            TokenKind::Error(TokenErrorKind::UnterminatedString) => {
                Err(self.error_at(self.current, CompilationError::UnterminatedString))
            },
            _ => Ok(()),
        }
    }

    /// Moves the look-ahead token to `previous` and scans the next one.
    fn advance(&mut self) -> (r: Result<(), RoxError>)
        requires
            old(self).wf(),
        ensures
            final(self).wf(),
            final(self).continues(old(self)),
            final(self).code() == old(self).code(),
            final(self).constants() == old(self).constants(),
            final(self).previous_kind() == old(self).current_kind(),
            old(self).current_kind() != TokenKind::Eof ==> final(self).mark() > old(self).mark(),
            r is Ok <==> !(final(self).current_kind() is Error),
            final(self).ppos() == old(self).cpos(),
            final(self).cpos() == tok(old(self).source(), old(self).cpos()).end,
            r is Err ==> r->Err_0.src is CompilationError,
            r is Err ==> lexical_error_at(old(self).source(), final(self).cpos(), r->Err_0),
    {
        self.previous = self.current;
        let ghost s = self.scanner.source();
        let ghost pos = self.scanner.position();
        proof {
            self.scanner.lemma_position_in_range();
            lemma_scan_progress(s, pos);
        }
        let token = self.scanner.next_token();
        proof {
            reveal(scan_token);
            lemma_loc_line_monotone(s, old(self).previous.start_loc.offset as int, old(self).current.start_loc.offset as int);
        }
        self.current = token;
        self.ppos = self.cpos;
        self.cpos = Ghost(pos);
        self.check_current()
    }

    fn emit(&mut self, instruction: Instruction)
        requires
            old(self).wf(),
            old(self).code().len() < usize::MAX,
            instruction matches Instruction::Constant(i) ==> i < old(self).constants().len(),
        ensures
            final(self).wf(),
            final(self).continues(old(self)),
            final(self).mark() == old(self).mark(),
            final(self).code() == old(self).code().push(instruction),
            final(self).constants() == old(self).constants(),
            final(self).previous_kind() == old(self).previous_kind(),
            final(self).current_kind() == old(self).current_kind(),
            final(self).cpos() == old(self).cpos(),
            final(self).ppos() == old(self).ppos(),
            final(self).code_line(old(self).code().len() as int) == line_of_pos(
                old(self).source(),
                old(self).ppos(),
            ),
    {
        let line = self.previous.start_loc.line;
        self.chunk.write(instruction, line);
        proof {
            assert forall|k: int| 0 <= k < self.chunk.code.len() implies (
            #[trigger] self.chunk.code@[k] matches Instruction::Constant(i) ==> i
                < self.chunk.constants.len()) by {
                if k < old(self).chunk.code.len() {
                    assert(self.chunk.code@[k] == old(self).chunk.code@[k]);
                }
            }
        }
    }
}

/// `e` is the error for the lexical error token at `p`, attributed to its line: the bytes
/// of an invalid run, or an unterminated string.
pub open spec fn lexical_error_at(s: Seq<u8>, p: int, e: RoxError) -> bool {
    let t = tok(s, p);
    &&& e.line == line_of_pos(s, p)
    &&& match t.kind {
        TokenKind::Error(TokenErrorKind::InvalidLexeme) => e.src matches RoxErrorKind::CompilationError(
            CompilationError::InvalidLexeme(v),
        ) && v@ == s.subrange(t.start, t.end),
        TokenKind::Error(TokenErrorKind::UnterminatedString) => e.src
            == RoxErrorKind::CompilationError(CompilationError::UnterminatedString),
        _ => false,
    }
}

/// The error `kind` attributed to the line of the token at `p`.
pub open spec fn error_at_pos(s: Seq<u8>, p: int, kind: CompilationError) -> RoxError {
    RoxError { src: RoxErrorKind::CompilationError(kind), line: line_of_pos(s, p) }
}

/// The errors owed when the source goes wrong at its first token or the one after it: an
/// error token at the start, an error token right after the first token, or a first token
/// that starts no expression.
pub open spec fn first_errors<T>(s: Seq<u8>, r: Result<T, Vec<RoxError>>) -> bool {
    let c1 = tok(s, 0).end;
    &&& tok(s, 0).kind is Error ==> r is Err && lexical_error_at(s, 0, r->Err_0[0])
    &&& !(tok(s, 0).kind is Error) && tok(s, c1).kind is Error ==> r is Err && lexical_error_at(
        s,
        c1,
        r->Err_0[0],
    )
    &&& !(tok(s, 0).kind is Error) && !(tok(s, c1).kind is Error) && rule_of(tok(s, 0).kind).prefix
        is None ==> r is Err && r->Err_0[0] == error_at_pos(s, 0, CompilationError::MissingExpression)
}

/// Success is owed: the source starts with an expression, the token after it is no error
/// token, the pool has room for its literals, and `parse_number` reads each of its number
/// lexemes.
pub open spec fn compilable<P: Fn(Vec<u8>) -> Option<u64>>(s: Seq<u8>, parse_number: P) -> bool {
    &&& exists|e: Expr, q: int|
        #[trigger] full(s, 0, Precedence::Assignment, e, q) && !(tok(s, q).kind is Error) && lits(
            s,
            e,
        ).len() <= MAX_CONSTANTS && reads_lits(s, parse_number, e)
}

/// A parse the caller expects of the expression at `p`: the grammar gives it, the token
/// where it stops is no error token, the pool has room for its literals, and `parse_number`
/// reads each of its number lexemes.
pub open spec fn full_target<P: Fn(Vec<u8>) -> Option<u64>>(
    s: Seq<u8>,
    p: int,
    prec: Precedence,
    target: Option<(Expr, int)>,
    pool: int,
    parse_number: P,
) -> bool {
    target is Some ==> {
        let (e, q) = target->Some_0;
        &&& full(s, p, prec, e, q)
        &&& !(tok(s, q).kind is Error)
        &&& pool + lits(s, e).len() <= MAX_CONSTANTS
        &&& reads_lits(s, parse_number, e)
    }
}

/// The same for an operand whose first token is at `p`.
pub open spec fn operand_target<P: Fn(Vec<u8>) -> Option<u64>>(
    s: Seq<u8>,
    p: int,
    target: Option<(Expr, int)>,
    pool: int,
    parse_number: P,
) -> bool {
    target is Some ==> {
        let (e, q) = target->Some_0;
        &&& operand(s, p, e, q)
        &&& !(tok(s, q).kind is Error)
        &&& pool + lits(s, e).len() <= MAX_CONSTANTS
        &&& reads_lits(s, parse_number, e)
    }
}

/// When a parse was expected, it was found: success, that tree, and that end.
pub open spec fn found(target: Option<(Expr, int)>, ok: bool, e: Expr, q: int) -> bool {
    target is Some ==> ok && e == target->Some_0.0 && q == target->Some_0.1
}

/// `c` is the code of an expression that the source starts with, followed by `Return`, each
/// instruction attributed to the line `lines_of` gives (`Return` to that of the expression's
/// last token), and its pool holds the constants of that expression's number and string
/// literals, in order.
pub open spec fn compiles_to<P: Fn(Vec<u8>) -> Option<u64>>(
    s: Seq<u8>,
    heap: Heap,
    parse_number: P,
    c: Chunk,
) -> bool {
    exists|e: Expr, q: int|
        #[trigger] full(s, 0, Precedence::Assignment, e, q) && c.code@ == code_of(s, e, 0).push(
            Instruction::Return,
        ) && (forall|k: int|
            0 <= k < c.code.len() ==> #[trigger] c.line_of(k) == lines_of(s, e).push(
                line_of_pos(s, last_pos(e)),
            )[k]) && c.constants@.len() == lits(s, e).len() && forall|k: int|
            0 <= k < lits(s, e).len() ==> #[trigger] literal_value(
                s,
                heap,
                parse_number,
                lits(s, e)[k],
                c.constants@[k],
            )
}

/// A chunk the virtual machine can run: well formed, lines in source order, every `Constant` names a pool entry,
/// every string constant is live in `heap`, and the code ends with `Return`.
pub open spec fn compiled(c: Chunk, heap: Heap) -> bool {
    &&& c.wf()
    &&& c.lines_sorted()
    &&& c.constants_addressed()
    &&& strings_live(c.constants@, heap)
    &&& c.code.len() > 0
    &&& c.code@.last() == Instruction::Return
}

/// Compiles `code` into a chunk, interning its string literals in `heap`; number literals
/// are read by `parse_number`, which yields the bit pattern of the double a lexeme denotes.
pub fn compile<P: Fn(Vec<u8>) -> Option<u64>>(code: &str, heap: &mut Heap, parse_number: &P) -> (r:
    Result<Chunk, Vec<RoxError>>)
    requires
        code.spec_bytes().len() <= usize::MAX / 4,
        old(heap).wf(),
        forall|v: Vec<u8>| call_requires(*parse_number, (v,)),
    ensures
        final(heap).wf(),
        final(heap).extends(old(heap)),
        match r {
            Ok(c) => compiled(c, *final(heap)) && compiles_to(
                code.spec_bytes(),
                *final(heap),
                *parse_number,
                c,
            ),
            Err(es) => es.len() == 1 && es[0].src is CompilationError,
        },
        compilable(code.spec_bytes(), *parse_number) ==> r is Ok,
        first_errors(code.spec_bytes(), r),
{
    Parser::new(code).compile(heap, parse_number)
}

} // verus!
