use vstd::prelude::*;

use crate::chunk::{Instruction, Value};
use crate::compiler::{Precedence, binary_code, rule_of};
use crate::heap::Heap;
use crate::scanner::{SpecToken, loc_at, scan_token};
use crate::token::TokenKind;

verus! {

// The expression grammar, stated over scan positions: the token "at" position `p` is the
// one that scanning from `p` yields, and it ends where the next one is scanned from.
/// An expression tree; each node names the position of its token.
pub enum Expr {
    /// A number, string, `true`, `false` or `nil` literal.
    Literal(int),
    /// `-e` or `!e`.
    Unary(int, Box<Expr>),
    /// `( e )`, with the `)` at the position.
    Group(Box<Expr>, int),
    /// `l op r`, with the operator at the position.
    Binary(int, Box<Expr>, Box<Expr>),
}

pub open spec fn tok(s: Seq<u8>, p: int) -> SpecToken {
    scan_token(s, p)
}

pub open spec fn is_literal_kind(k: TokenKind) -> bool {
    k == TokenKind::Number || k == TokenKind::String || k == TokenKind::True || k
        == TokenKind::False || k == TokenKind::Nil
}

/// `k` is an infix operator that binds at least as tightly as `prec`.
pub open spec fn continues_at(k: TokenKind, prec: Precedence) -> bool {
    rule_of(k).infix && rule_of(k).precedence.rank() >= prec.rank()
}

/// The level one tighter than `p`.
pub open spec fn tighter(p: Precedence) -> Precedence {
    match p {
        Precedence::Lowest => Precedence::Assignment,
        Precedence::Assignment => Precedence::Or,
        Precedence::Or => Precedence::And,
        Precedence::And => Precedence::Equality,
        Precedence::Equality => Precedence::Comparison,
        Precedence::Comparison => Precedence::Term,
        Precedence::Term => Precedence::Factor,
        Precedence::Factor => Precedence::Unary,
        Precedence::Unary => Precedence::Call,
        Precedence::Call => Precedence::Primary,
        Precedence::Primary => Precedence::Lowest,
    }
}

/// Names a sub-expression and the position where it ends, so that the grammar's
/// quantifiers have a term to match on; it holds of every pair.
pub open spec fn split(e: Expr, m: int) -> bool {
    true
}

/// The source from `p` to `q` is an expression `e` whose operators bind at least as tightly
/// as `prec`, and the token at `q` does not continue it.
pub open spec fn full(s: Seq<u8>, p: int, prec: Precedence, e: Expr, q: int) -> bool
    decreases s.len() - p, 2int,
{
    exists|e0: Expr, m: int|
        #[trigger] split(e0, m) && 0 <= p < m <= s.len() && operand(s, p, e0, m) && tail(
            s,
            prec,
            e0,
            m,
            e,
            q,
        )
}

/// The source from `p` to `q` is a literal, a unary expression or a parenthesized one.
pub open spec fn operand(s: Seq<u8>, p: int, e: Expr, q: int) -> bool
    decreases s.len() - p, 1int,
{
    let t = tok(s, p);
    if !(0 <= p < t.end <= s.len()) {
        false
    } else if is_literal_kind(t.kind) {
        e == Expr::Literal(p) && q == t.end
    } else if t.kind == TokenKind::Minus || t.kind == TokenKind::Bang {
        e is Unary && e->Unary_0 == p && full(s, t.end, Precedence::Unary, *e->Unary_1, q)
    } else if t.kind == TokenKind::LeftParen {
        e is Group && {
            let m = e->Group_1;
            &&& t.end <= m <= s.len()
            &&& full(s, t.end, Precedence::Assignment, *e->Group_0, m)
            &&& tok(s, m).kind == TokenKind::RightParen
            &&& q == tok(s, m).end
        }
    } else {
        false
    }
}

/// Starting from `left`, which ends at `m`, the binary operators from `m` on that bind at
/// least as tightly as `prec` fold to the left into `e`, which ends at `q`.
pub open spec fn tail(s: Seq<u8>, prec: Precedence, left: Expr, m: int, e: Expr, q: int) -> bool
    decreases s.len() - m, 0int,
{
    let t = tok(s, m);
    if !(0 <= m < t.end <= s.len()) || !continues_at(t.kind, prec) {
        e == left && q == m
    } else {
        exists|r: Expr, j: int|
            #[trigger] split(r, j) && t.end <= j <= s.len() && full(
                s,
                t.end,
                tighter(rule_of(t.kind).precedence),
                r,
                j,
            ) && tail(s, prec, Expr::Binary(m, Box::new(left), Box::new(r)), j, e, q)
    }
}

/// The positions of the number and string literals of `e`, left to right: the order in
/// which their constants enter the pool.
pub open spec fn lits(s: Seq<u8>, e: Expr) -> Seq<int>
    decreases e,
{
    match e {
        Expr::Literal(p) => if tok(s, p).kind == TokenKind::Number || tok(s, p).kind
            == TokenKind::String {
            seq![p]
        } else {
            Seq::empty()
        },
        Expr::Unary(_, a) => lits(s, *a),
        Expr::Group(a, _) => lits(s, *a),
        Expr::Binary(_, l, r) => lits(s, *l) + lits(s, *r),
    }
}

/// The postfix code of `e` whose first constant has pool index `base`.
pub open spec fn code_of(s: Seq<u8>, e: Expr, base: int) -> Seq<Instruction>
    decreases e,
{
    match e {
        Expr::Literal(p) => {
            let k = tok(s, p).kind;
            if k == TokenKind::Number || k == TokenKind::String {
                seq![Instruction::Constant(base as u16)]
            } else if k == TokenKind::True {
                seq![Instruction::True]
            } else if k == TokenKind::False {
                seq![Instruction::False]
            } else {
                seq![Instruction::Nil]
            }
        },
        Expr::Unary(p, a) => code_of(s, *a, base) + seq![
            if tok(s, p).kind == TokenKind::Minus {
                Instruction::Negate
            } else {
                Instruction::Not
            },
        ],
        Expr::Group(a, _) => code_of(s, *a, base),
        Expr::Binary(p, l, r) => code_of(s, *l, base) + code_of(s, *r, base + lits(s, *l).len())
            + binary_code(tok(s, p).kind),
    }
}

/// The position of the last token of `e`.
pub open spec fn last_pos(e: Expr) -> int
    decreases e,
{
    match e {
        Expr::Literal(p) => p,
        Expr::Unary(_, a) => last_pos(*a),
        Expr::Group(_, m) => m,
        Expr::Binary(_, _, r) => last_pos(*r),
    }
}

/// The source line of the token at `p`.
pub open spec fn line_of_pos(s: Seq<u8>, p: int) -> usize {
    loc_at(s, tok(s, p).start).line
}

/// The line recorded for each instruction of `code_of(s, e, _)`: an instruction is
/// attributed to the line of the token read just before it was emitted, which for an
/// operator is the last token of its operand.
pub open spec fn lines_of(s: Seq<u8>, e: Expr) -> Seq<usize>
    decreases e,
{
    match e {
        Expr::Literal(p) => seq![line_of_pos(s, p)],
        Expr::Unary(_, a) => lines_of(s, *a) + seq![line_of_pos(s, last_pos(*a))],
        Expr::Group(a, _) => lines_of(s, *a),
        Expr::Binary(p, l, r) => lines_of(s, *l) + lines_of(s, *r) + Seq::new(
            binary_code(tok(s, p).kind).len(),
            |i: int| line_of_pos(s, last_pos(*r)),
        ),
    }
}

pub proof fn lemma_lines_len(s: Seq<u8>, e: Expr, base: int)
    ensures
        lines_of(s, e).len() == code_of(s, e, base).len(),
    decreases e,
{
    match e {
        Expr::Literal(_) => {},
        Expr::Unary(_, a) => lemma_lines_len(s, *a, base),
        Expr::Group(a, _) => lemma_lines_len(s, *a, base),
        Expr::Binary(_, l, r) => {
            lemma_lines_len(s, *l, base);
            lemma_lines_len(s, *r, base + lits(s, *l).len());
        },
    }
}

/// An operator's instructions are attributed to the line of the last token of its right
/// operand; when that token is on the operator's line, they are attributed to the
/// operator's line. A runtime error raised by one of them reports that line.
pub proof fn lemma_operator_line(s: Seq<u8>, e: Expr, base: int)
    requires
        e is Binary || e is Unary,
        e is Binary ==> line_of_pos(s, last_pos(*e->Binary_2)) == line_of_pos(s, e->Binary_0),
        e is Unary ==> line_of_pos(s, last_pos(*e->Unary_1)) == line_of_pos(s, e->Unary_0),
    ensures
        ({
            let op = if e is Binary {
                e->Binary_0
            } else {
                e->Unary_0
            };
            let n = if e is Binary {
                binary_code(tok(s, op).kind).len() as int
            } else {
                1
            };
            let ls = lines_of(s, e);
            forall|k: int| ls.len() - n <= k < ls.len() ==> #[trigger] ls[k] == line_of_pos(s, op)
        }),
{
}

/// `v` is the constant for the literal at `p`: the double `parse_number` read from a number
/// lexeme, or the interned contents of a string literal.
pub open spec fn literal_value<P: Fn(Vec<u8>) -> Option<u64>>(
    s: Seq<u8>,
    heap: Heap,
    parse_number: P,
    p: int,
    v: Value,
) -> bool {
    let t = tok(s, p);
    if t.kind == TokenKind::Number {
        v is Number && exists|lexeme: Vec<u8>|
            lexeme@ == s.subrange(t.start, t.end) && #[trigger] call_ensures(
                parse_number,
                (lexeme,),
                Some(v->Number_0),
            )
    } else {
        v is String && heap.live(v->String_0) && heap.content(v->String_0) == s.subrange(
            t.start + 1,
            t.end - 1,
        )
    }
}


/// `!=`, `>=` and `<=` compile to `==`, `<` and `>` followed by `Not`: the code of such a
/// comparison ends with that pair.
pub proof fn lemma_negated_comparison(s: Seq<u8>, e: Expr, base: int)
    requires
        e is Binary,
        tok(s, e->Binary_0).kind == TokenKind::BangEqual || tok(s, e->Binary_0).kind
            == TokenKind::GreaterEqual || tok(s, e->Binary_0).kind == TokenKind::LessEqual,
    ensures
        ({
            let c = code_of(s, e, base);
            let k = tok(s, e->Binary_0).kind;
            &&& c.len() >= 2
            &&& c[c.len() - 1] == Instruction::Not
            &&& c[c.len() - 2] == (if k == TokenKind::BangEqual {
                Instruction::Equal
            } else if k == TokenKind::GreaterEqual {
                Instruction::Less
            } else {
                Instruction::Greater
            })
        }),
{
}

/// A binary expression compiles to its left operand, its right operand, then the
/// operator's instructions, which end the code.
pub proof fn lemma_binary_code(s: Seq<u8>, e: Expr, base: int)
    requires
        e is Binary,
    ensures
        ({
            let c = code_of(s, e, base);
            let b = binary_code(tok(s, e->Binary_0).kind);
            &&& c == code_of(s, *e->Binary_1, base) + code_of(
                s,
                *e->Binary_2,
                base + lits(s, *e->Binary_1).len(),
            ) + b
            &&& c.subrange(c.len() - b.len(), c.len() as int) == b
        }),
{
    let c = code_of(s, e, base);
    let b = binary_code(tok(s, e->Binary_0).kind);
    assert(c.subrange(c.len() - b.len(), c.len() as int) =~= b);
}

/// `parse_number` reads the literal at `p` if it is a number: on its lexeme it returns
/// `Some`. Other literals need no reading.
pub open spec fn reads_literal<P: Fn(Vec<u8>) -> Option<u64>>(
    s: Seq<u8>,
    parse_number: P,
    p: int,
) -> bool {
    tok(s, p).kind == TokenKind::Number ==> forall|v: Vec<u8>, o: Option<u64>|
        v@ == s.subrange(tok(s, p).start, tok(s, p).end) && #[trigger] call_ensures(
            parse_number,
            (v,),
            o,
        ) ==> o is Some
}

/// `parse_number` reads every number literal of `e`.
pub open spec fn reads_lits<P: Fn(Vec<u8>) -> Option<u64>>(
    s: Seq<u8>,
    parse_number: P,
    e: Expr,
) -> bool {
    forall|k: int| 0 <= k < lits(s, e).len() ==> #[trigger] reads_literal(s, parse_number, lits(s, e)[k])
}

/// An expression starts with a literal, a unary operator or `(`.
pub proof fn lemma_full_first(s: Seq<u8>, p: int, prec: Precedence, e: Expr, q: int)
    requires
        full(s, p, prec, e, q),
    ensures
        is_literal_kind(tok(s, p).kind) || tok(s, p).kind == TokenKind::Minus || tok(s, p).kind
            == TokenKind::Bang || tok(s, p).kind == TokenKind::LeftParen,
        0 <= p < tok(s, p).end <= s.len(),
{
    let (e0, m) = choose|e0: Expr, m: int|
        #[trigger] split(e0, m) && 0 <= p < m <= s.len() && operand(s, p, e0, m) && tail(
            s,
            prec,
            e0,
            m,
            e,
            q,
        );
    assert(operand(s, p, e0, m));
}

/// The token where a chain of operators stops is not an error token if the token where the
/// whole expression stops is not: it is either that token or an operator.
pub proof fn lemma_tail_stop(s: Seq<u8>, prec: Precedence, left: Expr, m: int, e: Expr, q: int)
    requires
        tail(s, prec, left, m, e, q),
        !(tok(s, q).kind is Error),
    ensures
        !(tok(s, m).kind is Error),
{
}

/// Folding operators onto `left` only appends literals.
pub proof fn lemma_tail_lits(s: Seq<u8>, prec: Precedence, left: Expr, m: int, e: Expr, q: int)
    requires
        tail(s, prec, left, m, e, q),
    ensures
        lits(s, left).len() <= lits(s, e).len(),
        forall|k: int| 0 <= k < lits(s, left).len() ==> #[trigger] lits(s, e)[k] == lits(s, left)[k],
        m <= q,
    decreases s.len() - m,
{
    let t = tok(s, m);
    if 0 <= m < t.end <= s.len() && continues_at(t.kind, prec) {
        let (r, j) = choose|r: Expr, j: int|
            #[trigger] split(r, j) && t.end <= j <= s.len() && full(
                s,
                t.end,
                tighter(rule_of(t.kind).precedence),
                r,
                j,
            ) && tail(s, prec, Expr::Binary(m, Box::new(left), Box::new(r)), j, e, q);
        let b = Expr::Binary(m, Box::new(left), Box::new(r));
        lemma_tail_lits(s, prec, b, j, e, q);
        assert(lits(s, b) == lits(s, left) + lits(s, r));
    }
}

} // verus!
