use vstd::prelude::*;

use crate::location::Location;
use vstd::string::StringSliceAdditionalSpecFns;
use crate::token::{Token, TokenErrorKind, TokenKind, copy_range};

verus! {

// ASCII codes of the bytes the lexical rules name.
pub const TAB: u8 = 9;
pub const LF: u8 = 10;
pub const CR: u8 = 13;
pub const SPACE: u8 = 32;
pub const BANG: u8 = 33;
pub const QUOTE: u8 = 34;
pub const LEFT_PAREN: u8 = 40;
pub const RIGHT_PAREN: u8 = 41;
pub const STAR: u8 = 42;
pub const PLUS: u8 = 43;
pub const COMMA: u8 = 44;
pub const MINUS: u8 = 45;
pub const DOT: u8 = 46;
pub const SLASH: u8 = 47;
pub const SEMICOLON: u8 = 59;
pub const LESS: u8 = 60;
pub const EQUAL: u8 = 61;
pub const GREATER: u8 = 62;
pub const UNDERSCORE: u8 = 95;
pub const LEFT_BRACE: u8 = 123;
pub const RIGHT_BRACE: u8 = 125;

/// The byte at `i`, or 0 past either end.
pub open spec fn byte_at(s: Seq<u8>, i: int) -> u8 {
    if 0 <= i < s.len() {
        s[i]
    } else {
        0
    }
}

pub open spec fn spec_is_digit(c: u8) -> bool {
    48 <= c <= 57
}

pub open spec fn spec_is_alpha(c: u8) -> bool {
    (65 <= c <= 90) || (97 <= c <= 122) || c == UNDERSCORE
}

pub open spec fn is_blank(c: u8) -> bool {
    c == SPACE || c == CR || c == TAB || c == LF
}

pub open spec fn single_char_kind(c: u8) -> Option<TokenKind> {
    if c == LEFT_PAREN {
        Some(TokenKind::LeftParen)
    } else if c == RIGHT_PAREN {
        Some(TokenKind::RightParen)
    } else if c == LEFT_BRACE {
        Some(TokenKind::LeftBrace)
    } else if c == RIGHT_BRACE {
        Some(TokenKind::RightBrace)
    } else if c == SEMICOLON {
        Some(TokenKind::Semicolon)
    } else if c == COMMA {
        Some(TokenKind::Comma)
    } else if c == DOT {
        Some(TokenKind::Dot)
    } else if c == MINUS {
        Some(TokenKind::Minus)
    } else if c == PLUS {
        Some(TokenKind::Plus)
    } else if c == SLASH {
        Some(TokenKind::Slash)
    } else if c == STAR {
        Some(TokenKind::Star)
    } else {
        None
    }
}

/// For a byte that starts `X` or `X=`: the one-byte kind and the two-byte kind.
pub open spec fn pair_kinds(c: u8) -> Option<(TokenKind, TokenKind)> {
    if c == BANG {
        Some((TokenKind::Bang, TokenKind::BangEqual))
    } else if c == EQUAL {
        Some((TokenKind::Equal, TokenKind::EqualEqual))
    } else if c == LESS {
        Some((TokenKind::Less, TokenKind::LessEqual))
    } else if c == GREATER {
        Some((TokenKind::Greater, TokenKind::GreaterEqual))
    } else {
        None
    }
}

/// The byte can start a lexeme.
pub open spec fn starts_lexeme(c: u8) -> bool {
    single_char_kind(c) is Some || pair_kinds(c) is Some || c == QUOTE || spec_is_digit(c)
        || spec_is_alpha(c)
}

/// Where skipping blanks and `//` comments from `i` stops; `in_comment` tells whether `i`
/// lies inside a comment, which ends with its line.
pub open spec fn skip_from(s: Seq<u8>, i: int, in_comment: bool) -> int
    decreases s.len() - i,
{
    if !(0 <= i < s.len()) {
        i
    } else if in_comment {
        skip_from(s, i + 1, s[i] != LF)
    } else if is_blank(s[i]) {
        skip_from(s, i + 1, false)
    } else if s[i] == SLASH && byte_at(s, i + 1) == SLASH {
        skip_from(s, i + 2, true)
    } else {
        i
    }
}

pub open spec fn skip(s: Seq<u8>, i: int) -> int {
    skip_from(s, i, false)
}

/// The end of the run of digits that starts at `i`.
pub open spec fn digits_end(s: Seq<u8>, i: int) -> int
    decreases s.len() - i,
{
    if 0 <= i < s.len() && spec_is_digit(s[i]) {
        digits_end(s, i + 1)
    } else {
        i
    }
}

/// The end of a number lexeme at `i`: digits, then `.` and digits only if a digit follows
/// the `.`.
pub open spec fn number_end(s: Seq<u8>, i: int) -> int {
    let d = digits_end(s, i);
    if byte_at(s, d) == DOT && spec_is_digit(byte_at(s, d + 1)) {
        digits_end(s, d + 1)
    } else {
        d
    }
}

/// The end of the run of letters, digits and underscores that starts at `i`.
pub open spec fn ident_end(s: Seq<u8>, i: int) -> int
    decreases s.len() - i,
{
    if 0 <= i < s.len() && (spec_is_alpha(s[i]) || spec_is_digit(s[i])) {
        ident_end(s, i + 1)
    } else {
        i
    }
}

/// The index of the first `"` at or after `i`, or the length when there is none.
pub open spec fn quote_from(s: Seq<u8>, i: int) -> int
    decreases s.len() - i,
{
    if 0 <= i < s.len() && s[i] != QUOTE {
        quote_from(s, i + 1)
    } else {
        i
    }
}

/// The index of the first byte at or after `i` that starts a lexeme, or the length.
pub open spec fn invalid_end(s: Seq<u8>, i: int) -> int
    decreases s.len() - i,
{
    if 0 <= i < s.len() && !starts_lexeme(s[i]) {
        invalid_end(s, i + 1)
    } else {
        i
    }
}

/// The reserved words and their kinds.
pub open spec fn keyword(w: Seq<u8>) -> Option<TokenKind> {
    if w == seq![97u8, 110, 100] {
        // and
        Some(TokenKind::And)
    } else if w == seq![99u8, 108, 97, 115, 115] {
        // class
        Some(TokenKind::Class)
    } else if w == seq![101u8, 108, 115, 101] {
        // else
        Some(TokenKind::Else)
    } else if w == seq![102u8, 97, 108, 115, 101] {
        // false
        Some(TokenKind::False)
    } else if w == seq![102u8, 111, 114] {
        // for
        Some(TokenKind::For)
    } else if w == seq![102u8, 117, 110] {
        // fun
        Some(TokenKind::Fun)
    } else if w == seq![105u8, 102] {
        // if
        Some(TokenKind::If)
    } else if w == seq![110u8, 105, 108] {
        // nil
        Some(TokenKind::Nil)
    } else if w == seq![111u8, 114] {
        // or
        Some(TokenKind::Or)
    } else if w == seq![112u8, 114, 105, 110, 116] {
        // print
        Some(TokenKind::Print)
    } else if w == seq![114u8, 101, 116, 117, 114, 110] {
        // return
        Some(TokenKind::Return)
    } else if w == seq![115u8, 117, 112, 101, 114] {
        // super
        Some(TokenKind::Super)
    } else if w == seq![116u8, 104, 105, 115] {
        // this
        Some(TokenKind::This)
    } else if w == seq![116u8, 114, 117, 101] {
        // true
        Some(TokenKind::True)
    } else if w == seq![118u8, 97, 114] {
        // var
        Some(TokenKind::Var)
    } else if w == seq![119u8, 104, 105, 108, 101] {
        // while
        Some(TokenKind::While)
    } else {
        None
    }
}

pub open spec fn word_kind(w: Seq<u8>) -> TokenKind {
    match keyword(w) {
        Some(k) => k,
        None => TokenKind::Identifier,
    }
}

/// A token as the lexical rules define it: its kind and the span of its lexeme.
pub struct SpecToken {
    pub kind: TokenKind,
    pub start: int,
    pub end: int,
}

/// The token that scanning from `pos` yields.
#[verifier::opaque]
pub open spec fn scan_token(s: Seq<u8>, pos: int) -> SpecToken {
    let p = skip(s, pos);
    if p >= s.len() {
        SpecToken { kind: TokenKind::Eof, start: p, end: p }
    } else {
        let c = s[p];
        if single_char_kind(c) is Some {
            SpecToken { kind: single_char_kind(c)->Some_0, start: p, end: p + 1 }
        } else if pair_kinds(c) is Some {
            if byte_at(s, p + 1) == EQUAL {
                SpecToken { kind: pair_kinds(c)->Some_0.1, start: p, end: p + 2 }
            } else {
                SpecToken { kind: pair_kinds(c)->Some_0.0, start: p, end: p + 1 }
            }
        } else if c == QUOTE {
            let q = quote_from(s, p + 1);
            if q >= s.len() {
                SpecToken {
                    kind: TokenKind::Error(TokenErrorKind::UnterminatedString),
                    start: p,
                    end: s.len() as int,
                }
            } else {
                SpecToken { kind: TokenKind::String, start: p, end: q + 1 }
            }
        } else if spec_is_digit(c) {
            SpecToken { kind: TokenKind::Number, start: p, end: number_end(s, p) }
        } else if spec_is_alpha(c) {
            let e = ident_end(s, p);
            SpecToken { kind: word_kind(s.subrange(p, e)), start: p, end: e }
        } else {
            SpecToken {
                kind: TokenKind::Error(TokenErrorKind::InvalidLexeme),
                start: p,
                end: invalid_end(s, p + 1),
            }
        }
    }
}

/// The location of offset `i`: lines and columns counted from zero.
pub open spec fn loc_at(s: Seq<u8>, i: int) -> Location
    decreases i,
{
    if i <= 0 {
        Location { offset: 0, line: 0, column: 0 }
    } else {
        loc_at(s, i - 1).advanced(byte_at(s, i - 1))
    }
}

proof fn lemma_loc_offset(s: Seq<u8>, i: int)
    requires
        0 <= i <= s.len(),
        s.len() <= usize::MAX,
    ensures
        loc_at(s, i).offset == i,
    decreases i,
{
    if i > 0 {
        lemma_loc_offset(s, i - 1);
    }
}

/// The tokens from `pos` on, up to and including the first `Eof`.
pub open spec fn scan_all(s: Seq<u8>, pos: int) -> Seq<SpecToken>
    decreases s.len() - pos,
{
    let t = scan_token(s, pos);
    if t.kind == TokenKind::Eof || !(pos < t.end <= s.len()) {
        seq![t]
    } else {
        seq![t] + scan_all(s, t.end)
    }
}

proof fn lemma_skip_from_bounds(s: Seq<u8>, i: int, c: bool)
    requires
        0 <= i <= s.len(),
    ensures
        i <= skip_from(s, i, c) <= s.len(),
        skip_from(s, i, c) < s.len() ==> !is_blank(s[skip_from(s, i, c)]),
    decreases s.len() - i,
{
    if i < s.len() {
        if c {
            lemma_skip_from_bounds(s, i + 1, s[i] != LF);
        } else if is_blank(s[i]) {
            lemma_skip_from_bounds(s, i + 1, false);
        } else if s[i] == SLASH && byte_at(s, i + 1) == SLASH {
            lemma_skip_from_bounds(s, i + 2, true);
        }
    }
}

proof fn lemma_digits_end_bounds(s: Seq<u8>, i: int)
    requires
        0 <= i <= s.len(),
    ensures
        i <= digits_end(s, i) <= s.len(),
    decreases s.len() - i,
{
    if i < s.len() && spec_is_digit(s[i]) {
        lemma_digits_end_bounds(s, i + 1);
    }
}

proof fn lemma_ident_end_bounds(s: Seq<u8>, i: int)
    requires
        0 <= i <= s.len(),
    ensures
        i <= ident_end(s, i) <= s.len(),
    decreases s.len() - i,
{
    if i < s.len() && (spec_is_alpha(s[i]) || spec_is_digit(s[i])) {
        lemma_ident_end_bounds(s, i + 1);
    }
}

proof fn lemma_quote_from_bounds(s: Seq<u8>, i: int)
    requires
        0 <= i <= s.len(),
    ensures
        i <= quote_from(s, i) <= s.len(),
    decreases s.len() - i,
{
    if i < s.len() && s[i] != QUOTE {
        lemma_quote_from_bounds(s, i + 1);
    }
}

proof fn lemma_invalid_end_bounds(s: Seq<u8>, i: int)
    requires
        0 <= i <= s.len(),
    ensures
        i <= invalid_end(s, i) <= s.len(),
    decreases s.len() - i,
{
    if i < s.len() && !starts_lexeme(s[i]) {
        lemma_invalid_end_bounds(s, i + 1);
    }
}

/// Each scan either reports `Eof`, at the end of the input and with an empty lexeme, or
/// consumes a non-empty lexeme that starts where blanks and comments end.
pub proof fn lemma_scan_progress(s: Seq<u8>, pos: int)
    requires
        0 <= pos <= s.len(),
    ensures
        ({
            let t = scan_token(s, pos);
            &&& t.start == skip(s, pos)
            &&& pos <= t.start <= t.end <= s.len()
            &&& (t.kind == TokenKind::Eof <==> t.start == s.len())
            &&& t.kind != TokenKind::Eof ==> t.start < t.end
            &&& t.kind == TokenKind::String ==> t.start + 2 <= t.end
        }),
{
    reveal(scan_token);
    let p = skip(s, pos);
    lemma_skip_from_bounds(s, pos, false);
    if p < s.len() {
        let c = s[p];
        lemma_digits_end_bounds(s, p);
        lemma_ident_end_bounds(s, p);
        lemma_quote_from_bounds(s, p + 1);
        lemma_invalid_end_bounds(s, p + 1);
        let d = digits_end(s, p);
        if spec_is_digit(c) {
            assert(digits_end(s, p) == digits_end(s, p + 1));
            lemma_digits_end_bounds(s, p + 1);
            if byte_at(s, d) == DOT && spec_is_digit(byte_at(s, d + 1)) {
                lemma_digits_end_bounds(s, d + 1);
            }
        }
        if spec_is_alpha(c) {
            lemma_ident_end_bounds(s, p + 1);
        }
    }
}

/// `b` is the token scanned right after the non-final token `a`.
pub open spec fn follows(s: Seq<u8>, a: SpecToken, b: SpecToken) -> bool {
    &&& a.kind != TokenKind::Eof
    &&& a.start < a.end
    &&& b == scan_token(s, a.end)
    &&& b.start == skip(s, a.end)
}

/// Scanning terminates: the token stream from any position is finite, ends with its only
/// `Eof`, and consecutive lexemes are separated by nothing but blanks and comments, so every
/// other byte lies in exactly one lexeme.
pub proof fn lemma_scan_total(s: Seq<u8>, pos: int)
    requires
        0 <= pos <= s.len(),
    ensures
        ({
            let ts = scan_all(s, pos);
            &&& ts.len() >= 1
            &&& ts[0] == scan_token(s, pos)
            &&& ts.last().kind == TokenKind::Eof
            &&& ts.last().start == s.len()
            &&& forall|k: int| 0 <= k < ts.len() - 1 ==> #[trigger] follows(s, ts[k], ts[k + 1])
        }),
    decreases s.len() - pos,
{
    lemma_scan_progress(s, pos);
    let t = scan_token(s, pos);
    if t.kind != TokenKind::Eof {
        lemma_scan_total(s, t.end);
        lemma_scan_progress(s, t.end);
        let rest = scan_all(s, t.end);
        let ts = scan_all(s, pos);
        assert(ts == seq![t] + rest);
        assert(ts.len() == rest.len() + 1);
        assert forall|k: int| 0 <= k < ts.len() - 1 implies #[trigger] follows(s, ts[k], ts[k + 1]) by {
            assert(ts[k + 1] == rest[k]);
            if k > 0 {
                let j = k - 1;
                assert(ts[k] == rest[j]);
                assert(follows(s, rest[j], rest[j + 1]));
            }
        }
        assert(ts.last() == rest.last());
    }
}

/// Two-byte operators win over their one-byte prefix: `!=`, `==`, `<=`, `>=` scan as one
/// token.
pub proof fn lemma_two_char_priority(s: Seq<u8>, pos: int)
    requires
        0 <= pos <= s.len(),
        skip(s, pos) < s.len(),
        pair_kinds(s[skip(s, pos)]) is Some,
        byte_at(s, skip(s, pos) + 1) == EQUAL,
    ensures
        scan_token(s, pos).kind == pair_kinds(s[skip(s, pos)])->Some_0.1,
        scan_token(s, pos).end == skip(s, pos) + 2,
{
    reveal(scan_token);
}

proof fn lemma_ident_end_all(s: Seq<u8>, i: int)
    requires
        0 <= i <= s.len(),
        forall|k: int| i <= k < s.len() ==> #[trigger] spec_is_alpha(s[k]),
    ensures
        ident_end(s, i) == s.len(),
    decreases s.len() - i,
{
    if i < s.len() {
        lemma_ident_end_all(s, i + 1);
    }
}

/// A reserved word scans as its keyword, and the word followed by `_` as an identifier.
pub proof fn lemma_keyword_exclusive(w: Seq<u8>)
    requires
        keyword(w) is Some,
    ensures
        scan_token(w, 0).kind == keyword(w)->Some_0,
        scan_token(w.push(UNDERSCORE), 0).kind == TokenKind::Identifier,
{
    reveal(scan_token);
    assert(forall|k: int| 0 <= k < w.len() ==> #[trigger] spec_is_alpha(w[k]) && (97 <= w[k] <= 122));
    assert(w.len() >= 2);
    let v = w.push(UNDERSCORE);
    assert(forall|k: int| 0 <= k < v.len() ==> #[trigger] spec_is_alpha(v[k]));
    lemma_ident_end_all(w, 0);
    lemma_ident_end_all(v, 0);
    assert(w.subrange(0, w.len() as int) =~= w);
    assert(v.subrange(0, v.len() as int) =~= v);
    assert(keyword(v) is None);
}

/// Lines never decrease along the source.
pub proof fn lemma_loc_line_monotone(s: Seq<u8>, i: int, j: int)
    requires
        0 <= i <= j,
    ensures
        loc_at(s, i).line <= loc_at(s, j).line,
    decreases j - i,
{
    if i < j {
        lemma_loc_line_monotone(s, i, j - 1);
    }
}

/// A lazy token stream over source bytes.
pub struct Scanner {
    code: Vec<u8>,
    start: Location,
    current: Location,
}

impl Scanner {
    pub closed spec fn source(&self) -> Seq<u8> {
        self.code@
    }

    /// The offset where the next call starts scanning.
    pub closed spec fn position(&self) -> int {
        self.current.offset as int
    }

    pub closed spec fn wf(&self) -> bool {
        &&& self.current.offset <= self.code.len()
        &&& self.current == loc_at(self.code@, self.current.offset as int)
    }

    pub proof fn lemma_position_in_range(&self)
        requires
            self.wf(),
        ensures
            0 <= self.position() <= self.source().len(),
    {
    }

    pub fn new(code: &str) -> (r: Scanner)
        ensures
            r.wf(),
            r.source() == code.spec_bytes(),
            r.position() == 0,
            r.source().len() <= usize::MAX,
    {
        let bytes = code.as_bytes();
        let code = copy_range(bytes, 0, bytes.len());
        assert(code@ =~= bytes@);
        let start = Location { offset: 0, line: 0, column: 0 };
        Scanner { code, start, current: start }
    }

    /// The bytes of a token's lexeme.
    pub fn lexeme(&self, t: &Token) -> (r: Vec<u8>)
        requires
            self.wf(),
            t.start_loc.offset <= t.end_loc.offset <= self.source().len(),
        ensures
            r@ == t.lexeme_of(self.source()),
    {
        t.lexeme(self.code.as_slice())
    }

    /// A copy of the source bytes from `from` up to `to`.
    pub fn bytes_between(&self, from: usize, to: usize) -> (r: Vec<u8>)
        requires
            from <= to <= self.source().len(),
        ensures
            r@ == self.source().subrange(from as int, to as int),
    {
        copy_range(self.code.as_slice(), from, to)
    }

    /// Scans every remaining token, up to but not including the first `Eof`.
    pub fn scan_tokens(&mut self) -> (r: Vec<Token>)
        requires
            old(self).wf(),
        ensures
            final(self).wf(),
            final(self).source() == old(self).source(),
            final(self).position() == old(self).source().len(),
            ({
                let ts = scan_all(old(self).source(), old(self).position());
                &&& r.len() == ts.len() - 1
                &&& forall|k: int|
                    0 <= k < r.len() ==> {
                        &&& (#[trigger] r@[k]).kind == ts[k].kind
                        &&& r@[k].start_loc.offset == ts[k].start
                        &&& r@[k].end_loc.offset == ts[k].end
                    }
            }),
    {
        let ghost s = self.source();
        let ghost first_pos = self.position();
        proof {
            self.lemma_position_in_range();
            lemma_scan_total(s, first_pos);
        }
        let mut out: Vec<Token> = Vec::new();
        loop
            invariant
                self.wf(),
                self.source() == s,
                s == old(self).source(),
                first_pos == old(self).position(),
                0 <= first_pos <= s.len(),
                0 <= self.position() <= s.len(),
                out.len() < scan_all(s, first_pos).len(),
                scan_all(s, first_pos)[out.len() as int] == scan_token(s, self.position()),
                scan_all(s, first_pos).last().kind == TokenKind::Eof,
                forall|k: int| 0 <= k < scan_all(s, first_pos).len() - 1 ==> #[trigger] follows(s, scan_all(s, first_pos)[k], scan_all(s, first_pos)[k + 1]),
                forall|k: int|
                    0 <= k < out.len() ==> {
                        &&& (#[trigger] out@[k]).kind == scan_all(s, first_pos)[k].kind
                        &&& out@[k].start_loc.offset == scan_all(s, first_pos)[k].start
                        &&& out@[k].end_loc.offset == scan_all(s, first_pos)[k].end
                    },
            decreases s.len() - self.position(), (scan_all(s, first_pos).len() - out.len()),
        {
            let ghost pos = self.position();
            let ghost ts = scan_all(s, first_pos);
            let ghost k = out.len() as int;
            proof {
                lemma_scan_progress(s, pos);
            }
            let t = self.next_token();
            if t.kind == TokenKind::Eof {
                proof {
                    reveal(scan_token);
                    if k < ts.len() - 1 {
                        assert(follows(s, ts[k], ts[k + 1]));
                    }
                }
                return out;
            }
            proof {
                if k == ts.len() - 1 {
                    assert(ts[k] == ts.last());
                }
                assert(follows(s, ts[k], ts[k + 1]));
            }
            out.push(t);
            proof {
                assert(out@[k] == t);
            }
        }
    }

    fn is_at_end(&self) -> (r: bool)
        requires
            self.wf(),
        ensures
            r == (self.current.offset >= self.code.len()),
    {
        self.current.offset >= self.code.len()
    }

    fn peek_far(&self, dist: usize) -> (r: u8)
        requires
            self.wf(),
            dist <= 1,
        ensures
            r == byte_at(self.code@, self.current.offset + dist),
    {
        let n = self.code.len();
        if self.current.offset >= n || n - self.current.offset <= dist {
            0
        } else {
            self.code[self.current.offset + dist]
        }
    }

    fn peek(&self) -> (r: u8)
        requires
            self.wf(),
        ensures
            r == byte_at(self.code@, self.current.offset as int),
    {
        self.peek_far(0)
    }

    fn peek_next(&self) -> (r: u8)
        requires
            self.wf(),
        ensures
            r == byte_at(self.code@, self.current.offset + 1),
    {
        self.peek_far(1)
    }

    fn advance(&mut self) -> (c: u8)
        requires
            old(self).wf(),
            old(self).current.offset < old(self).code.len(),
        ensures
            final(self).wf(),
            final(self).code == old(self).code,
            final(self).start == old(self).start,
            final(self).current.offset == old(self).current.offset + 1,
            c == old(self).code@[old(self).current.offset as int],
    {
        let c = self.code[self.current.offset];
        proof {
            lemma_loc_offset(self.code@, self.current.offset + 1);
        }
        self.current.advance(c);
        c
    }

    fn skip_non_tokens(&mut self)
        requires
            old(self).wf(),
        ensures
            final(self).wf(),
            final(self).code == old(self).code,
            final(self).start == old(self).start,
            final(self).current.offset == skip(old(self).code@, old(self).current.offset as int),
    {
        let mut in_comment = false;
        while !self.is_at_end()
            invariant
                self.wf(),
                self.code == old(self).code,
                self.start == old(self).start,
                old(self).current.offset <= self.current.offset,
                skip_from(self.code@, self.current.offset as int, in_comment) == skip(
                    old(self).code@,
                    old(self).current.offset as int,
                ),
            decreases self.code.len() - self.current.offset,
        {
            let c = self.peek();
            if in_comment {
                self.advance();
                in_comment = c != LF;
            } else if c == SPACE || c == CR || c == TAB || c == LF {
                self.advance();
            } else if c == SLASH && self.peek_next() == SLASH {
                self.advance();
                self.advance();
                in_comment = true;
            } else {
                return;
            }
        }
    }

    fn make_token(&self, kind: TokenKind) -> (t: Token)
        ensures
            t.kind == kind,
            t.start_loc == self.start,
            t.end_loc == self.current,
    {
        Token::new(kind, self.start, self.current)
    }

    fn string(&mut self) -> (t: Token)
        requires
            old(self).wf(),
            old(self).current.offset < old(self).code.len(),
            old(self).code@[old(self).current.offset as int] == QUOTE,
        ensures
            final(self).wf(),
            final(self).code == old(self).code,
            final(self).start == old(self).start,
            ({
                let s = old(self).code@;
                let q = quote_from(s, old(self).current.offset + 1);
                if q >= s.len() {
                    &&& t.kind == TokenKind::Error(TokenErrorKind::UnterminatedString)
                    &&& final(self).current.offset == s.len()
                } else {
                    &&& t.kind == TokenKind::String
                    &&& final(self).current.offset == q + 1
                }
            }),
            t.start_loc == final(self).start,
            t.end_loc == final(self).current,
    {
        self.advance();
        while !self.is_at_end() && self.peek() != QUOTE
            invariant
                self.wf(),
                self.code == old(self).code,
                self.start == old(self).start,
                old(self).current.offset < self.current.offset,
                quote_from(self.code@, self.current.offset as int) == quote_from(
                    self.code@,
                    old(self).current.offset + 1,
                ),
            decreases self.code.len() - self.current.offset,
        {
            self.advance();
        }
        if self.is_at_end() {
            self.make_token(TokenKind::Error(TokenErrorKind::UnterminatedString))
        } else {
            self.advance();
            self.make_token(TokenKind::String)
        }
    }

    /// Advances over a run of digits.
    fn digits(&mut self)
        requires
            old(self).wf(),
        ensures
            final(self).wf(),
            final(self).code == old(self).code,
            final(self).start == old(self).start,
            final(self).current.offset == digits_end(old(self).code@, old(self).current.offset as int),
    {
        while is_digit(self.peek())
            invariant
                self.wf(),
                self.code == old(self).code,
                self.start == old(self).start,
                digits_end(self.code@, self.current.offset as int) == digits_end(
                    self.code@,
                    old(self).current.offset as int,
                ),
            decreases self.code.len() - self.current.offset,
        {
            self.advance();
        }
    }

    fn number(&mut self) -> (t: Token)
        requires
            old(self).wf(),
            old(self).current.offset < old(self).code.len(),
            spec_is_digit(old(self).code@[old(self).current.offset as int]),
        ensures
            final(self).wf(),
            final(self).code == old(self).code,
            final(self).start == old(self).start,
            final(self).current.offset == number_end(old(self).code@, old(self).current.offset as int),
            t.kind == TokenKind::Number,
            t.start_loc == final(self).start,
            t.end_loc == final(self).current,
    {
        self.digits();
        if self.peek() == DOT && is_digit(self.peek_next()) {
            self.advance();
            self.digits();
        }
        self.make_token(TokenKind::Number)
    }

    fn identifier(&mut self) -> (t: Token)
        requires
            old(self).wf(),
            old(self).current.offset < old(self).code.len(),
            old(self).start.offset == old(self).current.offset,
            spec_is_alpha(old(self).code@[old(self).current.offset as int]),
        ensures
            final(self).wf(),
            final(self).code == old(self).code,
            final(self).start == old(self).start,
            final(self).current.offset == ident_end(old(self).code@, old(self).current.offset as int),
            t.kind == word_kind(
                old(self).code@.subrange(
                    old(self).current.offset as int,
                    ident_end(old(self).code@, old(self).current.offset as int),
                ),
            ),
            t.start_loc == final(self).start,
            t.end_loc == final(self).current,
    {
        while is_alpha(self.peek()) || is_digit(self.peek())
            invariant
                self.wf(),
                self.code == old(self).code,
                self.start == old(self).start,
                old(self).current.offset <= self.current.offset,
                ident_end(self.code@, self.current.offset as int) == ident_end(
                    self.code@,
                    old(self).current.offset as int,
                ),
            decreases self.code.len() - self.current.offset,
        {
            self.advance();
        }
        let lexeme = copy_range(self.code.as_slice(), self.start.offset, self.current.offset);
        match reserved_token(lexeme.as_slice()) {
            Some(kind) => self.make_token(kind),
            None => self.make_token(TokenKind::Identifier),
        }
    }

    /// Scans the next token. Once the source is exhausted it yields `Eof` on every call.
    pub fn next_token(&mut self) -> (t: Token)
        requires
            old(self).wf(),
        ensures
            final(self).wf(),
            final(self).source() == old(self).source(),
            ({
                let st = scan_token(old(self).source(), old(self).position());
                &&& t.kind == st.kind
                &&& t.start_loc == loc_at(old(self).source(), st.start)
                &&& t.end_loc == loc_at(old(self).source(), st.end)
                &&& t.start_loc.offset == st.start
                &&& t.end_loc.offset == st.end
                &&& final(self).position() == st.end
            }),
    {
        proof {
            reveal(scan_token);
        }
        self.skip_non_tokens();
        self.start = self.current;
        if self.is_at_end() {
            return self.make_token(TokenKind::Eof);
        }
        let c = self.peek();
        if let Some(kind) = single_char_kind_of(c) {
            self.advance();
            return self.make_token(kind);
        }
        if let Some((one, two)) = pair_kinds_of(c) {
            if self.peek_next() == EQUAL {
                self.advance();
                self.advance();
                return self.make_token(two);
            }
            self.advance();
            return self.make_token(one);
        }
        if c == QUOTE {
            return self.string();
        }
        if is_digit(c) {
            return self.number();
        }
        if is_alpha(c) {
            return self.identifier();
        }
        // A run of bytes that start no lexeme becomes one error token.
        let ghost start = self.start;
        self.advance();
        while !self.is_at_end() && !starts_lexeme_of(self.peek())
            invariant
                self.wf(),
                self.code == old(self).code,
                self.start == start,
                self.start.offset < self.current.offset,
                invalid_end(self.code@, self.current.offset as int) == invalid_end(
                    self.code@,
                    self.start.offset + 1,
                ),
            decreases self.code.len() - self.current.offset,
        {
            self.advance();
        }
        assert(invalid_end(self.code@, self.current.offset as int) == self.current.offset);
        self.make_token(TokenKind::Error(TokenErrorKind::InvalidLexeme))
    }
}

pub fn is_digit(c: u8) -> (r: bool)
    ensures
        r == spec_is_digit(c),
{
    48 <= c && c <= 57
}

pub fn is_alpha(c: u8) -> (r: bool)
    ensures
        r == spec_is_alpha(c),
{
    (65 <= c && c <= 90) || (97 <= c && c <= 122) || c == UNDERSCORE
}

fn single_char_kind_of(c: u8) -> (r: Option<TokenKind>)
    ensures
        r == single_char_kind(c),
{
    if c == LEFT_PAREN {
        Some(TokenKind::LeftParen)
    } else if c == RIGHT_PAREN {
        Some(TokenKind::RightParen)
    } else if c == LEFT_BRACE {
        Some(TokenKind::LeftBrace)
    } else if c == RIGHT_BRACE {
        Some(TokenKind::RightBrace)
    } else if c == SEMICOLON {
        Some(TokenKind::Semicolon)
    } else if c == COMMA {
        Some(TokenKind::Comma)
    } else if c == DOT {
        Some(TokenKind::Dot)
    } else if c == MINUS {
        Some(TokenKind::Minus)
    } else if c == PLUS {
        Some(TokenKind::Plus)
    } else if c == SLASH {
        Some(TokenKind::Slash)
    } else if c == STAR {
        Some(TokenKind::Star)
    } else {
        None
    }
}

fn pair_kinds_of(c: u8) -> (r: Option<(TokenKind, TokenKind)>)
    ensures
        r == pair_kinds(c),
{
    if c == BANG {
        Some((TokenKind::Bang, TokenKind::BangEqual))
    } else if c == EQUAL {
        Some((TokenKind::Equal, TokenKind::EqualEqual))
    } else if c == LESS {
        Some((TokenKind::Less, TokenKind::LessEqual))
    } else if c == GREATER {
        Some((TokenKind::Greater, TokenKind::GreaterEqual))
    } else {
        None
    }
}

fn starts_lexeme_of(c: u8) -> (r: bool)
    ensures
        r == starts_lexeme(c),
{
    single_char_kind_of(c).is_some() || pair_kinds_of(c).is_some() || c == QUOTE || is_digit(c)
        || is_alpha(c)
}

/// The keyword kind of a reserved word, `None` for any other lexeme.
pub fn reserved_token(lexeme: &[u8]) -> (r: Option<TokenKind>)
    ensures
        r == keyword(lexeme@),
{
    let n = lexeme.len();
    if n == 3 && lexeme[0] == 97 && lexeme[1] == 110 && lexeme[2] == 100 {
        proof {
            assert(lexeme@ =~= seq![97u8, 110, 100]);
        }
        return Some(TokenKind::And);
    }
    if n == 5 && lexeme[0] == 99 && lexeme[1] == 108 && lexeme[2] == 97 && lexeme[3] == 115 && lexeme[4] == 115 {
        proof {
            assert(lexeme@ =~= seq![99u8, 108, 97, 115, 115]);
        }
        return Some(TokenKind::Class);
    }
    if n == 4 && lexeme[0] == 101 && lexeme[1] == 108 && lexeme[2] == 115 && lexeme[3] == 101 {
        proof {
            assert(lexeme@ =~= seq![101u8, 108, 115, 101]);
        }
        return Some(TokenKind::Else);
    }
    if n == 5 && lexeme[0] == 102 && lexeme[1] == 97 && lexeme[2] == 108 && lexeme[3] == 115 && lexeme[4] == 101 {
        proof {
            assert(lexeme@ =~= seq![102u8, 97, 108, 115, 101]);
        }
        return Some(TokenKind::False);
    }
    if n == 3 && lexeme[0] == 102 && lexeme[1] == 111 && lexeme[2] == 114 {
        proof {
            assert(lexeme@ =~= seq![102u8, 111, 114]);
        }
        return Some(TokenKind::For);
    }
    if n == 3 && lexeme[0] == 102 && lexeme[1] == 117 && lexeme[2] == 110 {
        proof {
            assert(lexeme@ =~= seq![102u8, 117, 110]);
        }
        return Some(TokenKind::Fun);
    }
    if n == 2 && lexeme[0] == 105 && lexeme[1] == 102 {
        proof {
            assert(lexeme@ =~= seq![105u8, 102]);
        }
        return Some(TokenKind::If);
    }
    if n == 3 && lexeme[0] == 110 && lexeme[1] == 105 && lexeme[2] == 108 {
        proof {
            assert(lexeme@ =~= seq![110u8, 105, 108]);
        }
        return Some(TokenKind::Nil);
    }
    if n == 2 && lexeme[0] == 111 && lexeme[1] == 114 {
        proof {
            assert(lexeme@ =~= seq![111u8, 114]);
        }
        return Some(TokenKind::Or);
    }
    if n == 5 && lexeme[0] == 112 && lexeme[1] == 114 && lexeme[2] == 105 && lexeme[3] == 110 && lexeme[4] == 116 {
        proof {
            assert(lexeme@ =~= seq![112u8, 114, 105, 110, 116]);
        }
        return Some(TokenKind::Print);
    }
    if n == 6 && lexeme[0] == 114 && lexeme[1] == 101 && lexeme[2] == 116 && lexeme[3] == 117 && lexeme[4] == 114 && lexeme[5] == 110 {
        proof {
            assert(lexeme@ =~= seq![114u8, 101, 116, 117, 114, 110]);
        }
        return Some(TokenKind::Return);
    }
    if n == 5 && lexeme[0] == 115 && lexeme[1] == 117 && lexeme[2] == 112 && lexeme[3] == 101 && lexeme[4] == 114 {
        proof {
            assert(lexeme@ =~= seq![115u8, 117, 112, 101, 114]);
        }
        return Some(TokenKind::Super);
    }
    if n == 4 && lexeme[0] == 116 && lexeme[1] == 104 && lexeme[2] == 105 && lexeme[3] == 115 {
        proof {
            assert(lexeme@ =~= seq![116u8, 104, 105, 115]);
        }
        return Some(TokenKind::This);
    }
    if n == 4 && lexeme[0] == 116 && lexeme[1] == 114 && lexeme[2] == 117 && lexeme[3] == 101 {
        proof {
            assert(lexeme@ =~= seq![116u8, 114, 117, 101]);
        }
        return Some(TokenKind::True);
    }
    if n == 3 && lexeme[0] == 118 && lexeme[1] == 97 && lexeme[2] == 114 {
        proof {
            assert(lexeme@ =~= seq![118u8, 97, 114]);
        }
        return Some(TokenKind::Var);
    }
    if n == 5 && lexeme[0] == 119 && lexeme[1] == 104 && lexeme[2] == 105 && lexeme[3] == 108 && lexeme[4] == 101 {
        proof {
            assert(lexeme@ =~= seq![119u8, 104, 105, 108, 101]);
        }
        return Some(TokenKind::While);
    }    None
}

} // verus!
