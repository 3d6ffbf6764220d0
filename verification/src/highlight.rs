//! Claimr's token vocabulary, for editors.
//!
//! An error-tolerant, line-based lexer over the grammar's terminals.
//! Line-based and stateless on purpose: an editor's buffer is mid-edit most
//! of the time — a full parse fails there; lexing never does. Ranges are
//! byte ranges within the line. The parser proper stays the source of truth
//! for meaning; this module only names what each span is.

use vstd::prelude::*;
use std::ops::Range;
use vstd::string::StringSliceAdditionalSpecFns;

verus! {

/// What a span is, in Claimr's own vocabulary.
#[derive(Clone, Copy, Debug, PartialEq, Eq, Structural)]
pub enum TokenKind {
    /// `% …` to end of line.
    Comment,
    /// Uppercase-initial: a logic variable (`X`, `Total`).
    Variable,
    /// Lowercase-initial identifier applied to arguments: `parent(…)`.
    Predicate,
    /// Any other lowercase-initial identifier (an atom).
    Ident,
    /// Exact-rational literal (`42`, `18.5`).
    Number,
    /// `:-  ?-  =>  !=  <=  >=  =  <  >  +  -  *  /`.
    Operator,
    /// `. , ( ) { }`.
    Punctuation,
}

#[derive(Debug)]
pub struct Token {
    pub range: Range<usize>,
    pub kind: TokenKind,
}

pub open spec fn is_alpha(b: u8) -> bool {
    (65 <= b && b <= 90) || (97 <= b && b <= 122)
}

pub open spec fn is_upper_byte(b: u8) -> bool {
    65 <= b && b <= 90
}

pub open spec fn is_digit_byte(b: u8) -> bool {
    48 <= b && b <= 57
}

/// A byte that continues an identifier: a letter, a digit or `_`.
pub open spec fn is_word_byte(b: u8) -> bool {
    is_alpha(b) || is_digit_byte(b) || b == 95
}

pub open spec fn is_punct_byte(b: u8) -> bool {
    b == 46 || b == 44 || b == 40 || b == 41 || b == 123 || b == 125
}

/// The end of the run of identifier bytes from `j`.
pub open spec fn word_end(bytes: Seq<u8>, j: int) -> int
    decreases bytes.len() - j,
{
    if 0 <= j < bytes.len() && is_word_byte(bytes[j]) {
        word_end(bytes, j + 1)
    } else {
        j
    }
}

/// The end of the run of digits from `j`.
pub open spec fn digits_end(bytes: Seq<u8>, j: int) -> int
    decreases bytes.len() - j,
{
    if 0 <= j < bytes.len() && is_digit_byte(bytes[j]) {
        digits_end(bytes, j + 1)
    } else {
        j
    }
}

/// The end of the run of spaces and tabs from `j`.
pub open spec fn blank_end(bytes: Seq<u8>, j: int) -> int
    decreases bytes.len() - j,
{
    if 0 <= j < bytes.len() && (bytes[j] == 32 || bytes[j] == 9) {
        blank_end(bytes, j + 1)
    } else {
        j
    }
}

/// The end of the number literal starting at `s`: digits, then a `.` and
/// digits when a digit follows the `.`.
pub open spec fn number_end(bytes: Seq<u8>, s: int) -> int {
    let d = digits_end(bytes, s);
    if d + 1 < bytes.len() && bytes[d] == 46 && is_digit_byte(bytes[d + 1]) {
        digits_end(bytes, d + 1)
    } else {
        d
    }
}

/// The length of the operator at `i` (`:-  ?-  =>  !=  <=  >=` before
/// `=  <  >  +  -  *  /`), 0 if there is none.
pub open spec fn op_len(bytes: Seq<u8>, i: int) -> int {
    let c = bytes[i];
    let two = i + 1 < bytes.len();
    let next = bytes[i + 1];
    if two && ((c == 58 && next == 45) || (c == 63 && next == 45) || (c == 61 && next == 62)
        || (c == 33 && next == 61) || (c == 60 && next == 61) || (c == 62 && next == 61)) {
        2
    } else if c == 61 || c == 60 || c == 62 || c == 43 || c == 45 || c == 42 || c == 47 {
        1
    } else {
        0
    }
}

/// A token starts at `i`.
pub open spec fn starts_token(bytes: Seq<u8>, i: int) -> bool {
    let c = bytes[i];
    c == 37 || is_alpha(c) || is_digit_byte(c) || op_len(bytes, i) > 0 || is_punct_byte(c)
}

/// The kind of an identifier starting at `s` and ending at `e`: a variable
/// when uppercase-initial, a predicate when `(` follows (after blanks).
pub open spec fn word_kind(bytes: Seq<u8>, s: int, e: int) -> TokenKind {
    if is_upper_byte(bytes[s]) {
        TokenKind::Variable
    } else {
        let k = blank_end(bytes, e);
        if k < bytes.len() && bytes[k] == 40 {
            TokenKind::Predicate
        } else {
            TokenKind::Ident
        }
    }
}

/// The token starting at `s` (where a token starts): where it ends, and
/// its kind. A comment runs to the end of the line; identifiers and
/// numbers are as long as they can be; operators are the longest that
/// match.
pub open spec fn lexeme(bytes: Seq<u8>, s: int) -> (int, TokenKind) {
    let c = bytes[s];
    if c == 37 {
        (bytes.len() as int, TokenKind::Comment)
    } else if is_alpha(c) {
        let e = word_end(bytes, s + 1);
        (e, word_kind(bytes, s, e))
    } else if is_digit_byte(c) {
        (number_end(bytes, s), TokenKind::Number)
    } else if op_len(bytes, s) > 0 {
        (s + op_len(bytes, s), TokenKind::Operator)
    } else {
        (s + 1, TokenKind::Punctuation)
    }
}

/// A token of a line: a token starts where it starts, and it is the
/// lexeme there.
pub open spec fn token_fits(bytes: Seq<u8>, t: Token) -> bool {
    &&& t.range.start < bytes.len()
    &&& starts_token(bytes, t.range.start as int)
    &&& lexeme(bytes, t.range.start as int) == (t.range.end as int, t.kind)
}

/// Position `p` lies inside one of the tokens.
pub open spec fn covered(toks: Seq<Token>, p: int) -> bool {
    exists|k: int| 0 <= k < toks.len() && (#[trigger] toks[k]).range.start <= p < toks[k].range.end
}

/// Every byte is ASCII.
pub open spec fn all_ascii(bytes: Seq<u8>) -> bool {
    forall|p: int| 0 <= p < bytes.len() ==> #[trigger] bytes[p] < 128
}

/// Tokens of a line, in order and apart, the comment (if any) last.
pub open spec fn tokens_ok(bytes: Seq<u8>, toks: Seq<Token>) -> bool {
    &&& forall|k: int| 0 <= k < toks.len() ==> token_fits(bytes, #[trigger] toks[k])
    &&& forall|i: int, j: int| 0 <= i < j < toks.len() ==> (#[trigger] toks[i]).range.end <= (#[trigger] toks[j]).range.start
    &&& forall|k: int| 0 <= k < toks.len() - 1 ==> (#[trigger] toks[k]).kind != TokenKind::Comment
}

/// On an ASCII line, no token starts before `upto` outside the tokens.
pub open spec fn gaps_ok(bytes: Seq<u8>, toks: Seq<Token>, upto: int) -> bool {
    all_ascii(bytes) ==> forall|p: int| 0 <= p < upto && p < bytes.len() && !covered(toks, p) ==> !#[trigger] starts_token(bytes, p)
}

/// The tokens of a line: each the lexeme where it starts, in order and
/// apart, the comment (if any) last; on an ASCII line, no token starts in
/// the bytes between them.
pub open spec fn tokens_fit(bytes: Seq<u8>, toks: Seq<Token>) -> bool {
    &&& tokens_ok(bytes, toks)
    &&& gaps_ok(bytes, toks, bytes.len() as int)
}

fn alpha(b: u8) -> (r: bool)
    ensures
        r == is_alpha(b),
{
    (65 <= b && b <= 90) || (97 <= b && b <= 122)
}

fn alnum_or_underscore(b: u8) -> (r: bool)
    ensures
        r == is_word_byte(b),
{
    (65 <= b && b <= 90) || (97 <= b && b <= 122) || (48 <= b && b <= 57) || b == 95
}

fn digit(b: u8) -> (r: bool)
    ensures
        r == is_digit_byte(b),
{
    48 <= b && b <= 57
}

/// The operator at `i`, longest first (the grammar's exact set): its length.
fn operator_len(b: &[u8], i: usize) -> (n: usize)
    requires
        i < b@.len(),
    ensures
        n == op_len(b@, i as int),
        n <= 2,
        i + n <= b@.len(),
{
    let c = b[i];
    let next: u8 = if i + 1 < b.len() { b[i + 1] } else { 0 };
    let two = i + 1 < b.len();
    // `:-` `?-` `=>` `!=` `<=` `>=`
    if two && ((c == 58 && next == 45) || (c == 63 && next == 45) || (c == 61 && next == 62)
        || (c == 33 && next == 61) || (c == 60 && next == 61) || (c == 62 && next == 61)) {
        2
    } else if c == 61 || c == 60 || c == 62 || c == 43 || c == 45 || c == 42 || c == 47 {
        // `=` `<` `>` `+` `-` `*` `/`
        1
    } else {
        0
    }
}

/// The byte length of the UTF-8 character whose first byte is `b`.
fn char_len(b: u8) -> (n: usize)
    ensures
        1 <= n <= 4,
        n == (if b < 0x80 { 1usize } else if b < 0xE0 { 2usize } else if b < 0xF0 { 3usize } else { 4usize }),
{
    if b < 0x80 {
        1
    } else if b < 0xE0 {
        2
    } else if b < 0xF0 {
        3
    } else {
        4
    }
}

fn push_token(out: &mut Vec<Token>, start: usize, end: usize, kind: TokenKind, ghost_bytes: Ghost<Seq<u8>>)
    requires
        tokens_ok(ghost_bytes@, old(out)@),
        gaps_ok(ghost_bytes@, old(out)@, start as int),
        start < end <= ghost_bytes@.len(),
        token_fits(ghost_bytes@, Token { range: start..end, kind }),
        forall|k: int| 0 <= k < old(out)@.len() ==> (#[trigger] old(out)@[k]).range.end <= start
            && old(out)@[k].kind != TokenKind::Comment,
    ensures
        final(out)@.len() == old(out)@.len() + 1,
        final(out)@.last().range.end == end,
        final(out)@.last().kind == kind,
        forall|k: int| 0 <= k < old(out)@.len() ==> #[trigger] final(out)@[k] == old(out)@[k],
        tokens_ok(ghost_bytes@, final(out)@),
        gaps_ok(ghost_bytes@, final(out)@, end as int),
{
    let ghost before = out@;
    out.push(Token { range: start..end, kind });
    proof {
        let bytes = ghost_bytes@;
        let after = out@;
        let last = after.len() - 1;
        assert(after[last] == Token { range: start..end, kind });
        assert forall|i: int, j: int| 0 <= i < j < after.len() implies (#[trigger] after[i]).range.end <= (#[trigger] after[j]).range.start by {
            if j == after.len() - 1 {
                assert(after[i] == before[i]);
            } else {
                assert(after[i] == before[i]);
                assert(after[j] == before[j]);
            }
        }
        assert forall|k: int| 0 <= k < after.len() implies token_fits(bytes, #[trigger] after[k]) by {
            if k < before.len() {
                assert(after[k] == before[k]);
            }
        }
        assert forall|k: int| 0 <= k < after.len() - 1 implies (#[trigger] after[k]).kind != TokenKind::Comment by {
            assert(after[k] == before[k]);
        }
        if all_ascii(bytes) {
            assert forall|p: int| 0 <= p < end && p < bytes.len() && !covered(after, p) implies !#[trigger] starts_token(bytes, p) by {
                if p >= start {
                    assert(after[last].range.start <= p < after[last].range.end);
                    assert(covered(after, p));
                } else if covered(before, p) {
                    let k = choose|k: int| 0 <= k < before.len() && (#[trigger] before[k]).range.start <= p < before[k].range.end;
                    assert(after[k] == before[k]);
                    assert(covered(after, p));
                }
            }
        }
    }
}

/// Tokenize one line. Unrecognised bytes are skipped, never an error.
pub fn line_tokens(line: &str) -> (toks: Vec<Token>)
    ensures
        tokens_fit(line.spec_bytes(), toks@),
{
    let b = line.as_bytes();
    let ghost bytes = b@;
    let mut out: Vec<Token> = Vec::new();
    let mut i: usize = 0;
    while i < b.len()
        invariant
            b@ == bytes,
            bytes == line.spec_bytes(),
            i <= b@.len(),
            tokens_ok(bytes, out@),
            gaps_ok(bytes, out@, i as int),
            forall|k: int| 0 <= k < out@.len() ==> (#[trigger] out@[k]).range.end <= i && out@[k].kind != TokenKind::Comment,
        decreases b@.len() - i,
    {
        let c = b[i];
        // Comment: to end of line.
        if c == 37 {
            push_token(&mut out, i, b.len(), TokenKind::Comment, Ghost(bytes));
            return out;
        }
        // Identifiers and variables.
        if alpha(c) {
            let start = i;
            i = i + 1;
            while i < b.len() && alnum_or_underscore(b[i])
                invariant
                    b@ == bytes,
                    start < i <= b@.len(),
                    word_end(bytes, start + 1) == word_end(bytes, i as int),
                decreases b@.len() - i,
            {
                i = i + 1;
            }
            let kind = if 65 <= c && c <= 90 {
                TokenKind::Variable
            } else {
                // A predicate when applied: `name(` (whitespace allowed).
                let mut j = i;
                while j < b.len() && (b[j] == 32 || b[j] == 9)
                    invariant
                        b@ == bytes,
                        i <= j <= b@.len(),
                        blank_end(bytes, i as int) == blank_end(bytes, j as int),
                    decreases b@.len() - j,
                {
                    j = j + 1;
                }
                if j < b.len() && b[j] == 40 {
                    TokenKind::Predicate
                } else {
                    TokenKind::Ident
                }
            };
            push_token(&mut out, start, i, kind, Ghost(bytes));
            continue;
        }
        // Numbers (exact rationals).
        if digit(c) {
            let start = i;
            i = i + 1;
            while i < b.len() && digit(b[i])
                invariant
                    b@ == bytes,
                    start < i <= b@.len(),
                    digits_end(bytes, start as int) == digits_end(bytes, i as int),
                decreases b@.len() - i,
            {
                i = i + 1;
            }
            if i < b.len() && b.len() - i > 1 && b[i] == 46 && digit(b[i + 1]) {
                let dot = i;
                i = i + 1;
                while i < b.len() && digit(b[i])
                    invariant
                        b@ == bytes,
                        dot < i <= b@.len(),
                        digits_end(bytes, dot + 1) == digits_end(bytes, i as int),
                    decreases b@.len() - i,
                {
                    i = i + 1;
                }
            }
            push_token(&mut out, start, i, TokenKind::Number, Ghost(bytes));
            continue;
        }
        let n = operator_len(b, i);
        if n > 0 {
            push_token(&mut out, i, i + n, TokenKind::Operator, Ghost(bytes));
            i = i + n;
            continue;
        }
        if c == 46 || c == 44 || c == 40 || c == 41 || c == 123 || c == 125 {
            push_token(&mut out, i, i + 1, TokenKind::Punctuation, Ghost(bytes));
            i = i + 1;
            continue;
        }
        // Whitespace or anything the grammar doesn't know: skip a character.
        proof {
            assert(!starts_token(bytes, i as int));
        }
        let step = char_len(c);
        proof {
            if c < 128 {
                assert(step == 1);
            }
        }
        if step <= b.len() - i {
            i = i + step;
        } else {
            i = b.len();
        }
    }
    out
}

} // verus!
