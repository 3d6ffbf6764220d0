//! The Claimr reader: a lexer over the source characters and a
//! recursive-descent parser producing the abstract syntax tree.
//!
//! Syntax errors carry the 1-based line and column (and the character
//! offset) of the token where the input stops making sense.

use vstd::prelude::*;
use crate::ast::{
    Atom, ArithOp, Clause, Constraint, ConstraintExpr, Expr, Goal, RelOp, is_lower, is_upper,
    is_name_char, name_text, plain_name, quote_escape,
};
use crate::number::{Number, literal_ok, literal_value, nat_decimal};
use crate::text::{chars_of, push_str, push_usize, string_from_chars};

verus! {

/// Where a clause starts: 1-based line and column.
#[derive(Debug, Clone, Copy, PartialEq, Eq)]
pub struct Span {
    pub line: usize,
    pub column: usize,
}

/// A syntax error, positioned at the offending token when one is known.
#[derive(Debug, Clone, PartialEq, Eq)]
pub struct ParseError {
    pub line: Option<usize>,
    pub column: Option<usize>,
    /// Character offset of the offending token in the input.
    pub offset: Option<usize>,
    pub message: String,
}

/// The error carries a 1-based line and column.
pub open spec fn positioned(e: ParseError) -> bool {
    &&& e.line is Some
    &&& e.line->0 >= 1
    &&& e.column is Some
    &&& e.column->0 >= 1
}

impl ParseError {
    /// `line:column: message`, or the bare message when no position is known.
    pub fn to_string(&self) -> (s: String)
        ensures
            s@ == (match (self.line, self.column) {
                (Some(l), Some(c)) => nat_decimal(l as nat) + seq![':'] + nat_decimal(c as nat) + seq![':', ' ']
                    + self.message@,
                _ => self.message@,
            }),
    {
        match (self.line, self.column) {
            (Some(l), Some(c)) => {
                let mut out: Vec<char> = Vec::new();
                push_usize(&mut out, l);
                out.push(':');
                push_usize(&mut out, c);
                out.push(':');
                out.push(' ');
                push_str(&mut out, self.message.as_str());
                proof {
                    assert(out@ =~= nat_decimal(l as nat) + seq![':'] + nat_decimal(c as nat) + seq![':', ' ']
                        + self.message@);
                }
                string_from_chars(&out)
            },
            _ => self.message.clone(),
        }
    }
}

// --- the token vocabulary ------------------------------------------------------

#[derive(Debug, Clone, Copy, PartialEq, Eq, Structural)]
pub enum TokKind {
    Ident,
    Var,
    Num,
    /// `:-`
    If,
    /// `?-`
    Ask,
    /// `=>`
    Implies,
    Neq,
    Le,
    Ge,
    Eq,
    Lt,
    Gt,
    Plus,
    Minus,
    Star,
    Slash,
    Dot,
    Comma,
    LParen,
    RParen,
    LBrace,
    RBrace,
}

/// A token: its kind, its content (names unquoted and unescaped), and where
/// it starts.
#[derive(Debug, Clone)]
pub struct Tok {
    pub kind: TokKind,
    pub text: Vec<char>,
    pub offset: usize,
    pub line: usize,
    pub column: usize,
}

pub open spec fn is_digit_char(c: char) -> bool {
    '0' <= c && c <= '9'
}

/// A variable name: an uppercase letter followed by name characters.
pub open spec fn var_name(s: Seq<char>) -> bool {
    s.len() > 0 && is_upper(s[0]) && forall|i: int| 0 <= i < s.len() ==> is_name_char(#[trigger] s[i])
}

pub open spec fn tok_wf(t: Tok) -> bool {
    &&& t.line >= 1
    &&& t.column >= 1
    &&& (t.kind == TokKind::Var ==> var_name(t.text@))
}

/// The end of the run of name characters starting at `i`.
pub open spec fn name_run_end(s: Seq<char>, i: int) -> int
    decreases s.len() - i,
{
    if 0 <= i < s.len() && is_name_char(s[i]) {
        name_run_end(s, i + 1)
    } else {
        i
    }
}

/// Reading a quoted name from `j`, just after the opening quote, with
/// `acc` read so far: the content and the position after the closing
/// quote. `\` takes the next character literally.
pub open spec fn quoted_scan(s: Seq<char>, j: int, acc: Seq<char>) -> Option<(Seq<char>, int)>
    decreases s.len() - j,
{
    if j < 0 || j >= s.len() {
        None
    } else if s[j] == '\'' {
        Some((acc, j + 1))
    } else if s[j] == '\\' && j + 1 < s.len() {
        quoted_scan(s, j + 2, acc.push(s[j + 1]))
    } else {
        quoted_scan(s, j + 1, acc.push(s[j]))
    }
}

/// What a quoted name opened at `i` reads, and where it ends.
pub open spec fn quoted_at(s: Seq<char>, i: int) -> Option<(Seq<char>, int)> {
    quoted_scan(s, i + 1, Seq::empty())
}

/// The content of the name token at `o`: quoted, or a run of name
/// characters.
pub open spec fn name_read(s: Seq<char>, o: int, text: Seq<char>) -> bool {
    if s[o] == '\'' {
        quoted_scan(s, o + 1, Seq::empty()) matches Some((t, _)) && t == text
    } else {
        text == s.subrange(o, name_run_end(s, o))
    }
}

/// Name tokens carry exactly the content read at their offset.
pub open spec fn names_read(s: Seq<char>, toks: Seq<Tok>) -> bool {
    forall|k: int| 0 <= k < toks.len() && (#[trigger] toks[k]).kind == TokKind::Ident ==>
        toks[k].offset < s.len() && name_read(s, toks[k].offset as int, toks[k].text@)
}

/// Spaces, tabs, carriage returns and line breaks separate tokens.
pub open spec fn is_space(c: char) -> bool {
    c == ' ' || c == '\t' || c == '\r' || c == '\n'
}

/// The first position from `i` on that is neither blank nor in a `%`
/// comment; `in_comment` tells that `i` is inside one (it runs to the end
/// of the line).
pub open spec fn skip_blank(s: Seq<char>, i: int, in_comment: bool) -> int
    decreases s.len() - i,
{
    if i < 0 || i >= s.len() {
        i
    } else if in_comment {
        skip_blank(s, i + 1, s[i] != '\n')
    } else if is_space(s[i]) {
        skip_blank(s, i + 1, false)
    } else if s[i] == '%' {
        skip_blank(s, i + 1, true)
    } else {
        i
    }
}

/// The end of the run of digits from `i`.
pub open spec fn digits_end(s: Seq<char>, i: int) -> int
    decreases s.len() - i,
{
    if 0 <= i < s.len() && is_digit_char(s[i]) {
        digits_end(s, i + 1)
    } else {
        i
    }
}

/// The end of the number literal at `i`: digits, then a `.` and digits
/// when a digit follows the `.`.
pub open spec fn number_end(s: Seq<char>, i: int) -> int {
    let d = digits_end(s, i);
    if d + 1 < s.len() && s[d] == '.' && is_digit_char(s[d + 1]) {
        digits_end(s, d + 1)
    } else {
        d
    }
}

/// The operator or punctuation at `i`, with its length: two-character
/// operators first.
pub open spec fn op_at(s: Seq<char>, i: int) -> Option<(TokKind, int)> {
    let c = s[i];
    let two = i + 1 < s.len();
    let next = s[i + 1];
    if c == ':' && two && next == '-' {
        Some((TokKind::If, 2))
    } else if c == '?' && two && next == '-' {
        Some((TokKind::Ask, 2))
    } else if c == '=' && two && next == '>' {
        Some((TokKind::Implies, 2))
    } else if c == '!' && two && next == '=' {
        Some((TokKind::Neq, 2))
    } else if c == '<' && two && next == '=' {
        Some((TokKind::Le, 2))
    } else if c == '>' && two && next == '=' {
        Some((TokKind::Ge, 2))
    } else if c == '=' {
        Some((TokKind::Eq, 1))
    } else if c == '<' {
        Some((TokKind::Lt, 1))
    } else if c == '>' {
        Some((TokKind::Gt, 1))
    } else if c == '+' {
        Some((TokKind::Plus, 1))
    } else if c == '-' {
        Some((TokKind::Minus, 1))
    } else if c == '*' {
        Some((TokKind::Star, 1))
    } else if c == '/' {
        Some((TokKind::Slash, 1))
    } else if c == '.' {
        Some((TokKind::Dot, 1))
    } else if c == ',' {
        Some((TokKind::Comma, 1))
    } else if c == '(' {
        Some((TokKind::LParen, 1))
    } else if c == ')' {
        Some((TokKind::RParen, 1))
    } else if c == '{' {
        Some((TokKind::LBrace, 1))
    } else if c == '}' {
        Some((TokKind::RBrace, 1))
    } else {
        None
    }
}

/// The token at `i`: its kind, its content and where it ends. A name is a
/// run of name characters starting with a letter (a variable when the
/// letter is uppercase) or a quoted name; a number is a decimal literal;
/// operators and punctuation have no content. `None`: no token starts here,
/// or a quoted name is not closed.
pub open spec fn lexeme(s: Seq<char>, i: int) -> Option<(TokKind, Seq<char>, int)> {
    let c = s[i];
    if is_lower(c) || is_upper(c) {
        let e = name_run_end(s, i);
        Some((if is_upper(c) { TokKind::Var } else { TokKind::Ident }, s.subrange(i, e), e))
    } else if is_digit_char(c) {
        let e = number_end(s, i);
        Some((TokKind::Num, s.subrange(i, e), e))
    } else if c == '\'' {
        match quoted_scan(s, i + 1, Seq::empty()) {
            Some((t, e)) => Some((TokKind::Ident, t, e)),
            None => None,
        }
    } else {
        match op_at(s, i) {
            Some((k, n)) => Some((k, Seq::empty(), i + n)),
            None => None,
        }
    }
}

/// A token as read: kind, content and offset.
pub type TokRead = (TokKind, Seq<char>, int);

/// The tokens of `s` from `i` on, in order, or the offset at which no token
/// can be read.
pub open spec fn lex_from(s: Seq<char>, i: int) -> Result<Seq<TokRead>, int>
    decreases s.len() - i,
{
    let p = skip_blank(s, i, false);
    if p < i || p >= s.len() {
        Ok(Seq::empty())
    } else {
        match lexeme(s, p) {
            None => Err(p),
            Some((k, t, e)) => if e <= p || e > s.len() {
                Err(p)
            } else {
                match lex_from(s, e) {
                    Ok(rest) => Ok(seq![(k, t, p)] + rest),
                    Err(q) => Err(q),
                }
            },
        }
    }
}

/// `done`, followed by what `rest` reads.
pub open spec fn then_read(done: Seq<TokRead>, rest: Result<Seq<TokRead>, int>) -> Result<Seq<TokRead>, int> {
    match rest {
        Ok(r) => Ok(done + r),
        Err(q) => Err(q),
    }
}

/// The number of line breaks in `s`.
pub open spec fn newlines(s: Seq<char>) -> nat
    decreases s.len(),
{
    if s.len() == 0 {
        0
    } else {
        newlines(s.drop_last()) + (if s.last() == '\n' { 1nat } else { 0nat })
    }
}

/// The line of offset `o` (from 1).
pub open spec fn line_at(s: Seq<char>, o: int) -> nat {
    1 + newlines(s.take(o))
}

/// The column of offset `o` (from 1): characters since the last line
/// break, plus one.
pub open spec fn column_at(s: Seq<char>, o: int) -> nat
    decreases o,
{
    if o <= 0 || o > s.len() {
        1
    } else if s[o - 1] == '\n' {
        1
    } else {
        column_at(s, o - 1) + 1
    }
}

/// A token as read.
pub open spec fn tok_read(t: Tok) -> TokRead {
    (t.kind, t.text@, t.offset as int)
}

/// Tokens in the form read.
pub open spec fn toks_read(toks: Seq<Tok>) -> Seq<TokRead> {
    toks.map_values(|t: Tok| tok_read(t))
}

/// How one character is written inside quotes.
pub open spec fn escaped_char(x: char) -> Seq<char> {
    if x == '\\' || x == '\'' {
        seq!['\\', x]
    } else {
        seq![x]
    }
}

/// Escaping distributes over concatenation.
pub proof fn lemma_quote_escape_concat(a: Seq<char>, b: Seq<char>)
    ensures
        quote_escape(a + b) == quote_escape(a) + quote_escape(b),
    decreases b.len(),
{
    if b.len() == 0 {
        assert(a + b =~= a);
        assert(quote_escape(a) + quote_escape(b) =~= quote_escape(a));
    } else {
        lemma_quote_escape_concat(a, b.drop_last());
        assert((a + b).drop_last() =~= a + b.drop_last());
        assert((a + b).last() == b.last());
        assert(quote_escape(a + b) =~= quote_escape(a) + quote_escape(b));
    }
}

/// Escaping a name is escaping its first character, then the rest.
proof fn lemma_quote_escape_first(c: Seq<char>)
    requires
        c.len() > 0,
    ensures
        quote_escape(c) == escaped_char(c[0]) + quote_escape(c.drop_first()),
{
    lemma_quote_escape_concat(seq![c[0]], c.drop_first());
    assert(seq![c[0]] + c.drop_first() =~= c);
    assert(seq![c[0]].drop_last() =~= Seq::<char>::empty());
    assert(seq![c[0]].last() == c[0]);
    assert(quote_escape(Seq::<char>::empty()) =~= Seq::<char>::empty());
    assert(quote_escape(seq![c[0]]) == quote_escape(Seq::<char>::empty()) + escaped_char(c[0]));
    assert(quote_escape(seq![c[0]]) =~= escaped_char(c[0]));
}

/// Reading the escaped form of `c` followed by a closing quote gives `c`
/// back and stops just after the quote.
proof fn lemma_scan_escaped(s: Seq<char>, p: int, acc: Seq<char>, c: Seq<char>)
    requires
        0 <= p,
        p + quote_escape(c).len() < s.len(),
        s.subrange(p, p + quote_escape(c).len()) == quote_escape(c),
        s[p + quote_escape(c).len()] == '\'',
    ensures
        quoted_scan(s, p, acc) == Some((acc + c, p + quote_escape(c).len() + 1)),
    decreases c.len(),
{
    let q = quote_escape(c);
    if c.len() == 0 {
        assert(q =~= Seq::<char>::empty());
        assert(acc + c =~= acc);
    } else {
        lemma_quote_escape_first(c);
        let x = c[0];
        let rest = c.drop_first();
        let qr = quote_escape(rest);
        if x == '\\' || x == '\'' {
            assert(q[0] == '\\');
            assert(q[1] == x);
            assert(s[p] == q[0]);
            assert(s[p + 1] == q[1]);
            assert(s.subrange(p + 2, p + 2 + qr.len()) =~= qr) by {
                assert forall|k: int| 0 <= k < qr.len() implies s.subrange(p + 2, p + 2 + qr.len())[k] == qr[k] by {
                    assert(q[k + 2] == qr[k]);
                    assert(s.subrange(p, p + q.len())[k + 2] == q[k + 2]);
                }
            }
            lemma_scan_escaped(s, p + 2, acc.push(x), rest);
            assert(acc.push(x) + rest =~= acc + c);
        } else {
            assert(q[0] == x);
            assert(s[p] == q[0]);
            assert(s.subrange(p + 1, p + 1 + qr.len()) =~= qr) by {
                assert forall|k: int| 0 <= k < qr.len() implies s.subrange(p + 1, p + 1 + qr.len())[k] == qr[k] by {
                    assert(q[k + 1] == qr[k]);
                    assert(s.subrange(p, p + q.len())[k + 1] == q[k + 1]);
                }
            }
            lemma_scan_escaped(s, p + 1, acc.push(x), rest);
            assert(acc.push(x) + rest =~= acc + c);
        }
    }
}

/// A run of name characters reaches the end of a plain name.
proof fn lemma_run_to_end(c: Seq<char>, i: int)
    requires
        plain_name(c),
        0 <= i <= c.len(),
    ensures
        name_run_end(c, i) == c.len(),
    decreases c.len() - i,
{
    if i < c.len() {
        lemma_run_to_end(c, i + 1);
    }
}

/// A printed name reads back as its content: a plain name is one run of
/// name characters starting lowercase (an identifier token, not a
/// variable); any other name is printed quoted, and reading the quoted
/// form gives the content back and consumes the whole printed form.
pub proof fn law_printed_name_reads_back(c: Seq<char>)
    ensures
        plain_name(c) ==> name_text(c) == c && is_lower(c[0]) && name_run_end(c, 0) == c.len()
            && c.subrange(0, c.len() as int) == c,
        !plain_name(c) ==> name_text(c)[0] == '\'' && quoted_scan(name_text(c), 1, Seq::empty())
            == Some((c, name_text(c).len() as int)),
{
    if plain_name(c) {
        lemma_run_to_end(c, 0);
        assert(c.subrange(0, c.len() as int) =~= c);
    } else {
        let s = name_text(c);
        let q = quote_escape(c);
        assert(s =~= seq!['\''] + q + seq!['\'']);
        assert(s.subrange(1, 1 + q.len() as int) =~= q);
        lemma_scan_escaped(s, 1, Seq::empty(), c);
        assert(Seq::<char>::empty() + c =~= c);
    }
}

fn name_char(c: char) -> (b: bool)
    ensures
        b == is_name_char(c),
{
    ('a' <= c && c <= 'z') || ('A' <= c && c <= 'Z') || ('0' <= c && c <= '9') || c == '_'
}

fn error_at(line: usize, column: usize, offset: usize, msg: &str) -> (e: ParseError)
    requires
        line >= 1,
        column >= 1,
    ensures
        e.line == Some(line),
        e.column == Some(column),
        e.offset == Some(offset),
        e.message@ == msg@,
{
    ParseError { line: Some(line), column: Some(column), offset: Some(offset), message: msg.to_string() }
}

/// The punctuation or operator token starting at `i`, with its length.
fn operator_at(s: &Vec<char>, i: usize) -> (r: Option<(TokKind, usize)>)
    requires
        i < s.len(),
    ensures
        r matches Some((_, n)) ==> 1 <= n <= 2 && i + n <= s.len(),
        r matches Some((k, _)) ==> k != TokKind::Var && k != TokKind::Ident,
        match r {
            Some((k, n)) => op_at(s@, i as int) == Some((k, n as int)),
            None => op_at(s@, i as int) is None,
        },
{
    let c = s[i];
    let next = if i + 1 < s.len() { s[i + 1] } else { ' ' };
    let two = i + 1 < s.len();
    if c == ':' && two && next == '-' {
        Some((TokKind::If, 2))
    } else if c == '?' && two && next == '-' {
        Some((TokKind::Ask, 2))
    } else if c == '=' && two && next == '>' {
        Some((TokKind::Implies, 2))
    } else if c == '!' && two && next == '=' {
        Some((TokKind::Neq, 2))
    } else if c == '<' && two && next == '=' {
        Some((TokKind::Le, 2))
    } else if c == '>' && two && next == '=' {
        Some((TokKind::Ge, 2))
    } else if c == '=' {
        Some((TokKind::Eq, 1))
    } else if c == '<' {
        Some((TokKind::Lt, 1))
    } else if c == '>' {
        Some((TokKind::Gt, 1))
    } else if c == '+' {
        Some((TokKind::Plus, 1))
    } else if c == '-' {
        Some((TokKind::Minus, 1))
    } else if c == '*' {
        Some((TokKind::Star, 1))
    } else if c == '/' {
        Some((TokKind::Slash, 1))
    } else if c == '.' {
        Some((TokKind::Dot, 1))
    } else if c == ',' {
        Some((TokKind::Comma, 1))
    } else if c == '(' {
        Some((TokKind::LParen, 1))
    } else if c == ')' {
        Some((TokKind::RParen, 1))
    } else if c == '{' {
        Some((TokKind::LBrace, 1))
    } else if c == '}' {
        Some((TokKind::RBrace, 1))
    } else {
        None
    }
}

/// Skipping never goes back.
proof fn lemma_skip_ge(s: Seq<char>, i: int, b: bool)
    requires
        0 <= i,
    ensures
        skip_blank(s, i, b) >= i,
        skip_blank(s, i, b) <= s.len() || skip_blank(s, i, b) == i,
    decreases s.len() - i,
{
    if i < s.len() {
        if b || is_space(s[i]) || s[i] == '%' {
            lemma_skip_ge(s, i + 1, if b { s[i] != '\n' } else { s[i] == '%' });
        }
    }
}

/// Reading from two places that skip to the same position reads the same.
proof fn lemma_lex_same_skip(s: Seq<char>, i: int, j: int)
    requires
        0 <= i <= j,
        skip_blank(s, i, false) == skip_blank(s, j, false),
    ensures
        lex_from(s, i) == lex_from(s, j),
{
    lemma_skip_ge(s, j, false);
}

/// A blank character is skipped.
proof fn lemma_lex_blank(s: Seq<char>, i: int)
    requires
        0 <= i < s.len(),
        is_space(s[i]),
    ensures
        lex_from(s, i) == lex_from(s, i + 1),
{
    assert(skip_blank(s, i, false) == skip_blank(s, i + 1, false));
    lemma_lex_same_skip(s, i, i + 1);
}

/// A comment is skipped up to the line break that ends it.
proof fn lemma_lex_comment(s: Seq<char>, start: int, i: int)
    requires
        0 <= start < i <= s.len(),
        s[start] == '%',
        skip_blank(s, start, false) == skip_blank(s, i, true),
        i == s.len() || s[i] == '\n',
    ensures
        lex_from(s, start) == lex_from(s, i),
{
    if i < s.len() {
        assert(skip_blank(s, i, true) == skip_blank(s, i + 1, false));
        assert(skip_blank(s, i, false) == skip_blank(s, i + 1, false));
        lemma_lex_same_skip(s, start, i);
    } else {
        assert(skip_blank(s, i, true) == i);
        assert(skip_blank(s, i, false) == i);
        lemma_lex_same_skip(s, start, i);
    }
}

/// At a token, reading gives the token, then what follows it.
proof fn lemma_lex_token(s: Seq<char>, i: int, k: TokKind, t: Seq<char>, e: int)
    requires
        0 <= i < e <= s.len(),
        !is_space(s[i]),
        s[i] != '%',
        lexeme(s, i) == Some((k, t, e)),
    ensures
        lex_from(s, i) == then_read(seq![(k, t, i)], lex_from(s, e)),
{
    assert(skip_blank(s, i, false) == i);
}

/// Reading on after what was read.
proof fn lemma_then_read_assoc(a: Seq<TokRead>, b: Seq<TokRead>, r: Result<Seq<TokRead>, int>)
    ensures
        then_read(a, then_read(b, r)) == then_read(a + b, r),
{
    if let Ok(x) = r {
        assert(a + (b + x) =~= (a + b) + x);
    }
}

/// Stepping over a character moves the line and column.
proof fn lemma_position_step(s: Seq<char>, i: int)
    requires
        0 <= i < s.len(),
    ensures
        line_at(s, i + 1) == line_at(s, i) + (if s[i] == '\n' { 1nat } else { 0nat }),
        column_at(s, i + 1) == (if s[i] == '\n' { 1 } else { column_at(s, i) + 1 }),
{
    assert(s.take(i + 1).drop_last() =~= s.take(i));
    assert(s.take(i + 1).last() == s[i]);
}

/// Over characters that are not line breaks the line stays and the
/// column advances by their number.
proof fn lemma_position_run(s: Seq<char>, a: int, b: int)
    requires
        0 <= a <= b <= s.len(),
        forall|k: int| a <= k < b ==> s[k] != '\n',
    ensures
        line_at(s, b) == line_at(s, a),
        column_at(s, b) == column_at(s, a) + (b - a),
    decreases b - a,
{
    if a < b {
        lemma_position_run(s, a, b - 1);
        lemma_position_step(s, b - 1);
    }
}

/// Lines and columns stay within the offset.
proof fn lemma_position_bounds(s: Seq<char>, i: int)
    requires
        0 <= i <= s.len(),
    ensures
        1 <= line_at(s, i) <= i + 1,
        1 <= column_at(s, i) <= i + 1,
    decreases i,
{
    if i > 0 {
        lemma_position_bounds(s, i - 1);
        lemma_position_step(s, i - 1);
    } else {
        assert(s.take(0) =~= Seq::<char>::empty());
    }
}

/// The tokens read so far are well formed, positioned, carry their names,
/// and are what reading the source gives up to `i`.
pub open spec fn read_so_far(s: Seq<char>, toks: Seq<Tok>, i: int) -> bool {
    &&& forall|k: int| 0 <= k < toks.len() ==> tok_wf(#[trigger] toks[k])
    &&& forall|k: int| 0 <= k < toks.len() ==>
        (#[trigger] toks[k]).line == line_at(s, toks[k].offset as int)
        && toks[k].column == column_at(s, toks[k].offset as int)
    &&& names_read(s, toks)
    &&& lex_from(s, 0) == then_read(toks_read(toks), lex_from(s, i))
}

/// Append the token read at `tok.offset`, which ends at `e`.
fn push_read(toks: &mut Vec<Tok>, tok: Tok, Ghost(s): Ghost<Seq<char>>, Ghost(e): Ghost<int>)
    requires
        read_so_far(s, old(toks)@, tok.offset as int),
        lex_from(s, tok.offset as int) == then_read(seq![tok_read(tok)], lex_from(s, e)),
        tok_wf(tok),
        tok.line == line_at(s, tok.offset as int),
        tok.column == column_at(s, tok.offset as int),
        tok.kind == TokKind::Ident ==> tok.offset < s.len() && name_read(s, tok.offset as int, tok.text@),
    ensures
        final(toks)@ == old(toks)@.push(tok),
        read_so_far(s, final(toks)@, e),
{
    let ghost before = toks@;
    proof {
        lemma_then_read_assoc(toks_read(before), seq![tok_read(tok)], lex_from(s, e));
    }
    toks.push(tok);
    proof {
        assert(forall|k: int| 0 <= k < before.len() ==> toks@[k] == before[k]);
        assert(toks_read(toks@) =~= toks_read(before) + seq![tok_read(tok)]);
    }
}

/// The name at `i` (a letter there): its token and where it ends.
fn read_name(s: &Vec<char>, i: usize, line: usize, col: usize) -> (r: (Tok, usize))
    requires
        s@.len() < 0x4000_0000,
        i < s@.len(),
        is_lower(s@[i as int]) || is_upper(s@[i as int]),
        line == line_at(s@, i as int),
        col == column_at(s@, i as int),
        line >= 1,
        col >= 1,
    ensures
        i < r.1 <= s@.len(),
        lexeme(s@, i as int) == Some((r.0.kind, r.0.text@, r.1 as int)),
        r.0.offset == i,
        r.0.line == line,
        r.0.column == col,
        tok_wf(r.0),
        r.0.kind == TokKind::Ident ==> name_read(s@, i as int, r.0.text@),
        forall|k: int| i <= k < r.1 ==> s@[k] != '\n',
{
    let c = s[i];
    let mut text: Vec<char> = Vec::new();
    text.push(c);
    let mut j = i + 1;
    assert(name_run_end(s@, i as int) == name_run_end(s@, j as int));
    while j < s.len() && name_char(s[j])
        invariant
            i < j <= s@.len(),
            text@.len() == j - i,
            forall|k: int| 0 <= k < text@.len() ==> text@[k] == s@[i + k],
            forall|k: int| 0 <= k < text@.len() ==> is_name_char(#[trigger] text@[k]),
            name_run_end(s@, i as int) == name_run_end(s@, j as int),
        decreases s@.len() - j,
    {
        text.push(s[j]);
        j = j + 1;
    }
    let kind = if 'A' <= c && c <= 'Z' { TokKind::Var } else { TokKind::Ident };
    assert(text@[0] == c);
    assert(name_run_end(s@, j as int) == j);
    assert(text@ =~= s@.subrange(i as int, j as int));
    proof {
        assert forall|k: int| i <= k < j implies s@[k] != '\n' by {
            assert(text@[k - i] == s@[k]);
        }
    }
    (Tok { kind, text, offset: i, line, column: col }, j)
}

/// The number at `i` (a digit there): its token and where it ends.
fn read_number(s: &Vec<char>, i: usize, line: usize, col: usize) -> (r: (Tok, usize))
    requires
        s@.len() < 0x4000_0000,
        i < s@.len(),
        is_digit_char(s@[i as int]),
        line == line_at(s@, i as int),
        col == column_at(s@, i as int),
        line >= 1,
        col >= 1,
    ensures
        i < r.1 <= s@.len(),
        lexeme(s@, i as int) == Some((r.0.kind, r.0.text@, r.1 as int)),
        r.0.offset == i,
        r.0.line == line,
        r.0.column == col,
        tok_wf(r.0),
        r.0.kind == TokKind::Num,
        forall|k: int| i <= k < r.1 ==> s@[k] != '\n',
{
    let mut text: Vec<char> = Vec::new();
    text.push(s[i]);
    let mut j = i + 1;
    proof {
        assert(digits_end(s@, i as int) == digits_end(s@, j as int));
        assert(text@ =~= s@.subrange(i as int, j as int));
    }
    while j < s.len() && '0' <= s[j] && s[j] <= '9'
        invariant
            i < j <= s@.len(),
            text@ == s@.subrange(i as int, j as int),
            digits_end(s@, i as int) == digits_end(s@, j as int),
            forall|k: int| i <= k < j ==> s@[k] != '\n',
        decreases s@.len() - j,
    {
        text.push(s[j]);
        j = j + 1;
        proof {
            assert(text@ =~= s@.subrange(i as int, j as int));
        }
    }
    if j + 1 < s.len() && s[j] == '.' && '0' <= s[j + 1] && s[j + 1] <= '9' {
        let dot = j;
        text.push('.');
        j = j + 1;
        proof {
            assert(text@ =~= s@.subrange(i as int, j as int));
        }
        while j < s.len() && '0' <= s[j] && s[j] <= '9'
            invariant
                i < dot < j <= s@.len(),
                text@ == s@.subrange(i as int, j as int),
                digits_end(s@, dot + 1) == digits_end(s@, j as int),
                forall|k: int| i <= k < j ==> s@[k] != '\n',
            decreases s@.len() - j,
        {
            text.push(s[j]);
            j = j + 1;
            proof {
                assert(text@ =~= s@.subrange(i as int, j as int));
            }
        }
    }
    proof {
        assert(number_end(s@, i as int) == j);
    }
    (Tok { kind: TokKind::Num, text, offset: i, line, column: col }, j)
}

/// The quoted name at `i` (a quote there): its token, where it ends, and
/// the line and column there; or the error of an unclosed quote.
fn read_quoted(s: &Vec<char>, i: usize, line: usize, col: usize) -> (r: Result<(Tok, usize, usize, usize), ParseError>)
    requires
        s@.len() < 0x4000_0000,
        i < s@.len(),
        s@[i as int] == '\'',
        line == line_at(s@, i as int),
        col == column_at(s@, i as int),
        line >= 1,
        col >= 1,
    ensures
        r matches Ok((t, e, l, c)) ==> i < e <= s@.len()
            && lexeme(s@, i as int) == Some((t.kind, t.text@, e as int))
            && t.kind == TokKind::Ident && t.offset == i && t.line == line && t.column == col
            && name_read(s@, i as int, t.text@)
            && l == line_at(s@, e as int) && c == column_at(s@, e as int),
        r matches Err(x) ==> lexeme(s@, i as int) is None && positioned(x)
            && x.line == Some(line) && x.column == Some(col) && x.offset == Some(i),
{
    proof {
        lemma_position_bounds(s@, i as int);
        lemma_position_step(s@, i as int);
    }
    let mut text: Vec<char> = Vec::new();
    let mut j = i + 1;
    let mut ln = line;
    let mut cl = col + 1;
    let mut closed = false;
    while j < s.len() && !closed
        invariant
            s@.len() < 0x4000_0000,
            i < j <= s@.len(),
            s@[i as int] == '\'',
            ln == line_at(s@, j as int),
            cl == column_at(s@, j as int),
            !closed ==> quoted_scan(s@, j as int, text@) == quoted_at(s@, i as int),
            closed ==> quoted_at(s@, i as int) == Some((text@, j as int)),
        decreases s@.len() - j,
    {
        proof {
            lemma_position_bounds(s@, j as int);
            lemma_position_step(s@, j as int);
        }
        let d = s[j];
        if d == '\'' {
            closed = true;
            j = j + 1;
            cl = cl + 1;
        } else if d == '\\' && j + 1 < s.len() {
            proof {
                lemma_position_bounds(s@, j + 1);
                lemma_position_step(s@, j + 1);
            }
            text.push(s[j + 1]);
            if s[j + 1] == '\n' {
                ln = ln + 1;
                cl = 1;
            } else {
                cl = cl + 2;
            }
            j = j + 2;
        } else {
            text.push(d);
            if d == '\n' {
                ln = ln + 1;
                cl = 1;
            } else {
                cl = cl + 1;
            }
            j = j + 1;
        }
    }
    if !closed {
        return Err(error_at(line, col, i, "unterminated quoted name"));
    }
    Ok((Tok { kind: TokKind::Ident, text, offset: i, line, column: col }, j, ln, cl))
}

/// Split the source into tokens; whitespace and `%` comments separate them.
pub fn tokenize(s: &Vec<char>) -> (r: Result<Vec<Tok>, ParseError>)
    ensures
        r is Ok ==> s@.len() < 0x4000_0000,
        r matches Ok(toks) ==> toks@.len() <= s@.len() && forall|k: int| 0 <= k < toks@.len() ==> tok_wf(#[trigger] toks@[k]),
        r matches Ok(toks) ==> names_read(s@, toks@),
        r matches Ok(toks) ==> lex_from(s@, 0) == Ok::<Seq<TokRead>, int>(toks_read(toks@)),
        r matches Ok(toks) ==> forall|k: int| 0 <= k < toks@.len() ==>
            (#[trigger] toks@[k]).line == line_at(s@, toks@[k].offset as int)
            && toks@[k].column == column_at(s@, toks@[k].offset as int),
        r matches Err(e) ==> positioned(e) && e.offset is Some,
        r matches Err(e) ==> s@.len() >= 0x4000_0000 ==> e.offset == Some(0usize) && e.line == Some(1usize)
            && e.column == Some(1usize),
        r matches Err(e) ==> s@.len() >= 0x4000_0000 || (
            lex_from(s@, 0) == Err::<Seq<TokRead>, int>(e.offset->0 as int)
            && e.line == Some(line_at(s@, e.offset->0 as int) as usize)
            && e.column == Some(column_at(s@, e.offset->0 as int) as usize)),
{
    if s.len() >= 0x4000_0000 {
        return Err(error_at(1, 1, 0, "input too large"));
    }
    let mut toks: Vec<Tok> = Vec::new();
    let mut i: usize = 0;
    let mut line: usize = 1;
    let mut col: usize = 1;
    proof {
        assert(toks_read(toks@) =~= Seq::<TokRead>::empty());
        assert(s@.take(0) =~= Seq::<char>::empty());
        lemma_then_read_empty(lex_from(s@, 0));
    }
    while i < s.len()
        invariant
            s.len() < 0x4000_0000,
            toks@.len() <= i,
            i <= s.len(),
            line == line_at(s@, i as int),
            col == column_at(s@, i as int),
            read_so_far(s@, toks@, i as int),
        decreases s.len() - i,
    {
        proof {
            lemma_position_bounds(s@, i as int);
            lemma_position_step(s@, i as int);
        }
        let c = s[i];
        if c == '\n' || c == ' ' || c == '\t' || c == '\r' {
            proof {
                lemma_lex_blank(s@, i as int);
            }
            if c == '\n' {
                line = line + 1;
                col = 1;
            } else {
                col = col + 1;
            }
            i = i + 1;
        } else if c == '%' {
            let start = i;
            i = i + 1;
            col = col + 1;
            proof {
                assert(skip_blank(s@, start as int, false) == skip_blank(s@, i as int, true));
            }
            while i < s.len() && s[i] != '\n'
                invariant
                    s.len() < 0x4000_0000,
                    start < i <= s.len(),
                    s@[start as int] == '%',
                    line == line_at(s@, i as int),
                    col == column_at(s@, i as int),
                    skip_blank(s@, start as int, false) == skip_blank(s@, i as int, true),
                decreases s.len() - i,
            {
                proof {
                    lemma_position_bounds(s@, i as int);
                    lemma_position_step(s@, i as int);
                }
                i = i + 1;
                col = col + 1;
            }
            proof {
                lemma_lex_comment(s@, start as int, i as int);
            }
        } else if ('a' <= c && c <= 'z') || ('A' <= c && c <= 'Z') {
            let (tok, e) = read_name(s, i, line, col);
            proof {
                lemma_position_run(s@, i as int, e as int);
                lemma_lex_token(s@, i as int, tok.kind, tok.text@, e as int);
            }
            let n = e - i;
            push_read(&mut toks, tok, Ghost(s@), Ghost(e as int));
            i = e;
            col = col + n;
        } else if '0' <= c && c <= '9' {
            let (tok, e) = read_number(s, i, line, col);
            proof {
                lemma_position_run(s@, i as int, e as int);
                lemma_lex_token(s@, i as int, tok.kind, tok.text@, e as int);
            }
            let n = e - i;
            push_read(&mut toks, tok, Ghost(s@), Ghost(e as int));
            i = e;
            col = col + n;
        } else if c == '\'' {
            match read_quoted(s, i, line, col) {
                Ok((tok, e, l, cl)) => {
                    proof {
                        lemma_lex_token(s@, i as int, tok.kind, tok.text@, e as int);
                    }
                    push_read(&mut toks, tok, Ghost(s@), Ghost(e as int));
                    i = e;
                    line = l;
                    col = cl;
                },
                Err(x) => {
                    proof {
                        assert(skip_blank(s@, i as int, false) == i);
                        assert(lex_from(s@, i as int) == Err::<Seq<TokRead>, int>(i as int));
                    }
                    return Err(x);
                },
            }
        } else {
            match operator_at(s, i) {
                Some((kind, n)) => {
                    proof {
                        assert forall|k: int| i <= k < i + n implies s@[k] != '\n' by {}
                        lemma_position_run(s@, i as int, i + n);
                        lemma_lex_token(s@, i as int, kind, Seq::<char>::empty(), i + n);
                    }
                    let tok = Tok { kind, text: Vec::new(), offset: i, line, column: col };
                    push_read(&mut toks, tok, Ghost(s@), Ghost(i + n));
                    i = i + n;
                    col = col + n;
                },
                None => {
                    proof {
                        assert(skip_blank(s@, i as int, false) == i);
                        assert(lex_from(s@, i as int) == Err::<Seq<TokRead>, int>(i as int));
                    }
                    return Err(error_at(line, col, i, "unexpected character"));
                },
            }
        }
    }
    proof {
        assert(lex_from(s@, i as int) == Ok::<Seq<TokRead>, int>(Seq::empty()));
        assert(toks_read(toks@) + Seq::<TokRead>::empty() =~= toks_read(toks@));
    }
    Ok(toks)
}

/// Nothing read, then `r`, is `r`.
proof fn lemma_then_read_empty(r: Result<Seq<TokRead>, int>)
    ensures
        then_read(Seq::empty(), r) == r,
{
    if let Ok(x) = r {
        assert(Seq::<TokRead>::empty() + x =~= x);
    }
}

// --- well-formed syntax trees --------------------------------------------------

pub open spec fn expr_wf(e: Expr) -> bool
    decreases e, 0nat,
{
    match e {
        Expr::Atom(a) => atom_wf(*a),
        Expr::Var(v) => var_name(v@),
        Expr::Number(_) => true,
        Expr::Ident(_) => true,
        Expr::Neg(x) => expr_wf(*x),
        Expr::Binary { left, right, .. } => expr_wf(*left) && expr_wf(*right),
    }
}

pub open spec fn atom_wf(a: Atom) -> bool
    decreases a, 1nat,
{
    forall|j: int| 0 <= j < a.args@.len() ==> expr_wf(#[trigger] a.args@[j])
}

pub open spec fn block_wf(c: ConstraintExpr) -> bool {
    &&& c.terms@.len() > 0
    &&& forall|j: int| 0 <= j < c.terms@.len() ==> expr_wf((#[trigger] c.terms@[j]).left) && expr_wf(c.terms@[j].right)
}

pub open spec fn goal_wf(g: Goal) -> bool {
    match g {
        Goal::Atom(a) => atom_wf(a),
        Goal::Constraint(c) => block_wf(c),
    }
}

pub open spec fn body_wf(b: Seq<Goal>) -> bool {
    &&& b.len() > 0
    &&& forall|j: int| 0 <= j < b.len() ==> goal_wf(#[trigger] b[j])
}

pub open spec fn has_constraint(b: Seq<Goal>) -> bool {
    exists|j: int| 0 <= j < b.len() && (#[trigger] b[j]) is Constraint
}

/// The shape every parsed clause has: non-empty bodies and blocks, variable
/// names that start uppercase, and a rule is a `ConstraintRule` exactly when
/// its body holds a constraint block.
pub open spec fn clause_wf(c: Clause) -> bool {
    match c {
        Clause::Fact(a) => atom_wf(a),
        Clause::Rule { head, body } => atom_wf(head) && body_wf(body@) && !has_constraint(body@),
        Clause::ConstraintRule { head, body } => atom_wf(head) && body_wf(body@) && has_constraint(body@),
        Clause::ConstraintFact(c) => block_wf(c),
        Clause::Implication { constraint, head } => block_wf(constraint) && atom_wf(head),
        Clause::Query(body) => body_wf(body@),
    }
}

// --- the grammar over tokens -----------------------------------------------------

/// An expression as the grammar reads it: names as their content, numbers
/// as their value.
pub enum ExprM {
    Atom(AtomM),
    Var(Seq<char>),
    Number((int, int)),
    Ident(Seq<char>),
    Neg(Box<ExprM>),
    Binary(ArithOp, Box<ExprM>, Box<ExprM>),
}

pub struct AtomM {
    pub name: Seq<char>,
    pub args: Seq<ExprM>,
}

pub struct ConstraintM {
    pub left: ExprM,
    pub op: RelOp,
    pub right: ExprM,
}

pub enum GoalM {
    Atom(AtomM),
    Constraint(Seq<ConstraintM>),
}

pub enum ClauseM {
    Fact(AtomM),
    Rule(AtomM, Seq<GoalM>),
    ConstraintFact(Seq<ConstraintM>),
    ConstraintRule(AtomM, Seq<GoalM>),
    Implication(Seq<ConstraintM>, AtomM),
    Query(Seq<GoalM>),
}

/// `e` is the tree `m` reads as.
pub open spec fn expr_is(e: Expr, m: ExprM) -> bool
    decreases e, 0nat,
{
    match e {
        Expr::Atom(a) => m matches ExprM::Atom(ma) && atom_is(*a, ma),
        Expr::Var(v) => m == ExprM::Var(v@),
        Expr::Number(n) => m == ExprM::Number(n@),
        Expr::Ident(v) => m == ExprM::Ident(v@),
        Expr::Neg(x) => m matches ExprM::Neg(mx) && expr_is(*x, *mx),
        Expr::Binary { op, left, right } => m matches ExprM::Binary(mop, ml, mr) && mop == op
            && expr_is(*left, *ml) && expr_is(*right, *mr),
    }
}

pub open spec fn atom_is(a: Atom, m: AtomM) -> bool
    decreases a, 1nat,
{
    &&& a.name@ == m.name
    &&& a.args@.len() == m.args.len()
    &&& forall|j: int| 0 <= j < a.args@.len() ==> expr_is(#[trigger] a.args@[j], m.args[j])
}

pub open spec fn constraint_is(c: Constraint, m: ConstraintM) -> bool {
    expr_is(c.left, m.left) && c.op == m.op && expr_is(c.right, m.right)
}

pub open spec fn block_is(c: ConstraintExpr, m: Seq<ConstraintM>) -> bool {
    &&& c.terms@.len() == m.len()
    &&& forall|j: int| 0 <= j < m.len() ==> constraint_is(#[trigger] c.terms@[j], m[j])
}

pub open spec fn goal_is(g: Goal, m: GoalM) -> bool {
    match g {
        Goal::Atom(a) => m matches GoalM::Atom(ma) && atom_is(a, ma),
        Goal::Constraint(c) => m matches GoalM::Constraint(mc) && block_is(c, mc),
    }
}

pub open spec fn goals_is(b: Seq<Goal>, m: Seq<GoalM>) -> bool {
    &&& b.len() == m.len()
    &&& forall|j: int| 0 <= j < m.len() ==> goal_is(#[trigger] b[j], m[j])
}

pub open spec fn clause_is(c: Clause, m: ClauseM) -> bool {
    match c {
        Clause::Fact(a) => m matches ClauseM::Fact(ma) && atom_is(a, ma),
        Clause::Rule { head, body } => m matches ClauseM::Rule(mh, mb) && atom_is(head, mh)
            && goals_is(body@, mb),
        Clause::ConstraintFact(c) => m matches ClauseM::ConstraintFact(mc) && block_is(c, mc),
        Clause::ConstraintRule { head, body } => m matches ClauseM::ConstraintRule(mh, mb)
            && atom_is(head, mh) && goals_is(body@, mb),
        Clause::Implication { constraint, head } => m matches ClauseM::Implication(mc, mh)
            && block_is(constraint, mc) && atom_is(head, mh),
        Clause::Query(body) => m matches ClauseM::Query(mb) && goals_is(body@, mb),
    }
}

/// The kind of token `i`, if there is one.
pub open spec fn kind_at(t: Seq<TokRead>, i: int) -> Option<TokKind> {
    if 0 <= i < t.len() {
        Some(t[i].0)
    } else {
        None
    }
}

/// Where reading stopped: the index of the offending token (the number of
/// tokens at the end of input), and the message.
pub type Stop = (int, Seq<char>);

pub open spec fn add_op(k: Option<TokKind>) -> Option<ArithOp> {
    match k {
        Some(TokKind::Plus) => Some(ArithOp::Add),
        Some(TokKind::Minus) => Some(ArithOp::Sub),
        _ => None,
    }
}

pub open spec fn mul_op(k: Option<TokKind>) -> Option<ArithOp> {
    match k {
        Some(TokKind::Star) => Some(ArithOp::Mul),
        Some(TokKind::Slash) => Some(ArithOp::Div),
        _ => None,
    }
}

pub open spec fn rel_op(k: Option<TokKind>) -> Option<RelOp> {
    match k {
        Some(TokKind::Eq) => Some(RelOp::Eq),
        Some(TokKind::Neq) => Some(RelOp::Neq),
        Some(TokKind::Lt) => Some(RelOp::Lt),
        Some(TokKind::Gt) => Some(RelOp::Gt),
        Some(TokKind::Le) => Some(RelOp::Le),
        Some(TokKind::Ge) => Some(RelOp::Ge),
        _ => None,
    }
}

/// `atom ::= name "(" [expr {"," expr}] ")"`. `fuel` bounds how deeply
/// expressions nest.
pub open spec fn p_atom(t: Seq<TokRead>, i: int, fuel: nat) -> Result<(AtomM, int), Stop>
    decreases fuel, 6nat, 0int,
{
    if kind_at(t, i) != Some(TokKind::Ident) {
        Err((i, "Expected a predicate name."@))
    } else if kind_at(t, i + 1) != Some(TokKind::LParen) {
        Err((i + 1, "Expected LParen."@))
    } else if kind_at(t, i + 2) == Some(TokKind::RParen) {
        Ok((AtomM { name: t[i].1, args: Seq::empty() }, i + 3))
    } else if fuel == 0 {
        Err((i + 2, "Expression nested too deeply."@))
    } else {
        match p_args(t, i + 2, Seq::empty(), (fuel - 1) as nat) {
            Ok((args, j)) => if kind_at(t, j) == Some(TokKind::RParen) {
                Ok((AtomM { name: t[i].1, args }, j + 1))
            } else {
                Err((j, "Expected one of Comma, RParen."@))
            },
            Err(x) => Err(x),
        }
    }
}

/// Arguments separated by commas, after `acc`.
pub open spec fn p_args(t: Seq<TokRead>, i: int, acc: Seq<ExprM>, fuel: nat) -> Result<(Seq<ExprM>, int), Stop>
    decreases fuel, 5nat, t.len() - i,
{
    match p_expr(t, i, fuel) {
        Ok((e, j)) => if kind_at(t, j) == Some(TokKind::Comma) && i < j + 1 <= t.len() {
            p_args(t, j + 1, acc.push(e), fuel)
        } else {
            Ok((acc.push(e), j))
        },
        Err(x) => Err(x),
    }
}

/// `expr ::= term {("+" | "-") term}`, to the left.
pub open spec fn p_expr(t: Seq<TokRead>, i: int, fuel: nat) -> Result<(ExprM, int), Stop>
    decreases fuel, 4nat, 0int,
{
    match p_term(t, i, fuel) {
        Ok((l, j)) => p_expr_tail(t, j, l, fuel),
        Err(x) => Err(x),
    }
}

pub open spec fn p_expr_tail(t: Seq<TokRead>, i: int, left: ExprM, fuel: nat) -> Result<(ExprM, int), Stop>
    decreases fuel, 3nat, t.len() - i,
{
    match add_op(kind_at(t, i)) {
        Some(op) => match p_term(t, i + 1, fuel) {
            Ok((r, j)) => if i < j <= t.len() {
                p_expr_tail(t, j, ExprM::Binary(op, Box::new(left), Box::new(r)), fuel)
            } else {
                Ok((left, i))
            },
            Err(x) => Err(x),
        },
        None => Ok((left, i)),
    }
}

/// `term ::= unary {("*" | "/") unary}`, to the left.
pub open spec fn p_term(t: Seq<TokRead>, i: int, fuel: nat) -> Result<(ExprM, int), Stop>
    decreases fuel, 2nat, 0int,
{
    match p_unary(t, i, fuel) {
        Ok((l, j)) => p_term_tail(t, j, l, fuel),
        Err(x) => Err(x),
    }
}

pub open spec fn p_term_tail(t: Seq<TokRead>, i: int, left: ExprM, fuel: nat) -> Result<(ExprM, int), Stop>
    decreases fuel, 1nat, t.len() - i,
{
    match mul_op(kind_at(t, i)) {
        Some(op) => match p_unary(t, i + 1, fuel) {
            Ok((r, j)) => if i < j <= t.len() {
                p_term_tail(t, j, ExprM::Binary(op, Box::new(left), Box::new(r)), fuel)
            } else {
                Ok((left, i))
            },
            Err(x) => Err(x),
        },
        None => Ok((left, i)),
    }
}

/// `unary ::= "-" unary | "(" expr ")" | number | variable | atom | name`.
pub open spec fn p_unary(t: Seq<TokRead>, i: int, fuel: nat) -> Result<(ExprM, int), Stop>
    decreases fuel, 0nat, 0int,
{
    if fuel == 0 {
        Err((i, "Expression nested too deeply."@))
    } else {
        let f = (fuel - 1) as nat;
        match kind_at(t, i) {
            Some(TokKind::Minus) => match p_unary(t, i + 1, f) {
                Ok((e, j)) => Ok((ExprM::Neg(Box::new(e)), j)),
                Err(x) => Err(x),
            },
            Some(TokKind::LParen) => match p_expr(t, i + 1, f) {
                Ok((e, j)) => if kind_at(t, j) == Some(TokKind::RParen) {
                    Ok((e, j + 1))
                } else {
                    Err((j, "Expected RParen."@))
                },
                Err(x) => Err(x),
            },
            Some(TokKind::Num) => if literal_ok(t[i].1) {
                Ok((ExprM::Number(literal_value(t[i].1)), i + 1))
            } else {
                Err((i, "Malformed number."@))
            },
            Some(TokKind::Var) => Ok((ExprM::Var(t[i].1), i + 1)),
            Some(TokKind::Ident) => if kind_at(t, i + 1) == Some(TokKind::LParen) {
                match p_atom(t, i, f) {
                    Ok((a, j)) => Ok((ExprM::Atom(a), j)),
                    Err(x) => Err(x),
                }
            } else {
                Ok((ExprM::Ident(t[i].1), i + 1))
            },
            _ => Err((i, "Expected one of Minus, LParen, Number, Var, Ident."@)),
        }
    }
}

pub open spec fn p_relop(t: Seq<TokRead>, i: int) -> Result<(RelOp, int), Stop> {
    match rel_op(kind_at(t, i)) {
        Some(op) => Ok((op, i + 1)),
        None => Err((i, "Expected one of Eq, Neq, Lt, Gt, Le, Ge, Plus, Minus, Star, Slash."@)),
    }
}

/// Constraints `expr relop expr` separated by commas, after `acc`.
pub open spec fn p_constraints(t: Seq<TokRead>, i: int, acc: Seq<ConstraintM>, fuel: nat) -> Result<(Seq<ConstraintM>, int), Stop>
    decreases t.len() - i,
{
    match p_expr(t, i, fuel) {
        Ok((l, j)) => match p_relop(t, j) {
            Ok((op, k)) => match p_expr(t, k, fuel) {
                Ok((r, m)) => {
                    let acc2 = acc.push(ConstraintM { left: l, op, right: r });
                    if kind_at(t, m) == Some(TokKind::Comma) && i < m + 1 <= t.len() {
                        p_constraints(t, m + 1, acc2, fuel)
                    } else {
                        Ok((acc2, m))
                    }
                },
                Err(x) => Err(x),
            },
            Err(x) => Err(x),
        },
        Err(x) => Err(x),
    }
}

/// `"{" constraint {"," constraint} "}"`.
pub open spec fn p_block(t: Seq<TokRead>, i: int, fuel: nat) -> Result<(Seq<ConstraintM>, int), Stop> {
    if kind_at(t, i) != Some(TokKind::LBrace) {
        Err((i, "Expected LBrace."@))
    } else {
        match p_constraints(t, i + 1, Seq::empty(), fuel) {
            Ok((cs, j)) => if kind_at(t, j) == Some(TokKind::RBrace) {
                Ok((cs, j + 1))
            } else {
                Err((j, "Expected one of Comma, RBrace."@))
            },
            Err(x) => Err(x),
        }
    }
}

/// One goal: a constraint block or an atom.
pub open spec fn p_goal(t: Seq<TokRead>, i: int, fuel: nat) -> Result<(GoalM, int), Stop> {
    if kind_at(t, i) == Some(TokKind::LBrace) {
        match p_block(t, i, fuel) {
            Ok((c, j)) => Ok((GoalM::Constraint(c), j)),
            Err(x) => Err(x),
        }
    } else if kind_at(t, i) == Some(TokKind::Ident) {
        match p_atom(t, i, fuel) {
            Ok((a, j)) => Ok((GoalM::Atom(a), j)),
            Err(x) => Err(x),
        }
    } else {
        Err((i, "Expected one of Ident, LBrace."@))
    }
}

/// Goals separated by commas, after `acc`.
pub open spec fn p_goals(t: Seq<TokRead>, i: int, acc: Seq<GoalM>, fuel: nat) -> Result<(Seq<GoalM>, int), Stop>
    decreases t.len() - i,
{
    match p_goal(t, i, fuel) {
        Ok((g, j)) => if kind_at(t, j) == Some(TokKind::Comma) && i < j + 1 <= t.len() {
            p_goals(t, j + 1, acc.push(g), fuel)
        } else {
            Ok((acc.push(g), j))
        },
        Err(x) => Err(x),
    }
}

pub open spec fn goals_constrained(b: Seq<GoalM>) -> bool {
    exists|j: int| 0 <= j < b.len() && (#[trigger] b[j]) is Constraint
}

/// One clause, ended by a dot: a query `?- goals.`, a constraint fact
/// `{..}.` or implication `{..} => atom.`, a fact `atom.`, or a rule
/// `atom :- goals.` (a constraint rule when a goal is a block).
pub open spec fn p_clause(t: Seq<TokRead>, i: int, fuel: nat) -> Result<(ClauseM, int), Stop> {
    match kind_at(t, i) {
        Some(TokKind::Ask) => match p_goals(t, i + 1, Seq::empty(), fuel) {
            Ok((b, j)) => if kind_at(t, j) == Some(TokKind::Dot) {
                Ok((ClauseM::Query(b), j + 1))
            } else {
                Err((j, "Expected one of Comma, Dot."@))
            },
            Err(x) => Err(x),
        },
        Some(TokKind::LBrace) => match p_block(t, i, fuel) {
            Ok((c, j)) => if kind_at(t, j) == Some(TokKind::Implies) {
                match p_atom(t, j + 1, fuel) {
                    Ok((h, k)) => if kind_at(t, k) == Some(TokKind::Dot) {
                        Ok((ClauseM::Implication(c, h), k + 1))
                    } else {
                        Err((k, "Expected Dot."@))
                    },
                    Err(x) => Err(x),
                }
            } else if kind_at(t, j) == Some(TokKind::Dot) {
                Ok((ClauseM::ConstraintFact(c), j + 1))
            } else {
                Err((j, "Expected one of Dot, Implies."@))
            },
            Err(x) => Err(x),
        },
        Some(TokKind::Ident) => match p_atom(t, i, fuel) {
            Ok((h, j)) => if kind_at(t, j) == Some(TokKind::If) {
                match p_goals(t, j + 1, Seq::empty(), fuel) {
                    Ok((b, k)) => if kind_at(t, k) == Some(TokKind::Dot) {
                        Ok((if goals_constrained(b) { ClauseM::ConstraintRule(h, b) } else { ClauseM::Rule(h, b) }, k + 1))
                    } else {
                        Err((k, "Expected one of Comma, Dot."@))
                    },
                    Err(x) => Err(x),
                }
            } else if kind_at(t, j) == Some(TokKind::Dot) {
                Ok((ClauseM::Fact(h), j + 1))
            } else {
                Err((j, "Expected one of Dot, If."@))
            },
            Err(x) => Err(x),
        },
        _ => Err((i, "Expected one of Ident, LBrace, Ask."@)),
    }
}

/// Clauses until the tokens run out, each with the offset of its first
/// token, after `acc`.
pub open spec fn p_program(t: Seq<TokRead>, i: int, acc: Seq<(ClauseM, int)>, fuel: nat) -> Result<Seq<(ClauseM, int)>, Stop>
    decreases t.len() - i,
{
    if i < 0 || i >= t.len() {
        Ok(acc)
    } else {
        match p_clause(t, i, fuel) {
            Ok((c, j)) => if j <= i {
                Err((j, "Parser made no progress."@))
            } else if j <= t.len() {
                p_program(t, j, acc.push((c, t[i].2)), fuel)
            } else {
                Ok(acc)
            },
            Err(x) => Err(x),
        }
    }
}

/// How deeply expressions may nest in a program of `n` tokens.
pub open spec fn fuel_for(n: nat) -> nat {
    if n < 1000000 {
        4 * n + 16
    } else {
        4000016
    }
}

/// Why a program cannot be read: it is too large, no token can be read at
/// an offset, or the grammar stops at an offset with a message.
pub enum ReadError {
    TooLarge,
    Lex(int),
    Syntax(int, Seq<char>),
}

/// What reading a program gives: its clauses, each with the offset where
/// it starts, or why it cannot be read.
pub open spec fn read_program(s: Seq<char>) -> Result<Seq<(ClauseM, int)>, ReadError> {
    if s.len() >= 0x4000_0000 {
        Err(ReadError::TooLarge)
    } else {
        match lex_from(s, 0) {
            Err(o) => Err(ReadError::Lex(o)),
            Ok(t) => match p_program(t, 0, Seq::empty(), fuel_for(t.len())) {
                Ok(cs) => Ok(cs),
                Err((k, m)) => Err(ReadError::Syntax(if 0 <= k < t.len() { t[k].2 } else { s.len() as int }, m)),
            },
        }
    }
}

/// `e` is positioned at offset `o` of `s`.
pub open spec fn error_at_offset(s: Seq<char>, e: ParseError, o: int) -> bool {
    &&& e.offset == Some(o as usize)
    &&& e.line == Some(line_at(s, o) as usize)
    &&& e.column == Some(column_at(s, o) as usize)
}

/// `e` is the error reading `s` gives.
pub open spec fn read_error_is(s: Seq<char>, e: ParseError) -> bool {
    match read_program(s) {
        Ok(_) => false,
        Err(ReadError::TooLarge) => e.offset == Some(0usize) && e.line == Some(1usize) && e.column == Some(1usize),
        Err(ReadError::Lex(o)) => error_at_offset(s, e, o),
        Err(ReadError::Syntax(o, m)) => error_at_offset(s, e, o) && e.message@ == m,
    }
}

// --- the parser ----------------------------------------------------------------

struct Parser {
    toks: Vec<Tok>,
    pos: usize,
    /// Position reported at the end of input.
    end_line: usize,
    end_column: usize,
    end_offset: usize,
}

impl Parser {
    spec fn inv(&self) -> bool {
        &&& self.pos <= self.toks@.len()
        &&& self.toks@.len() < 0x4000_0000
        &&& self.end_line >= 1
        &&& self.end_column >= 1
        &&& forall|k: int| 0 <= k < self.toks@.len() ==> tok_wf(#[trigger] self.toks@[k])
    }

    /// The tokens as the grammar reads them.
    spec fn tr(&self) -> Seq<TokRead> {
        toks_read(self.toks@)
    }

    /// The same input, wherever the position.
    spec fn same(self, o: Parser) -> bool {
        &&& self.toks == o.toks
        &&& self.end_line == o.end_line
        &&& self.end_column == o.end_column
        &&& self.end_offset == o.end_offset
    }

    /// `e` reports the stop `st`: its message, at its token or at the end
    /// of input.
    spec fn stopped(&self, e: ParseError, st: Stop) -> bool {
        &&& e.message@ == st.1
        &&& 0 <= st.0 <= self.toks@.len()
        &&& st.0 < self.toks@.len() ==> e.offset == Some(self.toks@[st.0].offset)
            && e.line == Some(self.toks@[st.0].line) && e.column == Some(self.toks@[st.0].column)
        &&& st.0 == self.toks@.len() ==> e.offset == Some(self.end_offset)
            && e.line == Some(self.end_line) && e.column == Some(self.end_column)
    }

    proof fn lemma_kind(&self, i: int)
        requires
            0 <= i < self.toks@.len(),
        ensures
            kind_at(self.tr(), i) == Some(self.toks@[i].kind),
            self.tr()[i] == tok_read(self.toks@[i]),
            self.tr().len() == self.toks@.len(),
    {
    }

    fn peek(&self) -> (k: Option<TokKind>)
        requires
            self.inv(),
        ensures
            k == kind_at(self.tr(), self.pos as int),
            k is Some <==> self.pos < self.toks@.len(),
            k matches Some(kk) ==> kk == self.toks@[self.pos as int].kind,
    {
        if self.pos < self.toks.len() {
            proof {
                self.lemma_kind(self.pos as int);
            }
            Some(self.toks[self.pos].kind)
        } else {
            None
        }
    }

    fn at(&self, kind: TokKind) -> (b: bool)
        requires
            self.inv(),
        ensures
            b == (kind_at(self.tr(), self.pos as int) == Some(kind)),
            b == (self.pos < self.toks@.len() && self.toks@[self.pos as int].kind == kind),
    {
        if self.pos < self.toks.len() {
            proof {
                self.lemma_kind(self.pos as int);
            }
            self.toks[self.pos].kind == kind
        } else {
            false
        }
    }

    fn peek2(&self) -> (k: Option<TokKind>)
        requires
            self.inv(),
        ensures
            k == kind_at(self.tr(), self.pos + 1),
    {
        if self.pos < self.toks.len() && self.toks.len() - self.pos > 1 {
            proof {
                self.lemma_kind(self.pos + 1);
            }
            Some(self.toks[self.pos + 1].kind)
        } else {
            None
        }
    }

    /// An error at the current token (or at the end of input).
    fn fail(&self, msg: &str) -> (e: ParseError)
        requires
            self.inv(),
        ensures
            positioned(e),
            self.stopped(e, (self.pos as int, msg@)),
    {
        if self.pos < self.toks.len() {
            let t = &self.toks[self.pos];
            error_at(t.line, t.column, t.offset, msg)
        } else {
            error_at(self.end_line, self.end_column, self.end_offset, msg)
        }
    }

    fn expect(&mut self, kind: TokKind, msg: &str) -> (r: Result<(), ParseError>)
        requires
            old(self).inv(),
        ensures
            final(self).inv(),
            final(self).same(*old(self)),
            final(self).pos >= old(self).pos,
            r is Ok <==> kind_at(old(self).tr(), old(self).pos as int) == Some(kind),
            r is Ok ==> final(self).pos == old(self).pos + 1,
            r matches Err(e) ==> positioned(e) && final(self).stopped(e, (old(self).pos as int, msg@)),
    {
        if self.at(kind) {
            self.pos = self.pos + 1;
            Ok(())
        } else {
            Err(self.fail(msg))
        }
    }

    fn name_string(&self, i: usize) -> (s: String)
        requires
            self.inv(),
            i < self.toks@.len(),
        ensures
            s@ == self.toks@[i as int].text@,
            s@ == self.tr()[i as int].1,
    {
        proof {
            self.lemma_kind(i as int);
        }
        string_from_chars(&self.toks[i].text)
    }

    /// `atom ::= name "(" [expr {"," expr}] ")"`, at an identifier.
    fn atom(&mut self, fuel: usize) -> (r: Result<Atom, ParseError>)
        requires
            old(self).inv(),
        ensures
            final(self).inv(),
            final(self).same(*old(self)),
            final(self).pos >= old(self).pos,
            r is Ok ==> final(self).pos > old(self).pos,
            r matches Ok(a) ==> atom_wf(a),
            r matches Ok(a) ==> p_atom(old(self).tr(), old(self).pos as int, fuel as nat) matches Ok((m, j))
                && j == final(self).pos && atom_is(a, m),
            r matches Err(e) ==> positioned(e),
            r matches Err(e) ==> p_atom(old(self).tr(), old(self).pos as int, fuel as nat) matches Err(st)
                && final(self).stopped(e, st),
        decreases fuel, 3nat,
    {
        let ghost t = self.tr();
        let ghost i = self.pos as int;
        if self.peek() != Some(TokKind::Ident) {
            return Err(self.fail("Expected a predicate name."));
        }
        let name = self.name_string(self.pos);
        self.pos = self.pos + 1;
        self.expect(TokKind::LParen, "Expected LParen.")?;
        let mut args: Vec<Expr> = Vec::new();
        if self.at(TokKind::RParen) {
            self.pos = self.pos + 1;
            let a = Atom { name, args };
            assert(atom_is(a, AtomM { name: t[i].1, args: Seq::empty() }));
            return Ok(a);
        }
        if fuel == 0 {
            return Err(self.fail("Expression nested too deeply."));
        }
        let ghost f = (fuel - 1) as nat;
        let ghost mut am: Seq<ExprM> = Seq::empty();
        loop
            invariant_except_break
                p_args(t, i + 2, Seq::empty(), f) == p_args(t, self.pos as int, am, f),
            invariant
                self.inv(),
                fuel > 0,
                f == fuel - 1,
                self.same(*old(self)),
                t == self.tr(),
                t == old(self).tr(),
                self.pos > old(self).pos,
                kind_at(t, i) == Some(TokKind::Ident),
                kind_at(t, i + 1) == Some(TokKind::LParen),
                kind_at(t, i + 2) != Some(TokKind::RParen),
                i == old(self).pos,
                name@ == t[i].1,
                args@.len() == am.len(),
                forall|j: int| 0 <= j < args@.len() ==> expr_wf(#[trigger] args@[j]),
                forall|j: int| 0 <= j < args@.len() ==> expr_is(#[trigger] args@[j], am[j]),
            ensures
                self.inv(),
                self.same(*old(self)),
                t == self.tr(),
                self.pos > old(self).pos,
                args@.len() == am.len(),
                forall|j: int| 0 <= j < args@.len() ==> expr_wf(#[trigger] args@[j]),
                forall|j: int| 0 <= j < args@.len() ==> expr_is(#[trigger] args@[j], am[j]),
                p_args(t, i + 2, Seq::empty(), f) == Ok::<(Seq<ExprM>, int), Stop>((am, self.pos as int)),
            decreases self.toks@.len() - self.pos,
        {
            let ghost p0 = self.pos as int;
            let e = self.expr(fuel - 1)?;
            let ghost em = p_expr(t, p0, f)->Ok_0.0;
            args.push(e);
            proof {
                am = am.push(em);
            }
            if self.at(TokKind::Comma) {
                proof {
                    self.lemma_kind(self.pos as int);
                }
                self.pos = self.pos + 1;
            } else {
                break;
            }
        }
        self.expect(TokKind::RParen, "Expected one of Comma, RParen.")?;
        let a = Atom { name, args };
        assert(atom_is(a, AtomM { name: t[i].1, args: am }));
        Ok(a)
    }

    /// `expr ::= term {("+" | "-") term}`, left-associative.
    fn expr(&mut self, fuel: usize) -> (r: Result<Expr, ParseError>)
        requires
            old(self).inv(),
        ensures
            final(self).inv(),
            final(self).same(*old(self)),
            final(self).pos >= old(self).pos,
            r is Ok ==> final(self).pos > old(self).pos,
            r matches Ok(e) ==> expr_wf(e),
            r matches Ok(e) ==> p_expr(old(self).tr(), old(self).pos as int, fuel as nat) matches Ok((m, j))
                && j == final(self).pos && expr_is(e, m),
            r matches Err(e) ==> positioned(e),
            r matches Err(e) ==> p_expr(old(self).tr(), old(self).pos as int, fuel as nat) matches Err(st)
                && final(self).stopped(e, st),
        decreases fuel, 2nat,
    {
        let ghost t = self.tr();
        let ghost i = self.pos as int;
        let ghost f = fuel as nat;
        let mut left = self.term(fuel)?;
        let ghost mut lm = p_term(t, i, f)->Ok_0.0;
        loop
            invariant
                self.inv(),
                self.same(*old(self)),
                t == self.tr(),
                t == old(self).tr(),
                i == old(self).pos,
                f == fuel,
                self.pos > old(self).pos,
                expr_wf(left),
                expr_is(left, lm),
                p_expr(t, i, f) == p_expr_tail(t, self.pos as int, lm, f),
            ensures
                self.inv(),
                self.same(*old(self)),
                t == self.tr(),
                self.pos > old(self).pos,
                expr_wf(left),
                expr_is(left, lm),
                p_expr(t, i, f) == Ok::<(ExprM, int), Stop>((lm, self.pos as int)),
            decreases self.toks@.len() - self.pos,
        {
            let op = match self.peek() {
                Some(TokKind::Plus) => ArithOp::Add,
                Some(TokKind::Minus) => ArithOp::Sub,
                _ => break,
            };
            let ghost p0 = self.pos as int;
            self.pos = self.pos + 1;
            let right = self.term(fuel)?;
            let ghost rm = p_term(t, p0 + 1, f)->Ok_0.0;
            left = Expr::Binary { op, left: Box::new(left), right: Box::new(right) };
            proof {
                lm = ExprM::Binary(op, Box::new(lm), Box::new(rm));
            }
        }
        Ok(left)
    }

    /// `term ::= unary {("*" | "/") unary}`, left-associative.
    fn term(&mut self, fuel: usize) -> (r: Result<Expr, ParseError>)
        requires
            old(self).inv(),
        ensures
            final(self).inv(),
            final(self).same(*old(self)),
            final(self).pos >= old(self).pos,
            r is Ok ==> final(self).pos > old(self).pos,
            r matches Ok(e) ==> expr_wf(e),
            r matches Ok(e) ==> p_term(old(self).tr(), old(self).pos as int, fuel as nat) matches Ok((m, j))
                && j == final(self).pos && expr_is(e, m),
            r matches Err(e) ==> positioned(e),
            r matches Err(e) ==> p_term(old(self).tr(), old(self).pos as int, fuel as nat) matches Err(st)
                && final(self).stopped(e, st),
        decreases fuel, 1nat,
    {
        let ghost t = self.tr();
        let ghost i = self.pos as int;
        let ghost f = fuel as nat;
        let mut left = self.unary(fuel)?;
        let ghost mut lm = p_unary(t, i, f)->Ok_0.0;
        loop
            invariant
                self.inv(),
                self.same(*old(self)),
                t == self.tr(),
                t == old(self).tr(),
                i == old(self).pos,
                f == fuel,
                self.pos > old(self).pos,
                expr_wf(left),
                expr_is(left, lm),
                p_term(t, i, f) == p_term_tail(t, self.pos as int, lm, f),
            ensures
                self.inv(),
                self.same(*old(self)),
                t == self.tr(),
                self.pos > old(self).pos,
                expr_wf(left),
                expr_is(left, lm),
                p_term(t, i, f) == Ok::<(ExprM, int), Stop>((lm, self.pos as int)),
            decreases self.toks@.len() - self.pos,
        {
            let op = match self.peek() {
                Some(TokKind::Star) => ArithOp::Mul,
                Some(TokKind::Slash) => ArithOp::Div,
                _ => break,
            };
            let ghost p0 = self.pos as int;
            self.pos = self.pos + 1;
            let right = self.unary(fuel)?;
            let ghost rm = p_unary(t, p0 + 1, f)->Ok_0.0;
            left = Expr::Binary { op, left: Box::new(left), right: Box::new(right) };
            proof {
                lm = ExprM::Binary(op, Box::new(lm), Box::new(rm));
            }
        }
        Ok(left)
    }

    /// `unary ::= "-" unary | primary`.
    fn unary(&mut self, fuel: usize) -> (r: Result<Expr, ParseError>)
        requires
            old(self).inv(),
        ensures
            final(self).inv(),
            final(self).same(*old(self)),
            final(self).pos >= old(self).pos,
            r is Ok ==> final(self).pos > old(self).pos,
            r matches Ok(e) ==> expr_wf(e),
            r matches Ok(e) ==> p_unary(old(self).tr(), old(self).pos as int, fuel as nat) matches Ok((m, j))
                && j == final(self).pos && expr_is(e, m),
            r matches Err(e) ==> positioned(e),
            r matches Err(e) ==> p_unary(old(self).tr(), old(self).pos as int, fuel as nat) matches Err(st)
                && final(self).stopped(e, st),
        decreases fuel, 0nat,
    {
        let ghost t = self.tr();
        let ghost i = self.pos as int;
        if fuel == 0 {
            return Err(self.fail("Expression nested too deeply."));
        }
        let ghost f = (fuel - 1) as nat;
        match self.peek() {
            Some(TokKind::Minus) => {
                self.pos = self.pos + 1;
                let e = self.unary(fuel - 1)?;
                let ghost em = p_unary(t, i + 1, f)->Ok_0.0;
                let n = Expr::Neg(Box::new(e));
                assert(expr_is(n, ExprM::Neg(Box::new(em))));
                Ok(n)
            },
            Some(TokKind::LParen) => {
                self.pos = self.pos + 1;
                let e = self.expr(fuel - 1)?;
                self.expect(TokKind::RParen, "Expected RParen.")?;
                Ok(e)
            },
            Some(TokKind::Num) => {
                let text = string_from_chars(&self.toks[self.pos].text);
                proof {
                    self.lemma_kind(i);
                }
                match Number::from_literal(text.as_str()) {
                    Ok(n) => {
                        self.pos = self.pos + 1;
                        Ok(Expr::Number(n))
                    },
                    Err(_) => Err(self.fail("Malformed number.")),
                }
            },
            Some(TokKind::Var) => {
                let v = self.name_string(self.pos);
                self.pos = self.pos + 1;
                Ok(Expr::Var(v))
            },
            Some(TokKind::Ident) => {
                if matches!(self.peek2(), Some(TokKind::LParen)) {
                    let a = self.atom(fuel - 1)?;
                    let ghost am = p_atom(t, i, f)->Ok_0.0;
                    let x = Expr::Atom(Box::new(a));
                    assert(expr_is(x, ExprM::Atom(am)));
                    Ok(x)
                } else {
                    let name = self.name_string(self.pos);
                    self.pos = self.pos + 1;
                    Ok(Expr::Ident(name))
                }
            },
            _ => Err(self.fail("Expected one of Minus, LParen, Number, Var, Ident.")),
        }
    }

    fn relop(&mut self) -> (r: Result<RelOp, ParseError>)
        requires
            old(self).inv(),
        ensures
            final(self).inv(),
            final(self).pos >= old(self).pos,
            final(self).same(*old(self)),
            r matches Ok(op) ==> p_relop(old(self).tr(), old(self).pos as int) == Ok::<(RelOp, int), Stop>((op, final(self).pos as int)),
            r matches Err(e) ==> positioned(e),
            r matches Err(e) ==> p_relop(old(self).tr(), old(self).pos as int) matches Err(st)
                && final(self).stopped(e, st),
    {
        let op = match self.peek() {
            Some(TokKind::Eq) => RelOp::Eq,
            Some(TokKind::Neq) => RelOp::Neq,
            Some(TokKind::Lt) => RelOp::Lt,
            Some(TokKind::Gt) => RelOp::Gt,
            Some(TokKind::Le) => RelOp::Le,
            Some(TokKind::Ge) => RelOp::Ge,
            _ => {
                return Err(self.fail(
                    "Expected one of Eq, Neq, Lt, Gt, Le, Ge, Plus, Minus, Star, Slash.",
                ));
            },
        };
        self.pos = self.pos + 1;
        Ok(op)
    }

    /// `"{" constraint {"," constraint} "}"`, at the opening brace.
    fn block(&mut self, fuel: usize) -> (r: Result<ConstraintExpr, ParseError>)
        requires
            old(self).inv(),
        ensures
            final(self).inv(),
            final(self).same(*old(self)),
            final(self).pos >= old(self).pos,
            r is Ok ==> final(self).pos > old(self).pos,
            r matches Ok(c) ==> block_wf(c),
            r matches Ok(c) ==> p_block(old(self).tr(), old(self).pos as int, fuel as nat) matches Ok((m, j))
                && j == final(self).pos && block_is(c, m),
            r matches Err(e) ==> positioned(e),
            r matches Err(e) ==> p_block(old(self).tr(), old(self).pos as int, fuel as nat) matches Err(st)
                && final(self).stopped(e, st),
    {
        let ghost t = self.tr();
        let ghost i = self.pos as int;
        let ghost f = fuel as nat;
        self.expect(TokKind::LBrace, "Expected LBrace.")?;
        let mut terms: Vec<Constraint> = Vec::new();
        let ghost mut cm: Seq<ConstraintM> = Seq::empty();
        loop
            invariant_except_break
                p_constraints(t, i + 1, Seq::empty(), f) == p_constraints(t, self.pos as int, cm, f),
            invariant
                self.inv(),
                self.same(*old(self)),
                t == self.tr(),
                t == old(self).tr(),
                i == old(self).pos,
                f == fuel,
                kind_at(t, i) == Some(TokKind::LBrace),
                self.pos > old(self).pos,
                terms@.len() == cm.len(),
                forall|j: int| 0 <= j < terms@.len() ==> expr_wf((#[trigger] terms@[j]).left) && expr_wf(terms@[j].right),
                forall|j: int| 0 <= j < terms@.len() ==> constraint_is(#[trigger] terms@[j], cm[j]),
            ensures
                self.inv(),
                self.same(*old(self)),
                t == self.tr(),
                self.pos > old(self).pos,
                terms@.len() > 0,
                terms@.len() == cm.len(),
                forall|j: int| 0 <= j < terms@.len() ==> expr_wf((#[trigger] terms@[j]).left) && expr_wf(terms@[j].right),
                forall|j: int| 0 <= j < terms@.len() ==> constraint_is(#[trigger] terms@[j], cm[j]),
                p_constraints(t, i + 1, Seq::empty(), f) == Ok::<(Seq<ConstraintM>, int), Stop>((cm, self.pos as int)),
            decreases self.toks@.len() - self.pos,
        {
            let ghost p0 = self.pos as int;
            let left = self.expr(fuel)?;
            let ghost lm = p_expr(t, p0, f)->Ok_0.0;
            let ghost p1 = self.pos as int;
            let op = self.relop()?;
            let ghost p2 = self.pos as int;
            let right = self.expr(fuel)?;
            let ghost rm = p_expr(t, p2, f)->Ok_0.0;
            let c = Constraint { left, op, right };
            let ghost one = ConstraintM { left: lm, op, right: rm };
            assert(constraint_is(c, one));
            terms.push(c);
            proof {
                cm = cm.push(one);
            }
            if self.at(TokKind::Comma) {
                proof {
                    self.lemma_kind(self.pos as int);
                }
                self.pos = self.pos + 1;
            } else {
                break;
            }
        }
        self.expect(TokKind::RBrace, "Expected one of Comma, RBrace.")?;
        Ok(ConstraintExpr { terms })
    }

    /// `goal {"," goal}`; a goal is an atom or a constraint block.
    fn body(&mut self, fuel: usize) -> (r: Result<Vec<Goal>, ParseError>)
        requires
            old(self).inv(),
        ensures
            final(self).inv(),
            final(self).same(*old(self)),
            final(self).pos >= old(self).pos,
            r matches Ok(b) ==> body_wf(b@),
            r matches Ok(b) ==> p_goals(old(self).tr(), old(self).pos as int, Seq::empty(), fuel as nat) matches Ok((m, j))
                && j == final(self).pos && goals_is(b@, m),
            r matches Err(e) ==> positioned(e),
            r matches Err(e) ==> p_goals(old(self).tr(), old(self).pos as int, Seq::empty(), fuel as nat) matches Err(st)
                && final(self).stopped(e, st),
    {
        let ghost t = self.tr();
        let ghost i = self.pos as int;
        let ghost f = fuel as nat;
        let mut goals: Vec<Goal> = Vec::new();
        let ghost mut gm: Seq<GoalM> = Seq::empty();
        loop
            invariant_except_break
                p_goals(t, i, Seq::empty(), f) == p_goals(t, self.pos as int, gm, f),
            invariant
                self.inv(),
                self.same(*old(self)),
                t == self.tr(),
                t == old(self).tr(),
                i == old(self).pos,
                f == fuel,
                self.pos >= old(self).pos,
                goals@.len() == gm.len(),
                forall|j: int| 0 <= j < goals@.len() ==> goal_wf(#[trigger] goals@[j]),
                forall|j: int| 0 <= j < goals@.len() ==> goal_is(#[trigger] goals@[j], gm[j]),
            ensures
                self.inv(),
                self.same(*old(self)),
                t == self.tr(),
                self.pos >= old(self).pos,
                goals@.len() > 0,
                goals@.len() == gm.len(),
                forall|j: int| 0 <= j < goals@.len() ==> goal_wf(#[trigger] goals@[j]),
                forall|j: int| 0 <= j < goals@.len() ==> goal_is(#[trigger] goals@[j], gm[j]),
                p_goals(t, i, Seq::empty(), f) == Ok::<(Seq<GoalM>, int), Stop>((gm, self.pos as int)),
            decreases self.toks@.len() - self.pos,
        {
            let ghost p0 = self.pos as int;
            let g = if self.at(TokKind::LBrace) {
                let c = self.block(fuel)?;
                let ghost m = p_block(t, p0, f)->Ok_0.0;
                assert(goal_is(Goal::Constraint(c), GoalM::Constraint(m)));
                Goal::Constraint(c)
            } else if self.at(TokKind::Ident) {
                let a = self.atom(fuel)?;
                let ghost m = p_atom(t, p0, f)->Ok_0.0;
                assert(goal_is(Goal::Atom(a), GoalM::Atom(m)));
                Goal::Atom(a)
            } else {
                return Err(self.fail("Expected one of Ident, LBrace."));
            };
            let ghost one = p_goal(t, p0, f)->Ok_0.0;
            goals.push(g);
            proof {
                gm = gm.push(one);
            }
            if self.at(TokKind::Comma) {
                proof {
                    self.lemma_kind(self.pos as int);
                }
                self.pos = self.pos + 1;
            } else {
                break;
            }
        }
        Ok(goals)
    }

    /// One clause.
    fn clause(&mut self, fuel: usize) -> (r: Result<Clause, ParseError>)
        requires
            old(self).inv(),
            old(self).pos < old(self).toks@.len(),
        ensures
            final(self).inv(),
            final(self).same(*old(self)),
            r matches Ok(c) ==> clause_wf(c),
            r matches Ok(c) ==> p_clause(old(self).tr(), old(self).pos as int, fuel as nat) matches Ok((m, j))
                && j == final(self).pos && clause_is(c, m),
            r matches Err(e) ==> positioned(e),
            r matches Err(e) ==> p_clause(old(self).tr(), old(self).pos as int, fuel as nat) matches Err(st)
                && final(self).stopped(e, st),
    {
        let ghost t = self.tr();
        let ghost i = self.pos as int;
        let ghost f = fuel as nat;
        match self.peek() {
            Some(TokKind::Ask) => {
                self.pos = self.pos + 1;
                let body = self.body(fuel)?;
                let ghost bm = p_goals(t, i + 1, Seq::empty(), f)->Ok_0.0;
                self.expect(TokKind::Dot, "Expected one of Comma, Dot.")?;
                let c = Clause::Query(body);
                assert(clause_is(c, ClauseM::Query(bm)));
                Ok(c)
            },
            Some(TokKind::LBrace) => {
                let c = self.block(fuel)?;
                let ghost cm = p_block(t, i, f)->Ok_0.0;
                let ghost j = self.pos as int;
                if self.at(TokKind::Implies) {
                    self.pos = self.pos + 1;
                    let head = self.atom(fuel)?;
                    let ghost hm = p_atom(t, j + 1, f)->Ok_0.0;
                    self.expect(TokKind::Dot, "Expected Dot.")?;
                    let x = Clause::Implication { constraint: c, head };
                    assert(clause_is(x, ClauseM::Implication(cm, hm)));
                    Ok(x)
                } else {
                    self.expect(TokKind::Dot, "Expected one of Dot, Implies.")?;
                    let x = Clause::ConstraintFact(c);
                    assert(clause_is(x, ClauseM::ConstraintFact(cm)));
                    Ok(x)
                }
            },
            Some(TokKind::Ident) => {
                let head = self.atom(fuel)?;
                let ghost hm = p_atom(t, i, f)->Ok_0.0;
                let ghost j = self.pos as int;
                if self.at(TokKind::If) {
                    self.pos = self.pos + 1;
                    let body = self.body(fuel)?;
                    let ghost bm = p_goals(t, j + 1, Seq::empty(), f)->Ok_0.0;
                    self.expect(TokKind::Dot, "Expected one of Comma, Dot.")?;
                    let constrained = body_has_constraint(&body);
                    proof {
                        lemma_constrained(body@, bm);
                    }
                    if constrained {
                        let x = Clause::ConstraintRule { head, body };
                        assert(clause_is(x, ClauseM::ConstraintRule(hm, bm)));
                        Ok(x)
                    } else {
                        let x = Clause::Rule { head, body };
                        assert(clause_is(x, ClauseM::Rule(hm, bm)));
                        Ok(x)
                    }
                } else {
                    self.expect(TokKind::Dot, "Expected one of Dot, If.")?;
                    let x = Clause::Fact(head);
                    assert(clause_is(x, ClauseM::Fact(hm)));
                    Ok(x)
                }
            },
            _ => Err(self.fail("Expected one of Ident, LBrace, Ask.")),
        }
    }
}

/// A body holds a constraint block exactly when the tree it reads as does.
proof fn lemma_constrained(b: Seq<Goal>, m: Seq<GoalM>)
    requires
        goals_is(b, m),
    ensures
        has_constraint(b) == goals_constrained(m),
{
    if has_constraint(b) {
        let j = choose|j: int| 0 <= j < b.len() && (#[trigger] b[j]) is Constraint;
        assert(goal_is(b[j], m[j]));
        assert(m[j] is Constraint);
    }
    if goals_constrained(m) {
        let j = choose|j: int| 0 <= j < m.len() && (#[trigger] m[j]) is Constraint;
        assert(goal_is(b[j], m[j]));
        assert(b[j] is Constraint);
    }
}

fn body_has_constraint(body: &Vec<Goal>) -> (b: bool)
    ensures
        b == has_constraint(body@),
{
    let mut i: usize = 0;
    while i < body.len()
        invariant
            i <= body.len(),
            forall|j: int| 0 <= j < i ==> !(#[trigger] body@[j] is Constraint),
        decreases body.len() - i,
    {
        if let Goal::Constraint(_) = &body[i] {
            assert(body@[i as int] is Constraint);
            return true;
        }
        i = i + 1;
    }
    false
}

/// Parse a whole program, each clause with the position where it starts.
pub fn parse_program_spanned(input: &str) -> (r: Result<Vec<(Clause, Span)>, ParseError>)
    ensures
        r is Ok <==> read_program(input@) is Ok,
        r matches Ok(v) ==> read_program(input@) matches Ok(cs) && v@.len() == cs.len()
            && forall|i: int| 0 <= i < cs.len() ==> clause_is((#[trigger] v@[i]).0, cs[i].0)
                && v@[i].1.line == line_at(input@, cs[i].1) && v@[i].1.column == column_at(input@, cs[i].1),
        r matches Ok(v) ==> forall|i: int| 0 <= i < v@.len() ==>
            clause_wf((#[trigger] v@[i]).0) && v@[i].1.line >= 1 && v@[i].1.column >= 1,
        r matches Err(e) ==> positioned(e) && read_error_is(input@, e),
{
    let s = chars_of(input);
    let toks = tokenize(&s)?;
    let mut line: usize = 1;
    let mut col: usize = 1;
    let mut k: usize = 0;
    proof {
        assert(s@.take(0) =~= Seq::<char>::empty());
    }
    while k < s.len()
        invariant
            s.len() < 0x4000_0000,
            k <= s.len(),
            1 <= line <= k + 1,
            1 <= col <= k + 1,
            line == line_at(s@, k as int),
            col == column_at(s@, k as int),
        decreases s.len() - k,
    {
        proof {
            lemma_position_step(s@, k as int);
        }
        if s[k] == '\n' {
            line = line + 1;
            col = 1;
        } else {
            col = col + 1;
        }
        k = k + 1;
    }
    let n = toks.len();
    let mut p = Parser { toks, pos: 0, end_line: line, end_column: col, end_offset: s.len() };
    let fuel: usize = if n < 1000000 { 4 * n + 16 } else { 4000016 };
    let ghost t = p.tr();
    let ghost p0 = p;
    let ghost mut acc: Seq<(ClauseM, int)> = Seq::empty();
    let mut out: Vec<(Clause, Span)> = Vec::new();
    proof {
        assert(t.len() == n);
        assert(fuel as nat == fuel_for(t.len()));
    }
    while p.pos < p.toks.len()
        invariant
            p.inv(),
            p.same(p0),
            t == p.tr(),
            s@ == input@,
            s@.len() < 0x4000_0000,
            lex_from(s@, 0) == Ok::<Seq<TokRead>, int>(t),
            fuel as nat == fuel_for(t.len()),
            p.end_offset == s@.len(),
            p.end_line == line_at(s@, s@.len() as int),
            p.end_column == column_at(s@, s@.len() as int),
            forall|k: int| 0 <= k < p.toks@.len() ==>
                (#[trigger] p.toks@[k]).line == line_at(s@, p.toks@[k].offset as int)
                && p.toks@[k].column == column_at(s@, p.toks@[k].offset as int),
            p_program(t, 0, Seq::empty(), fuel as nat) == p_program(t, p.pos as int, acc, fuel as nat),
            out@.len() == acc.len(),
            forall|i: int| 0 <= i < acc.len() ==> clause_is((#[trigger] out@[i]).0, acc[i].0)
                && out@[i].1.line == line_at(s@, acc[i].1) && out@[i].1.column == column_at(s@, acc[i].1),
            forall|i: int| 0 <= i < out@.len() ==>
                clause_wf((#[trigger] out@[i]).0) && out@[i].1.line >= 1 && out@[i].1.column >= 1,
        decreases p.toks@.len() - p.pos,
    {
        let start = p.pos;
        proof {
            p.lemma_kind(start as int);
        }
        let span = Span { line: p.toks[start].line, column: p.toks[start].column };
        let c = p.clause(fuel)?;
        let ghost cm = p_clause(t, start as int, fuel as nat)->Ok_0.0;
        out.push((c, span));
        proof {
            acc = acc.push((cm, t[start as int].2));
        }
        if p.pos <= start {
            return Err(p.fail("Parser made no progress."));
        }
    }
    Ok(out)
}

/// Parse a whole program.
pub fn parse_program(input: &str) -> (r: Result<Vec<Clause>, ParseError>)
    ensures
        r is Ok <==> read_program(input@) is Ok,
        r matches Ok(v) ==> read_program(input@) matches Ok(cs) && v@.len() == cs.len()
            && forall|i: int| 0 <= i < cs.len() ==> clause_is(#[trigger] v@[i], cs[i].0),
        r matches Ok(v) ==> forall|i: int| 0 <= i < v@.len() ==> clause_wf(#[trigger] v@[i]),
        r matches Err(e) ==> positioned(e) && read_error_is(input@, e),
{
    let spanned = parse_program_spanned(input)?;
    let ghost cs = read_program(input@)->Ok_0;
    let mut out: Vec<Clause> = Vec::new();
    let mut rest = spanned;
    let ghost all = rest@;
    let mut taken: Vec<Clause> = Vec::new();
    let mut i: usize = 0;
    let len = rest.len();
    while i < len
        invariant
            len == all.len(),
            i <= len,
            rest@ == all.subrange(0, len - i),
            forall|j: int| 0 <= j < all.len() ==> clause_wf((#[trigger] all[j]).0),
            taken@.len() == i,
            forall|j: int| 0 <= j < i ==> #[trigger] taken@[j] == all[len - 1 - j].0,
        decreases len - i,
    {
        let (c, _) = rest.pop().unwrap();
        taken.push(c);
        i = i + 1;
        assert(rest@ =~= all.subrange(0, len - i));
    }
    while taken.len() > 0
        invariant
            taken@.len() + out@.len() == len,
            forall|j: int| 0 <= j < taken@.len() ==> #[trigger] taken@[j] == all[len - 1 - j].0,
            forall|j: int| 0 <= j < out@.len() ==> #[trigger] out@[j] == all[j].0,
            forall|j: int| 0 <= j < all.len() ==> clause_wf((#[trigger] all[j]).0),
            len == all.len(),
        decreases taken@.len(),
    {
        let c = taken.pop().unwrap();
        out.push(c);
    }
    proof {
        assert forall|j: int| 0 <= j < cs.len() implies clause_is(#[trigger] out@[j], cs[j].0) by {
            assert(clause_is(all[j].0, cs[j].0));
        }
    }
    Ok(out)
}

/// Parse exactly one clause covering the whole input. On success the
/// unconsumed rest is empty.
pub fn all_consuming_parse_clause(input: &str) -> (r: Result<(String, Clause), ParseError>)
    ensures
        r is Ok <==> (read_program(input@) matches Ok(cs) && cs.len() == 1),
        r matches Ok((rest, c)) ==> rest@.len() == 0 && clause_wf(c)
            && clause_is(c, read_program(input@)->Ok_0[0].0),
        r matches Err(e) ==> positioned(e),
        r matches Err(e) ==> read_program(input@) is Err ==> read_error_is(input@, e),
        r matches Err(e) ==> read_program(input@) is Ok ==> e.offset == Some(0usize)
            && e.line == Some(1usize) && e.column == Some(1usize) && e.message@ == "Expected exactly one clause."@,
{
    let mut clauses = parse_program(input)?;
    if clauses.len() != 1 {
        return Err(ParseError {
            line: Some(1),
            column: Some(1),
            offset: Some(0),
            message: "Expected exactly one clause.".to_string(),
        });
    }
    let c = clauses.pop().unwrap();
    Ok((String::new(), c))
}

// --- interactive input ---------------------------------------------------------

/// Whether accumulated interactive input holds whole clauses, stops short of
/// one, or is wrong.
pub enum Completeness {
    Complete(Vec<Clause>),
    /// A syntax error at the very end of the input: more lines may finish it.
    Incomplete,
    Error(ParseError),
}

pub open spec fn is_blank(c: char) -> bool {
    c == ' ' || c == '\t' || c == '\n' || c == '\r'
}

/// The length of `s` without its trailing blanks.
pub open spec fn trimmed_len(s: Seq<char>) -> nat
    decreases s.len(),
{
    if s.len() == 0 {
        0
    } else if is_blank(s.last()) {
        trimmed_len(s.drop_last())
    } else {
        s.len()
    }
}

fn trimmed_length(s: &Vec<char>) -> (n: usize)
    ensures
        n == trimmed_len(s@),
{
    let mut n = s.len();
    proof {
        assert(s@.take(n as int) =~= s@);
    }
    while n > 0 && (s[n - 1] == ' ' || s[n - 1] == '\t' || s[n - 1] == '\n' || s[n - 1] == '\r')
        invariant
            n <= s@.len(),
            trimmed_len(s@.take(n as int)) == trimmed_len(s@),
        decreases n,
    {
        proof {
            assert(s@.take(n as int).drop_last() =~= s@.take(n - 1));
        }
        n = n - 1;
    }
    proof {
        if n > 0 {
            assert(s@.take(n as int).last() == s@[n - 1]);
        }
    }
    n
}

/// Classify the outcome of parsing `buffer`: complete when it parsed,
/// incomplete when the syntax error sits at the end of the input (after
/// trailing blanks are set aside), an error otherwise.
pub fn classify(result: Result<Vec<Clause>, ParseError>, buffer: &str) -> (r: Completeness)
    ensures
        result is Ok ==> (r matches Completeness::Complete(cs) && cs == result->Ok_0),
        result is Err ==> (if (result->Err_0.offset matches Some(o) && o >= trimmed_len(buffer@)) {
            r is Incomplete
        } else {
            (r matches Completeness::Error(e2) && e2 == result->Err_0)
        }),
{
    match result {
        Ok(cs) => Completeness::Complete(cs),
        Err(e) => {
            let chars = chars_of(buffer);
            let end = trimmed_length(&chars);
            let at_end = match e.offset {
                Some(o) => o >= end,
                None => false,
            };
            if at_end {
                Completeness::Incomplete
            } else {
                Completeness::Error(e)
            }
        },
    }
}

/// Whether accumulated interactive input is complete, incomplete, or wrong
/// (see [`classify`]).
pub fn completeness(buffer: &str) -> (r: Completeness)
    ensures
        r matches Completeness::Complete(cs) ==> read_program(buffer@) matches Ok(ms) && cs@.len() == ms.len()
            && forall|i: int| 0 <= i < ms.len() ==> clause_is(#[trigger] cs@[i], ms[i].0),
        !(r is Complete) ==> read_program(buffer@) is Err,
        r matches Completeness::Complete(cs) ==> forall|i: int| 0 <= i < cs@.len() ==> clause_wf(#[trigger] cs@[i]),
        r matches Completeness::Error(e) ==> positioned(e),
        r matches Completeness::Error(e) ==> read_error_is(buffer@, e)
            && !(e.offset matches Some(o) && o >= trimmed_len(buffer@)),
        r is Incomplete ==> exists|e: ParseError| #[trigger] read_error_is(buffer@, e)
            && (e.offset matches Some(o) && o >= trimmed_len(buffer@)),
{
    let parsed = parse_program(buffer);
    let ghost p = parsed;
    let r = classify(parsed, buffer);
    proof {
        if p is Err {
            assert(read_error_is(buffer@, p->Err_0));
        }
    }
    r
}

} // verus!
