//! Machine-readable evaluation output: one JSON document per query, and
//! structured diagnostics. The shapes are three fixed objects over strings:
//!
//! - per query: `{"query": "?- ….", "outcome": "solutions" | "none",
//!   "answers": [{"equations": […], "disequations": […],
//!   "constraints": […]}, …]}` — a proof with no bindings is one answer with
//!   three empty lists;
//! - a query that fails at runtime: `{"query": "?- ….", "outcome": "error",
//!   "error": {"message": "…"}}`;
//! - a file that never runs: `{"error": {"file": "…", "line": N?,
//!   "column": N?, "message": "…"}}` — line and column only when known.

use vstd::prelude::*;
use crate::eval::Answer;
use crate::number::nat_decimal;
use crate::text::{chars_of, push_all, push_str, push_usize, string_from_chars};

verus! {

pub open spec fn hex_digit(d: nat) -> char {
    if d < 10 {
        crate::number::digit_char(d)
    } else if d == 10 {
        'a'
    } else if d == 11 {
        'b'
    } else if d == 12 {
        'c'
    } else if d == 13 {
        'd'
    } else if d == 14 {
        'e'
    } else {
        'f'
    }
}

/// How one character is written inside a JSON string (RFC 8259): `"`, `\`
/// and control characters are escaped, the common controls in their short
/// forms, the others as `\u00XX`.
pub open spec fn escape_char(c: char) -> Seq<char> {
    if c == '"' {
        seq!['\\', '"']
    } else if c == '\\' {
        seq!['\\', '\\']
    } else if c == '\n' {
        seq!['\\', 'n']
    } else if c == '\r' {
        seq!['\\', 'r']
    } else if c == '\t' {
        seq!['\\', 't']
    } else if (c as u32) < 0x20 {
        seq!['\\', 'u', '0', '0', hex_digit(((c as u32) / 16) as nat), hex_digit(((c as u32) % 16) as nat)]
    } else {
        seq![c]
    }
}

pub open spec fn escape_spec(s: Seq<char>) -> Seq<char>
    decreases s.len(),
{
    if s.len() == 0 {
        Seq::empty()
    } else {
        escape_spec(s.drop_last()) + escape_char(s.last())
    }
}

/// `"…"`, escaped.
pub open spec fn quoted(s: Seq<char>) -> Seq<char> {
    seq!['"'] + escape_spec(s) + seq!['"']
}

/// Items separated by `sep`.
pub open spec fn join_with(items: Seq<Seq<char>>, sep: Seq<char>) -> Seq<char>
    decreases items.len(),
{
    if items.len() == 0 {
        Seq::empty()
    } else if items.len() == 1 {
        items[0]
    } else {
        join_with(items.drop_last(), sep) + sep + items.last()
    }
}

/// The answer objects of a query document.
pub open spec fn answer_objects(answers: Seq<Answer>) -> Seq<Seq<char>> {
    answers.map_values(|a: Answer| answer_object_spec(a))
}

/// What a query document has before the `[` of its answers.
pub open spec fn document_head(query: Seq<char>, any: bool) -> Seq<char> {
    "{\"query\":"@ + quoted(query) + ",\"outcome\":\""@ + (if any { "solutions"@ } else { "none"@ })
        + "\",\"answers\":"@
}

/// A query document is its head, `[`, the answer objects joined and `]}`.
proof fn lemma_query_document_shape(query: Seq<char>, answers: Seq<Answer>)
    ensures
        query_document_spec(query, answers) == document_head(query, answers.len() > 0) + seq!['[']
            + join_with(answer_objects(answers), seq![',']) + seq![']', '}'],
{
    reveal_strlit("\",\"answers\":[");
    reveal_strlit("\",\"answers\":");
    reveal_strlit("]}");
    assert("\",\"answers\":["@ =~= "\",\"answers\":"@ + seq!['[']);
    assert("]}"@ =~= seq![']', '}']);
    let h0 = "{\"query\":"@ + quoted(query) + ",\"outcome\":\""@ + (if answers.len() == 0 {
        "none"@
    } else {
        "solutions"@
    });
    let j = join_with(answer_objects(answers), seq![',']);
    assert(query_document_spec(query, answers) =~= h0 + "\",\"answers\":"@ + seq!['['] + j + seq![']', '}']);
}

/// One more answer extends a query document that has answers by a comma
/// and the new answer object just before the closing `]}`: the answers form
/// a comma-separated JSON array.
pub proof fn lemma_query_document_push(query: Seq<char>, answers: Seq<Answer>, a: Answer)
    requires
        answers.len() > 0,
    ensures
        query_document_spec(query, answers.push(a)) == query_document_spec(query, answers).drop_last().drop_last()
            + seq![','] + answer_object_spec(a) + seq![']', '}'],
{
    lemma_query_document_shape(query, answers);
    lemma_query_document_shape(query, answers.push(a));
    let objs = answer_objects(answers);
    let objs2 = answer_objects(answers.push(a));
    assert(objs2 =~= objs.push(answer_object_spec(a)));
    assert(objs2.drop_last() =~= objs);
    assert(join_with(objs2, seq![',']) == join_with(objs, seq![',']) + seq![','] + answer_object_spec(a));
    let h = document_head(query, true) + seq!['['];
    let d = query_document_spec(query, answers);
    assert(d == h + join_with(objs, seq![',']) + seq![']', '}']);
    assert(d.drop_last().drop_last() =~= h + join_with(objs, seq![',']));
    assert(query_document_spec(query, answers.push(a)) =~= h + join_with(objs, seq![',']) + seq![','] + answer_object_spec(a) + seq![']', '}']);
}

/// One more string extends a non-empty JSON array of strings by a comma
/// and the new quoted string before the closing `]`.
pub proof fn lemma_array_push(items: Seq<Seq<char>>, x: Seq<char>)
    requires
        items.len() > 0,
    ensures
        array_spec(items.push(x)) == array_spec(items).drop_last() + seq![','] + quoted(x) + seq![']'],
{
    let q = items.map_values(|s: Seq<char>| quoted(s));
    let q2 = items.push(x).map_values(|s: Seq<char>| quoted(s));
    assert(q2 =~= q.push(quoted(x)));
    assert(q2.drop_last() =~= q);
    assert(join_with(q2, seq![',']) == join_with(q, seq![',']) + seq![','] + quoted(x));
    assert(array_spec(items).drop_last() =~= seq!['['] + join_with(q, seq![',']));
    assert(array_spec(items.push(x)) =~= seq!['['] + join_with(q, seq![',']) + seq![','] + quoted(x) + seq![']']);
}

/// A JSON array of one string holds that quoted string alone.
pub proof fn lemma_array_single(x: Seq<char>)
    ensures
        array_spec(seq![x]) == seq!['['] + quoted(x) + seq![']'],
{
    assert(seq![x].map_values(|s: Seq<char>| quoted(s)) =~= seq![quoted(x)]);
}

/// A document with one answer holds that answer object alone between `[`
/// and `]}`.
pub proof fn lemma_query_document_single(query: Seq<char>, a: Answer)
    ensures
        query_document_spec(query, seq![a]) == document_head(query, true) + seq!['['] + answer_object_spec(a) + seq![']', '}'],
{
    lemma_query_document_shape(query, seq![a]);
    assert(answer_objects(seq![a]) =~= seq![answer_object_spec(a)]);
}

/// `["…","…"]`.
pub open spec fn array_spec(items: Seq<Seq<char>>) -> Seq<char> {
    seq!['['] + join_with(items.map_values(|s: Seq<char>| quoted(s)), seq![',']) + seq![']']
}

pub open spec fn strings(v: Seq<String>) -> Seq<Seq<char>> {
    v.map_values(|s: String| s@)
}

pub open spec fn answer_object_spec(a: Answer) -> Seq<char> {
    "{\"equations\":"@ + array_spec(strings(a.equations@)) + ",\"disequations\":"@
        + array_spec(strings(a.disequations@)) + ",\"constraints\":"@ + array_spec(strings(a.constraints@))
        + "}"@
}

pub open spec fn query_document_spec(query: Seq<char>, answers: Seq<Answer>) -> Seq<char> {
    "{\"query\":"@ + quoted(query) + ",\"outcome\":\""@ + (if answers.len() == 0 {
        "none"@
    } else {
        "solutions"@
    }) + "\",\"answers\":["@ + join_with(answers.map_values(|a: Answer| answer_object_spec(a)), seq![','])
        + "]}"@
}

pub open spec fn query_error_document_spec(query: Seq<char>, message: Seq<char>) -> Seq<char> {
    "{\"query\":"@ + quoted(query) + ",\"outcome\":\"error\",\"error\":{\"message\":"@ + quoted(message)
        + "}}"@
}

pub open spec fn error_document_spec(file: Seq<char>, line: Option<usize>, column: Option<usize>, message: Seq<char>) -> Seq<char> {
    "{\"error\":{\"file\":"@ + quoted(file) + (match line {
        Some(l) => ",\"line\":"@ + nat_decimal(l as nat),
        None => Seq::empty(),
    }) + (match column {
        Some(c) => ",\"column\":"@ + nat_decimal(c as nat),
        None => Seq::empty(),
    }) + ",\"message\":"@ + quoted(message) + "}}"@
}

fn hex(d: u32) -> (c: char)
    requires
        d < 16,
    ensures
        c == hex_digit(d as nat),
{
    if d == 0 { '0' } else if d == 1 { '1' } else if d == 2 { '2' } else if d == 3 { '3' }
    else if d == 4 { '4' } else if d == 5 { '5' } else if d == 6 { '6' } else if d == 7 { '7' }
    else if d == 8 { '8' } else if d == 9 { '9' } else if d == 10 { 'a' } else if d == 11 { 'b' }
    else if d == 12 { 'c' } else if d == 13 { 'd' } else if d == 14 { 'e' } else { 'f' }
}

fn push_escaped_char(out: &mut Vec<char>, c: char)
    ensures
        final(out)@ == old(out)@ + escape_char(c),
{
    if c == '"' {
        out.push('\\');
        out.push('"');
    } else if c == '\\' {
        out.push('\\');
        out.push('\\');
    } else if c == '\n' {
        out.push('\\');
        out.push('n');
    } else if c == '\r' {
        out.push('\\');
        out.push('r');
    } else if c == '\t' {
        out.push('\\');
        out.push('t');
    } else if (c as u32) < 0x20 {
        let n = c as u32;
        out.push('\\');
        out.push('u');
        out.push('0');
        out.push('0');
        out.push(hex(n / 16));
        out.push(hex(n % 16));
    } else {
        out.push(c);
    }
    proof {
        assert(out@ =~= old(out)@ + escape_char(c));
    }
}

fn push_escaped(out: &mut Vec<char>, s: &str)
    ensures
        final(out)@ == old(out)@ + escape_spec(s@),
{
    let v = chars_of(s);
    let mut i: usize = 0;
    while i < v.len()
        invariant
            i <= v@.len(),
            v@ == s@,
            out@ == old(out)@ + escape_spec(v@.take(i as int)),
        decreases v@.len() - i,
    {
        proof {
            assert(v@.take(i + 1).drop_last() =~= v@.take(i as int));
        }
        push_escaped_char(out, v[i]);
        i = i + 1;
        proof {
            assert(out@ =~= old(out)@ + escape_spec(v@.take(i as int)));
        }
    }
    proof {
        assert(v@.take(v@.len() as int) =~= v@);
    }
}

/// JSON string escaping per RFC 8259: `"`, `\`, and control characters; the
/// common controls get their short forms.
pub fn escape(s: &str) -> (r: String)
    ensures
        r@ == escape_spec(s@),
{
    let mut out: Vec<char> = Vec::new();
    push_escaped(&mut out, s);
    string_from_chars(&out)
}

fn push_quoted(out: &mut Vec<char>, s: &str)
    ensures
        final(out)@ == old(out)@ + quoted(s@),
{
    out.push('"');
    push_escaped(out, s);
    out.push('"');
    proof {
        assert(out@ =~= old(out)@ + quoted(s@));
    }
}

fn push_lit(out: &mut Vec<char>, t: &str)
    ensures
        final(out)@ == old(out)@ + t@,
{
    push_str(out, t);
}

fn push_array(out: &mut Vec<char>, items: &Vec<String>)
    ensures
        final(out)@ == old(out)@ + array_spec(strings(items@)),
{
    let ghost q = strings(items@).map_values(|s: Seq<char>| quoted(s));
    out.push('[');
    let ghost start = out@;
    let mut i: usize = 0;
    while i < items.len()
        invariant
            i <= items@.len(),
            q == strings(items@).map_values(|s: Seq<char>| quoted(s)),
            out@ == start + join_with(q.take(i as int), seq![',']),
        decreases items@.len() - i,
    {
        proof {
            assert(q.take(i + 1).drop_last() =~= q.take(i as int));
            assert(q.take(i + 1).last() == quoted(items@[i as int]@));
        }
        if i > 0 {
            out.push(',');
        }
        push_quoted(out, items[i].as_str());
        i = i + 1;
        proof {
            if i == 1 {
                assert(q.take(1)[0] == quoted(items@[0]@));
            }
            assert(out@ =~= start + join_with(q.take(i as int), seq![',']));
        }
    }
    out.push(']');
    proof {
        assert(q.take(items@.len() as int) =~= q);
        assert(out@ =~= old(out)@ + array_spec(strings(items@)));
    }
}

/// A JSON array of strings.
pub fn string_array(items: &Vec<String>) -> (r: String)
    ensures
        r@ == array_spec(strings(items@)),
{
    let mut out: Vec<char> = Vec::new();
    push_array(&mut out, items);
    string_from_chars(&out)
}

fn push_answer_object(out: &mut Vec<char>, a: &Answer)
    ensures
        final(out)@ == old(out)@ + answer_object_spec(*a),
{
    push_lit(out, "{\"equations\":");
    push_array(out, &a.equations);
    push_lit(out, ",\"disequations\":");
    push_array(out, &a.disequations);
    push_lit(out, ",\"constraints\":");
    push_array(out, &a.constraints);
    push_lit(out, "}");
    proof {
        assert(out@ =~= old(out)@ + answer_object_spec(*a));
    }
}

/// One answer as a JSON object of its three lists.
pub fn answer_object(a: &Answer) -> (r: String)
    ensures
        r@ == answer_object_spec(*a),
{
    let mut out: Vec<char> = Vec::new();
    push_answer_object(&mut out, a);
    string_from_chars(&out)
}

/// The per-query document: `outcome` is `"solutions"` when any answer
/// exists, `"none"` otherwise.
pub fn query_document(query_text: &str, answers: &Vec<Answer>) -> (r: String)
    ensures
        r@ == query_document_spec(query_text@, answers@),
{
    let ghost objs = answers@.map_values(|a: Answer| answer_object_spec(a));
    let mut out: Vec<char> = Vec::new();
    push_lit(&mut out, "{\"query\":");
    push_quoted(&mut out, query_text);
    push_lit(&mut out, ",\"outcome\":\"");
    if answers.len() == 0 {
        push_lit(&mut out, "none");
    } else {
        push_lit(&mut out, "solutions");
    }
    push_lit(&mut out, "\",\"answers\":[");
    let ghost start = out@;
    let mut i: usize = 0;
    while i < answers.len()
        invariant
            i <= answers@.len(),
            objs == answers@.map_values(|a: Answer| answer_object_spec(a)),
            out@ == start + join_with(objs.take(i as int), seq![',']),
        decreases answers@.len() - i,
    {
        proof {
            assert(objs.take(i + 1).drop_last() =~= objs.take(i as int));
            assert(objs.take(i + 1).last() == answer_object_spec(answers@[i as int]));
        }
        if i > 0 {
            out.push(',');
        }
        push_answer_object(&mut out, &answers[i]);
        i = i + 1;
        proof {
            if i == 1 {
                assert(objs.take(1)[0] == answer_object_spec(answers@[0]));
            }
            assert(out@ =~= start + join_with(objs.take(i as int), seq![',']));
        }
    }
    push_lit(&mut out, "]}");
    proof {
        assert(objs.take(answers@.len() as int) =~= objs);
        assert(out@ =~= query_document_spec(query_text@, answers@));
    }
    string_from_chars(&out)
}

/// The runtime-failure document for one query.
pub fn query_error_document(query_text: &str, message: &str) -> (r: String)
    ensures
        r@ == query_error_document_spec(query_text@, message@),
{
    let mut out: Vec<char> = Vec::new();
    push_lit(&mut out, "{\"query\":");
    push_quoted(&mut out, query_text);
    push_lit(&mut out, ",\"outcome\":\"error\",\"error\":{\"message\":");
    push_quoted(&mut out, message);
    push_lit(&mut out, "}}");
    proof {
        assert(out@ =~= query_error_document_spec(query_text@, message@));
    }
    string_from_chars(&out)
}

/// The file-level diagnostic (read, parse, or compile failure).
/// `line`/`column` appear only when known.
pub fn error_document(file: &str, line: Option<usize>, column: Option<usize>, message: &str) -> (r: String)
    ensures
        r@ == error_document_spec(file@, line, column, message@),
{
    let mut out: Vec<char> = Vec::new();
    push_lit(&mut out, "{\"error\":{\"file\":");
    push_quoted(&mut out, file);
    let ghost a = out@;
    if let Some(l) = line {
        push_lit(&mut out, ",\"line\":");
        push_usize(&mut out, l);
    }
    let ghost b = out@;
    if let Some(c) = column {
        push_lit(&mut out, ",\"column\":");
        push_usize(&mut out, c);
    }
    let ghost c = out@;
    push_lit(&mut out, ",\"message\":");
    push_quoted(&mut out, message);
    push_lit(&mut out, "}}");
    proof {
        assert(out@ =~= error_document_spec(file@, line, column, message@));
    }
    string_from_chars(&out)
}

} // verus!
