//! Rendering the result mapping as a single JSON object.
//!
//! The output is one object keyed by identifier; each value is the array of
//! that identifier's records as objects with the nine column names.  The
//! unsigned columns are written as decimal numbers; the score columns are
//! written verbatim, as the number text the annotation file carried.

use vstd::prelude::*;
use vstd::string::StrSliceExecFns;
use crate::groups::AnnotationMap;
use crate::num::{dec_digits, push_u32_digits};
use crate::rnacentral::{AnnotationView, RfamAnnotation, recs_view};

verus! {

pub open spec fn hex_digit(n: nat) -> char {
    if n == 0 {
        '0'
    } else if n == 1 {
        '1'
    } else if n == 2 {
        '2'
    } else if n == 3 {
        '3'
    } else if n == 4 {
        '4'
    } else if n == 5 {
        '5'
    } else if n == 6 {
        '6'
    } else if n == 7 {
        '7'
    } else if n == 8 {
        '8'
    } else if n == 9 {
        '9'
    } else if n == 10 {
        'a'
    } else if n == 11 {
        'b'
    } else if n == 12 {
        'c'
    } else if n == 13 {
        'd'
    } else if n == 14 {
        'e'
    } else {
        'f'
    }
}

/// How one character appears inside a JSON string literal.
pub open spec fn json_escape_char(c: char) -> Seq<char> {
    if c == '"' {
        seq!['\\', '"']
    } else if c == '\\' {
        seq!['\\', '\\']
    } else if c == '\u{8}' {
        seq!['\\', 'b']
    } else if c == '\t' {
        seq!['\\', 't']
    } else if c == '\n' {
        seq!['\\', 'n']
    } else if c == '\u{c}' {
        seq!['\\', 'f']
    } else if c == '\r' {
        seq!['\\', 'r']
    } else if (c as u32) < 32 {
        seq!['\\', 'u', '0', '0', hex_digit((c as u32 / 16) as nat), hex_digit(
            (c as u32 % 16) as nat,
        )]
    } else {
        seq![c]
    }
}

pub open spec fn json_escape(s: Seq<char>) -> Seq<char>
    decreases s.len(),
{
    if s.len() == 0 {
        Seq::empty()
    } else {
        json_escape(s.drop_last()) + json_escape_char(s.last())
    }
}

/// A JSON string literal: quotes around the escaped text.
pub open spec fn json_string(s: Seq<char>) -> Seq<char> {
    seq!['"'] + json_escape(s) + seq!['"']
}

/// One record as a JSON object, fields in column order.
pub open spec fn json_record(a: AnnotationView) -> Seq<char> {
    seq!['{'] + json_string("URS-Id"@) + seq![':'] + json_string(a.urs_identifier) + seq![',']
        + json_string("Rfam-Model-Id"@) + seq![':'] + json_string(a.rfam_model_id) + seq![',']
        + json_string("Score"@) + seq![':'] + a.score + seq![','] + json_string("E-value"@)
        + seq![':'] + a.e_value + seq![','] + json_string("Sequence-Start"@) + seq![':']
        + dec_digits(a.sequence_start as nat) + seq![','] + json_string("Sequence-Stop"@)
        + seq![':'] + dec_digits(a.sequence_stop as nat) + seq![','] + json_string("Model-Start"@)
        + seq![':'] + dec_digits(a.model_start as nat) + seq![','] + json_string("Model-Stop"@)
        + seq![':'] + dec_digits(a.model_stop as nat) + seq![','] + json_string(
        "Rfam-Model-Description"@,
    ) + seq![':'] + json_string(a.rfam_model_description) + seq!['}']
}

pub open spec fn json_records(g: Seq<AnnotationView>) -> Seq<char>
    decreases g.len(),
{
    if g.len() == 0 {
        Seq::empty()
    } else if g.len() == 1 {
        json_record(g[0])
    } else {
        json_records(g.drop_last()) + seq![','] + json_record(g.last())
    }
}

/// A group of records as a JSON array.
pub open spec fn json_group(g: Seq<AnnotationView>) -> Seq<char> {
    seq!['['] + json_records(g) + seq![']']
}

pub open spec fn json_entry(k: Seq<char>, g: Seq<AnnotationView>) -> Seq<char> {
    json_string(k) + seq![':'] + json_group(g)
}

pub open spec fn json_entries(ks: Seq<Seq<char>>, m: Map<Seq<char>, Seq<AnnotationView>>) -> Seq<
    char,
>
    decreases ks.len(),
{
    if ks.len() == 0 {
        Seq::empty()
    } else if ks.len() == 1 {
        json_entry(ks[0], m[ks[0]])
    } else {
        json_entries(ks.drop_last(), m) + seq![','] + json_entry(ks.last(), m[ks.last()])
    }
}

/// The whole mapping as one JSON object, keys in the given order.
pub open spec fn json_of(ks: Seq<Seq<char>>, m: Map<Seq<char>, Seq<AnnotationView>>) -> Seq<
    char,
> {
    seq!['{'] + json_entries(ks, m) + seq!['}']
}

/// Relies on `String::from_iter` over characters: the collected string holds
/// exactly the given characters in order.
#[verifier::external_body]
fn chars_to_string(v: &Vec<char>) -> (r: String)
    ensures
        r@ == v@,
{
    v.iter().collect()
}

/// Appends the characters of `s`.
fn push_str_chars(out: &mut Vec<char>, s: &str)
    ensures
        final(out)@ == old(out)@ + s@,
{
    let n: usize = s.unicode_len();
    let mut i: usize = 0;
    proof {
        assert(out@ =~= old(out)@ + s@.take(0));
    }
    while i < n
        invariant
            0 <= i <= n,
            n == s@.len(),
            out@ == old(out)@ + s@.take(i as int),
        decreases n - i,
    {
        out.push(s.get_char(i));
        proof {
            assert(out@ =~= old(out)@ + s@.take(i + 1));
        }
        i += 1;
    }
    proof {
        assert(s@.take(n as int) =~= s@);
    }
}

fn hex_digit_exec(d: u32) -> (c: char)
    requires
        d < 16,
    ensures
        c == hex_digit(d as nat),
{
    if d == 0 {
        '0'
    } else if d == 1 {
        '1'
    } else if d == 2 {
        '2'
    } else if d == 3 {
        '3'
    } else if d == 4 {
        '4'
    } else if d == 5 {
        '5'
    } else if d == 6 {
        '6'
    } else if d == 7 {
        '7'
    } else if d == 8 {
        '8'
    } else if d == 9 {
        '9'
    } else if d == 10 {
        'a'
    } else if d == 11 {
        'b'
    } else if d == 12 {
        'c'
    } else if d == 13 {
        'd'
    } else if d == 14 {
        'e'
    } else {
        'f'
    }
}

/// Appends the escaped form of `s`.
fn push_escaped(out: &mut Vec<char>, s: &str)
    ensures
        final(out)@ == old(out)@ + json_escape(s@),
{
    let n: usize = s.unicode_len();
    let mut i: usize = 0;
    proof {
        assert(json_escape(s@.take(0)) =~= Seq::<char>::empty());
        assert(out@ =~= old(out)@ + json_escape(s@.take(0)));
    }
    while i < n
        invariant
            0 <= i <= n,
            n == s@.len(),
            out@ == old(out)@ + json_escape(s@.take(i as int)),
        decreases n - i,
    {
        let c = s.get_char(i);
        let ghost prev = out@;
        if c == '"' {
            out.push('\\');
            out.push('"');
        } else if c == '\\' {
            out.push('\\');
            out.push('\\');
        } else if c == '\u{8}' {
            out.push('\\');
            out.push('b');
        } else if c == '\t' {
            out.push('\\');
            out.push('t');
        } else if c == '\n' {
            out.push('\\');
            out.push('n');
        } else if c == '\u{c}' {
            out.push('\\');
            out.push('f');
        } else if c == '\r' {
            out.push('\\');
            out.push('r');
        } else {
            let d: u32 = c as u32;
            if d < 32 {
                out.push('\\');
                out.push('u');
                out.push('0');
                out.push('0');
                out.push(hex_digit_exec(d / 16));
                out.push(hex_digit_exec(d % 16));
            } else {
                out.push(c);
            }
        }
        proof {
            assert(out@ =~= prev + json_escape_char(c));
            assert(s@.take(i + 1).drop_last() =~= s@.take(i as int));
            assert(s@.take(i + 1).last() == s@[i as int]);
            assert(out@ =~= old(out)@ + json_escape(s@.take(i + 1)));
        }
        i += 1;
    }
    proof {
        assert(s@.take(n as int) =~= s@);
    }
}

/// Appends the JSON string literal for `s`.
fn push_json_string(out: &mut Vec<char>, s: &str)
    ensures
        final(out)@ == old(out)@ + json_string(s@),
{
    out.push('"');
    push_escaped(out, s);
    out.push('"');
    proof {
        assert(out@ =~= old(out)@ + json_string(s@));
    }
}

/// Appends one record as a JSON object.
#[verifier::rlimit(80)]
fn push_record(out: &mut Vec<char>, a: &RfamAnnotation)
    ensures
        final(out)@ == old(out)@ + json_record(a@),
{
    out.push('{');
    push_json_string(out, "URS-Id");
    out.push(':');
    push_json_string(out, a.urs_identifier.as_str());
    out.push(',');
    push_json_string(out, "Rfam-Model-Id");
    out.push(':');
    push_json_string(out, a.rfam_model_id.as_str());
    out.push(',');
    push_json_string(out, "Score");
    out.push(':');
    push_str_chars(out, a.score.as_str());
    out.push(',');
    push_json_string(out, "E-value");
    out.push(':');
    push_str_chars(out, a.e_value.as_str());
    out.push(',');
    push_json_string(out, "Sequence-Start");
    out.push(':');
    push_u32_digits(out, a.sequence_start);
    out.push(',');
    push_json_string(out, "Sequence-Stop");
    out.push(':');
    push_u32_digits(out, a.sequence_stop);
    out.push(',');
    push_json_string(out, "Model-Start");
    out.push(':');
    push_u32_digits(out, a.model_start);
    out.push(',');
    push_json_string(out, "Model-Stop");
    out.push(':');
    push_u32_digits(out, a.model_stop);
    out.push(',');
    push_json_string(out, "Rfam-Model-Description");
    out.push(':');
    push_json_string(out, a.rfam_model_description.as_str());
    out.push('}');
    proof {
        assert(out@ =~= old(out)@ + json_record(a@));
    }
}

/// Appends one group as a JSON array.
fn push_group(out: &mut Vec<char>, g: &Vec<RfamAnnotation>)
    ensures
        final(out)@ == old(out)@ + json_group(recs_view(g@)),
{
    let ghost gv = recs_view(g@);
    out.push('[');
    let mut i: usize = 0;
    proof {
        assert(json_records(gv.take(0)) =~= Seq::<char>::empty());
        assert(out@ =~= old(out)@ + seq!['['] + json_records(gv.take(0)));
    }
    while i < g.len()
        invariant
            0 <= i <= g.len(),
            gv == recs_view(g@),
            gv.len() == g@.len(),
            out@ == old(out)@ + seq!['['] + json_records(gv.take(i as int)),
        decreases g.len() - i,
    {
        if i > 0 {
            out.push(',');
        }
        let ghost prev = out@;
        push_record(out, &g[i]);
        proof {
            assert(gv.take(i + 1).drop_last() =~= gv.take(i as int));
            assert(gv.take(i + 1).last() == gv[i as int]);
            assert(gv[i as int] == g@[i as int]@);
            assert(out@ =~= prev + json_record(gv[i as int]));
            assert(out@ =~= old(out)@ + seq!['['] + json_records(gv.take(i + 1)));
        }
        i += 1;
    }
    out.push(']');
    proof {
        assert(gv.take(gv.len() as int) =~= gv);
        assert(out@ =~= old(out)@ + json_group(gv));
    }
}

/// Renders the whole mapping as one JSON object, keys in first-occurrence
/// order.
pub fn to_json(m: &AnnotationMap) -> (r: String)
    requires
        m.wf(),
    ensures
        r@ == json_of(m.key_seq(), m@),
{
    let mut out: Vec<char> = Vec::new();
    out.push('{');
    let n = m.len();
    let mut i: usize = 0;
    proof {
        assert(json_entries(m.key_seq().take(0), m@) =~= Seq::<char>::empty());
        assert(out@ =~= seq!['{'] + json_entries(m.key_seq().take(0), m@));
    }
    while i < n
        invariant
            0 <= i <= n,
            m.wf(),
            n == m.key_seq().len(),
            out@ == seq!['{'] + json_entries(m.key_seq().take(i as int), m@),
        decreases n - i,
    {
        if i > 0 {
            out.push(',');
        }
        let ghost prev = out@;
        let key = m.key_at(i);
        push_json_string(&mut out, key.as_str());
        out.push(':');
        let g = m.group_at(i);
        push_group(&mut out, g);
        proof {
            let ks = m.key_seq();
            assert(ks.take(i + 1).drop_last() =~= ks.take(i as int));
            assert(ks.take(i + 1).last() == ks[i as int]);
            assert(out@ =~= prev + json_entry(ks[i as int], m@[ks[i as int]]));
            assert(out@ =~= seq!['{'] + json_entries(ks.take(i + 1), m@));
        }
        i += 1;
    }
    out.push('}');
    proof {
        assert(m.key_seq().take(m.key_seq().len() as int) =~= m.key_seq());
        assert(out@ =~= json_of(m.key_seq(), m@));
    }
    chars_to_string(&out)
}

} // verus!
