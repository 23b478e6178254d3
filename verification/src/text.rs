//! Splitting of tab-separated text into lines and fields.
//!
//! Rows of both input files are the non-empty lines of the text, where a line
//! terminator is `\n` optionally preceded by `\r`; fields of a row are the
//! pieces of the line between tab characters.

use vstd::prelude::*;
use vstd::string::{StrSliceExecFns, StringExecFns};

verus! {

/// The pieces of `s` between occurrences of the separator `sep`.  Text
/// without any separator is a single piece, so the result always has at
/// least one element; the empty text is a single empty piece.
pub open spec fn spec_split(s: Seq<char>, sep: char) -> Seq<Seq<char>>
    decreases s.len(),
{
    if s.len() == 0 {
        seq![Seq::<char>::empty()]
    } else if s[0] == sep {
        seq![Seq::<char>::empty()] + spec_split(s.drop_first(), sep)
    } else {
        let rest = spec_split(s.drop_first(), sep);
        seq![seq![s[0]] + rest[0]] + rest.drop_first()
    }
}

pub proof fn lemma_split_nonempty(s: Seq<char>, sep: char)
    ensures
        spec_split(s, sep).len() >= 1,
    decreases s.len(),
{
    if s.len() != 0 && s[0] != sep {
        lemma_split_nonempty(s.drop_first(), sep);
    }
}

/// Text without the separator is a single piece: itself.
pub proof fn lemma_split_no_sep(s: Seq<char>, sep: char)
    requires
        forall|i: int| 0 <= i < s.len() ==> s[i] != sep,
    ensures
        spec_split(s, sep) =~~= seq![s],
    decreases s.len(),
{
    if s.len() == 0 {
        assert(s =~= Seq::<char>::empty());
    } else {
        lemma_split_no_sep(s.drop_first(), sep);
        assert(seq![s[0]] + s.drop_first() =~= s);
    }
}

/// Splitting at the first occurrence of the separator: the piece before it,
/// then the pieces of the remainder.
pub proof fn lemma_split_at_sep(s: Seq<char>, sep: char, i: int)
    requires
        0 <= i < s.len(),
        s[i] == sep,
        forall|k: int| 0 <= k < i ==> s[k] != sep,
    ensures
        spec_split(s, sep) =~~= seq![s.take(i)] + spec_split(s.skip(i + 1), sep),
    decreases i,
{
    lemma_split_nonempty(s, sep);
    if i == 0 {
        assert(s.take(0) =~= Seq::<char>::empty());
        assert(s.skip(1) =~= s.drop_first());
    } else {
        let d = s.drop_first();
        lemma_split_at_sep(d, sep, i - 1);
        lemma_split_nonempty(d.skip(i), sep);
        assert(seq![s[0]] + d.take(i - 1) =~= s.take(i));
        assert(d.skip(i) =~= s.skip(i + 1));
        assert((seq![d.take(i - 1)] + spec_split(d.skip(i), sep)).drop_first() =~~= spec_split(
            d.skip(i),
            sep,
        ));
        assert((seq![d.take(i - 1)] + spec_split(d.skip(i), sep))[0] == d.take(i - 1));
    }
}

/// Splits `s` at every occurrence of `sep`.
pub fn split_str(s: &str, sep: char) -> (r: Vec<String>)
    ensures
        r.deep_view() == spec_split(s@, sep),
{
    let len: usize = s.unicode_len();
    let mut out: Vec<String> = Vec::new();
    let mut start: usize = 0;
    let mut i: usize = 0;
    proof {
        assert(out.deep_view() =~~= Seq::<Seq<char>>::empty());
        assert(s@.skip(0) =~= s@);
    }
    while i < len
        invariant
            start <= i <= len,
            len == s@.len(),
            forall|k: int| start <= k < i ==> s@[k] != sep,
            spec_split(s@, sep) =~~= out.deep_view() + spec_split(s@.skip(start as int), sep),
        decreases len - i,
    {
        if s.get_char(i) == sep {
            let field = s.substring_char(start, i);
            let ghost prev = out.deep_view();
            out.push(String::from_str(field));
            proof {
                let suffix = s@.skip(start as int);
                lemma_split_at_sep(suffix, sep, i - start);
                assert(suffix.take(i - start) =~= s@.subrange(start as int, i as int));
                assert(suffix.skip(i - start + 1) =~= s@.skip(i + 1));
                assert(out.deep_view() =~~= prev + seq![field@]);
                assert(spec_split(s@, sep) =~~= out.deep_view() + spec_split(
                    s@.skip(i + 1),
                    sep,
                ));
            }
            start = i + 1;
        }
        i += 1;
    }
    let field = s.substring_char(start, len);
    let ghost prev = out.deep_view();
    out.push(String::from_str(field));
    proof {
        let suffix = s@.skip(start as int);
        lemma_split_no_sep(suffix, sep);
        assert(suffix =~= s@.subrange(start as int, len as int));
        assert(out.deep_view() =~~= prev + seq![field@]);
        assert(out.deep_view() + Seq::<Seq<char>>::empty() =~~= out.deep_view());
        assert(spec_split(s@, sep) =~~= out.deep_view());
    }
    out
}

/// A line with a trailing carriage return loses it; any other line is kept
/// as it is.
pub open spec fn strip_cr(l: Seq<char>) -> Seq<char> {
    if l.len() > 0 && l.last() == '\r' {
        l.drop_last()
    } else {
        l
    }
}

/// The rows of a text: its pieces between `\n` terminators, each without a
/// trailing `\r`, with empty lines left out.
pub open spec fn clean_lines(raw: Seq<Seq<char>>) -> Seq<Seq<char>>
    decreases raw.len(),
{
    if raw.len() == 0 {
        Seq::empty()
    } else {
        let head = strip_cr(raw[0]);
        let rest = clean_lines(raw.drop_first());
        if head.len() == 0 {
            rest
        } else {
            seq![head] + rest
        }
    }
}

pub open spec fn spec_lines(content: Seq<char>) -> Seq<Seq<char>> {
    clean_lines(spec_split(content, '\n'))
}

fn strip_cr_str(l: &str) -> (r: String)
    ensures
        r@ == strip_cr(l@),
{
    let n: usize = l.unicode_len();
    if n > 0 && l.get_char(n - 1) == '\r' {
        let r = String::from_str(l.substring_char(0, n - 1));
        proof {
            assert(l@.subrange(0, n - 1) =~= l@.drop_last());
        }
        r
    } else {
        String::from_str(l)
    }
}

/// The rows of `s`: non-empty lines, each without its terminator.
pub fn split_lines(s: &str) -> (r: Vec<String>)
    ensures
        r.deep_view() == spec_lines(s@),
{
    let raw = split_str(s, '\n');
    let ghost all = raw.deep_view();
    let mut out: Vec<String> = Vec::new();
    let mut i: usize = 0;
    proof {
        assert(out.deep_view() =~~= Seq::<Seq<char>>::empty());
        assert(all.skip(0) =~~= all);
    }
    while i < raw.len()
        invariant
            0 <= i <= raw.len(),
            raw.deep_view() == all,
            raw.deep_view().len() == raw.len(),
            clean_lines(all) =~~= out.deep_view() + clean_lines(all.skip(i as int)),
        decreases raw.len() - i,
    {
        let line = strip_cr_str(raw[i].as_str());
        let ghost suffix = all.skip(i as int);
        proof {
            assert(suffix[0] == all[i as int]);
            assert(suffix.drop_first() =~~= all.skip(i + 1));
        }
        if line.unicode_len() > 0 {
            let ghost prev = out.deep_view();
            out.push(line);
            proof {
                assert(out.deep_view() =~~= prev + seq![strip_cr(all[i as int])]);
                assert(clean_lines(all) =~~= out.deep_view() + clean_lines(all.skip(i + 1)));
            }
        } else {
            proof {
                assert(clean_lines(all) =~~= out.deep_view() + clean_lines(all.skip(i + 1)));
            }
        }
        i += 1;
    }
    proof {
        assert(all.skip(raw.len() as int) =~~= Seq::<Seq<char>>::empty());
        assert(out.deep_view() + Seq::<Seq<char>>::empty() =~~= out.deep_view());
    }
    out
}

/// Character-by-character equality of two pieces of text.
pub fn str_eq(a: &str, b: &str) -> (r: bool)
    ensures
        r == (a@ == b@),
{
    let na: usize = a.unicode_len();
    let nb: usize = b.unicode_len();
    if na != nb {
        return false;
    }
    let mut i: usize = 0;
    while i < na
        invariant
            0 <= i <= na,
            na == a@.len(),
            na == b@.len(),
            forall|k: int| 0 <= k < i ==> a@[k] == b@[k],
        decreases na - i,
    {
        if a.get_char(i) != b.get_char(i) {
            return false;
        }
        i += 1;
    }
    proof {
        assert(a@ =~= b@);
    }
    true
}

} // verus!
