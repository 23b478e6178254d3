//! Numeric column text: unsigned integers and floating-point literals.
//!
//! The annotation table's numeric columns are validated here.  The unsigned
//! columns are parsed to their values; the score columns are kept as text and
//! only checked against the floating-point literal grammar (an optional sign,
//! then `inf`, `infinity` or `nan` in any letter case, or digits with at most
//! one decimal point and an optional exponent part).

use vstd::prelude::*;
use vstd::string::StrSliceExecFns;

verus! {

pub open spec fn is_digit(c: char) -> bool {
    '0' as u32 <= c as u32 && c as u32 <= '9' as u32
}

pub open spec fn digit_val(c: char) -> nat {
    (c as u32 - '0' as u32) as nat
}

/// The value of a digit string, most significant digit first.
pub open spec fn digits_val(s: Seq<char>) -> nat
    decreases s.len(),
{
    if s.len() == 0 {
        0
    } else {
        digits_val(s.drop_last()) * 10 + digit_val(s.last())
    }
}

pub open spec fn is_digits(s: Seq<char>) -> bool {
    s.len() > 0 && forall|i: int| 0 <= i < s.len() ==> is_digit(s[i])
}

pub open spec fn strip_plus(s: Seq<char>) -> Seq<char> {
    if s.len() > 0 && s[0] == '+' {
        s.drop_first()
    } else {
        s
    }
}

/// What an unsigned thirty-two bit column parses to: an optional leading
/// plus sign, then decimal digits, and a value within range.
pub open spec fn spec_parse_u32(s: Seq<char>) -> Option<u32> {
    let t = strip_plus(s);
    if is_digits(t) && digits_val(t) <= u32::MAX {
        Some(digits_val(t) as u32)
    } else {
        None
    }
}

/// The value of a digit string is at least the value of any of its prefixes.
proof fn lemma_digits_val_take(s: Seq<char>, k: int)
    requires
        0 <= k <= s.len(),
    ensures
        digits_val(s.take(k)) <= digits_val(s),
    decreases s.len() - k,
{
    if k < s.len() {
        lemma_digits_val_take(s.drop_last(), k);
        assert(s.drop_last().take(k) =~= s.take(k));
    } else {
        assert(s.take(k) =~= s);
    }
}

/// Parses an unsigned thirty-two bit decimal column.
pub fn parse_u32_text(s: &str) -> (r: Option<u32>)
    ensures
        r == spec_parse_u32(s@),
{
    let n: usize = s.unicode_len();
    let mut i: usize = 0;
    if n > 0 && s.get_char(0) == '+' {
        i = 1;
    }
    let ghost t = strip_plus(s@);
    proof {
        assert(t =~= s@.skip(i as int));
    }
    if i == n {
        return None;
    }
    let mut val: u32 = 0;
    let mut j: usize = i;
    while j < n
        invariant
            i <= j <= n,
            n == s@.len(),
            i < n,
            t == strip_plus(s@),
            t == s@.skip(i as int),
            forall|k: int| 0 <= k < j - i ==> is_digit(t[k]),
            val == digits_val(t.take(j - i)),
        decreases n - j,
    {
        let c = s.get_char(j);
        let d: u32 = c as u32;
        if !(48 <= d && d <= 57) {
            proof {
                assert(t[j - i] == s@[j as int]);
                assert(!is_digit(t[j - i]));
                assert(!is_digits(t));
            }
            return None;
        }
        let ghost prefix = t.take(j - i);
        proof {
            assert(t.take(j - i + 1).drop_last() =~= prefix);
            assert(t.take(j - i + 1).last() == t[j - i]);
        }
        if val > (u32::MAX - (d - 48)) / 10 {
            proof {
                let dd = (d - 48) as int;
                assert(10 * ((u32::MAX - dd) / 10) + (u32::MAX - dd) % 10 == u32::MAX - dd) by {
                    vstd::arithmetic::div_mod::lemma_fundamental_div_mod(u32::MAX - dd, 10);
                }
                assert(val * 10 + dd > u32::MAX);
                assert(digit_val(t[j - i]) == dd);
                assert(digits_val(t.take(j - i + 1)) > u32::MAX);
                lemma_digits_val_take(t, j - i + 1);
                assert(digits_val(t) > u32::MAX);
            }
            return None;
        }
        val = val * 10 + (d - 48);
        j += 1;
    }
    proof {
        assert(t.take(n - i) =~= t);
    }
    Some(val)
}

pub open spec fn strip_sign(s: Seq<char>) -> Seq<char> {
    if s.len() > 0 && (s[0] == '+' || s[0] == '-') {
        s.drop_first()
    } else {
        s
    }
}

pub open spec fn is_word_inf(t: Seq<char>) -> bool {
    t.len() == 3 && (t[0] == 'i' || t[0] == 'I') && (t[1] == 'n' || t[1] == 'N') && (t[2] == 'f'
        || t[2] == 'F')
}

pub open spec fn is_word_infinity(t: Seq<char>) -> bool {
    t.len() == 8 && (t[0] == 'i' || t[0] == 'I') && (t[1] == 'n' || t[1] == 'N') && (t[2] == 'f'
        || t[2] == 'F') && (t[3] == 'i' || t[3] == 'I') && (t[4] == 'n' || t[4] == 'N') && (t[5]
        == 'i' || t[5] == 'I') && (t[6] == 't' || t[6] == 'T') && (t[7] == 'y' || t[7] == 'Y')
}

pub open spec fn is_word_nan(t: Seq<char>) -> bool {
    t.len() == 3 && (t[0] == 'n' || t[0] == 'N') && (t[1] == 'a' || t[1] == 'A') && (t[2] == 'n'
        || t[2] == 'N')
}

/// Digits with at most one decimal point among them, and at least one digit.
pub open spec fn is_mantissa(m: Seq<char>) -> bool {
    &&& m.len() > 0
    &&& forall|i: int| 0 <= i < m.len() ==> (is_digit(m[i]) || m[i] == '.')
    &&& exists|i: int| 0 <= i < m.len() && is_digit(m[i])
    &&& forall|i: int, j: int|
        0 <= i < j < m.len() ==> !(m[i] == '.' && m[j] == '.')
}

/// An exponent part: an optional sign, then digits.
pub open spec fn is_exponent(e: Seq<char>) -> bool {
    is_digits(strip_sign(e))
}

pub open spec fn is_exp_marker(c: char) -> bool {
    c == 'e' || c == 'E'
}

/// A number: a mantissa, optionally followed by an exponent marker and an
/// exponent part.
pub open spec fn is_number_text(t: Seq<char>) -> bool {
    if exists|i: int| 0 <= i < t.len() && is_exp_marker(t[i]) {
        exists|i: int|
            0 <= i < t.len() && is_exp_marker(t[i]) && is_mantissa(t.take(i)) && is_exponent(
                t.skip(i + 1),
            )
    } else {
        is_mantissa(t)
    }
}

/// The floating-point literal grammar of the score columns.
pub open spec fn is_float_text(s: Seq<char>) -> bool {
    let t = strip_sign(s);
    is_word_inf(t) || is_word_infinity(t) || is_word_nan(t) || is_number_text(t)
}

/// Checks that the characters of `s` between `from` and `to` form a
/// mantissa.
fn check_mantissa(s: &str, from: usize, to: usize) -> (b: bool)
    requires
        from <= to <= s@.len(),
    ensures
        b == is_mantissa(s@.subrange(from as int, to as int)),
{
    let ghost m = s@.subrange(from as int, to as int);
    let mut seen_digit: bool = false;
    let mut seen_dot: bool = false;
    let mut i: usize = from;
    while i < to
        invariant
            from <= i <= to <= s@.len(),
            m == s@.subrange(from as int, to as int),
            forall|k: int| 0 <= k < i - from ==> (is_digit(m[k]) || m[k] == '.'),
            seen_digit == exists|k: int| 0 <= k < i - from && is_digit(m[k]),
            seen_dot == exists|k: int| 0 <= k < i - from && m[k] == '.',
            !(exists|k: int, l: int| 0 <= k < l < i - from && m[k] == '.' && m[l] == '.'),
        decreases to - i,
    {
        let c = s.get_char(i);
        proof {
            assert(m[i - from] == s@[i as int]);
        }
        let d: u32 = c as u32;
        if 48 <= d && d <= 57 {
            seen_digit = true;
            proof {
                assert(is_digit(m[i - from]));
            }
        } else if c == '.' {
            if seen_dot {
                proof {
                    let k = choose|k: int| 0 <= k < i - from && m[k] == '.';
                    assert(m[k] == '.' && m[i - from] == '.');
                    assert(!is_mantissa(m));
                }
                return false;
            }
            seen_dot = true;
        } else {
            proof {
                assert(!(is_digit(m[i - from]) || m[i - from] == '.'));
                assert(!is_mantissa(m));
            }
            return false;
        }
        i += 1;
    }
    from < to && seen_digit
}

/// Checks that the characters of `s` between `from` and `to` form digits.
fn check_digits(s: &str, from: usize, to: usize) -> (b: bool)
    requires
        from <= to <= s@.len(),
    ensures
        b == is_digits(s@.subrange(from as int, to as int)),
{
    let ghost t = s@.subrange(from as int, to as int);
    if from == to {
        return false;
    }
    let mut i: usize = from;
    while i < to
        invariant
            from <= i <= to <= s@.len(),
            t == s@.subrange(from as int, to as int),
            forall|k: int| 0 <= k < i - from ==> is_digit(t[k]),
        decreases to - i,
    {
        let d: u32 = s.get_char(i) as u32;
        if !(48 <= d && d <= 57) {
            proof {
                assert(t[i - from] == s@[i as int]);
                assert(!is_digit(t[i - from]));
                assert(!is_digits(t));
            }
            return false;
        }
        i += 1;
    }
    true
}

/// The position of the first exponent marker at or after `from`, if any.
fn find_exp_marker(s: &str, from: usize) -> (r: Option<usize>)
    requires
        from <= s@.len(),
    ensures
        match r {
            Some(k) => from <= k < s@.len() && is_exp_marker(s@[k as int]) && forall|j: int|
                from <= j < k ==> !is_exp_marker(s@[j]),
            None => forall|j: int| from <= j < s@.len() ==> !is_exp_marker(s@[j]),
        },
{
    let n: usize = s.unicode_len();
    let mut k: usize = from;
    while k < n
        invariant
            from <= k <= n,
            n == s@.len(),
            forall|j: int| from <= j < k ==> !is_exp_marker(s@[j]),
        decreases n - k,
    {
        let c = s.get_char(k);
        if c == 'e' || c == 'E' {
            return Some(k);
        }
        k += 1;
    }
    None
}

/// Decides whether `s` is a floating-point literal.
#[verifier::rlimit(50)]
pub fn check_float_text(s: &str) -> (b: bool)
    ensures
        b == is_float_text(s@),
{
    let n: usize = s.unicode_len();
    let mut o: usize = 0;
    if n > 0 {
        let c0 = s.get_char(0);
        if c0 == '+' || c0 == '-' {
            o = 1;
        }
    }
    let ghost t = strip_sign(s@);
    proof {
        assert(t =~= s@.skip(o as int));
        assert(forall|j: int| 0 <= j < t.len() ==> t[j] == s@[j + o]);
    }
    let m: usize = n - o;
    // the special words
    if m == 3 {
        let a = s.get_char(o);
        let b = s.get_char(o + 1);
        let c = s.get_char(o + 2);
        if (a == 'i' || a == 'I') && (b == 'n' || b == 'N') && (c == 'f' || c == 'F') {
            return true;
        }
        if (a == 'n' || a == 'N') && (b == 'a' || b == 'A') && (c == 'n' || c == 'N') {
            return true;
        }
    }
    if m == 8 {
        let word_ok = (s.get_char(o) == 'i' || s.get_char(o) == 'I') && (s.get_char(o + 1) == 'n'
            || s.get_char(o + 1) == 'N') && (s.get_char(o + 2) == 'f' || s.get_char(o + 2) == 'F')
            && (s.get_char(o + 3) == 'i' || s.get_char(o + 3) == 'I') && (s.get_char(o + 4) == 'n'
            || s.get_char(o + 4) == 'N') && (s.get_char(o + 5) == 'i' || s.get_char(o + 5) == 'I')
            && (s.get_char(o + 6) == 't' || s.get_char(o + 6) == 'T') && (s.get_char(o + 7) == 'y'
            || s.get_char(o + 7) == 'Y');
        if word_ok {
            return true;
        }
    }
    // find the first exponent marker
    let marker = find_exp_marker(s, o);
    if marker.is_none() {
        // no exponent marker anywhere
        let r = check_mantissa(s, o, n);
        proof {
            assert(s@.subrange(o as int, n as int) =~= t);
            assert(forall|j: int| 0 <= j < t.len() ==> t[j] == s@[j + o]);
            assert(is_number_text(t) == is_mantissa(t));
        }
        r
    } else {
        let k = marker.unwrap();
        let ghost ki = k - o;
        proof {
            assert(t[ki] == s@[k as int]);
            assert(is_exp_marker(t[ki]));
        }
        let mantissa_ok = check_mantissa(s, o, k);
        let mut exp_from: usize = k + 1;
        if exp_from < n {
            let c = s.get_char(exp_from);
            if c == '+' || c == '-' {
                exp_from = exp_from + 1;
            }
        }
        let exp_ok = check_digits(s, exp_from, n);
        proof {
            assert(s@.subrange(o as int, k as int) =~= t.take(ki));
            assert(strip_sign(t.skip(ki + 1)) =~= s@.subrange(exp_from as int, n as int));
        }
        if mantissa_ok && exp_ok {
            true
        } else {
            proof {
                assert forall|i: int|
                    0 <= i < t.len() && is_exp_marker(t[i]) implies !(is_mantissa(t.take(i))
                    && is_exponent(t.skip(i + 1))) by {
                    if i < ki {
                        assert(t[i] == s@[i + o]);
                        assert(!is_exp_marker(t[i]));
                    } else if i > ki {
                        assert(t.take(i)[ki] == t[ki]);
                        assert(!(is_digit(t[ki]) || t[ki] == '.'));
                    }
                }
            }
            false
        }
    }
}

/// A digit character, from its value.
pub open spec fn digit_char(n: nat) -> char {
    if n == 0 {
        '0'
    } else if n == 1 {
        '1'
    } else if n == 2 {
        '2'
    } else if n == 3 {
        '3'
    } else if n == 4 {
        '4'
    } else if n == 5 {
        '5'
    } else if n == 6 {
        '6'
    } else if n == 7 {
        '7'
    } else if n == 8 {
        '8'
    } else {
        '9'
    }
}

/// The decimal text of a number, most significant digit first.
pub open spec fn dec_digits(n: nat) -> Seq<char>
    decreases n,
{
    if n < 10 {
        seq![digit_char(n)]
    } else {
        dec_digits(n / 10).push(digit_char(n % 10))
    }
}

fn digit_char_exec(d: u32) -> (c: char)
    requires
        d < 10,
    ensures
        c == digit_char(d as nat),
{
    if d == 0 {
        '0'
    } else if d == 1 {
        '1'
    } else if d == 2 {
        '2'
    } else if d == 3 {
        '3'
    } else if d == 4 {
        '4'
    } else if d == 5 {
        '5'
    } else if d == 6 {
        '6'
    } else if d == 7 {
        '7'
    } else if d == 8 {
        '8'
    } else {
        '9'
    }
}

/// Decimal text is digits.
proof fn lemma_dec_digits_are_digits(n: nat)
    ensures
        is_digits(dec_digits(n)),
    decreases n,
{
    if n >= 10 {
        lemma_dec_digits_are_digits(n / 10);
        let d = dec_digits(n / 10);
        assert forall|i: int| 0 <= i < d.push(digit_char(n % 10)).len() implies is_digit(
            #[trigger] d.push(digit_char(n % 10))[i],
        ) by {
            if i < d.len() {
                assert(d.push(digit_char(n % 10))[i] == d[i]);
            }
        }
    }
}

/// The decimal text of a value reads back to that value: the numbers the
/// renderer writes are recovered exactly by the parser's grammar.
pub proof fn lemma_dec_digits_round_trip(n: u32)
    ensures
        spec_parse_u32(dec_digits(n as nat)) == Some(n),
{
    lemma_dec_digits_are_digits(n as nat);
    lemma_digits_val_of_dec_digits(n as nat);
    assert(dec_digits(n as nat)[0] != '+');
    assert(strip_plus(dec_digits(n as nat)) == dec_digits(n as nat));
}

proof fn lemma_digits_val_of_dec_digits(n: nat)
    ensures
        digits_val(dec_digits(n)) == n,
    decreases n,
{
    if n < 10 {
        assert(digit_val(digit_char(n)) == n);
        assert(dec_digits(n).drop_last() =~= Seq::<char>::empty());
        assert(dec_digits(n).last() == digit_char(n));
        assert(digits_val(dec_digits(n)) == digits_val(dec_digits(n).drop_last()) * 10
            + digit_val(dec_digits(n).last()));
        assert(digits_val(dec_digits(n).drop_last()) == 0);
        assert(digits_val(dec_digits(n)) == n);
    } else {
        lemma_digits_val_of_dec_digits(n / 10);
        let d = dec_digits(n / 10);
        assert(digit_val(digit_char(n % 10)) == n % 10);
        assert(d.push(digit_char(n % 10)).drop_last() =~= d);
        assert(d.push(digit_char(n % 10)).last() == digit_char(n % 10));
        assert((n / 10) * 10 + n % 10 == n) by {
            vstd::arithmetic::div_mod::lemma_fundamental_div_mod(n as int, 10);
        }
    }
}

/// Appends the decimal text of `n` to `out`.
pub fn push_u32_digits(out: &mut Vec<char>, n: u32)
    ensures
        final(out)@ == old(out)@ + dec_digits(n as nat),
    decreases n,
{
    if n < 10 {
        out.push(digit_char_exec(n));
        proof {
            assert(out@ =~= old(out)@ + dec_digits(n as nat));
        }
    } else {
        push_u32_digits(out, n / 10);
        out.push(digit_char_exec(n % 10));
        proof {
            assert(out@ =~= old(out)@ + dec_digits(n as nat));
        }
    }
}

} // verus!
