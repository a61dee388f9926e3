//! Verified parsing and printing of decimal numbers.
//!
//! Port specifications, address octets and the JSON report all speak in
//! unsigned decimal numerals; this module gives them one spec-level meaning
//! (`dec_value`, `dec_chars`) and verified executable functions for both
//! directions.

use vstd::prelude::*;

verus! {

/// A decimal digit character.
pub open spec fn is_dec_digit(c: char) -> bool {
    '0' as int <= c as int && c as int <= '9' as int
}

/// The numeric value of a digit character.
pub open spec fn digit_value(c: char) -> int {
    c as int - '0' as int
}

/// Every character of the sequence is a decimal digit.
pub open spec fn all_dec_digits(s: Seq<char>) -> bool {
    forall|i: int| 0 <= i < s.len() ==> is_dec_digit(#[trigger] s[i])
}

/// The value of a digit sequence read as a decimal numeral.
pub open spec fn dec_value(s: Seq<char>) -> int
    decreases s.len(),
{
    if s.len() == 0 {
        0
    } else {
        dec_value(s.drop_last()) * 10 + digit_value(s.last())
    }
}

/// A well-formed numeral token: nonempty, all digits, value at most `bound`.
pub open spec fn is_dec_token(s: Seq<char>, bound: int) -> bool {
    s.len() > 0 && all_dec_digits(s) && dec_value(s) <= bound
}

/// The digit character for a value below ten.
pub open spec fn digit_char(d: int) -> char {
    if d == 0 {
        '0'
    } else if d == 1 {
        '1'
    } else if d == 2 {
        '2'
    } else if d == 3 {
        '3'
    } else if d == 4 {
        '4'
    } else if d == 5 {
        '5'
    } else if d == 6 {
        '6'
    } else if d == 7 {
        '7'
    } else if d == 8 {
        '8'
    } else {
        '9'
    }
}

/// The lower-case hexadecimal digit character for a value below sixteen.
pub open spec fn hex_char(d: int) -> char {
    if d < 10 {
        digit_char(d)
    } else if d == 10 {
        'a'
    } else if d == 11 {
        'b'
    } else if d == 12 {
        'c'
    } else if d == 13 {
        'd'
    } else if d == 14 {
        'e'
    } else {
        'f'
    }
}

/// The lower-case hexadecimal digit character of a value below sixteen.
pub fn hex_char_of(d: u32) -> (c: char)
    requires
        d < 16,
    ensures
        c == hex_char(d as int),
{
    match d {
        0 => '0',
        1 => '1',
        2 => '2',
        3 => '3',
        4 => '4',
        5 => '5',
        6 => '6',
        7 => '7',
        8 => '8',
        9 => '9',
        10 => 'a',
        11 => 'b',
        12 => 'c',
        13 => 'd',
        14 => 'e',
        _ => 'f',
    }
}

/// The canonical decimal numeral of a nonnegative number: no leading zeros,
/// except that zero itself is written "0".
pub open spec fn dec_chars(n: int) -> Seq<char>
    decreases n,
{
    if n < 0 {
        Seq::empty()
    } else if n < 10 {
        seq![digit_char(n)]
    } else {
        dec_chars(n / 10).push(digit_char(n % 10))
    }
}

/// A digit sequence denotes a nonnegative value.
pub proof fn lemma_dec_value_nonneg(s: Seq<char>)
    requires
        all_dec_digits(s),
    ensures
        dec_value(s) >= 0,
    decreases s.len(),
{
    if s.len() > 0 {
        assert(all_dec_digits(s.drop_last()));
        lemma_dec_value_nonneg(s.drop_last());
    }
}

/// Extending a digit sequence on the right never lowers its value: every
/// prefix of a numeral denotes at most the numeral's value.
pub proof fn lemma_dec_value_prefix_le(s: Seq<char>, i: int)
    requires
        all_dec_digits(s),
        0 <= i <= s.len(),
    ensures
        dec_value(s.subrange(0, i)) <= dec_value(s),
    decreases s.len() - i,
{
    if i == s.len() {
        assert(s.subrange(0, i) =~= s);
    } else {
        let p = s.subrange(0, i);
        let q = s.subrange(0, i + 1);
        assert(q.drop_last() =~= p);
        assert(all_dec_digits(p));
        lemma_dec_value_nonneg(p);
        assert(dec_value(q) == dec_value(p) * 10 + digit_value(s[i]));
        lemma_dec_value_prefix_le(s, i + 1);
    }
}

/// The canonical numeral of `n` is made of digits and reads back as `n`.
pub proof fn lemma_dec_chars_value(n: int)
    requires
        n >= 0,
    ensures
        all_dec_digits(dec_chars(n)),
        dec_value(dec_chars(n)) == n,
        dec_chars(n).len() >= 1,
    decreases n,
{
    if n < 10 {
        let s = dec_chars(n);
        assert(s == seq![digit_char(n)]);
        assert(s.len() == 1);
        assert(s.drop_last() =~= Seq::<char>::empty());
        assert(dec_value(Seq::<char>::empty()) == 0);
        assert(s.last() == digit_char(n));
        assert(digit_value(digit_char(n)) == n);
        assert(dec_value(s) == dec_value(s.drop_last()) * 10 + digit_value(s.last()));
        assert(dec_value(s) == n);
    } else {
        lemma_dec_chars_value(n / 10);
        let p = dec_chars(n / 10);
        let s = dec_chars(n);
        assert(s == p.push(digit_char(n % 10)));
        assert(s.drop_last() =~= p);
        assert(s.last() == digit_char(n % 10));
        assert(digit_value(digit_char(n % 10)) == n % 10);
        assert(dec_value(s) == dec_value(p) * 10 + digit_value(s.last()));
        assert(dec_value(s) == (n / 10) * 10 + n % 10);
        assert((n / 10) * 10 + n % 10 == n) by (nonlinear_arith)
            requires n >= 10;
        assert forall|i: int| 0 <= i < s.len() implies is_dec_digit(#[trigger] s[i]) by {
            if i < p.len() {
                assert(s[i] == p[i]);
            } else {
                assert(s[i] == digit_char(n % 10));
            }
        }
    }
}

/// The canonical numeral of a positive number never starts with a zero.
pub proof fn lemma_dec_chars_no_leading_zero(v: int)
    requires
        v >= 1,
    ensures
        dec_chars(v)[0] as int != '0' as int,
    decreases v,
{
    if v < 10 {
        assert(dec_chars(v)[0] == digit_char(v));
        assert(digit_char(v) as int == '0' as int + v);
    } else {
        lemma_dec_chars_no_leading_zero(v / 10);
        lemma_dec_chars_value(v / 10);
        assert(dec_chars(v)[0] == dec_chars(v / 10)[0]);
    }
}

/// Every character's code is a Unicode scalar value's code.
pub proof fn lemma_char_int_bounds(c: char)
    ensures
        0 <= c as int && c as int <= 0x10FFFF,
{
}

/// Two characters with the same code are the same character.
pub proof fn lemma_char_code_eq(a: char, b: char)
    requires
        a as u32 == b as u32,
    ensures
        a == b,
{
    vstd::utf8::char_u32_cast(a, a as u32);
    vstd::utf8::char_u32_cast(b, b as u32);
}

/// `digit_char` inverts `digit_value` on digit characters.
pub proof fn lemma_digit_char_inverse(c: char)
    requires
        is_dec_digit(c),
    ensures
        digit_char(digit_value(c)) == c,
{
    let v = digit_value(c);
    assert(0 <= v <= 9);
    assert(digit_char(v) as u32 == c as u32);
    lemma_char_code_eq(digit_char(v), c);
}

/// A digit sequence without a leading zero is the canonical numeral of its
/// value: printing the value reads back the very same characters.
pub proof fn lemma_dec_chars_canon(t: Seq<char>)
    requires
        all_dec_digits(t),
        t.len() >= 1,
        t.len() > 1 ==> t[0] as int != '0' as int,
    ensures
        dec_chars(dec_value(t)) == t,
    decreases t.len(),
{
    lemma_dec_value_nonneg(t);
    if t.len() == 1 {
        let v = dec_value(t);
        assert(t.drop_last() =~= Seq::<char>::empty());
        assert(dec_value(Seq::<char>::empty()) == 0);
        assert(v == digit_value(t[0]));
        assert(0 <= v <= 9);
        lemma_digit_char_inverse(t[0]);
        assert(dec_chars(v) =~= t);
    } else {
        let dl = t.drop_last();
        assert(all_dec_digits(dl));
        lemma_dec_value_nonneg(dl);
        assert(dl.subrange(0, 1) =~= seq![t[0]]);
        assert(seq![t[0]].drop_last() =~= Seq::<char>::empty());
        assert(dec_value(Seq::<char>::empty()) == 0);
        assert(seq![t[0]].last() == t[0]);
        assert(dec_value(seq![t[0]]) == digit_value(t[0]));
        assert(digit_value(t[0]) >= 1);
        lemma_dec_value_prefix_le(dl, 1);
        assert(dec_value(dl) >= 1);
        let v = dec_value(t);
        assert(v == dec_value(dl) * 10 + digit_value(t.last()));
        assert(v >= 10 && v / 10 == dec_value(dl) && v % 10 == digit_value(t.last()))
            by (nonlinear_arith)
            requires
                v == dec_value(dl) * 10 + digit_value(t.last()),
                0 <= digit_value(t.last()) <= 9,
                dec_value(dl) >= 1,
        ;
        lemma_dec_chars_canon(dl);
        lemma_digit_char_inverse(t.last());
        assert(dec_chars(v) == dec_chars(v / 10).push(digit_char(v % 10)));
        assert(dec_chars(v) =~= t);
    }
}

/// Reads the characters `from..to` of `s` as a decimal numeral, failing on an
/// empty or non-numeric token and on a value above `bound`.
pub fn parse_dec_range(s: &str, from: usize, to: usize, bound: u32) -> (r: Option<u32>)
    requires
        from <= to <= s@.len(),
    ensures
        match r {
            Some(v) => is_dec_token(s@.subrange(from as int, to as int), bound as int)
                && v as int == dec_value(s@.subrange(from as int, to as int)) && v <= bound,
            None => !is_dec_token(s@.subrange(from as int, to as int), bound as int),
        },
{
    let ghost t = s@.subrange(from as int, to as int);
    if from == to {
        return None;
    }
    let mut acc: u32 = 0;
    let mut i: usize = from;
    while i < to
        invariant
            from <= i <= to <= s@.len(),
            t == s@.subrange(from as int, to as int),
            t.len() == to - from,
            all_dec_digits(t.subrange(0, i - from)),
            acc as int == dec_value(t.subrange(0, i - from)),
            acc <= bound,
        decreases to - i,
    {
        let c = s.get_char(i);
        let code: u32 = c as u32;
        if code < '0' as u32 || code > '9' as u32 {
            proof {
                assert(t[i - from] == c);
                assert(!is_dec_digit(c));
            }
            return None;
        }
        let d: u32 = code - '0' as u32;
        proof {
            assert(t[i - from] == c);
            assert(is_dec_digit(c));
            assert(d as int == digit_value(c));
        }
        let ghost p = t.subrange(0, i - from);
        let ghost q = t.subrange(0, i + 1 - from);
        proof {
            assert(q.drop_last() =~= p);
            assert(q.last() == c);
            assert(dec_value(q) == acc * 10 + d);
            assert(all_dec_digits(q));
        }
        if acc > bound / 10 || (acc == bound / 10 && d > bound % 10) {
            proof {
                assert(acc * 10 + d > bound);
                if is_dec_token(t, bound as int) {
                    lemma_dec_value_prefix_le(t, i + 1 - from);
                    assert(false);
                }
            }
            return None;
        }
        proof {
            assert(acc * 10 + d <= bound);
        }
        acc = acc * 10 + d;
        i += 1;
    }
    proof {
        assert(t.subrange(0, to - from) =~= t);
    }
    Some(acc)
}

/// The digit character of a value below ten.
pub fn digit_char_of(d: u16) -> (c: char)
    requires
        d < 10,
    ensures
        c == digit_char(d as int),
{
    match d {
        0 => '0',
        1 => '1',
        2 => '2',
        3 => '3',
        4 => '4',
        5 => '5',
        6 => '6',
        7 => '7',
        8 => '8',
        _ => '9',
    }
}

/// Appends the canonical decimal numeral of `n` to a string.
pub fn push_dec_string(n: u16, out: &mut String)
    ensures
        final(out)@ == old(out)@ + dec_chars(n as int),
    decreases n,
{
    if n >= 10 {
        push_dec_string(n / 10, out);
        let d = digit_char_of(n % 10);
        crate::strutil::string_push(out, d);
        proof {
            assert(old(out)@ + dec_chars((n / 10) as int).push(digit_char((n % 10) as int))
                =~= old(out)@ + dec_chars(n as int));
        }
    } else {
        let d = digit_char_of(n);
        crate::strutil::string_push(out, d);
        proof {
            assert(old(out)@.push(digit_char(n as int)) =~= old(out)@ + dec_chars(n as int));
        }
    }
}

} // verus!
