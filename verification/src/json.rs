//! The JSON document a scan report is persisted as.
//!
//! The document has the fields `host`, `ip`, `protocol`, `ports` (the sorted
//! port array) and `banner_response` (objects of `port` and `data`). String
//! content escapes the quote, the backslash and control characters in the
//! `\u00..` form; everything else is written as it is. The encoder and the
//! parser below treat exactly this document shape.

use vstd::prelude::*;
use crate::numbers::{
    all_dec_digits, dec_chars, hex_char, hex_char_of, is_dec_digit, lemma_char_code_eq,
    lemma_dec_chars_no_leading_zero, lemma_dec_chars_value, push_dec_string,
};
use crate::report::{BannerResponse, FileOutput};
use crate::strutil::string_push;

verus! {

/// The characters escaped in JSON string content: the quote, the backslash
/// and the control characters.
pub open spec fn json_needs_escape(c: char) -> bool {
    c == '"' || c == '\\' || (c as int) < 0x20
}

/// One character as JSON string content: itself, or its `\u00..` escape.
pub open spec fn json_escape_char(c: char) -> Seq<char> {
    if json_needs_escape(c) {
        seq!['\\', 'u', '0', '0', hex_char(c as int / 16), hex_char(c as int % 16)]
    } else {
        seq![c]
    }
}

/// A text as JSON string content, character by character.
pub open spec fn json_escaped(s: Seq<char>) -> Seq<char>
    decreases s.len(),
{
    if s.len() == 0 {
        Seq::empty()
    } else {
        json_escaped(s.drop_last()) + json_escape_char(s.last())
    }
}

/// A JSON string literal: the escaped content between quotes.
pub open spec fn json_string(s: Seq<char>) -> Seq<char> {
    seq!['"'] + json_escaped(s) + seq!['"']
}

/// The comma-joined numerals of the port array.
pub open spec fn json_ports(ps: Seq<u16>) -> Seq<char>
    decreases ps.len(),
{
    if ps.len() == 0 {
        Seq::empty()
    } else if ps.len() == 1 {
        dec_chars(ps[0] as int)
    } else {
        json_ports(ps.drop_last()) + seq![','] + dec_chars(ps.last() as int)
    }
}

/// One banner as a JSON object of its port and its text.
pub open spec fn json_banner(b: BannerResponse) -> Seq<char> {
    "{\"port\":"@ + dec_chars(b.port as int) + ",\"data\":"@ + json_string(b.data@) + "}"@
}

/// The comma-joined banner objects.
pub open spec fn json_banners(bs: Seq<BannerResponse>) -> Seq<char>
    decreases bs.len(),
{
    if bs.len() == 0 {
        Seq::empty()
    } else if bs.len() == 1 {
        json_banner(bs[0])
    } else {
        json_banners(bs.drop_last()) + seq![','] + json_banner(bs.last())
    }
}

/// The whole JSON document of a report.
pub open spec fn spec_report_json(r: FileOutput) -> Seq<char> {
    "{\"host\":"@ + json_string(r.host@) + ",\"ip\":"@ + json_string(r.ip@) + ",\"protocol\":"@
        + json_string(r.protocol@) + ",\"ports\":["@ + json_ports(r.ports@)
        + "],\"banner_response\":["@ + json_banners(r.banner_response@) + "]}"@
}

/// A window of an equality between a subrange and a sequence.
proof fn lemma_subrange_of_eq(s: Seq<char>, i: int, j: int, t: Seq<char>, a: int, b: int)
    requires
        0 <= i <= j <= s.len(),
        s.subrange(i, j) == t,
        0 <= a <= b <= t.len(),
    ensures
        s.subrange(i + a, i + b) =~= t.subrange(a, b),
{
    assert forall|m: int| 0 <= m < b - a implies s.subrange(i + a, i + b)[m] == t.subrange(a, b)[m]
        by {
        assert(s.subrange(i, j)[a + m] == s[i + a + m]);
    }
}

/// The code of each hexadecimal digit character.
proof fn lemma_hex_char_code(d: int)
    requires
        0 <= d < 16,
    ensures
        hex_char(d) as int == if d < 10 {
            '0' as int + d
        } else {
            'a' as int + (d - 10)
        },
{
}

/// Distinct values below sixteen have distinct hexadecimal digit characters.
proof fn lemma_hex_char_injective(a: int, b: int)
    requires
        0 <= a < 16,
        0 <= b < 16,
        hex_char(a) == hex_char(b),
    ensures
        a == b,
{
    lemma_hex_char_code(a);
    lemma_hex_char_code(b);
}

/// Escaped JSON content is built character by character from the front too.
proof fn lemma_esc_front(x: Seq<char>)
    requires
        x.len() > 0,
    ensures
        json_escaped(x) == json_escape_char(x[0]) + json_escaped(x.drop_first()),
    decreases x.len(),
{
    if x.len() == 1 {
        assert(x.drop_last() =~= Seq::<char>::empty());
        assert(x.drop_first() =~= Seq::<char>::empty());
        assert(x.last() == x[0]);
        assert(json_escaped(x) =~= json_escape_char(x[0]) + json_escaped(x.drop_first()));
    } else {
        let y = x.drop_last();
        lemma_esc_front(y);
        assert(x.drop_first().drop_last() =~= y.drop_first());
        assert(y[0] == x[0]);
        assert(x.drop_first().last() == x.last());
        assert(x.drop_first().len() > 0);
        assert(json_escaped(x.drop_first()) == json_escaped(x.drop_first().drop_last())
            + json_escape_char(x.drop_first().last()));
        assert(json_escaped(x) =~= json_escape_char(x[0]) + json_escaped(x.drop_first()));
    }
}

/// No escape unit holds a raw quote: the quote itself is always escaped.
proof fn lemma_esc_char_no_quote(c: char)
    ensures
        forall|m: int|
            0 <= m < json_escape_char(c).len() ==> #[trigger] json_escape_char(c)[m] != '"',
{
    if json_needs_escape(c) {
        assert(0 <= (c as int) && (c as int) < 0x5D);
        let hi = hex_char(c as int / 16);
        let lo = hex_char(c as int % 16);
        lemma_hex_char_code(c as int / 16);
        lemma_hex_char_code(c as int % 16);
        assert(hi as int != '"' as int);
        assert(lo as int != '"' as int);
        assert(json_escape_char(c) =~= seq!['\\', 'u', '0', '0', hi, lo]);
    }
}

/// Escaped JSON content never holds a raw quote.
proof fn lemma_esc_no_quote(x: Seq<char>)
    ensures
        forall|m: int| 0 <= m < json_escaped(x).len() ==> #[trigger] json_escaped(x)[m] != '"',
    decreases x.len(),
{
    if x.len() > 0 {
        lemma_esc_no_quote(x.drop_last());
        lemma_esc_char_no_quote(x.last());
        let e = json_escaped(x.drop_last());
        let u = json_escape_char(x.last());
        assert forall|m: int| 0 <= m < json_escaped(x).len() implies #[trigger] json_escaped(x)[m]
            != '"' by {
            if m < e.len() {
                assert(json_escaped(x)[m] == e[m]);
            } else {
                assert(json_escaped(x)[m] == u[m - e.len()]);
            }
        }
    }
}

/// Two JSON string literals at the same position end at the same place: the
/// closing quote is the first unescaped quote.
proof fn lemma_json_string_unique_end(
    s: Seq<char>,
    i: int,
    x1: Seq<char>,
    j1: int,
    x2: Seq<char>,
    j2: int,
)
    requires
        0 <= i,
        i <= j1 <= s.len(),
        i <= j2 <= s.len(),
        s.subrange(i, j1) == json_string(x1),
        s.subrange(i, j2) == json_string(x2),
    ensures
        j1 == j2,
{
    lemma_esc_no_quote(x1);
    lemma_esc_no_quote(x2);
    assert(json_string(x1).len() == json_escaped(x1).len() + 2);
    assert(json_string(x2).len() == json_escaped(x2).len() + 2);
    assert(s.subrange(i, j1).len() == j1 - i);
    assert(s.subrange(i, j2).len() == j2 - i);
    assert(j1 - i == json_escaped(x1).len() + 2);
    assert(j2 - i == json_escaped(x2).len() + 2);
    if j1 < j2 {
        assert(s.subrange(i, j1)[j1 - 1 - i] == s[j1 - 1]);
        assert(json_string(x1)[j1 - 1 - i] == '"');
        assert(s.subrange(i, j2)[j1 - 1 - i] == s[j1 - 1]);
        assert(json_string(x2)[j1 - 1 - i] == json_escaped(x2)[j1 - 1 - i - 1]);
        assert(false);
    }
    if j2 < j1 {
        assert(s.subrange(i, j2)[j2 - 1 - i] == s[j2 - 1]);
        assert(json_string(x2)[j2 - 1 - i] == '"');
        assert(s.subrange(i, j1)[j2 - 1 - i] == s[j2 - 1]);
        assert(json_string(x1)[j2 - 1 - i] == json_escaped(x1)[j2 - 1 - i - 1]);
        assert(false);
    }
}

/// Two digit runs from the same position, each ended by a non-digit or the
/// end of the text, end at the same place.
proof fn lemma_digit_block_unique(s: Seq<char>, i: int, j1: int, j2: int)
    requires
        0 <= i <= j1 <= s.len(),
        i <= j2 <= s.len(),
        all_dec_digits(s.subrange(i, j1)),
        all_dec_digits(s.subrange(i, j2)),
        j1 == s.len() || !is_dec_digit(s[j1]),
        j2 == s.len() || !is_dec_digit(s[j2]),
    ensures
        j1 == j2,
{
    if j1 < j2 {
        assert(s.subrange(i, j2)[j1 - i] == s[j1]);
    }
    if j2 < j1 {
        assert(s.subrange(i, j1)[j2 - i] == s[j2]);
    }
}

/// The port array content is built from the front too.
proof fn lemma_json_ports_front(ps: Seq<u16>)
    requires
        ps.len() >= 1,
    ensures
        json_ports(ps) == dec_chars(ps[0] as int) + (if ps.len() == 1 {
            Seq::<char>::empty()
        } else {
            seq![','] + json_ports(ps.drop_first())
        }),
    decreases ps.len(),
{
    if ps.len() == 1 {
        assert(json_ports(ps) =~= dec_chars(ps[0] as int) + Seq::<char>::empty());
    } else if ps.len() == 2 {
        assert(ps.drop_last() =~= seq![ps[0]]);
        assert(ps.drop_first() =~= seq![ps[1]]);
        assert(json_ports(seq![ps[0]]) == dec_chars(ps[0] as int));
        assert(json_ports(seq![ps[1]]) == dec_chars(ps[1] as int));
        assert(ps.last() == ps[1]);
        assert(json_ports(ps) =~= dec_chars(ps[0] as int) + (seq![','] + json_ports(
            ps.drop_first(),
        )));
    } else {
        let y = ps.drop_last();
        lemma_json_ports_front(y);
        assert(y[0] == ps[0]);
        assert(ps.drop_first().drop_last() =~= y.drop_first());
        assert(ps.drop_first().last() == ps.last());
        assert(ps.drop_first().len() >= 2);
        assert(json_ports(ps.drop_first()) == json_ports(ps.drop_first().drop_last()) + seq![',']
            + dec_chars(ps.drop_first().last() as int));
        assert(json_ports(ps) =~= dec_chars(ps[0] as int) + (seq![','] + json_ports(
            ps.drop_first(),
        )));
    }
}

/// The port array content holds only digits and commas.
proof fn lemma_json_ports_chars(ps: Seq<u16>)
    ensures
        forall|m: int|
            0 <= m < json_ports(ps).len() ==> is_dec_digit(#[trigger] json_ports(ps)[m])
                || json_ports(ps)[m] == ',',
    decreases ps.len(),
{
    if ps.len() == 1 {
        lemma_dec_chars_value(ps[0] as int);
    } else if ps.len() > 1 {
        lemma_json_ports_chars(ps.drop_last());
        lemma_dec_chars_value(ps.last() as int);
        let a = json_ports(ps.drop_last());
        let d = dec_chars(ps.last() as int);
        assert forall|m: int| 0 <= m < json_ports(ps).len() implies is_dec_digit(
            #[trigger] json_ports(ps)[m],
        ) || json_ports(ps)[m] == ',' by {
            if m < a.len() {
                assert(json_ports(ps)[m] == a[m]);
            } else if m == a.len() {
                assert(json_ports(ps)[m] == ',');
            } else {
                assert(json_ports(ps)[m] == d[m - a.len() - 1]);
            }
        }
    }
}

/// Two port arrays at the same position, each ended by a bracket, end at the
/// same place: the bracket never stands inside the array content.
proof fn lemma_json_ports_unique_end(
    s: Seq<char>,
    i: int,
    ps1: Seq<u16>,
    j1: int,
    ps2: Seq<u16>,
    j2: int,
)
    requires
        0 <= i <= j1 <= s.len(),
        i <= j2 <= s.len(),
        s.subrange(i, j1) == json_ports(ps1),
        s.subrange(i, j2) == json_ports(ps2),
        j1 < s.len() && s[j1] == ']',
        j2 < s.len() && s[j2] == ']',
    ensures
        j1 == j2,
{
    lemma_json_ports_chars(ps1);
    lemma_json_ports_chars(ps2);
    if j1 < j2 {
        assert(s.subrange(i, j2)[j1 - i] == s[j1]);
        assert(is_dec_digit(']') || ']' == ',');
        assert(false);
    }
    if j2 < j1 {
        assert(s.subrange(i, j1)[j2 - i] == s[j2]);
        assert(is_dec_digit(']') || ']' == ',');
        assert(false);
    }
}

/// The banner array content is built from the front too.
proof fn lemma_json_banners_front(bs: Seq<BannerResponse>)
    requires
        bs.len() >= 1,
    ensures
        json_banners(bs) == json_banner(bs[0]) + (if bs.len() == 1 {
            Seq::<char>::empty()
        } else {
            seq![','] + json_banners(bs.drop_first())
        }),
    decreases bs.len(),
{
    if bs.len() == 1 {
        assert(json_banners(bs) =~= json_banner(bs[0]) + Seq::<char>::empty());
    } else if bs.len() == 2 {
        assert(bs.drop_last() =~= seq![bs[0]]);
        assert(bs.drop_first() =~= seq![bs[1]]);
        assert(json_banners(seq![bs[0]]) == json_banner(bs[0]));
        assert(json_banners(seq![bs[1]]) == json_banner(bs[1]));
        assert(bs.last() == bs[1]);
        assert(json_banners(bs) =~= json_banner(bs[0]) + (seq![','] + json_banners(
            bs.drop_first(),
        )));
    } else {
        let y = bs.drop_last();
        lemma_json_banners_front(y);
        assert(y[0] == bs[0]);
        assert(bs.drop_first().drop_last() =~= y.drop_first());
        assert(bs.drop_first().last() == bs.last());
        assert(bs.drop_first().len() >= 2);
        assert(json_banners(bs.drop_first()) == json_banners(bs.drop_first().drop_last())
            + seq![','] + json_banner(bs.drop_first().last()));
        assert(json_banners(bs) =~= json_banner(bs[0]) + (seq![','] + json_banners(
            bs.drop_first(),
        )));
    }
}

/// Two banner arrays at the same position, each ended by a bracket, end at
/// the same place: banner objects align unit by unit, since numerals end at
/// the first non-digit and string literals at the first unescaped quote.
proof fn lemma_json_banners_unique_end(
    s: Seq<char>,
    i: int,
    bs1: Seq<BannerResponse>,
    j1: int,
    bs2: Seq<BannerResponse>,
    j2: int,
)
    requires
        0 <= i <= j1 <= s.len(),
        i <= j2 <= s.len(),
        s.subrange(i, j1) == json_banners(bs1),
        s.subrange(i, j2) == json_banners(bs2),
        j1 < s.len() && s[j1] == ']',
        j2 < s.len() && s[j2] == ']',
    ensures
        j1 == j2,
    decreases bs1.len(),
{
    reveal_strlit("{\"port\":");
    reveal_strlit(",\"data\":");
    reveal_strlit("}");
    let ghost lit1 = "{\"port\":"@;
    let ghost lit2 = ",\"data\":"@;
    let ghost lit3 = "}"@;
    assert(lit1.len() == 8 && lit1[0] == '{');
    assert(lit2.len() == 8 && lit2[0] == ',');
    assert(lit3.len() == 1 && lit3[0] == '}');
    if bs1.len() == 0 && bs2.len() == 0 {
        assert(j1 == i && j2 == i);
    } else if bs1.len() == 0 || bs2.len() == 0 {
        // one array is empty and ends right at the bracket; the other would
        // have to open a banner object there
        if bs1.len() == 0 {
            assert(j1 == i);
            lemma_json_banners_front(bs2);
            assert(json_banner(bs2[0])[0] == lit1[0]);
            assert(json_banner(bs2[0]).len() >= 8);
            assert(json_banners(bs2)[0] == json_banner(bs2[0])[0]);
            assert(s.subrange(i, j2)[0] == s[i]);
            assert(s[i] == '{');
            assert(false);
        } else {
            assert(j2 == i);
            lemma_json_banners_front(bs1);
            assert(json_banner(bs1[0])[0] == lit1[0]);
            assert(json_banner(bs1[0]).len() >= 8);
            assert(json_banners(bs1)[0] == json_banner(bs1[0])[0]);
            assert(s.subrange(i, j1)[0] == s[i]);
            assert(s[i] == '{');
            assert(false);
        }
    } else {
        lemma_json_banners_front(bs1);
        lemma_json_banners_front(bs2);
        let b1 = bs1[0];
        let b2 = bs2[0];
        let u1 = json_banner(b1);
        let u2 = json_banner(b2);
        let d1 = dec_chars(b1.port as int);
        let d2 = dec_chars(b2.port as int);
        let g1 = json_string(b1.data@);
        let g2 = json_string(b2.data@);
        lemma_dec_chars_value(b1.port as int);
        lemma_dec_chars_value(b2.port as int);
        assert(u1 == lit1 + d1 + lit2 + g1 + lit3);
        assert(u2 == lit1 + d2 + lit2 + g2 + lit3);
        assert(u1.len() == 8 + d1.len() + 8 + g1.len() + 1);
        assert(u2.len() == 8 + d2.len() + 8 + g2.len() + 1);
        // the whole first unit stands in s after position i
        assert(s.subrange(i, j1).len() == j1 - i);
        assert(s.subrange(i, j2).len() == j2 - i);
        assert(json_banners(bs1).len() >= u1.len());
        assert(json_banners(bs2).len() >= u2.len());
        assert(u1.len() <= j1 - i);
        assert(u2.len() <= j2 - i);
        assert forall|m: int| 0 <= m < u1.len() implies s[i + m] == u1[m] by {
            assert(s.subrange(i, j1)[m] == s[i + m]);
            assert(json_banners(bs1)[m] == u1[m]);
        }
        assert forall|m: int| 0 <= m < u2.len() implies s[i + m] == u2[m] by {
            assert(s.subrange(i, j2)[m] == s[i + m]);
            assert(json_banners(bs2)[m] == u2[m]);
        }
        // the numerals start at i + 8 and end at the comma of the data field
        assert forall|m: int| 0 <= m < d1.len() implies s.subrange(i + 8, i + 8 + d1.len() as int)[m]
            == d1[m] by {
            assert(u1[8 + m] == d1[m]);
            assert(s[i + 8 + m] == u1[8 + m]);
        }
        assert(s.subrange(i + 8, i + 8 + d1.len() as int) =~= d1);
        assert forall|m: int| 0 <= m < d2.len() implies s.subrange(i + 8, i + 8 + d2.len() as int)[m]
            == d2[m] by {
            assert(u2[8 + m] == d2[m]);
            assert(s[i + 8 + m] == u2[8 + m]);
        }
        assert(s.subrange(i + 8, i + 8 + d2.len() as int) =~= d2);
        assert(u1[8 + d1.len() as int] == lit2[0]);
        assert(s[i + 8 + d1.len() as int] == ',');
        assert(u2[8 + d2.len() as int] == lit2[0]);
        assert(s[i + 8 + d2.len() as int] == ',');
        assert(!is_dec_digit(','));
        lemma_digit_block_unique(s, i + 8, i + 8 + d1.len() as int, i + 8 + d2.len() as int);
        assert(d1.len() == d2.len());
        let dl = d1.len() as int;
        // the string literals start right after the data field name
        let q = i + 16 + dl;
        assert forall|m: int| 0 <= m < g1.len() implies s.subrange(q, q + g1.len() as int)[m] == g1[m] by {
            assert(u1[16 + dl + m] == g1[m]);
            assert(s[q + m] == u1[16 + dl + m]);
        }
        assert(s.subrange(q, q + g1.len() as int) =~= g1);
        assert forall|m: int| 0 <= m < g2.len() implies s.subrange(q, q + g2.len() as int)[m] == g2[m] by {
            assert(u2[16 + dl + m] == g2[m]);
            assert(s[q + m] == u2[16 + dl + m]);
        }
        assert(s.subrange(q, q + g2.len() as int) =~= g2);
        lemma_json_string_unique_end(s, q, b1.data@, q + g1.len() as int, b2.data@, q + g2.len() as int);
        assert(g1.len() == g2.len());
        // both units end after the closing brace
        let e = q + g1.len() as int + 1;
        assert(u1.len() == e - i && u2.len() == e - i);
        // what follows the unit: the array bracket, or the separating comma
        if bs1.len() == 1 && bs2.len() == 1 {
            assert(j1 - i == u1.len() + 0);
            assert(j2 - i == u2.len() + 0);
        } else if bs1.len() == 1 {
            assert(j1 == e);
            assert(s.subrange(i, j2)[e - i] == s[e]);
            assert(json_banners(bs2)[e - i] == (seq![','] + json_banners(bs2.drop_first()))[0]);
            assert(s[e] == ',');
            assert(false);
        } else if bs2.len() == 1 {
            assert(j2 == e);
            assert(s.subrange(i, j1)[e - i] == s[e]);
            assert(json_banners(bs1)[e - i] == (seq![','] + json_banners(bs1.drop_first()))[0]);
            assert(s[e] == ',');
            assert(false);
        } else {
            // both continue after a comma: align the remaining banners
            let r1 = json_banners(bs1.drop_first());
            let r2 = json_banners(bs2.drop_first());
            assert(j1 - i == u1.len() + 1 + r1.len());
            assert(j2 - i == u2.len() + 1 + r2.len());
            assert forall|m: int| 0 <= m < r1.len() implies s.subrange(e + 1, j1)[m] == r1[m] by {
                assert(s.subrange(i, j1)[e - i + 1 + m] == s[e + 1 + m]);
                assert(json_banners(bs1)[e - i + 1 + m] == (seq![','] + r1)[1 + m]);
            }
            assert(s.subrange(e + 1, j1) =~= r1);
            assert forall|m: int| 0 <= m < r2.len() implies s.subrange(e + 1, j2)[m] == r2[m] by {
                assert(s.subrange(i, j2)[e - i + 1 + m] == s[e + 1 + m]);
                assert(json_banners(bs2)[e - i + 1 + m] == (seq![','] + r2)[1 + m]);
            }
            assert(s.subrange(e + 1, j2) =~= r2);
            lemma_json_banners_unique_end(s, e + 1, bs1.drop_first(), j1, bs2.drop_first(), j2);
        }
    }
}

/// Appends `s` as a JSON string literal.
fn push_json_string(out: &mut String, s: &str)
    ensures
        final(out)@ == old(out)@ + json_string(s@),
{
    string_push(out, '"');
    let len = s.unicode_len();
    let mut i: usize = 0;
    while i < len
        invariant
            i <= len,
            len == s@.len(),
            out@ == old(out)@ + seq!['"'] + json_escaped(s@.subrange(0, i as int)),
        decreases len - i,
    {
        let c = s.get_char(i);
        proof {
            let p = s@.subrange(0, i as int);
            let q = s@.subrange(0, i + 1);
            assert(q.drop_last() =~= p);
            assert(q.last() == s@[i as int]);
        }
        let code: u32 = c as u32;
        if c == '"' || c == '\\' || code < 0x20 {
            string_push(out, '\\');
            string_push(out, 'u');
            string_push(out, '0');
            string_push(out, '0');
            let hi = hex_char_of(code / 16);
            string_push(out, hi);
            let lo = hex_char_of(code % 16);
            string_push(out, lo);
            proof {
                assert(out@ =~= old(out)@ + seq!['"'] + json_escaped(s@.subrange(0, i + 1)));
            }
        } else {
            string_push(out, c);
            proof {
                assert(out@ =~= old(out)@ + seq!['"'] + json_escaped(s@.subrange(0, i + 1)));
            }
        }
        i += 1;
    }
    string_push(out, '"');
    proof {
        assert(s@.subrange(0, len as int) =~= s@);
        assert(out@ =~= old(out)@ + json_string(s@));
    }
}

/// Appends one banner as its JSON object.
fn push_json_banner(out: &mut String, b: &BannerResponse)
    ensures
        final(out)@ == old(out)@ + json_banner(*b),
{
    out.append("{\"port\":");
    push_dec_string(b.port, out);
    out.append(",\"data\":");
    push_json_string(out, b.data.as_str());
    out.append("}");
    proof {
        assert(out@ =~= old(out)@ + json_banner(*b));
    }
}

/// Renders a report as its JSON document.
pub fn encode_report(r: &FileOutput) -> (s: String)
    ensures
        s@ == spec_report_json(*r),
{
    let mut out = String::new();
    out.append("{\"host\":");
    push_json_string(&mut out, r.host.as_str());
    out.append(",\"ip\":");
    push_json_string(&mut out, r.ip.as_str());
    out.append(",\"protocol\":");
    push_json_string(&mut out, r.protocol.as_str());
    out.append(",\"ports\":[");
    let ghost head = out@;
    let n = r.ports.len();
    let mut i: usize = 0;
    while i < n
        invariant
            i <= n,
            n == r.ports@.len(),
            out@ == head + json_ports(r.ports@.subrange(0, i as int)),
        decreases n - i,
    {
        if i > 0 {
            string_push(&mut out, ',');
        }
        let p = r.ports[i];
        push_dec_string(p, &mut out);
        proof {
            let pre = r.ports@.subrange(0, i as int);
            let q = r.ports@.subrange(0, i + 1);
            assert(q.drop_last() =~= pre);
            assert(q.last() == r.ports@[i as int]);
            assert(out@ =~= head + json_ports(q));
        }
        i += 1;
    }
    proof {
        assert(r.ports@.subrange(0, n as int) =~= r.ports@);
    }
    out.append("],\"banner_response\":[");
    let ghost head2 = out@;
    let m = r.banner_response.len();
    let mut j: usize = 0;
    while j < m
        invariant
            j <= m,
            m == r.banner_response@.len(),
            out@ == head2 + json_banners(r.banner_response@.subrange(0, j as int)),
        decreases m - j,
    {
        if j > 0 {
            string_push(&mut out, ',');
        }
        push_json_banner(&mut out, &r.banner_response[j]);
        proof {
            let pre = r.banner_response@.subrange(0, j as int);
            let q = r.banner_response@.subrange(0, j + 1);
            assert(q.drop_last() =~= pre);
            assert(q.last() == r.banner_response@[j as int]);
            assert(out@ =~= head2 + json_banners(q));
        }
        j += 1;
    }
    proof {
        assert(r.banner_response@.subrange(0, m as int) =~= r.banner_response@);
    }
    out.append("]}");
    proof {
        assert(out@ =~= spec_report_json(*r));
    }
    out
}

/// The value of a lower-case hexadecimal digit character.
fn hex_val(c: char) -> (r: Option<u32>)
    ensures
        match r {
            Some(v) => v < 16 && hex_char(v as int) == c,
            None => forall|v: int| 0 <= v < 16 ==> hex_char(v) != c,
        },
{
    match c {
        '0' => Some(0),
        '1' => Some(1),
        '2' => Some(2),
        '3' => Some(3),
        '4' => Some(4),
        '5' => Some(5),
        '6' => Some(6),
        '7' => Some(7),
        '8' => Some(8),
        '9' => Some(9),
        'a' => Some(10),
        'b' => Some(11),
        'c' => Some(12),
        'd' => Some(13),
        'e' => Some(14),
        'f' => Some(15),
        _ => None,
    }
}

/// Checks that `lit` stands in `s` at position `i` and steps over it.
fn expect_lit(s: &str, i: usize, lit: &str) -> (r: Option<usize>)
    requires
        i <= s@.len(),
    ensures
        match r {
            Some(j) => i + lit@.len() == j && j <= s@.len() && s@.subrange(i as int, j as int)
                == lit@,
            None => !(i + lit@.len() <= s@.len() && s@.subrange(
                i as int,
                i + lit@.len() as int,
            ) == lit@),
        },
{
    let ll = lit.unicode_len();
    let sl = s.unicode_len();
    if sl - i < ll {
        return None;
    }
    let mut k: usize = 0;
    while k < ll
        invariant
            k <= ll,
            ll == lit@.len(),
            sl == s@.len(),
            i + ll <= sl,
            forall|t: int| 0 <= t < k ==> s@[i + t] == lit@[t],
        decreases ll - k,
    {
        if s.get_char(i + k) != lit.get_char(k) {
            proof {
                if s@.subrange(i as int, i + ll as int) == lit@ {
                    assert(s@.subrange(i as int, i + ll as int)[k as int] == s@[i + k]);
                    assert(false);
                }
            }
            return None;
        }
        k += 1;
    }
    proof {
        assert(s@.subrange(i as int, (i + ll) as int) =~= lit@);
    }
    Some(i + ll)
}

/// Reads a JSON string literal at position `i`: whatever text it yields, the
/// consumed characters are exactly that text's JSON string form; and where a
/// string literal stands at `i`, reading does not fail.
#[verifier::rlimit(80)]
fn parse_json_string(s: &str, i: usize) -> (r: Option<(String, usize)>)
    requires
        i <= s@.len(),
    ensures
        match r {
            Some(v) => i < v.1 <= s@.len() && s@.subrange(i as int, v.1 as int) == json_string(
                v.0@,
            ),
            None => !(exists|x: Seq<char>, j: int|
                i <= j <= s@.len() && s@.subrange(i as int, j) == json_string(x)),
        },
{
    let ghost haswit = exists|x: Seq<char>, j: int|
        i <= j <= s@.len() && s@.subrange(i as int, j) == json_string(x);
    let ghost (wx, wj): (Seq<char>, int) = if haswit {
        choose|x: Seq<char>, j: int|
            i <= j <= s@.len() && s@.subrange(i as int, j) == json_string(x)
    } else {
        (Seq::empty(), 0)
    };
    let ghost mut rest: Seq<char> = wx;
    let len = s.unicode_len();
    proof {
        if haswit {
            assert(json_string(wx).len() == json_escaped(wx).len() + 2);
            assert(s@.subrange(i as int, wj).len() == wj - i);
            assert(s@.subrange(i as int, wj)[0] == s@[i as int]);
            assert(json_string(wx)[0] == '"');
        }
    }
    if i >= len || s.get_char(i) != '"' {
        proof {
            if haswit {
                assert(false);
            }
        }
        return None;
    }
    proof {
        if haswit {
            assert forall|m: int| 0 <= m < json_escaped(wx).len() implies s@.subrange(
                i + 1,
                wj - 1,
            )[m] == json_escaped(wx)[m] by {
                assert(s@.subrange(i as int, wj)[1 + m] == s@[i + 1 + m]);
                assert(json_string(wx)[1 + m] == json_escaped(wx)[m]);
            }
            assert(s@.subrange(i + 1, wj - 1) =~= json_escaped(wx));
        }
    }
    let mut out = String::new();
    let mut k: usize = i + 1;
    while k < len
        invariant
            i + 1 <= k <= len,
            len == s@.len(),
            s@[i as int] == '"',
            s@.subrange(i + 1, k as int) =~= json_escaped(out@),
            haswit == exists|x: Seq<char>, j: int|
                i <= j <= s@.len() && s@.subrange(i as int, j) == json_string(x),
            haswit ==> {
                &&& i <= wj <= len
                &&& s@.subrange(i as int, wj) == json_string(wx)
                &&& wx == out@ + rest
                &&& k <= wj - 1
                &&& s@.subrange(k as int, wj - 1) =~= json_escaped(rest)
            },
        decreases len - k,
    {
        let c = s.get_char(k);
        if c == '"' {
            proof {
                assert(s@.subrange(i as int, k + 1) =~= seq!['"'] + json_escaped(out@)
                    + seq!['"']);
            }
            return Some((out, k + 1));
        }
        proof {
            if haswit {
                if rest.len() == 0 {
                    assert(s@.subrange(k as int, wj - 1).len() == 0);
                    assert(k == wj - 1);
                    assert(s@.subrange(i as int, wj)[wj - 1 - i] == s@[wj - 1]);
                    assert(json_string(wx).len() == wj - i);
                    assert(json_string(wx)[wj - 1 - i] == '"');
                    assert(false);
                }
                lemma_esc_front(rest);
                assert forall|m: int| 0 <= m < json_escape_char(rest[0]).len() implies s@[k + m]
                    == json_escape_char(rest[0])[m] by {
                    assert(s@.subrange(k as int, wj - 1)[m] == s@[k + m]);
                    assert((json_escape_char(rest[0]) + json_escaped(rest.drop_first()))[m]
                        == json_escape_char(rest[0])[m]);
                }
            }
        }
        if c == '\\' {
            proof {
                if haswit {
                    if !json_needs_escape(rest[0]) {
                        let u = json_escape_char(rest[0]);
                        assert(u =~= seq![rest[0]]);
                        assert(s@[k + 0] == u[0]);
                        assert(false);
                    }
                    let u = json_escape_char(rest[0]);
                    assert(u =~= seq![
                        '\\',
                        'u',
                        '0',
                        '0',
                        hex_char(rest[0] as int / 16),
                        hex_char(rest[0] as int % 16),
                    ]);
                    assert(u.len() == 6);
                    assert(json_escaped(rest).len() >= 6);
                    assert(s@.subrange(k as int, wj - 1).len() >= 6);
                    assert(k + 6 <= wj - 1);
                    assert(s@[k + 1] == u[1] && u[1] == 'u');
                    assert(s@[k + 2] == u[2] && u[2] == '0');
                    assert(s@[k + 3] == u[3] && u[3] == '0');
                    crate::numbers::lemma_char_int_bounds(rest[0]);
                    assert(json_needs_escape(rest[0]));
                    if rest[0] == '"' {
                        assert(rest[0] as int == '"' as int);
                    } else if rest[0] == '\\' {
                        assert(rest[0] as int == '\\' as int);
                    } else {
                        assert((rest[0] as int) < 0x20);
                    }
                    assert(0 <= (rest[0] as int) && (rest[0] as int) < 0x5D);
                    assert(s@[k + 4] == u[4] && u[4] == hex_char(rest[0] as int / 16));
                    assert(s@[k + 5] == u[5] && u[5] == hex_char(rest[0] as int % 16));
                }
            }
            if len - k < 6 {
                proof {
                    if haswit {
                        assert(false);
                    }
                }
                return None;
            }
            if s.get_char(k + 1) != 'u' || s.get_char(k + 2) != '0' || s.get_char(k + 3) != '0' {
                proof {
                    if haswit {
                        assert(false);
                    }
                }
                return None;
            }
            let hi = match hex_val(s.get_char(k + 4)) {
                Some(h) => h,
                None => {
                    proof {
                        if haswit {
                            assert(false);
                        }
                    }
                    return None;
                },
            };
            let lo = match hex_val(s.get_char(k + 5)) {
                Some(l) => l,
                None => {
                    proof {
                        if haswit {
                            assert(false);
                        }
                    }
                    return None;
                },
            };
            let val: u32 = hi * 16 + lo;
            proof {
                if haswit {
                    lemma_hex_char_injective(hi as int, rest[0] as int / 16);
                    lemma_hex_char_injective(lo as int, rest[0] as int % 16);
                    assert(val as int == rest[0] as int);
                    assert(json_needs_escape(rest[0]));
                    assert('"' as int == 0x22 && '\\' as int == 0x5C);
                }
            }
            if !(val < 0x20 || val == 0x22 || val == 0x5C) {
                proof {
                    if haswit {
                        assert(false);
                    }
                }
                return None;
            }
            let d: char = (val as u8) as char;
            let ghost pre = out@;
            string_push(&mut out, d);
            proof {
                assert(d as int == val as int);
                assert(json_needs_escape(d));
                assert(val as int / 16 == hi as int && val as int % 16 == lo as int)
                    by (nonlinear_arith)
                    requires
                        val == hi * 16 + lo,
                        0 <= lo < 16,
                        0 <= hi < 16,
                ;
                assert(json_escape_char(d) =~= s@.subrange(k as int, k + 6));
                assert(out@.drop_last() =~= pre);
                assert(s@.subrange(i + 1, k + 6) =~= json_escaped(pre) + json_escape_char(d));
                if haswit {
                    lemma_char_code_eq(d, rest[0]);
                    let ghost tail = rest.drop_first();
                    assert(json_escaped(rest) == json_escape_char(rest[0]) + json_escaped(tail));
                    assert forall|m: int| 0 <= m < json_escaped(tail).len() implies s@.subrange(
                        k + 6,
                        wj - 1,
                    )[m] == json_escaped(tail)[m] by {
                        assert(s@.subrange(k as int, wj - 1)[6 + m] == s@[k + 6 + m]);
                        assert(json_escaped(rest)[6 + m] == json_escaped(tail)[m]);
                    }
                    rest = rest.drop_first();
                    assert(wx =~= out@ + rest);
                    assert(s@.subrange(k + 6, wj - 1) =~= json_escaped(rest));
                }
            }
            k += 6;
        } else {
            let code: u32 = c as u32;
            proof {
                if haswit {
                    if json_needs_escape(rest[0]) {
                        let u = json_escape_char(rest[0]);
                        assert(u =~= seq![
                            '\\',
                            'u',
                            '0',
                            '0',
                            hex_char(rest[0] as int / 16),
                            hex_char(rest[0] as int % 16),
                        ]);
                        assert(s@[k + 0] == u[0]);
                        assert(false);
                    }
                    let u = json_escape_char(rest[0]);
                    assert(u =~= seq![rest[0]]);
                    assert(s@[k + 0] == u[0]);
                    assert(s@[k as int] == rest[0]);
                    assert(!((rest[0] as int) < 0x20));
                }
            }
            if code < 0x20 {
                proof {
                    if haswit {
                        assert(false);
                    }
                }
                return None;
            }
            let ghost pre = out@;
            string_push(&mut out, c);
            proof {
                assert(!json_needs_escape(c));
                assert(json_escape_char(c) =~= seq![c]);
                assert(out@.drop_last() =~= pre);
                assert(s@.subrange(i + 1, k + 1) =~= json_escaped(pre) + json_escape_char(c));
                if haswit {
                    let ghost tail = rest.drop_first();
                    assert(json_escaped(rest) == json_escape_char(rest[0]) + json_escaped(tail));
                    assert forall|m: int| 0 <= m < json_escaped(tail).len() implies s@.subrange(
                        k + 1,
                        wj - 1,
                    )[m] == json_escaped(tail)[m] by {
                        assert(s@.subrange(k as int, wj - 1)[1 + m] == s@[k + 1 + m]);
                        assert(json_escaped(rest)[1 + m] == json_escaped(tail)[m]);
                    }
                    rest = rest.drop_first();
                    assert(wx =~= out@ + rest);
                    assert(s@.subrange(k + 1, wj - 1) =~= json_escaped(rest));
                }
            }
            k += 1;
        }
    }
    proof {
        if haswit {
            assert(k <= wj - 1 <= len - 1);
            assert(false);
        }
    }
    None
}

/// Reads a port numeral at position `i`: the consumed characters are exactly
/// the canonical numeral of the value.
fn parse_dec_at(s: &str, i: usize) -> (r: Option<(u16, usize)>)
    requires
        i <= s@.len(),
    ensures
        match r {
            Some(v) => i < v.1 <= s@.len() && s@.subrange(i as int, v.1 as int) == dec_chars(
                v.0 as int,
            ) && (v.1 == s@.len() || !is_dec_digit(s@[v.1 as int])),
            None => forall|v: u16, j: int|
                #![trigger s@.subrange(i as int, j), dec_chars(v as int)]
                i <= j <= s@.len() && (j == s@.len() || !is_dec_digit(s@[j])) ==> s@.subrange(
                    i as int,
                    j,
                ) != dec_chars(v as int),
        },
{
    let len = s.unicode_len();
    let k = digit_run_end(s, i);
    if k == i {
        proof {
            assert forall|v: u16, j: int|
                #![trigger s@.subrange(i as int, j), dec_chars(v as int)]
                i <= j <= s@.len() && (j == s@.len() || !is_dec_digit(s@[j])) implies s@.subrange(
                i as int,
                j,
            ) != dec_chars(v as int) by {
                if s@.subrange(i as int, j) == dec_chars(v as int) {
                    lemma_dec_chars_value(v as int);
                    assert(s@.subrange(i as int, j).len() >= 1);
                    assert(j > i);
                    assert(s@.subrange(i as int, j)[0] == s@[i as int]);
                    assert(is_dec_digit(s@[i as int]));
                    assert(false);
                }
            }
        }
        return None;
    }
    let first: u32 = s.get_char(i) as u32;
    if first == '0' as u32 && k > i + 1 {
        proof {
            assert forall|v: u16, j: int|
                #![trigger s@.subrange(i as int, j), dec_chars(v as int)]
                i <= j <= s@.len() && (j == s@.len() || !is_dec_digit(s@[j])) implies s@.subrange(
                i as int,
                j,
            ) != dec_chars(v as int) by {
                if s@.subrange(i as int, j) == dec_chars(v as int) {
                    lemma_dec_chars_value(v as int);
                    lemma_digit_block_unique(s@, i as int, k as int, j);
                    assert(s@.subrange(i as int, j)[0] == s@[i as int]);
                    assert(dec_chars(v as int)[0] as int == '0' as int);
                    if v >= 1 {
                        lemma_dec_chars_no_leading_zero(v as int);
                        assert(false);
                    }
                    assert(dec_chars(0).len() == 1);
                    assert(false);
                }
            }
        }
        return None;
    }
    match crate::numbers::parse_dec_range(s, i, k, 65535) {
        None => {
            proof {
                assert forall|v: u16, j: int|
                    #![trigger s@.subrange(i as int, j), dec_chars(v as int)]
                    i <= j <= s@.len() && (j == s@.len() || !is_dec_digit(s@[j]))
                    implies s@.subrange(i as int, j) != dec_chars(v as int) by {
                    if s@.subrange(i as int, j) == dec_chars(v as int) {
                        lemma_dec_chars_value(v as int);
                        lemma_digit_block_unique(s@, i as int, k as int, j);
                        assert(crate::numbers::is_dec_token(
                            s@.subrange(i as int, k as int),
                            65535,
                        ));
                        assert(false);
                    }
                }
            }
            None
        },
        Some(v) => {
            proof {
                let t = s@.subrange(i as int, k as int);
                assert(t[0] == s@[i as int]);
                crate::numbers::lemma_dec_chars_canon(t);
            }
            Some((v as u16, k))
        },
    }
}

/// The end of the run of digits starting at `i`.
fn digit_run_end(s: &str, i: usize) -> (j: usize)
    requires
        i <= s@.len(),
    ensures
        i <= j <= s@.len(),
        all_dec_digits(s@.subrange(i as int, j as int)),
        j == s@.len() || !is_dec_digit(s@[j as int]),
{
    let len = s.unicode_len();
    let mut k: usize = i;
    while k < len
        invariant
            i <= k <= len,
            len == s@.len(),
            all_dec_digits(s@.subrange(i as int, k as int)),
        decreases len - k,
    {
        let c = s.get_char(k);
        let code: u32 = c as u32;
        if code < '0' as u32 || code > '9' as u32 {
            proof {
                assert(!is_dec_digit(s@[k as int]));
            }
            return k;
        }
        proof {
            assert(s@.subrange(i as int, k + 1).drop_last() =~= s@.subrange(i as int, k as int));
            assert(s@.subrange(i as int, k + 1).last() == s@[k as int]);
            assert(all_dec_digits(s@.subrange(i as int, k + 1)));
        }
        k += 1;
    }
    len
}

/// Reads the comma-joined port numerals at position `i`, stopping before the
/// closing bracket: the consumed characters are exactly the ports' array
/// content.
#[verifier::rlimit(80)]
fn parse_ports_array(s: &str, i: usize) -> (r: Option<(Vec<u16>, usize)>)
    requires
        i <= s@.len(),
    ensures
        match r {
            Some(v) => i <= v.1 < s@.len() && s@.subrange(i as int, v.1 as int) == json_ports(
                v.0@,
            ) && s@[v.1 as int] == ']',
            None => !(exists|ps: Seq<u16>, j: int|
                i <= j < s@.len() && s@.subrange(i as int, j) == json_ports(ps) && s@[j] == ']'),
        },
{
    let ghost haswit = exists|ps: Seq<u16>, j: int|
        i <= j < s@.len() && s@.subrange(i as int, j) == json_ports(ps) && s@[j] == ']';
    let ghost (wps, wj): (Seq<u16>, int) = if haswit {
        choose|ps: Seq<u16>, j: int|
            i <= j < s@.len() && s@.subrange(i as int, j) == json_ports(ps) && s@[j] == ']'
    } else {
        (Seq::empty(), 0)
    };
    let ghost mut rest: Seq<u16> = wps;
    let len = s.unicode_len();
    let mut out: Vec<u16> = Vec::new();
    let mut k: usize = i;
    if k < len && s.get_char(k) == ']' {
        proof {
            assert(s@.subrange(i as int, k as int) =~= json_ports(out@));
        }
        return Some((out, k));
    }
    proof {
        if haswit {
            assert(s@.subrange(i as int, wj).len() == wj - i);
            if wps.len() == 0 {
                assert(wj == i);
                assert(s@[i as int] == ']');
                assert(false);
            }
        }
    }
    loop
        invariant
            i <= k <= len,
            len == s@.len(),
            s@.subrange(i as int, k as int) =~= json_ports(out@) + (if out@.len() > 0 {
                seq![',']
            } else {
                Seq::<char>::empty()
            }),
            haswit == exists|ps: Seq<u16>, j: int|
                i <= j < s@.len() && s@.subrange(i as int, j) == json_ports(ps) && s@[j] == ']',
            haswit ==> {
                &&& i <= wj < len
                &&& s@.subrange(i as int, wj) == json_ports(wps)
                &&& s@[wj] == ']'
                &&& wps == out@ + rest
                &&& rest.len() > 0
                &&& k <= wj
                &&& s@.subrange(k as int, wj) =~= json_ports(rest)
            },
        decreases len - k,
    {
        proof {
            if haswit {
                lemma_json_ports_front(rest);
                lemma_dec_chars_value(rest[0] as int);
                let d = dec_chars(rest[0] as int);
                assert(json_ports(rest).len() == wj - k);
                assert forall|m: int| 0 <= m < d.len() implies s@.subrange(
                    k as int,
                    k + d.len() as int,
                )[m] == d[m] by {
                    assert(s@.subrange(k as int, wj)[m] == s@[k + m]);
                    assert(json_ports(rest)[m] == d[m]);
                }
                assert(s@.subrange(k as int, k + d.len() as int) =~= d);
                if rest.len() == 1 {
                    assert(json_ports(rest) =~= d);
                    assert(k + d.len() == wj);
                    assert(!is_dec_digit(']'));
                } else {
                    assert(json_ports(rest)[d.len() as int] == (seq![','] + json_ports(
                        rest.drop_first(),
                    ))[0]);
                    assert(s@.subrange(k as int, wj)[d.len() as int] == s@[k + d.len() as int]);
                    assert(s@[k + d.len() as int] == ',');
                    assert(!is_dec_digit(','));
                }
            }
        }
        let (v, k2) = match parse_dec_at(s, k) {
            Some(p) => p,
            None => {
                proof {
                    if haswit {
                        let d = dec_chars(rest[0] as int);
                        assert(s@.subrange(k as int, k + d.len() as int) == dec_chars(
                            rest[0] as int,
                        ));
                        assert(false);
                    }
                }
                return None;
            },
        };
        proof {
            if haswit {
                let d = dec_chars(rest[0] as int);
                lemma_dec_chars_value(v as int);
                lemma_digit_block_unique(s@, k as int, k2 as int, k + d.len() as int);
                assert(k2 == k + d.len());
                assert(dec_chars(v as int) =~= d);
                assert(crate::numbers::dec_value(dec_chars(v as int)) == v as int);
                assert(crate::numbers::dec_value(d) == rest[0] as int);
                assert(v == rest[0]);
            }
        }
        let ghost pre = out@;
        out.push(v);
        proof {
            assert(out@.drop_last() =~= pre);
            assert(out@.last() == v);
            assert(s@.subrange(i as int, k2 as int) =~= s@.subrange(i as int, k as int)
                + s@.subrange(k as int, k2 as int));
            assert(s@.subrange(i as int, k2 as int) =~= json_ports(out@));
        }
        if k2 >= len {
            proof {
                if haswit {
                    assert(k2 <= wj < len);
                    assert(false);
                }
            }
            return None;
        }
        let c = s.get_char(k2);
        if c == ']' {
            return Some((out, k2));
        }
        if c != ',' {
            proof {
                if haswit {
                    if rest.len() == 1 {
                        assert(k2 == wj);
                        assert(false);
                    } else {
                        assert(s@[k2 as int] == ',');
                        assert(false);
                    }
                }
            }
            return None;
        }
        proof {
            assert(s@.subrange(i as int, k2 + 1) =~= json_ports(out@) + seq![',']);
            if haswit {
                if rest.len() == 1 {
                    assert(k2 == wj);
                    assert(s@[k2 as int] == ']');
                    assert(false);
                }
                let ghost d = dec_chars(rest[0] as int);
                let ghost old_rest = rest;
                rest = rest.drop_first();
                assert(wps =~= out@ + rest);
                assert(rest.len() > 0);
                assert(json_ports(old_rest) == d + (seq![','] + json_ports(rest)));
                assert forall|m: int| 0 <= m < json_ports(rest).len() implies s@.subrange(
                    k2 + 1,
                    wj,
                )[m] == json_ports(rest)[m] by {
                    assert(s@.subrange(k as int, wj)[k2 + 1 - k + m] == s@[k2 + 1 + m]);
                    assert(json_ports(old_rest)[d.len() + 1 + m] == (seq![','] + json_ports(
                        rest,
                    ))[1 + m]);
                }
                assert(s@.subrange(k2 + 1, wj) =~= json_ports(rest));
            }
        }
        k = k2 + 1;
    }
}

/// Reads the comma-joined banner objects at position `i`, stopping before
/// the closing bracket.
#[verifier::rlimit(100)]
fn parse_banners_array(s: &str, i: usize) -> (r: Option<(Vec<BannerResponse>, usize)>)
    requires
        i <= s@.len(),
    ensures
        match r {
            Some(v) => i <= v.1 < s@.len() && s@.subrange(i as int, v.1 as int) == json_banners(
                v.0@,
            ) && s@[v.1 as int] == ']',
            None => !(exists|bs: Seq<BannerResponse>, j: int|
                i <= j < s@.len() && s@.subrange(i as int, j) == json_banners(bs) && s@[j]
                    == ']'),
        },
{
    let ghost haswit = exists|bs: Seq<BannerResponse>, j: int|
        i <= j < s@.len() && s@.subrange(i as int, j) == json_banners(bs) && s@[j] == ']';
    let ghost (wbs, wj): (Seq<BannerResponse>, int) = if haswit {
        choose|bs: Seq<BannerResponse>, j: int|
            i <= j < s@.len() && s@.subrange(i as int, j) == json_banners(bs) && s@[j] == ']'
    } else {
        (Seq::empty(), 0)
    };
    let ghost mut rest: Seq<BannerResponse> = wbs;
    let len = s.unicode_len();
    let mut out: Vec<BannerResponse> = Vec::new();
    let mut k: usize = i;
    if k < len && s.get_char(k) == ']' {
        proof {
            assert(s@.subrange(i as int, k as int) =~= json_banners(out@));
        }
        return Some((out, k));
    }
    proof {
        if haswit {
            assert(s@.subrange(i as int, wj).len() == wj - i);
            if wbs.len() == 0 {
                assert(wj == i);
                assert(s@[i as int] == ']');
                assert(false);
            }
        }
    }
    loop
        invariant
            i <= k <= len,
            len == s@.len(),
            s@.subrange(i as int, k as int) =~= json_banners(out@) + (if out@.len() > 0 {
                seq![',']
            } else {
                Seq::<char>::empty()
            }),
            haswit == exists|bs: Seq<BannerResponse>, j: int|
                i <= j < s@.len() && s@.subrange(i as int, j) == json_banners(bs) && s@[j]
                    == ']',
            haswit ==> {
                &&& i <= wj < len
                &&& s@.subrange(i as int, wj) == json_banners(wbs)
                &&& s@[wj] == ']'
                &&& rest.len() > 0
                &&& k <= wj
                &&& s@.subrange(k as int, wj) =~= json_banners(rest)
            },
        decreases len - k,
    {
        proof {
            if haswit {
                reveal_strlit("{\"port\":");
                reveal_strlit(",\"data\":");
                reveal_strlit("}");
                lemma_json_banners_front(rest);
                let b0 = rest[0];
                let u = json_banner(b0);
                let d = dec_chars(b0.port as int);
                let g = json_string(b0.data@);
                lemma_dec_chars_value(b0.port as int);
                assert("{\"port\":"@.len() == 8 && ",\"data\":"@.len() == 8 && "}"@.len() == 1);
                assert(u == "{\"port\":"@ + d + ",\"data\":"@ + g + "}"@);
                assert(u.len() == 17 + d.len() + g.len());
                assert(json_banners(rest).len() == wj - k);
                assert(u.len() <= wj - k);
                assert forall|m: int| 0 <= m < u.len() implies s@[k + m] == u[m] by {
                    assert(s@.subrange(k as int, wj)[m] == s@[k + m]);
                    assert(json_banners(rest)[m] == u[m]);
                }
                let dl = d.len() as int;
                let gl = g.len() as int;
                assert forall|m: int| 0 <= m < 8 implies s@.subrange(k as int, k + 8)[m]
                    == "{\"port\":"@[m] by {
                    assert(u[m] == "{\"port\":"@[m]);
                    assert(s@.subrange(k as int, k + 8)[m] == s@[k + m]);
                }
                assert(s@.subrange(k as int, k + 8) =~= "{\"port\":"@);
                assert forall|m: int| 0 <= m < dl implies s@.subrange(k + 8, k + 8 + dl)[m]
                    == d[m] by {
                    assert(u[8 + m] == d[m]);
                    assert(s@.subrange(k + 8, k + 8 + dl)[m] == s@[k + 8 + m]);
                }
                assert(s@.subrange(k + 8, k + 8 + dl) =~= d);
                assert(u[8 + dl] == ",\"data\":"@[0]);
                assert(s@[k + 8 + dl] == ',');
                assert(!is_dec_digit(','));
                assert forall|m: int| 0 <= m < 8 implies s@.subrange(
                    k + 8 + dl,
                    k + 16 + dl,
                )[m] == ",\"data\":"@[m] by {
                    assert(u[8 + dl + m] == ",\"data\":"@[m]);
                    assert(s@.subrange(k + 8 + dl, k + 16 + dl)[m] == s@[k + 8 + dl + m]);
                }
                assert(s@.subrange(k + 8 + dl, k + 16 + dl) =~= ",\"data\":"@);
                assert forall|m: int| 0 <= m < gl implies s@.subrange(
                    k + 16 + dl,
                    k + 16 + dl + gl,
                )[m] == g[m] by {
                    assert(u[16 + dl + m] == g[m]);
                    assert(s@.subrange(k + 16 + dl, k + 16 + dl + gl)[m] == s@[k + 16 + dl + m]);
                }
                assert(s@.subrange(k + 16 + dl, k + 16 + dl + gl) =~= g);
                assert(u[16 + dl + gl] == '}');
                assert(s@.subrange(k + 16 + dl + gl, k + 17 + dl + gl) =~= "}"@);
            }
        }
        let k1 = match expect_lit(s, k, "{\"port\":") {
            Some(j) => j,
            None => {
                proof {
                    if haswit {
                        assert(k + "{\"port\":"@.len() <= wj < s@.len());
                        assert(false);
                    }
                }
                return None;
            },
        };
        let (port, k2) = match parse_dec_at(s, k1) {
            Some(p) => p,
            None => {
                proof {
                    if haswit {
                        let d = dec_chars(rest[0].port as int);
                        assert(s@.subrange(k1 as int, k1 + d.len() as int) == dec_chars(
                            rest[0].port as int,
                        ));
                        assert(s@[k1 + d.len() as int] == ',');
                        assert(false);
                    }
                }
                return None;
            },
        };
        proof {
            if haswit {
                let d = dec_chars(rest[0].port as int);
                lemma_dec_chars_value(port as int);
                assert(s@[k1 + d.len() as int] == ',');
                lemma_digit_block_unique(s@, k1 as int, k2 as int, k1 + d.len() as int);
                assert(k2 == k1 + d.len());
                assert(dec_chars(port as int) =~= d);
                assert(crate::numbers::dec_value(dec_chars(port as int)) == port as int);
                assert(crate::numbers::dec_value(d) == rest[0].port as int);
                assert(port == rest[0].port);
            }
        }
        let k3 = match expect_lit(s, k2, ",\"data\":") {
            Some(j) => j,
            None => {
                proof {
                    if haswit {
                        assert(k2 + ",\"data\":"@.len() <= wj < s@.len());
                        assert(false);
                    }
                }
                return None;
            },
        };
        let (data, k4) = match parse_json_string(s, k3) {
            Some(p) => p,
            None => {
                proof {
                    if haswit {
                        let g = json_string(rest[0].data@);
                        assert(s@.subrange(k3 as int, k3 + g.len() as int) == json_string(
                            rest[0].data@,
                        ));
                        assert(k3 + g.len() <= s@.len());
                        assert(false);
                    }
                }
                return None;
            },
        };
        proof {
            if haswit {
                let g = json_string(rest[0].data@);
                lemma_json_string_unique_end(
                    s@,
                    k3 as int,
                    data@,
                    k4 as int,
                    rest[0].data@,
                    k3 + g.len() as int,
                );
                assert(k4 == k3 + g.len());
            }
        }
        let k5 = match expect_lit(s, k4, "}") {
            Some(j) => j,
            None => {
                proof {
                    if haswit {
                        assert(k4 + "}"@.len() <= wj < s@.len());
                        assert(false);
                    }
                }
                return None;
            },
        };
        let b = BannerResponse { port, data };
        let ghost pre = out@;
        out.push(b);
        proof {
            reveal_strlit("}");
            assert("}"@ =~= seq!['}']);
            assert(out@.drop_last() =~= pre);
            assert(s@.subrange(k as int, k5 as int) =~= s@.subrange(k as int, k1 as int)
                + s@.subrange(k1 as int, k2 as int) + s@.subrange(k2 as int, k3 as int)
                + s@.subrange(k3 as int, k4 as int) + s@.subrange(k4 as int, k5 as int));
            assert(s@.subrange(k as int, k5 as int) =~= json_banner(out@.last()));
            assert(s@.subrange(i as int, k5 as int) =~= s@.subrange(i as int, k as int)
                + s@.subrange(k as int, k5 as int));
            assert(s@.subrange(i as int, k5 as int) =~= json_banners(out@));
            if haswit {
                // the parsed object spans exactly the witness's first banner
                let u = json_banner(rest[0]);
                assert(k5 - k == u.len());
                if rest.len() == 1 {
                    assert(json_banners(rest) =~= u);
                    assert(k5 == wj);
                }
            }
        }
        if k5 >= len {
            proof {
                if haswit {
                    assert(k5 - k <= wj - k);
                    assert(k5 <= wj < len);
                    assert(false);
                }
            }
            return None;
        }
        let c = s.get_char(k5);
        if c == ']' {
            return Some((out, k5));
        }
        if c != ',' {
            proof {
                if haswit {
                    if rest.len() == 1 {
                        assert(s@[k5 as int] == ']');
                        assert(false);
                    } else {
                        let u = json_banner(rest[0]);
                        assert(json_banners(rest)[u.len() as int] == (seq![','] + json_banners(
                            rest.drop_first(),
                        ))[0]);
                        assert(s@.subrange(k as int, wj)[u.len() as int] == s@[k5 as int]);
                        assert(s@[k5 as int] == ',');
                        assert(false);
                    }
                }
            }
            return None;
        }
        proof {
            assert(s@.subrange(i as int, k5 + 1) =~= json_banners(out@) + seq![',']);
            if haswit {
                if rest.len() == 1 {
                    assert(s@[k5 as int] == ']');
                    assert(false);
                }
                let u = json_banner(rest[0]);
                let ghost old_rest = rest;
                rest = rest.drop_first();
                assert(rest.len() > 0);
                assert(json_banners(old_rest) == u + (seq![','] + json_banners(rest)));
                assert forall|m: int| 0 <= m < json_banners(rest).len() implies s@.subrange(
                    k5 + 1,
                    wj,
                )[m] == json_banners(rest)[m] by {
                    assert(s@.subrange(k as int, wj)[k5 + 1 - k + m] == s@[k5 + 1 + m]);
                    assert(json_banners(old_rest)[u.len() + 1 + m] == (seq![','] + json_banners(
                        rest,
                    ))[1 + m]);
                }
                assert(s@.subrange(k5 + 1, wj) =~= json_banners(rest));
            }
        }
        k = k5 + 1;
    }
}

/// Splitting a concatenation at its seam.
proof fn lemma_peel_last(t: Seq<char>, a: Seq<char>, b: Seq<char>)
    requires
        t == a + b,
    ensures
        t.subrange(0, a.len() as int) == a,
        t.subrange(a.len() as int, t.len() as int) == b,
{
    assert(t.subrange(0, a.len() as int) =~= a);
    assert(t.subrange(a.len() as int, t.len() as int) =~= b);
}

/// The JSON document of a report, cut into its eleven pieces: each field
/// name, value and bracket stands at its computed offset.
proof fn lemma_report_decomposition(s: Seq<char>, rep: FileOutput)
    requires
        s == spec_report_json(rep),
    ensures
        ({
            let wh = json_string(rep.host@);
            let wi = json_string(rep.ip@);
            let wp = json_string(rep.protocol@);
            let wpp = json_ports(rep.ports@);
            let wbb = json_banners(rep.banner_response@);
            let c1 = "{\"host\":"@.len() as int;
            let c2 = c1 + wh.len();
            let c3 = c2 + ",\"ip\":"@.len();
            let c4 = c3 + wi.len();
            let c5 = c4 + ",\"protocol\":"@.len();
            let c6 = c5 + wp.len();
            let c7 = c6 + ",\"ports\":["@.len();
            let c8 = c7 + wpp.len();
            let c9 = c8 + "],\"banner_response\":["@.len();
            let c10 = c9 + wbb.len();
            let c11 = c10 + "]}"@.len();
            &&& s.len() == c11
            &&& s.subrange(0, c1) == "{\"host\":"@
            &&& s.subrange(c1, c2) == wh
            &&& s.subrange(c2, c3) == ",\"ip\":"@
            &&& s.subrange(c3, c4) == wi
            &&& s.subrange(c4, c5) == ",\"protocol\":"@
            &&& s.subrange(c5, c6) == wp
            &&& s.subrange(c6, c7) == ",\"ports\":["@
            &&& s.subrange(c7, c8) == wpp
            &&& s.subrange(c8, c9) == "],\"banner_response\":["@
            &&& s.subrange(c9, c10) == wbb
            &&& s.subrange(c10, c11) == "]}"@
            &&& s[c8] == ']'
            &&& s[c10] == ']'
        }),
{
    let wh = json_string(rep.host@);
    let wi = json_string(rep.ip@);
    let wp = json_string(rep.protocol@);
    let wpp = json_ports(rep.ports@);
    let wbb = json_banners(rep.banner_response@);
    let d1 = "{\"host\":"@;
    let d2 = d1 + wh;
    let d3 = d2 + ",\"ip\":"@;
    let d4 = d3 + wi;
    let d5 = d4 + ",\"protocol\":"@;
    let d6 = d5 + wp;
    let d7 = d6 + ",\"ports\":["@;
    let d8 = d7 + wpp;
    let d9 = d8 + "],\"banner_response\":["@;
    let d10 = d9 + wbb;
    assert(s == d10 + "]}"@);
    lemma_peel_last(s, d10, "]}"@);
    lemma_peel_last(d10, d9, wbb);
    lemma_subrange_of_eq(s, 0, d10.len() as int, d10, d9.len() as int, d10.len() as int);
    lemma_peel_last(d9, d8, "],\"banner_response\":["@);
    lemma_subrange_of_eq(s, 0, d10.len() as int, d10, 0, d9.len() as int);
    lemma_subrange_of_eq(s, 0, d9.len() as int, d9, d8.len() as int, d9.len() as int);
    lemma_peel_last(d8, d7, wpp);
    lemma_subrange_of_eq(s, 0, d9.len() as int, d9, 0, d8.len() as int);
    lemma_subrange_of_eq(s, 0, d8.len() as int, d8, d7.len() as int, d8.len() as int);
    lemma_peel_last(d7, d6, ",\"ports\":["@);
    lemma_subrange_of_eq(s, 0, d8.len() as int, d8, 0, d7.len() as int);
    lemma_subrange_of_eq(s, 0, d7.len() as int, d7, d6.len() as int, d7.len() as int);
    lemma_peel_last(d6, d5, wp);
    lemma_subrange_of_eq(s, 0, d7.len() as int, d7, 0, d6.len() as int);
    lemma_subrange_of_eq(s, 0, d6.len() as int, d6, d5.len() as int, d6.len() as int);
    lemma_peel_last(d5, d4, ",\"protocol\":"@);
    lemma_subrange_of_eq(s, 0, d6.len() as int, d6, 0, d5.len() as int);
    lemma_subrange_of_eq(s, 0, d5.len() as int, d5, d4.len() as int, d5.len() as int);
    lemma_peel_last(d4, d3, wi);
    lemma_subrange_of_eq(s, 0, d5.len() as int, d5, 0, d4.len() as int);
    lemma_subrange_of_eq(s, 0, d4.len() as int, d4, d3.len() as int, d4.len() as int);
    lemma_peel_last(d3, d2, ",\"ip\":"@);
    lemma_subrange_of_eq(s, 0, d4.len() as int, d4, 0, d3.len() as int);
    lemma_subrange_of_eq(s, 0, d3.len() as int, d3, d2.len() as int, d3.len() as int);
    lemma_peel_last(d2, d1, wh);
    lemma_subrange_of_eq(s, 0, d3.len() as int, d3, 0, d2.len() as int);
    lemma_subrange_of_eq(s, 0, d2.len() as int, d2, d1.len() as int, d2.len() as int);
    lemma_subrange_of_eq(s, 0, d2.len() as int, d2, 0, d1.len() as int);
    // the brackets that end the two arrays
    reveal_strlit("],\"banner_response\":[");
    reveal_strlit("]}");
    assert(s.subrange(d8.len() as int, d9.len() as int)[0] == s[d8.len() as int]);
    assert(s.subrange(d10.len() as int, s.len() as int)[0] == s[d10.len() as int]);
    assert(s[d8.len() as int] == ']');
    assert(s[d10.len() as int] == ']');
}

/// Reads back a report from its JSON document: whenever a report comes out,
/// the given text is exactly that report's document — parsing inverts
/// [`encode_report`].
#[verifier::rlimit(100)]
pub fn parse_report(s: &str) -> (r: Option<FileOutput>)
    ensures
        match r {
            Some(rep) => s@ == spec_report_json(rep),
            None => !(exists|rep: FileOutput| s@ == spec_report_json(rep)),
        },
{
    let ghost haswit = exists|rep: FileOutput| s@ == spec_report_json(rep);
    let ghost wrep: FileOutput = if haswit {
        choose|rep: FileOutput| s@ == spec_report_json(rep)
    } else {
        arbitrary()
    };
    let ghost wh = json_string(wrep.host@);
    let ghost wi = json_string(wrep.ip@);
    let ghost wp = json_string(wrep.protocol@);
    let ghost wpp = json_ports(wrep.ports@);
    let ghost wbb = json_banners(wrep.banner_response@);
    let ghost c1 = "{\"host\":"@.len() as int;
    let ghost c2 = c1 + wh.len();
    let ghost c3 = c2 + ",\"ip\":"@.len();
    let ghost c4 = c3 + wi.len();
    let ghost c5 = c4 + ",\"protocol\":"@.len();
    let ghost c6 = c5 + wp.len();
    let ghost c7 = c6 + ",\"ports\":["@.len();
    let ghost c8 = c7 + wpp.len();
    let ghost c9 = c8 + "],\"banner_response\":["@.len();
    let ghost c10 = c9 + wbb.len();
    let ghost c11 = c10 + "]}"@.len();
    proof {
        reveal_strlit("],\"banner_response\":[");
        reveal_strlit("]}");
        assert("],\"banner_response\":["@.len() == 21);
        assert("]}"@.len() == 2);
        if haswit {
            lemma_report_decomposition(s@, wrep);
        }
    }
    let len = s.unicode_len();
    let j1 = match expect_lit(s, 0, "{\"host\":") {
        Some(j) => j,
        None => {
            proof {
                if haswit {
                    assert(false);
                }
            }
            return None;
        },
    };
    let (host, j2) = match parse_json_string(s, j1) {
        Some(p) => p,
        None => {
            proof {
                if haswit {
                    assert(j1 <= c2 <= s@.len() && s@.subrange(j1 as int, c2) == json_string(
                        wrep.host@,
                    ));
                    assert(false);
                }
            }
            return None;
        },
    };
    proof {
        if haswit {
            lemma_json_string_unique_end(s@, j1 as int, host@, j2 as int, wrep.host@, c2);
            assert(j2 == c2);
        }
    }
    let j3 = match expect_lit(s, j2, ",\"ip\":") {
        Some(j) => j,
        None => {
            proof {
                if haswit {
                    assert(false);
                }
            }
            return None;
        },
    };
    let (ip, j4) = match parse_json_string(s, j3) {
        Some(p) => p,
        None => {
            proof {
                if haswit {
                    assert(j3 <= c4 <= s@.len() && s@.subrange(j3 as int, c4) == json_string(
                        wrep.ip@,
                    ));
                    assert(false);
                }
            }
            return None;
        },
    };
    proof {
        if haswit {
            lemma_json_string_unique_end(s@, j3 as int, ip@, j4 as int, wrep.ip@, c4);
            assert(j4 == c4);
        }
    }
    let j5 = match expect_lit(s, j4, ",\"protocol\":") {
        Some(j) => j,
        None => {
            proof {
                if haswit {
                    assert(false);
                }
            }
            return None;
        },
    };
    let (protocol, j6) = match parse_json_string(s, j5) {
        Some(p) => p,
        None => {
            proof {
                if haswit {
                    assert(j5 <= c6 <= s@.len() && s@.subrange(j5 as int, c6) == json_string(
                        wrep.protocol@,
                    ));
                    assert(false);
                }
            }
            return None;
        },
    };
    proof {
        if haswit {
            lemma_json_string_unique_end(s@, j5 as int, protocol@, j6 as int, wrep.protocol@, c6);
            assert(j6 == c6);
        }
    }
    let j7 = match expect_lit(s, j6, ",\"ports\":[") {
        Some(j) => j,
        None => {
            proof {
                if haswit {
                    assert(false);
                }
            }
            return None;
        },
    };
    let (ports, j8) = match parse_ports_array(s, j7) {
        Some(p) => p,
        None => {
            proof {
                if haswit {
                    assert(j7 <= c8 < s@.len() && s@.subrange(j7 as int, c8) == json_ports(
                        wrep.ports@,
                    ) && s@[c8] == ']');
                    assert(false);
                }
            }
            return None;
        },
    };
    proof {
        if haswit {
            lemma_json_ports_unique_end(s@, j7 as int, ports@, j8 as int, wrep.ports@, c8);
            assert(j8 == c8);
        }
    }
    let j9 = match expect_lit(s, j8, "],\"banner_response\":[") {
        Some(j) => j,
        None => {
            proof {
                if haswit {
                    assert(false);
                }
            }
            return None;
        },
    };
    let (banners, j10) = match parse_banners_array(s, j9) {
        Some(p) => p,
        None => {
            proof {
                if haswit {
                    assert(j9 <= c10 < s@.len() && s@.subrange(j9 as int, c10) == json_banners(
                        wrep.banner_response@,
                    ) && s@[c10] == ']');
                    assert(false);
                }
            }
            return None;
        },
    };
    proof {
        if haswit {
            lemma_json_banners_unique_end(
                s@,
                j9 as int,
                banners@,
                j10 as int,
                wrep.banner_response@,
                c10,
            );
            assert(j10 == c10);
        }
    }
    let j11 = match expect_lit(s, j10, "]}") {
        Some(j) => j,
        None => {
            proof {
                if haswit {
                    assert(false);
                }
            }
            return None;
        },
    };
    if j11 != len {
        proof {
            if haswit {
                assert(j11 == c11);
                assert(false);
            }
        }
        return None;
    }
    let rep = FileOutput { host, ip, protocol, ports, banner_response: banners };
    proof {
        assert(s@.subrange(0, len as int) =~= s@);
        assert(s@ =~= s@.subrange(0, j1 as int) + s@.subrange(j1 as int, j2 as int)
            + s@.subrange(j2 as int, j3 as int) + s@.subrange(j3 as int, j4 as int)
            + s@.subrange(j4 as int, j5 as int) + s@.subrange(j5 as int, j6 as int)
            + s@.subrange(j6 as int, j7 as int) + s@.subrange(j7 as int, j8 as int)
            + s@.subrange(j8 as int, j9 as int) + s@.subrange(j9 as int, j10 as int)
            + s@.subrange(j10 as int, j11 as int));
        assert(s@ =~= spec_report_json(rep));
    }
    Some(rep)
}


} // verus!
