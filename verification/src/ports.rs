//! Building the set of ports to probe from the user's port specification,
//! and the target address from its dotted-octet text.
//!
//! A specification with exactly one `-` is an inclusive range; otherwise one
//! with a comma is a list; otherwise a bare numeral is a single port. The
//! precedence is fixed: the dash is checked first, then the comma. Every port
//! must lie between 1 and 65535; a reversed range is rejected. An absent
//! specification means the full range 1..=65535.

use vstd::prelude::*;
use crate::numbers::{all_dec_digits, dec_value, is_dec_token, parse_dec_range};
use crate::errors::ScanError;
use crate::config::Arguments;

verus! {

/// How a port specification string is classified before parsing.
#[derive(Debug, Clone, PartialEq, Eq, Structural)]
pub enum Pattern {
    Range,
    Csv,
    Single,
    Unknown,
}

/// The target address as four plain octets, and the ports to scan.
#[derive(Debug, Clone)]
pub struct IpData {
    pub a: u8,
    pub b: u8,
    pub c: u8,
    pub d: u8,
    pub ports: Vec<u16>,
}

impl IpData {
    /// The zero address with no ports.
    pub fn new() -> (ip: IpData)
        ensures
            ip.a == 0 && ip.b == 0 && ip.c == 0 && ip.d == 0,
            ip.ports@ =~= Seq::<u16>::empty(),
    {
        IpData { a: 0, b: 0, c: 0, d: 0, ports: Vec::new() }
    }
}

/// Number of occurrences of `c` in `s`.
pub open spec fn count_char(s: Seq<char>, c: char) -> int
    decreases s.len(),
{
    if s.len() == 0 {
        0
    } else {
        count_char(s.drop_last(), c) + if s.last() == c {
            1int
        } else {
            0int
        }
    }
}

/// The position of the first occurrence of `c` in `s`; `s.len()` if absent.
pub open spec fn first_index(s: Seq<char>, c: char) -> nat
    decreases s.len(),
{
    if s.len() == 0 {
        0
    } else if s[0] == c {
        0
    } else {
        1 + first_index(s.drop_first(), c)
    }
}

/// A sequence without `c` has zero occurrences of it.
pub proof fn lemma_count_char_zero(s: Seq<char>, c: char)
    requires
        forall|k: int| 0 <= k < s.len() ==> s[k] != c,
    ensures
        count_char(s, c) == 0,
    decreases s.len(),
{
    if s.len() > 0 {
        assert(forall|k: int| 0 <= k < s.drop_last().len() ==> s.drop_last()[k] != c);
        lemma_count_char_zero(s.drop_last(), c);
    }
}

/// A position before which `c` does not occur, and at which it occurs or the
/// sequence ends, is the first occurrence.
pub proof fn lemma_first_index_of(s: Seq<char>, c: char, j: int)
    requires
        0 <= j <= s.len(),
        forall|k: int| 0 <= k < j ==> s[k] != c,
        j < s.len() ==> s[j] == c,
    ensures
        first_index(s, c) == j,
    decreases s.len(),
{
    if s.len() == 0 {
    } else if j == 0 {
        if s.len() > 0 && s[0] != c {
            assert(j < s.len() ==> s[j] == c);
            assert(j == s.len());
        }
    } else {
        assert(s[0] != c);
        let t = s.drop_first();
        assert(forall|k: int| 0 <= k < j - 1 ==> t[k] == s[k + 1] && t[k] != c);
        assert(j - 1 < t.len() ==> t[j - 1] == s[j]);
        lemma_first_index_of(t, c, j - 1);
    }
}

/// A well-formed port numeral: nonempty digits, value between 1 and 65535.
pub open spec fn is_port_token(s: Seq<char>) -> bool {
    is_dec_token(s, 65535) && dec_value(s) >= 1
}

/// The classification a specification text falls under: one dash makes a
/// range, else any comma makes a list, else a bare numeral is a single port.
pub open spec fn spec_pattern(s: Seq<char>) -> Pattern {
    if count_char(s, '-') == 1 {
        Pattern::Range
    } else if count_char(s, ',') >= 1 {
        Pattern::Csv
    } else if s.len() > 0 && all_dec_digits(s) {
        Pattern::Single
    } else {
        Pattern::Unknown
    }
}

/// The ports a range specification denotes: both bounds are port numerals
/// and the range is ascending, inclusive on both ends.
pub open spec fn spec_range_ports(s: Seq<char>) -> Option<Seq<u16>> {
    let k = first_index(s, '-') as int;
    let a = s.subrange(0, k);
    let b = s.subrange(k + 1, s.len() as int);
    if is_port_token(a) && is_port_token(b) && dec_value(a) <= dec_value(b) {
        Some(Seq::new((dec_value(b) - dec_value(a) + 1) as nat, |i: int| (dec_value(a) + i) as u16))
    } else {
        None
    }
}

/// The ports a comma-separated specification denotes, in writing order,
/// duplicates kept; every token must be a port numeral.
pub open spec fn spec_csv_ports(s: Seq<char>) -> Option<Seq<u16>>
    decreases s.len(),
{
    let k = first_index(s, ',') as int;
    if k >= s.len() {
        if is_port_token(s) {
            Some(seq![dec_value(s) as u16])
        } else {
            None
        }
    } else {
        let tok = s.subrange(0, k);
        if !is_port_token(tok) {
            None
        } else {
            match spec_csv_ports(s.subrange(k + 1, s.len() as int)) {
                Some(rest) => Some(seq![dec_value(tok) as u16] + rest),
                None => None,
            }
        }
    }
}

/// The full port range scanned when no specification is given.
pub open spec fn spec_all_ports() -> Seq<u16> {
    Seq::new(65535, |i: int| (i + 1) as u16)
}

/// The ports an optional specification text denotes; `None` of the result
/// means the text is rejected as an invalid port specification.
pub open spec fn spec_ports_of(spec_text: Option<Seq<char>>) -> Option<Seq<u16>> {
    match spec_text {
        None => Some(spec_all_ports()),
        Some(s) => match spec_pattern(s) {
            Pattern::Range => spec_range_ports(s),
            Pattern::Csv => spec_csv_ports(s),
            Pattern::Single => if is_port_token(s) {
                Some(seq![dec_value(s) as u16])
            } else {
                None
            },
            Pattern::Unknown => None,
        },
    }
}

/// The text a rejected range specification's error names: the first bound
/// that is no port numeral, else the second, else — for a reversed range —
/// the whole text.
pub open spec fn spec_range_bad_token(s: Seq<char>) -> Seq<char> {
    let k = first_index(s, '-') as int;
    let a = s.subrange(0, k);
    let b = s.subrange(k + 1, s.len() as int);
    if !is_port_token(a) {
        a
    } else if !is_port_token(b) {
        b
    } else {
        s
    }
}

/// The first token of a comma-separated specification that is no port
/// numeral; the error names it.
pub open spec fn spec_csv_bad_token(s: Seq<char>) -> Seq<char>
    decreases s.len(),
{
    let k = first_index(s, ',') as int;
    if k >= s.len() {
        s
    } else if !is_port_token(s.subrange(0, k)) {
        s.subrange(0, k)
    } else {
        spec_csv_bad_token(s.subrange(k + 1, s.len() as int))
    }
}

/// The text a rejected port specification's error carries: the first
/// offending bound or token for ranges and lists, the whole text otherwise.
pub open spec fn spec_bad_port_text(s: Seq<char>) -> Seq<char> {
    match spec_pattern(s) {
        Pattern::Range => spec_range_bad_token(s),
        Pattern::Csv => spec_csv_bad_token(s),
        Pattern::Single => s,
        Pattern::Unknown => s,
    }
}

/// Counts the occurrences of `c` among the characters of `s`.
pub fn count_char_in(s: &str, c: char) -> (n: usize)
    ensures
        n == count_char(s@, c),
{
    let len = s.unicode_len();
    let mut n: usize = 0;
    let mut i: usize = 0;
    while i < len
        invariant
            i <= len,
            len == s@.len(),
            n == count_char(s@.subrange(0, i as int), c),
            n <= i,
        decreases len - i,
    {
        let ch = s.get_char(i);
        proof {
            let p = s@.subrange(0, i as int);
            let q = s@.subrange(0, i + 1);
            assert(q.drop_last() =~= p);
            assert(q.last() == s@[i as int]);
        }
        if ch == c {
            n += 1;
        }
        i += 1;
    }
    proof {
        assert(s@.subrange(0, len as int) =~= s@);
    }
    n
}

/// The position of the first occurrence of `c` at or after `from`; the
/// length of `s` if there is none.
pub fn find_char(s: &str, from: usize, c: char) -> (j: usize)
    requires
        from <= s@.len(),
    ensures
        from <= j <= s@.len(),
        forall|k: int| from <= k < j ==> s@[k] != c,
        j < s@.len() ==> s@[j as int] == c,
{
    let len = s.unicode_len();
    let mut i: usize = from;
    while i < len
        invariant
            from <= i <= len,
            len == s@.len(),
            forall|k: int| from <= k < i ==> s@[k] != c,
        decreases len - i,
    {
        if s.get_char(i) == c {
            return i;
        }
        i += 1;
    }
    len
}

/// True when the characters `from..to` of `s` are one or more digits.
fn all_digits_range(s: &str, from: usize, to: usize) -> (r: bool)
    requires
        from <= to <= s@.len(),
    ensures
        r == (to > from && all_dec_digits(s@.subrange(from as int, to as int))),
{
    if from == to {
        return false;
    }
    let ghost t = s@.subrange(from as int, to as int);
    let mut i: usize = from;
    while i < to
        invariant
            from <= i <= to <= s@.len(),
            t == s@.subrange(from as int, to as int),
            forall|k: int| 0 <= k < i - from ==> crate::numbers::is_dec_digit(#[trigger] t[k]),
        decreases to - i,
    {
        let c = s.get_char(i);
        let code: u32 = c as u32;
        proof {
            assert(t[i - from] == c);
        }
        if code < '0' as u32 || code > '9' as u32 {
            return false;
        }
        i += 1;
    }
    true
}

/// Reads the characters `from..to` as a port numeral between 1 and 65535.
pub fn parse_port_range(s: &str, from: usize, to: usize) -> (r: Option<u16>)
    requires
        from <= to <= s@.len(),
    ensures
        match r {
            Some(v) => is_port_token(s@.subrange(from as int, to as int)) && v as int
                == dec_value(s@.subrange(from as int, to as int)),
            None => !is_port_token(s@.subrange(from as int, to as int)),
        },
{
    match parse_dec_range(s, from, to, 65535) {
        Some(v) => if v >= 1 {
            Some(v as u16)
        } else {
            None
        },
        None => None,
    }
}

impl Arguments {
    /// Classifies a port specification text. The dash is checked first, so a
    /// text holding both a dash and a comma counts as a range.
    pub fn find_pattern(text: String) -> (p: Pattern)
        ensures
            p == spec_pattern(text@),
    {
        pattern_of(text.as_str())
    }
}

/// Classifies a port specification text; see [`Arguments::find_pattern`].
pub fn pattern_of(s: &str) -> (p: Pattern)
    ensures
        p == spec_pattern(s@),
{
    let dashes = count_char_in(s, '-');
    if dashes == 1 {
        return Pattern::Range;
    }
    let commas = count_char_in(s, ',');
    if commas >= 1 {
        return Pattern::Csv;
    }
    let len = s.unicode_len();
    if all_digits_range(s, 0, len) {
        proof {
            assert(s@.subrange(0, len as int) =~= s@);
        }
        Pattern::Single
    } else {
        proof {
            assert(s@.subrange(0, len as int) =~= s@);
        }
        Pattern::Unknown
    }
}

/// Builds the ascending port list of a range specification.
fn range_ports(s: &str) -> (r: Result<Vec<u16>, ScanError>)
    requires
        count_char(s@, '-') == 1,
    ensures
        match r {
            Ok(v) => spec_range_ports(s@) == Some(v@),
            Err(e) => spec_range_ports(s@) is None && (e matches ScanError::InvalidPortSpec(t)
                && t@ == spec_range_bad_token(s@)),
        },
{
    let len = s.unicode_len();
    let k = find_char(s, 0, '-');
    proof {
        if k == len {
            lemma_count_char_zero(s@, '-');
        }
        lemma_first_index_of(s@, '-', k as int);
    }
    let a = parse_port_range(s, 0, k);
    let b = parse_port_range(s, k + 1, len);
    match (a, b) {
        (Some(av), Some(bv)) => {
            if av <= bv {
                let mut ports: Vec<u16> = Vec::new();
                let mut v: u32 = av as u32;
                while v <= bv as u32
                    invariant
                        av <= bv,
                        av as u32 <= v <= bv as u32 + 1,
                        ports@ =~= Seq::new((v - av) as nat, |i: int| (av as int + i) as u16),
                    decreases bv as int + 1 - v,
                {
                    ports.push(v as u16);
                    proof {
                        assert(ports@ =~= Seq::new(
                            (v + 1 - av) as nat,
                            |i: int| (av as int + i) as u16,
                        ));
                    }
                    v += 1;
                }
                proof {
                    assert(ports@ =~= Seq::new(
                        (bv - av + 1) as nat,
                        |i: int| (av as int + i) as u16,
                    ));
                }
                Ok(ports)
            } else {
                Err(ScanError::InvalidPortSpec(String::from_str(s)))
            }
        },
        (None, _) => {
            let tok = s.substring_char(0, k);
            Err(ScanError::InvalidPortSpec(String::from_str(tok)))
        },
        (Some(_), None) => {
            let tok = s.substring_char(k + 1, len);
            Err(ScanError::InvalidPortSpec(String::from_str(tok)))
        },
    }
}

/// Builds the port list of a comma-separated specification, starting at
/// character `from`.
fn csv_ports_from(s: &str, from: usize) -> (r: Result<Vec<u16>, ScanError>)
    requires
        from <= s@.len(),
    ensures
        match r {
            Ok(v) => spec_csv_ports(s@.subrange(from as int, s@.len() as int)) == Some(v@),
            Err(e) => spec_csv_ports(s@.subrange(from as int, s@.len() as int)) is None && (
            e matches ScanError::InvalidPortSpec(t) && t@ == spec_csv_bad_token(
                s@.subrange(from as int, s@.len() as int),
            )),
        },
    decreases s@.len() - from,
{
    let ghost t = s@.subrange(from as int, s@.len() as int);
    let len = s.unicode_len();
    let k = find_char(s, from, ',');
    proof {
        assert(forall|j: int| 0 <= j < k - from ==> t[j] == s@[from + j] && t[j] != ',');
        if k < len {
            assert(t[k - from] == ',');
        }
        lemma_first_index_of(t, ',', k - from);
        assert(t.subrange(0, k - from) =~= s@.subrange(from as int, k as int));
    }
    match parse_port_range(s, from, k) {
        None => {
            let tok = s.substring_char(from, k);
            Err(ScanError::InvalidPortSpec(String::from_str(tok)))
        },
        Some(v) => {
            if k == len {
                proof {
                    assert(t.subrange(0, k - from) =~= t);
                }
                let mut out: Vec<u16> = Vec::new();
                out.push(v);
                proof {
                    assert(out@ =~= seq![v]);
                }
                Ok(out)
            } else {
                proof {
                    assert(t.subrange(k - from + 1, t.len() as int) =~= s@.subrange(
                        k + 1,
                        s@.len() as int,
                    ));
                }
                match csv_ports_from(s, k + 1) {
                    Err(e) => Err(e),
                    Ok(mut rest) => {
                        let ghost rest0 = rest@;
                        let mut out: Vec<u16> = Vec::new();
                        out.push(v);
                        out.append(&mut rest);
                        proof {
                            assert(out@ =~= seq![v] + rest0);
                        }
                        Ok(out)
                    },
                }
            }
        },
    }
}

/// Builds the single-port list of a bare numeral specification.
fn single_ports(s: &str) -> (r: Result<Vec<u16>, ScanError>)
    ensures
        match r {
            Ok(v) => is_port_token(s@) && v@ =~= seq![dec_value(s@) as u16],
            Err(e) => !is_port_token(s@) && (e matches ScanError::InvalidPortSpec(t) && t@ == s@),
        },
{
    let len = s.unicode_len();
    proof {
        assert(s@.subrange(0, len as int) =~= s@);
    }
    match parse_port_range(s, 0, len) {
        None => Err(ScanError::InvalidPortSpec(String::from_str(s))),
        Some(v) => {
            let mut out: Vec<u16> = Vec::new();
            out.push(v);
            proof {
                assert(out@ =~= seq![v]);
            }
            Ok(out)
        },
    }
}

/// The full port list 1..=65535.
pub fn all_ports() -> (v: Vec<u16>)
    ensures
        v@ == spec_all_ports(),
{
    let mut ports: Vec<u16> = Vec::new();
    let mut p: u32 = 1;
    while p <= 65535
        invariant
            1 <= p <= 65536,
            ports@ =~= Seq::new((p - 1) as nat, |i: int| (i + 1) as u16),
        decreases 65536 - p,
    {
        ports.push(p as u16);
        proof {
            assert(ports@ =~= Seq::new(p as nat, |i: int| (i + 1) as u16));
        }
        p += 1;
    }
    proof {
        assert(ports@ =~= spec_all_ports());
    }
    ports
}

/// The dotted numerals of an address text, each between 0 and 255, in
/// writing order; `None` when any token is missing, non-numeric or too big.
pub open spec fn spec_dotted_octets(s: Seq<char>) -> Option<Seq<int>>
    decreases s.len(),
{
    let k = first_index(s, '.') as int;
    if k >= s.len() {
        if is_dec_token(s, 255) {
            Some(seq![dec_value(s)])
        } else {
            None
        }
    } else {
        let tok = s.subrange(0, k);
        if !is_dec_token(tok, 255) {
            None
        } else {
            match spec_dotted_octets(s.subrange(k + 1, s.len() as int)) {
                Some(rest) => Some(seq![dec_value(tok)] + rest),
                None => None,
            }
        }
    }
}

/// The four octets of an IPv4 address text; `None` unless the text is
/// exactly four valid dotted octets.
pub open spec fn spec_address_octets(s: Seq<char>) -> Option<(u8, u8, u8, u8)> {
    match spec_dotted_octets(s) {
        Some(r) => if r.len() == 4 {
            Some((r[0] as u8, r[1] as u8, r[2] as u8, r[3] as u8))
        } else {
            None
        },
        None => None,
    }
}

/// Collects the dotted octet values of `s` starting at character `from`.
fn octets_from(s: &str, from: usize) -> (r: Option<Vec<u8>>)
    requires
        from <= s@.len(),
    ensures
        match r {
            Some(v) => spec_dotted_octets(s@.subrange(from as int, s@.len() as int)) == Some(
                v@.map_values(|b: u8| b as int),
            ),
            None => spec_dotted_octets(s@.subrange(from as int, s@.len() as int)) is None,
        },
    decreases s@.len() - from,
{
    let ghost t = s@.subrange(from as int, s@.len() as int);
    let len = s.unicode_len();
    let k = find_char(s, from, '.');
    proof {
        assert(forall|j: int| 0 <= j < k - from ==> t[j] == s@[from + j] && t[j] != '.');
        if k < len {
            assert(t[k - from] == '.');
        }
        lemma_first_index_of(t, '.', k - from);
        assert(t.subrange(0, k - from) =~= s@.subrange(from as int, k as int));
    }
    match parse_dec_range(s, from, k, 255) {
        None => None,
        Some(v) => {
            if k == len {
                proof {
                    assert(t.subrange(0, k - from) =~= t);
                }
                let mut out: Vec<u8> = Vec::new();
                out.push(v as u8);
                proof {
                    assert(out@.map_values(|b: u8| b as int) =~= seq![dec_value(t)]);
                }
                Some(out)
            } else {
                proof {
                    assert(t.subrange(k - from + 1, t.len() as int) =~= s@.subrange(
                        k + 1,
                        s@.len() as int,
                    ));
                }
                match octets_from(s, k + 1) {
                    None => None,
                    Some(mut rest) => {
                        let ghost rest0 = rest@;
                        let mut out: Vec<u8> = Vec::new();
                        out.push(v as u8);
                        out.append(&mut rest);
                        proof {
                            assert(out@.map_values(|b: u8| b as int) =~= seq![
                                dec_value(t.subrange(0, k - from)),
                            ] + rest0.map_values(|b: u8| b as int));
                        }
                        Some(out)
                    },
                }
            }
        },
    }
}

/// Parses an IPv4 address text into its four octets.
pub fn parse_octets(s: &str) -> (r: Option<(u8, u8, u8, u8)>)
    ensures
        r == spec_address_octets(s@),
{
    proof {
        assert(s@.subrange(0, s@.len() as int) =~= s@);
    }
    match octets_from(s, 0) {
        None => None,
        Some(v) => {
            if v.len() == 4 {
                Some((v[0], v[1], v[2], v[3]))
            } else {
                None
            }
        },
    }
}

/// The characters of an optional string, when it is present.
pub open spec fn spec_opt_chars(o: Option<String>) -> Option<Seq<char>> {
    match o {
        Some(s) => Some(s@),
        None => None,
    }
}

impl Arguments {
    /// Parses a decimal numeral of at most 255, as the address octets need.
    pub fn parse_u8(value: &str) -> (r: Option<u8>)
        ensures
            match r {
                Some(v) => is_dec_token(value@, 255) && v as int == dec_value(value@),
                None => !is_dec_token(value@, 255),
            },
    {
        let len = value.unicode_len();
        proof {
            assert(value@.subrange(0, len as int) =~= value@);
        }
        match parse_dec_range(value, 0, len, 255) {
            Some(v) => Some(v as u8),
            None => None,
        }
    }

    /// Parses an unsigned 32-bit decimal numeral.
    pub fn parse_u32(value: &str) -> (r: Option<u32>)
        ensures
            match r {
                Some(v) => is_dec_token(value@, u32::MAX as int) && v as int == dec_value(value@),
                None => !is_dec_token(value@, u32::MAX as int),
            },
    {
        let len = value.unicode_len();
        proof {
            assert(value@.subrange(0, len as int) =~= value@);
        }
        parse_dec_range(value, 0, len, u32::MAX)
    }

    /// Parses the target address and builds the port list. The address must
    /// be four dotted octets; the ports follow the specification text, or are
    /// the full range 1..=65535 when no text was given. An invalid address is
    /// reported before an invalid port specification, as the scan aborts on
    /// the address first; each error names the text it rejects — the address,
    /// or the first offending port token.
    pub fn create_address(&self) -> (r: Result<IpData, ScanError>)
        ensures
            match r {
                Ok(ip) => spec_address_octets(self.ip@) == Some((ip.a, ip.b, ip.c, ip.d))
                    && spec_ports_of(spec_opt_chars(self.ports)) == Some(ip.ports@),
                Err(e) => match e {
                    ScanError::InvalidAddress(t) => spec_address_octets(self.ip@) is None && t@
                        == self.ip@,
                    ScanError::InvalidPortSpec(t) => spec_address_octets(self.ip@) is Some
                        && spec_ports_of(spec_opt_chars(self.ports)) is None && (
                    self.ports matches Some(ps) && t@ == spec_bad_port_text(ps@)),
                },
            },
    {
        match parse_octets(self.ip.as_str()) {
            None => Err(ScanError::InvalidAddress(self.ip.clone())),
            Some((a, b, c, d)) => {
                match &self.ports {
                    None => {
                        let ports = all_ports();
                        Ok(IpData { a, b, c, d, ports })
                    },
                    Some(p) => match build_port_list(p.as_str()) {
                        Ok(ports) => Ok(IpData { a, b, c, d, ports }),
                        Err(e) => Err(e),
                    },
                }
            },
        }
    }
}

/// Builds the port list a specification text denotes, or rejects the text.
pub fn build_port_list(s: &str) -> (r: Result<Vec<u16>, ScanError>)
    ensures
        match r {
            Ok(v) => spec_ports_of(Some(s@)) == Some(v@),
            Err(e) => spec_ports_of(Some(s@)) is None && (e matches ScanError::InvalidPortSpec(t)
                && t@ == spec_bad_port_text(s@)),
        },
{
    let p = pattern_of(s);
    match p {
        Pattern::Range => range_ports(s),
        Pattern::Csv => {
            proof {
                assert(s@.subrange(0, s@.len() as int) =~= s@);
            }
            csv_ports_from(s, 0)
        },
        Pattern::Single => single_ports(s),
        Pattern::Unknown => Err(ScanError::InvalidPortSpec(String::from_str(s))),
    }
}

} // verus!
