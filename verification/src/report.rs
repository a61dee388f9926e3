//! The final scan report: the open ports, their banners, and the JSON
//! document and output path the report is persisted with.

use vstd::prelude::*;
use crate::config::OperatingSystem;
use crate::probe::truncate_banner;
use crate::strutil::string_push;

verus! {

/// Banner text captured from one open port.
#[derive(Debug, Clone)]
pub struct BannerResponse {
    pub port: u16,
    pub data: String,
}

impl BannerResponse {
    /// An empty banner on port zero.
    pub fn new() -> (b: BannerResponse)
        ensures
            b.port == 0,
            b.data@ == Seq::<char>::empty(),
    {
        BannerResponse { port: 0, data: String::new() }
    }
}

/// The report handed to the output layer: the scanned host, the open ports
/// sorted ascending without duplicates, and the banners.
#[derive(Debug, Clone)]
pub struct FileOutput {
    pub host: String,
    pub ip: String,
    pub protocol: String,
    pub ports: Vec<u16>,
    pub banner_response: Vec<BannerResponse>,
}

impl FileOutput {
    /// An empty report over IPv4 and TCP.
    pub fn new() -> (out: FileOutput)
        ensures
            out.host@ == Seq::<char>::empty(),
            out.ip@ == "V4"@,
            out.protocol@ == "TCP"@,
            out.ports@ =~= Seq::<u16>::empty(),
            out.banner_response@ =~= Seq::<BannerResponse>::empty(),
    {
        FileOutput {
            host: String::new(),
            ip: String::from_str("V4"),
            protocol: String::from_str("TCP"),
            ports: Vec::new(),
            banner_response: Vec::new(),
        }
    }
}

/// A timestamp cleaned for use in a file name: dashes removed, colons turned
/// into dashes, other characters kept.
pub open spec fn spec_clean_stamp(t: Seq<char>) -> Seq<char>
    decreases t.len(),
{
    if t.len() == 0 {
        Seq::empty()
    } else {
        spec_clean_stamp(t.drop_last()) + (if t.last() == '-' {
            Seq::<char>::empty()
        } else if t.last() == ':' {
            seq!['-']
        } else {
            seq![t.last()]
        })
    }
}

/// The timestamp part of an output file name: the cleaned timestamp,
/// truncated to 16 characters.
pub open spec fn spec_stamp(t: Seq<char>) -> Seq<char> {
    let cleaned = spec_clean_stamp(t);
    cleaned.take(
        if cleaned.len() <= 16 {
            cleaned.len() as int
        } else {
            16
        },
    )
}

/// The directory with the separator appended, unless it already ends in it.
pub open spec fn spec_with_sep(dir: Seq<char>, sep: char) -> Seq<char> {
    if dir.len() > 0 && dir.last() == sep {
        dir
    } else {
        dir.push(sep)
    }
}

/// The path a report written at time `t` is persisted under. On Windows the
/// user's directory is joined onto the current directory with backslashes;
/// on Linux it is used as given with slashes. The file name is the cleaned
/// 16-character timestamp followed by "-output.json".
pub open spec fn spec_output_path(
    current_dir: Seq<char>,
    out_dir: Seq<char>,
    os: OperatingSystem,
    t: Seq<char>,
) -> Seq<char> {
    match os {
        OperatingSystem::Windows => current_dir + seq!['\\'] + spec_with_sep(out_dir, '\\')
            + spec_stamp(t) + "-output.json"@,
        OperatingSystem::Linux => spec_with_sep(out_dir, '/') + spec_stamp(t) + "-output.json"@,
        OperatingSystem::Unknown => Seq::empty(),
    }
}

/// Cleans a timestamp text for use in a file name.
fn clean_stamp(t: &str) -> (r: String)
    ensures
        r@ == spec_clean_stamp(t@),
{
    let len = t.unicode_len();
    let mut out = String::new();
    let mut i: usize = 0;
    while i < len
        invariant
            i <= len,
            len == t@.len(),
            out@ == spec_clean_stamp(t@.subrange(0, i as int)),
        decreases len - i,
    {
        let c = t.get_char(i);
        proof {
            let p = t@.subrange(0, i as int);
            let q = t@.subrange(0, i + 1);
            assert(q.drop_last() =~= p);
            assert(q.last() == t@[i as int]);
        }
        if c == ':' {
            string_push(&mut out, '-');
            proof {
                assert(out@ =~= spec_clean_stamp(t@.subrange(0, i + 1)));
            }
        } else if c != '-' {
            string_push(&mut out, c);
            proof {
                assert(out@ =~= spec_clean_stamp(t@.subrange(0, i + 1)));
            }
        } else {
            proof {
                assert(out@ =~= spec_clean_stamp(t@.subrange(0, i + 1)));
            }
        }
        i += 1;
    }
    proof {
        assert(t@.subrange(0, len as int) =~= t@);
    }
    out
}

/// The directory with the separator appended unless already present.
fn with_sep(dir: &str, sep: char) -> (r: String)
    requires
        dir@.len() > 0,
    ensures
        r@ == spec_with_sep(dir@, sep),
{
    let len = dir.unicode_len();
    let last = dir.get_char(len - 1);
    let mut out = String::from_str(dir);
    if last != sep {
        string_push(&mut out, sep);
    }
    out
}

/// Builds the path a report written at time `stamp_src` is persisted under;
/// no path can be derived on an unknown operating system.
pub fn build_output_path(
    current_dir: &str,
    out_dir: &str,
    os: &OperatingSystem,
    stamp_src: &str,
) -> (r: Option<String>)
    requires
        out_dir@.len() > 0,
    ensures
        match r {
            Some(p) => (*os == OperatingSystem::Windows || *os == OperatingSystem::Linux) && p@
                == spec_output_path(current_dir@, out_dir@, *os, stamp_src@),
            None => *os == OperatingSystem::Unknown,
        },
{
    let cleaned = clean_stamp(stamp_src);
    let stamp = truncate_banner(cleaned.as_str(), 16);
    match os {
        OperatingSystem::Windows => {
            let mut out = String::from_str(current_dir);
            string_push(&mut out, '\\');
            let d = with_sep(out_dir, '\\');
            out.append(d.as_str());
            out.append(stamp.as_str());
            out.append("-output.json");
            proof {
                assert(out@ =~= spec_output_path(
                    current_dir@,
                    out_dir@,
                    OperatingSystem::Windows,
                    stamp_src@,
                ));
            }
            Some(out)
        },
        OperatingSystem::Linux => {
            let mut out = with_sep(out_dir, '/');
            out.append(stamp.as_str());
            out.append("-output.json");
            proof {
                assert(out@ =~= spec_output_path(
                    current_dir@,
                    out_dir@,
                    OperatingSystem::Linux,
                    stamp_src@,
                ));
            }
            Some(out)
        },
        OperatingSystem::Unknown => None,
    }
}

/// The current UTC date and time as text.
///
/// Relies on chrono's `DateTime::from_timestamp` and the `Display` form of
/// its result ("2026-01-02 03:04:05.678 UTC"), over std's clock; the value
/// depends on the clock, so nothing is promised of it. A clock before the
/// Unix epoch or out of chrono's range yields an empty stamp rather than a
/// panic.
#[verifier::external_body]
fn utc_now_string() -> String {
    match std::time::SystemTime::now().duration_since(std::time::UNIX_EPOCH) {
        Ok(d) => match chrono::DateTime::from_timestamp(d.as_secs() as i64, d.subsec_nanos()) {
            Some(t) => format!("{}", t),
            None => String::new(),
        },
        Err(_) => String::new(),
    }
}

/// The path a report written now is persisted under: the user's directory
/// joined per operating system, then the current UTC timestamp and the
/// "-output.json" suffix; no path can be derived on an unknown system.
pub fn output_path_now(current_dir: &str, out_dir: &str, os: &OperatingSystem) -> (r: Option<
    String,
>)
    requires
        out_dir@.len() > 0,
    ensures
        match r {
            Some(p) => (*os == OperatingSystem::Windows || *os == OperatingSystem::Linux)
                && exists|t: Seq<char>|
                p@ == spec_output_path(current_dir@, out_dir@, *os, t),
            None => *os == OperatingSystem::Unknown,
        },
{
    let now = utc_now_string();
    let r = build_output_path(current_dir, out_dir, os, now.as_str());
    proof {
        if r is Some {
            assert(r->0@ == spec_output_path(current_dir@, out_dir@, *os, now@));
        }
    }
    r
}

} // verus!
