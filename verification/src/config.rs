//! Scan configuration: the parsed command-line arguments, the per-worker
//! flag snapshot, and the application settings derived from the host system.

use vstd::prelude::*;

verus! {

/// The command-line arguments that drive a scan, as plain values.
#[derive(Debug, Clone)]
pub struct Arguments {
    /// Target IPv4 address, written as four dotted decimal octets.
    pub ip: String,
    /// Port specification: a single port, an inclusive range `a-b`, or a
    /// comma-separated list. Absent means every port from 1 to 65535.
    pub ports: Option<String>,
    /// Display debug information.
    pub debug: bool,
    /// Directory that the JSON report is written into, if any.
    pub output: Option<String>,
    /// Display verbose information about the port scan.
    pub verbose: bool,
    /// The timeout in milliseconds before a port is dropped.
    pub timeout: u64,
    /// The number of worker threads.
    pub threads: u32,
    /// Make a GET request on each open port to grab the banner.
    pub banner_grab: bool,
    /// The maximum length of a grabbed banner, in characters.
    pub banner_len: u32,
}

/// The immutable snapshot of settings handed to every worker.
#[derive(Debug, Clone)]
pub struct Flags {
    pub debug: bool,
    pub verbose: bool,
    pub timeout: u64,
    pub banner_grab: bool,
    pub banner_len: u32,
}

impl Flags {
    /// An empty snapshot: everything off, timeout and banner length zero.
    pub fn new() -> (f: Flags)
        ensures
            !f.debug,
            !f.verbose,
            f.timeout == 0,
            !f.banner_grab,
            f.banner_len == 0,
    {
        Flags { debug: false, timeout: 0, verbose: false, banner_grab: false, banner_len: 0 }
    }

    /// Overwrites every field of the snapshot with the given values.
    pub fn set_flags(
        &mut self,
        debug: bool,
        timeout: u64,
        verbose: bool,
        banner_grab: bool,
        banner_len: u32,
    )
        ensures
            final(self).debug == debug,
            final(self).verbose == verbose,
            final(self).timeout == timeout,
            final(self).banner_grab == banner_grab,
            final(self).banner_len == banner_len,
    {
        self.debug = debug;
        self.verbose = verbose;
        self.timeout = timeout;
        self.banner_grab = banner_grab;
        self.banner_len = banner_len;
    }
}

/// The operating system the scanner runs on; it decides how the output path
/// is assembled.
#[derive(Debug, Clone, PartialEq, Eq, Structural)]
pub enum OperatingSystem {
    Windows,
    Linux,
    Unknown,
}

/// How the application should run: whether the output directory is usable,
/// and which operating system is in use.
#[derive(Debug, Clone)]
pub struct ArgumentSettings {
    pub is_valid_output_path: bool,
    pub os: OperatingSystem,
}

/// The operating system that a name such as `std::env::consts::OS` denotes.
pub open spec fn spec_os_of_name(name: Seq<char>) -> OperatingSystem {
    if name == "windows"@ {
        OperatingSystem::Windows
    } else if name == "linux"@ {
        OperatingSystem::Linux
    } else {
        OperatingSystem::Unknown
    }
}

impl ArgumentSettings {
    /// Settings for the operating system with the given name, with the
    /// output path not yet validated.
    pub fn from_os_name(name: &str) -> (s: ArgumentSettings)
        ensures
            !s.is_valid_output_path,
            s.os == spec_os_of_name(name@),
    {
        let os = if crate::strutil::str_equal(name, "windows") {
            OperatingSystem::Windows
        } else if crate::strutil::str_equal(name, "linux") {
            OperatingSystem::Linux
        } else {
            OperatingSystem::Unknown
        };
        ArgumentSettings { is_valid_output_path: false, os }
    }
}

impl Arguments {
    /// True when the scan must run single-threaded: no worker pool is spawned
    /// when zero or one threads are requested, or more threads than there are
    /// ports to scan.
    pub fn single_threaded(&self, total_ports: usize) -> (r: bool)
        ensures
            r == (self.threads == 0 || self.threads == 1 || self.threads as int
                > total_ports as int),
    {
        self.threads == 0 || self.threads == 1 || self.threads as u64 > total_ports as u64
    }
}

} // verus!
