use vstd::prelude::*;

use crate::text::{chars_eq_ci, str_eq_ci, str_to_chars};

verus! {

/// A wide version triple, used by auxiliary displays and update checks.
#[derive(Debug, Clone, Copy, PartialEq, Eq, Structural, Hash)]
pub struct Version {
    pub major: u32,
    pub minor: u32,
    pub patch: u32,
}

impl Version {
    pub fn new(major: u32, minor: u32, patch: u32) -> (r: Version)
        ensures
            r == (Version { major, minor, patch }),
    {
        Version { major, minor, patch }
    }

    /// Lexicographic order on the triple.
    pub open spec fn spec_lt(self, other: Version) -> bool {
        ||| self.major < other.major
        ||| (self.major == other.major && self.minor < other.minor)
        ||| (self.major == other.major && self.minor == other.minor && self.patch < other.patch)
    }

    pub fn lt(&self, other: &Version) -> (r: bool)
        ensures
            r == self.spec_lt(*other),
    {
        self.major < other.major || (self.major == other.major && self.minor < other.minor) || (
        self.major == other.major && self.minor == other.minor && self.patch < other.patch)
    }
}

impl Default for Version {
    fn default() -> (r: Version)
        ensures
            r == (Version { major: 0u32, minor: 0u32, patch: 0u32 }),
    {
        Version { major: 0, minor: 0, patch: 0 }
    }
}

/// A coarse platform-and-width label used by auxiliary displays.
#[derive(Debug, Clone, Copy, PartialEq, Eq, Structural, Hash)]
pub enum PlatformArch {
    Windows64,
    Linux64,
    Android,
    Any,
    Unknown,
}

impl PlatformArch {
    /// The short label of each platform.
    pub fn to_short_string(&self) -> (r: String)
        ensures
            r@ == (match self {
                PlatformArch::Windows64 => "win64"@,
                PlatformArch::Linux64 => "lnx64"@,
                PlatformArch::Android => "android"@,
                PlatformArch::Any => "*"@,
                PlatformArch::Unknown => "?"@,
            }),
    {
        match self {
            PlatformArch::Windows64 => "win64".to_owned(),
            PlatformArch::Linux64 => "lnx64".to_owned(),
            PlatformArch::Android => "android".to_owned(),
            PlatformArch::Any => "*".to_owned(),
            PlatformArch::Unknown => "?".to_owned(),
        }
    }

    /// The long label of each platform.
    pub fn to_string(&self) -> (r: String)
        ensures
            r@ == (match self {
                PlatformArch::Windows64 => "windows-x64"@,
                PlatformArch::Linux64 => "linux-x64"@,
                PlatformArch::Android => "android"@,
                PlatformArch::Any => "any"@,
                PlatformArch::Unknown => "unknown"@,
            }),
    {
        match self {
            PlatformArch::Windows64 => "windows-x64".to_owned(),
            PlatformArch::Linux64 => "linux-x64".to_owned(),
            PlatformArch::Android => "android".to_owned(),
            PlatformArch::Any => "any".to_owned(),
            PlatformArch::Unknown => "unknown".to_owned(),
        }
    }
}

impl Default for PlatformArch {
    fn default() -> (r: PlatformArch)
        ensures
            r == PlatformArch::Unknown,
    {
        PlatformArch::Unknown
    }
}

/// The artifact form names that the auxiliary command set accepts, with its
/// wider alias table.
#[derive(Debug, Clone, Copy, PartialEq, Eq, Structural, Hash)]
pub enum Distribution {
    Static,
    Shared,
    Sources,
    Unknown,
}

impl Distribution {
    /// Parses a form name under the wider alias table; anything
    /// unrecognised is the sentinel.
    pub fn from_name(s: &str) -> (r: Distribution)
        ensures
            r == (if str_eq_ci(s@, "static"@) || str_eq_ci(s@, "static-lib"@) {
                Distribution::Static
            } else if str_eq_ci(s@, "shared"@) || str_eq_ci(s@, "dynamic"@) || str_eq_ci(
                s@,
                "dynamic-lib"@,
            ) {
                Distribution::Shared
            } else if str_eq_ci(s@, "sources"@) || str_eq_ci(s@, "src"@) || str_eq_ci(
                s@,
                "source"@,
            ) {
                Distribution::Sources
            } else {
                Distribution::Unknown
            }),
    {
        let v = str_to_chars(s);
        let n = v.len();
        proof {
            assert(v@.subrange(0, n as int) =~= s@);
        }
        if chars_eq_ci(&v, 0, n, "static") || chars_eq_ci(&v, 0, n, "static-lib") {
            Distribution::Static
        } else if chars_eq_ci(&v, 0, n, "shared") || chars_eq_ci(&v, 0, n, "dynamic")
            || chars_eq_ci(&v, 0, n, "dynamic-lib") {
            Distribution::Shared
        } else if chars_eq_ci(&v, 0, n, "sources") || chars_eq_ci(&v, 0, n, "src") || chars_eq_ci(
            &v,
            0,
            n,
            "source",
        ) {
            Distribution::Sources
        } else {
            Distribution::Unknown
        }
    }

    pub fn to_string(&self) -> (r: String)
        ensures
            r@ == (match self {
                Distribution::Static => "static"@,
                Distribution::Shared => "shared"@,
                Distribution::Sources => "sources"@,
                Distribution::Unknown => "unknown"@,
            }),
    {
        match self {
            Distribution::Static => "static".to_owned(),
            Distribution::Shared => "shared".to_owned(),
            Distribution::Sources => "sources".to_owned(),
            Distribution::Unknown => "unknown".to_owned(),
        }
    }
}

impl Default for Distribution {
    fn default() -> (r: Distribution)
        ensures
            r == Distribution::Unknown,
    {
        Distribution::Unknown
    }
}

} // verus!
