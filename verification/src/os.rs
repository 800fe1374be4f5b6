use vstd::prelude::*;

use crate::text::{chars_eq, chars_eq_ci, push_str_chars, str_eq_ci, str_to_chars};

verus! {

/// A target operating system; `Unknown` is the sentinel for
/// platform-independent artifacts.
#[derive(Debug, Clone, Copy, PartialEq, Eq, Structural, Hash)]
pub enum OperatingSystem {
    Linux,
    Windows,
    MacOS,
    Android,
    Unknown,
}

impl OperatingSystem {
    /// The canonical token used in file names and displays.
    pub open spec fn spec_str(self) -> Seq<char> {
        match self {
            OperatingSystem::Linux => "linux"@,
            OperatingSystem::Windows => "windows"@,
            OperatingSystem::MacOS => "macos"@,
            OperatingSystem::Android => "android"@,
            OperatingSystem::Unknown => "unknown"@,
        }
    }

    pub fn to_string(&self) -> (r: String)
        ensures
            r@ == self.spec_str(),
    {
        match self {
            OperatingSystem::Linux => "linux".to_owned(),
            OperatingSystem::Windows => "windows".to_owned(),
            OperatingSystem::MacOS => "macos".to_owned(),
            OperatingSystem::Android => "android".to_owned(),
            OperatingSystem::Unknown => "unknown".to_owned(),
        }
    }

    /// Appends the canonical token to `out`.
    pub fn push_token(&self, out: &mut Vec<char>)
        ensures
            final(out)@ == old(out)@ + self.spec_str(),
    {
        match self {
            OperatingSystem::Linux => push_str_chars(out, "linux"),
            OperatingSystem::Windows => push_str_chars(out, "windows"),
            OperatingSystem::MacOS => push_str_chars(out, "macos"),
            OperatingSystem::Android => push_str_chars(out, "android"),
            OperatingSystem::Unknown => push_str_chars(out, "unknown"),
        }
    }

    /// Parses the span `[from, to)` of `s` as a canonical token, exactly.
    pub fn from_token(s: &Vec<char>, from: usize, to: usize) -> (r: Option<OperatingSystem>)
        requires
            from <= to <= s@.len(),
        ensures
            r == os_of_token(s@.subrange(from as int, to as int)),
    {
        if chars_eq(s, from, to, "linux") {
            Some(OperatingSystem::Linux)
        } else if chars_eq(s, from, to, "windows") {
            Some(OperatingSystem::Windows)
        } else if chars_eq(s, from, to, "macos") {
            Some(OperatingSystem::MacOS)
        } else if chars_eq(s, from, to, "android") {
            Some(OperatingSystem::Android)
        } else if chars_eq(s, from, to, "unknown") {
            Some(OperatingSystem::Unknown)
        } else {
            None
        }
    }

    /// Parses an operating-system name, ASCII-case-insensitively, admitting
    /// the usual aliases; anything unrecognised is `Unknown`.
    pub fn from_str(s: &str) -> (r: Result<OperatingSystem, ()>)
        ensures
            r matches Ok(o) ==> o == os_of_str(s@),
            r is Ok,
    {
        let v = str_to_chars(s);
        let n = v.len();
        proof {
            assert(v@.subrange(0, n as int) =~= s@);
        }
        if chars_eq_ci(&v, 0, n, "linux") || chars_eq_ci(&v, 0, n, "unix") || chars_eq_ci(
            &v,
            0,
            n,
            "linux-gnu",
        ) || chars_eq_ci(&v, 0, n, "gnu/linux") || chars_eq_ci(&v, 0, n, "gnu") {
            Ok(OperatingSystem::Linux)
        } else if chars_eq_ci(&v, 0, n, "windows") || chars_eq_ci(&v, 0, n, "win32") || chars_eq_ci(
            &v,
            0,
            n,
            "win",
        ) || chars_eq_ci(&v, 0, n, "microsoft") {
            Ok(OperatingSystem::Windows)
        } else if chars_eq_ci(&v, 0, n, "macos") || chars_eq_ci(&v, 0, n, "darwin") || chars_eq_ci(
            &v,
            0,
            n,
            "mac",
        ) || chars_eq_ci(&v, 0, n, "apple") {
            Ok(OperatingSystem::MacOS)
        } else if chars_eq_ci(&v, 0, n, "android") || chars_eq_ci(&v, 0, n, "android-os")
            || chars_eq_ci(&v, 0, n, "androidos") {
            Ok(OperatingSystem::Android)
        } else {
            Ok(OperatingSystem::Unknown)
        }
    }
}

impl Default for OperatingSystem {
    /// The default operating system is the unknown sentinel.
    fn default() -> (r: OperatingSystem)
        ensures
            r == OperatingSystem::Unknown,
    {
        OperatingSystem::Unknown
    }
}

/// The operating system whose canonical token is `s`, exactly.
pub open spec fn os_of_token(s: Seq<char>) -> Option<OperatingSystem> {
    if s == "linux"@ {
        Some(OperatingSystem::Linux)
    } else if s == "windows"@ {
        Some(OperatingSystem::Windows)
    } else if s == "macos"@ {
        Some(OperatingSystem::MacOS)
    } else if s == "android"@ {
        Some(OperatingSystem::Android)
    } else if s == "unknown"@ {
        Some(OperatingSystem::Unknown)
    } else {
        None
    }
}

/// The operating system named by `s` up to ASCII case, under the alias
/// table; anything unrecognised is `Unknown`.
pub open spec fn os_of_str(s: Seq<char>) -> OperatingSystem {
    if str_eq_ci(s, "linux"@) || str_eq_ci(s, "unix"@) || str_eq_ci(s, "linux-gnu"@) || str_eq_ci(
        s,
        "gnu/linux"@,
    ) || str_eq_ci(s, "gnu"@) {
        OperatingSystem::Linux
    } else if str_eq_ci(s, "windows"@) || str_eq_ci(s, "win32"@) || str_eq_ci(s, "win"@)
        || str_eq_ci(s, "microsoft"@) {
        OperatingSystem::Windows
    } else if str_eq_ci(s, "macos"@) || str_eq_ci(s, "darwin"@) || str_eq_ci(s, "mac"@)
        || str_eq_ci(s, "apple"@) {
        OperatingSystem::MacOS
    } else if str_eq_ci(s, "android"@) || str_eq_ci(s, "android-os"@) || str_eq_ci(
        s,
        "androidos"@,
    ) {
        OperatingSystem::Android
    } else {
        OperatingSystem::Unknown
    }
}

/// Every canonical operating-system token parses back to its system, and
/// holds neither a dash nor a dot.
pub proof fn lemma_os_token(o: OperatingSystem)
    ensures
        os_of_token(o.spec_str()) == Some(o),
        forall|i: int|
            0 <= i < o.spec_str().len() ==> #[trigger] o.spec_str()[i] != '-' && o.spec_str()[i] != '.'
                && o.spec_str()[i] != '/' && o.spec_str()[i] != '\\',
{
    reveal_strlit("linux");
    reveal_strlit("windows");
    reveal_strlit("macos");
    reveal_strlit("android");
    reveal_strlit("unknown");
    assert("linux"@.len() == 5);
    assert("windows"@.len() == 7);
    assert("macos"@.len() == 5);
    assert("android"@.len() == 7);
    assert("unknown"@.len() == 7);
    assert("linux"@[0] == 'l');
    assert("macos"@[0] == 'm');
    assert("windows"@[0] == 'w');
    assert("android"@[0] == 'a');
    assert("unknown"@[0] == 'u');
    assert("linux"@ != "windows"@);
    assert("linux"@ != "macos"@);
    assert("linux"@ != "android"@);
    assert("linux"@ != "unknown"@);
    assert("windows"@ != "macos"@);
    assert("windows"@ != "android"@);
    assert("windows"@ != "unknown"@);
    assert("macos"@ != "android"@);
    assert("macos"@ != "unknown"@);
    assert("android"@ != "unknown"@);
}

} // verus!
