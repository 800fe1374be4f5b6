use vstd::prelude::*;
use vstd::string::StrSliceExecFns;

use crate::error::PuffError;
use crate::text::{chars_eq, chars_eq_ci, push_str_chars, str_eq_ci, str_to_chars};

verus! {

/// A target processor architecture; `Unknown` is the sentinel for
/// platform-independent artifacts.
#[derive(Debug, Clone, Copy, PartialEq, Eq, Structural, Hash)]
pub enum Arch {
    X86_64,
    Aarch64,
    Arm,
    ArmV5TE,
    ArmV7,
    ArmV7A,
    ArmV7R,
    ArmV8,
    Loongarch64,
    Unknown,
}

impl Arch {
    /// The canonical token used in file names and displays.
    pub open spec fn spec_str(self) -> Seq<char> {
        match self {
            Arch::X86_64 => "x86_64"@,
            Arch::Aarch64 => "aarch64"@,
            Arch::Arm => "arm"@,
            Arch::ArmV5TE => "armv5te"@,
            Arch::ArmV7 => "armv7"@,
            Arch::ArmV7A => "armv7a"@,
            Arch::ArmV7R => "armv7r"@,
            Arch::ArmV8 => "armv8"@,
            Arch::Loongarch64 => "loongarch64"@,
            Arch::Unknown => "unknown"@,
        }
    }

    pub fn to_string(&self) -> (r: String)
        ensures
            r@ == self.spec_str(),
    {
        match self {
            Arch::X86_64 => "x86_64".to_owned(),
            Arch::Aarch64 => "aarch64".to_owned(),
            Arch::Arm => "arm".to_owned(),
            Arch::ArmV5TE => "armv5te".to_owned(),
            Arch::ArmV7 => "armv7".to_owned(),
            Arch::ArmV7A => "armv7a".to_owned(),
            Arch::ArmV7R => "armv7r".to_owned(),
            Arch::ArmV8 => "armv8".to_owned(),
            Arch::Loongarch64 => "loongarch64".to_owned(),
            Arch::Unknown => "unknown".to_owned(),
        }
    }

    /// Appends the canonical token to `out`.
    pub fn push_token(&self, out: &mut Vec<char>)
        ensures
            final(out)@ == old(out)@ + self.spec_str(),
    {
        match self {
            Arch::X86_64 => push_str_chars(out, "x86_64"),
            Arch::Aarch64 => push_str_chars(out, "aarch64"),
            Arch::Arm => push_str_chars(out, "arm"),
            Arch::ArmV5TE => push_str_chars(out, "armv5te"),
            Arch::ArmV7 => push_str_chars(out, "armv7"),
            Arch::ArmV7A => push_str_chars(out, "armv7a"),
            Arch::ArmV7R => push_str_chars(out, "armv7r"),
            Arch::ArmV8 => push_str_chars(out, "armv8"),
            Arch::Loongarch64 => push_str_chars(out, "loongarch64"),
            Arch::Unknown => push_str_chars(out, "unknown"),
        }
    }

    /// Parses the span `[from, to)` of `s` as a canonical token, exactly.
    pub fn from_token(s: &Vec<char>, from: usize, to: usize) -> (r: Option<Arch>)
        requires
            from <= to <= s@.len(),
        ensures
            r == arch_of_token(s@.subrange(from as int, to as int)),
    {
        if chars_eq(s, from, to, "x86_64") {
            Some(Arch::X86_64)
        } else if chars_eq(s, from, to, "aarch64") {
            Some(Arch::Aarch64)
        } else if chars_eq(s, from, to, "arm") {
            Some(Arch::Arm)
        } else if chars_eq(s, from, to, "armv5te") {
            Some(Arch::ArmV5TE)
        } else if chars_eq(s, from, to, "armv7") {
            Some(Arch::ArmV7)
        } else if chars_eq(s, from, to, "armv7a") {
            Some(Arch::ArmV7A)
        } else if chars_eq(s, from, to, "armv7r") {
            Some(Arch::ArmV7R)
        } else if chars_eq(s, from, to, "armv8") {
            Some(Arch::ArmV8)
        } else if chars_eq(s, from, to, "loongarch64") {
            Some(Arch::Loongarch64)
        } else if chars_eq(s, from, to, "unknown") {
            Some(Arch::Unknown)
        } else {
            None
        }
    }

    /// Parses an architecture name, ASCII-case-insensitively, admitting the
    /// usual aliases of each architecture.
    pub fn from_str(s: &str) -> (r: Result<Arch, PuffError>)
        ensures
            r matches Ok(a) ==> arch_of_str(s@) == Some(a),
            r is Ok <==> arch_of_str(s@) is Some,
            r matches Err(e) ==> e == PuffError::UnknownArch,
    {
        let v = str_to_chars(s);
        let n = v.len();
        proof {
            assert(v@.subrange(0, n as int) =~= s@);
        }
        if chars_eq_ci(&v, 0, n, "x86_64") || chars_eq_ci(&v, 0, n, "amd64") || chars_eq_ci(
            &v,
            0,
            n,
            "x64",
        ) || chars_eq_ci(&v, 0, n, "86_64") || chars_eq_ci(&v, 0, n, "x86-64") {
            Ok(Arch::X86_64)
        } else if chars_eq_ci(&v, 0, n, "aarch64") || chars_eq_ci(&v, 0, n, "arm64") || chars_eq_ci(
            &v,
            0,
            n,
            "arm64-v8a",
        ) || chars_eq_ci(&v, 0, n, "aarch64-v8a") {
            Ok(Arch::Aarch64)
        } else if chars_eq_ci(&v, 0, n, "arm") || chars_eq_ci(&v, 0, n, "armv6") || chars_eq_ci(
            &v,
            0,
            n,
            "armv6l",
        ) || chars_eq_ci(&v, 0, n, "armv6hf") {
            Ok(Arch::Arm)
        } else if chars_eq_ci(&v, 0, n, "armv5te") || chars_eq_ci(&v, 0, n, "armv5tejl") {
            Ok(Arch::ArmV5TE)
        } else if chars_eq_ci(&v, 0, n, "armv7") || chars_eq_ci(&v, 0, n, "armv7l") {
            Ok(Arch::ArmV7)
        } else if chars_eq_ci(&v, 0, n, "armv7a") || chars_eq_ci(&v, 0, n, "armv7al") {
            Ok(Arch::ArmV7A)
        } else if chars_eq_ci(&v, 0, n, "armv7r") || chars_eq_ci(&v, 0, n, "armv7rl") {
            Ok(Arch::ArmV7R)
        } else if chars_eq_ci(&v, 0, n, "armv8") || chars_eq_ci(&v, 0, n, "armv8l") {
            Ok(Arch::ArmV8)
        } else if chars_eq_ci(&v, 0, n, "loongarch64") || chars_eq_ci(&v, 0, n, "loongarch")
            || chars_eq_ci(&v, 0, n, "loongarch64l") {
            Ok(Arch::Loongarch64)
        } else {
            Err(PuffError::UnknownArch)
        }
    }
}

impl Default for Arch {
    /// The default architecture, as on the most common build hosts.
    fn default() -> (r: Arch)
        ensures
            r == Arch::X86_64,
    {
        Arch::X86_64
    }
}

/// The architecture whose canonical token is `s`, exactly.
pub open spec fn arch_of_token(s: Seq<char>) -> Option<Arch> {
    if s == "x86_64"@ {
        Some(Arch::X86_64)
    } else if s == "aarch64"@ {
        Some(Arch::Aarch64)
    } else if s == "arm"@ {
        Some(Arch::Arm)
    } else if s == "armv5te"@ {
        Some(Arch::ArmV5TE)
    } else if s == "armv7"@ {
        Some(Arch::ArmV7)
    } else if s == "armv7a"@ {
        Some(Arch::ArmV7A)
    } else if s == "armv7r"@ {
        Some(Arch::ArmV7R)
    } else if s == "armv8"@ {
        Some(Arch::ArmV8)
    } else if s == "loongarch64"@ {
        Some(Arch::Loongarch64)
    } else if s == "unknown"@ {
        Some(Arch::Unknown)
    } else {
        None
    }
}

/// The architecture named by `s` up to ASCII case, under the alias table.
pub open spec fn arch_of_str(s: Seq<char>) -> Option<Arch> {
    if str_eq_ci(s, "x86_64"@) || str_eq_ci(s, "amd64"@) || str_eq_ci(s, "x64"@) || str_eq_ci(
        s,
        "86_64"@,
    ) || str_eq_ci(s, "x86-64"@) {
        Some(Arch::X86_64)
    } else if str_eq_ci(s, "aarch64"@) || str_eq_ci(s, "arm64"@) || str_eq_ci(s, "arm64-v8a"@)
        || str_eq_ci(s, "aarch64-v8a"@) {
        Some(Arch::Aarch64)
    } else if str_eq_ci(s, "arm"@) || str_eq_ci(s, "armv6"@) || str_eq_ci(s, "armv6l"@)
        || str_eq_ci(s, "armv6hf"@) {
        Some(Arch::Arm)
    } else if str_eq_ci(s, "armv5te"@) || str_eq_ci(s, "armv5tejl"@) {
        Some(Arch::ArmV5TE)
    } else if str_eq_ci(s, "armv7"@) || str_eq_ci(s, "armv7l"@) {
        Some(Arch::ArmV7)
    } else if str_eq_ci(s, "armv7a"@) || str_eq_ci(s, "armv7al"@) {
        Some(Arch::ArmV7A)
    } else if str_eq_ci(s, "armv7r"@) || str_eq_ci(s, "armv7rl"@) {
        Some(Arch::ArmV7R)
    } else if str_eq_ci(s, "armv8"@) || str_eq_ci(s, "armv8l"@) {
        Some(Arch::ArmV8)
    } else if str_eq_ci(s, "loongarch64"@) || str_eq_ci(s, "loongarch"@) || str_eq_ci(
        s,
        "loongarch64l"@,
    ) {
        Some(Arch::Loongarch64)
    } else {
        None
    }
}

/// Every canonical architecture token parses back to its architecture, and
/// holds neither a dash nor a dot.
pub proof fn lemma_arch_token(a: Arch)
    ensures
        arch_of_token(a.spec_str()) == Some(a),
        forall|i: int|
            0 <= i < a.spec_str().len() ==> #[trigger] a.spec_str()[i] != '-' && a.spec_str()[i] != '.'
                && a.spec_str()[i] != '/' && a.spec_str()[i] != '\\',
{
    reveal_strlit("x86_64");
    reveal_strlit("aarch64");
    reveal_strlit("arm");
    reveal_strlit("armv5te");
    reveal_strlit("armv7");
    reveal_strlit("armv7a");
    reveal_strlit("armv7r");
    reveal_strlit("armv8");
    reveal_strlit("loongarch64");
    reveal_strlit("unknown");
    assert("x86_64"@.len() == 6);
    assert("aarch64"@.len() == 7);
    assert("arm"@.len() == 3);
    assert("armv5te"@.len() == 7);
    assert("armv7"@.len() == 5);
    assert("armv7a"@.len() == 6);
    assert("armv7r"@.len() == 6);
    assert("armv8"@.len() == 5);
    assert("loongarch64"@.len() == 11);
    assert("unknown"@.len() == 7);
    assert("x86_64"@[0] == 'x');
    assert("armv7a"@[0] == 'a');
    assert("armv7r"@[0] == 'a');
    assert("armv7a"@[5] == 'a');
    assert("armv7r"@[5] == 'r');
    assert("aarch64"@[1] == 'a');
    assert("armv5te"@[1] == 'r');
    assert("unknown"@[0] == 'u');
    assert("armv7"@[4] == '7');
    assert("armv8"@[4] == '8');
    assert("x86_64"@ != "aarch64"@);
    assert("x86_64"@ != "arm"@);
    assert("x86_64"@ != "armv5te"@);
    assert("x86_64"@ != "armv7"@);
    assert("x86_64"@ != "armv7a"@);
    assert("x86_64"@ != "armv7r"@);
    assert("x86_64"@ != "armv8"@);
    assert("x86_64"@ != "loongarch64"@);
    assert("x86_64"@ != "unknown"@);
    assert("aarch64"@ != "arm"@);
    assert("aarch64"@ != "armv5te"@);
    assert("aarch64"@ != "armv7"@);
    assert("aarch64"@ != "armv7a"@);
    assert("aarch64"@ != "armv7r"@);
    assert("aarch64"@ != "armv8"@);
    assert("aarch64"@ != "loongarch64"@);
    assert("aarch64"@ != "unknown"@);
    assert("arm"@ != "armv5te"@);
    assert("arm"@ != "armv7"@);
    assert("arm"@ != "armv7a"@);
    assert("arm"@ != "armv7r"@);
    assert("arm"@ != "armv8"@);
    assert("arm"@ != "loongarch64"@);
    assert("arm"@ != "unknown"@);
    assert("armv5te"@ != "armv7"@);
    assert("armv5te"@ != "armv7a"@);
    assert("armv5te"@ != "armv7r"@);
    assert("armv5te"@ != "armv8"@);
    assert("armv5te"@ != "loongarch64"@);
    assert("armv5te"@ != "unknown"@);
    assert("armv7"@ != "armv7a"@);
    assert("armv7"@ != "armv7r"@);
    assert("armv7"@ != "armv8"@);
    assert("armv7"@ != "loongarch64"@);
    assert("armv7"@ != "unknown"@);
    assert("armv7a"@ != "armv7r"@);
    assert("armv7a"@ != "armv8"@);
    assert("armv7a"@ != "loongarch64"@);
    assert("armv7a"@ != "unknown"@);
    assert("armv7r"@ != "armv8"@);
    assert("armv7r"@ != "loongarch64"@);
    assert("armv7r"@ != "unknown"@);
    assert("armv8"@ != "loongarch64"@);
    assert("armv8"@ != "unknown"@);
    assert("loongarch64"@ != "unknown"@);
}

} // verus!
