use vstd::prelude::*;

use crate::arch::Arch;
use crate::os::OperatingSystem;
use crate::text::{chars_to_string, push_str_chars};

verus! {

/// The build target that queries are formed against: an operating system
/// and an architecture. Detecting the host's values is the surrounding
/// application's business; command-line overrides win over detection.
#[derive(Debug, Clone, Copy, PartialEq, Eq, Structural)]
pub struct Environment {
    pub os: OperatingSystem,
    pub arch: Arch,
}

impl Environment {
    /// Combines the detected host platform with the optional overrides.
    pub fn new(
        detected_os: OperatingSystem,
        detected_arch: Arch,
        os_override: Option<OperatingSystem>,
        arch_override: Option<Arch>,
    ) -> (r: Environment)
        ensures
            r.os == (match os_override {
                Some(o) => o,
                None => detected_os,
            }),
            r.arch == (match arch_override {
                Some(a) => a,
                None => detected_arch,
            }),
    {
        let os = match os_override {
            Some(o) => o,
            None => detected_os,
        };
        let arch = match arch_override {
            Some(a) => a,
            None => detected_arch,
        };
        Environment { os, arch }
    }

    /// The two-line display of the target platform.
    pub fn pretty_print(&self) -> (r: String)
        ensures
            r@ == "target os:   "@ + self.os.spec_str() + "\ntarget arch: "@ + self.arch.spec_str(),
    {
        let mut out: Vec<char> = Vec::new();
        push_str_chars(&mut out, "target os:   ");
        let os = self.os.to_string();
        push_str_chars(&mut out, os.as_str());
        push_str_chars(&mut out, "\ntarget arch: ");
        let arch = self.arch.to_string();
        push_str_chars(&mut out, arch.as_str());
        proof {
            assert(out@ =~= "target os:   "@ + self.os.spec_str() + "\ntarget arch: "@
                + self.arch.spec_str());
        }
        chars_to_string(&out)
    }
}

} // verus!
