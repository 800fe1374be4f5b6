use vstd::prelude::*;

use crate::error::PuffError;
use crate::text::{chars_eq, chars_eq_ci, push_str_chars, str_eq_ci, str_to_chars};

verus! {

/// The linkage or form of an artifact. `Sources` marks a platform-independent
/// source package; `Unknown` is the sentinel form.
#[derive(Debug, Clone, Copy, PartialEq, Eq, Structural, Hash)]
pub enum Distribution {
    Static,
    Shared,
    Sources,
    Unknown,
}

impl Distribution {
    /// The canonical token used in file names and displays.
    pub open spec fn spec_str(self) -> Seq<char> {
        match self {
            Distribution::Static => "static"@,
            Distribution::Shared => "shared"@,
            Distribution::Sources => "sources"@,
            Distribution::Unknown => "unknown"@,
        }
    }

    pub fn to_string(&self) -> (r: String)
        ensures
            r@ == self.spec_str(),
    {
        match self {
            Distribution::Static => "static".to_owned(),
            Distribution::Shared => "shared".to_owned(),
            Distribution::Sources => "sources".to_owned(),
            Distribution::Unknown => "unknown".to_owned(),
        }
    }

    /// Appends the canonical token to `out`.
    pub fn push_token(&self, out: &mut Vec<char>)
        ensures
            final(out)@ == old(out)@ + self.spec_str(),
    {
        match self {
            Distribution::Static => push_str_chars(out, "static"),
            Distribution::Shared => push_str_chars(out, "shared"),
            Distribution::Sources => push_str_chars(out, "sources"),
            Distribution::Unknown => push_str_chars(out, "unknown"),
        }
    }

    /// Parses the span `[from, to)` of `s` as a canonical token, exactly.
    pub fn from_token(s: &Vec<char>, from: usize, to: usize) -> (r: Option<Distribution>)
        requires
            from <= to <= s@.len(),
        ensures
            r == distribution_of_token(s@.subrange(from as int, to as int)),
    {
        if chars_eq(s, from, to, "static") {
            Some(Distribution::Static)
        } else if chars_eq(s, from, to, "shared") {
            Some(Distribution::Shared)
        } else if chars_eq(s, from, to, "sources") {
            Some(Distribution::Sources)
        } else if chars_eq(s, from, to, "unknown") {
            Some(Distribution::Unknown)
        } else {
            None
        }
    }

    /// Parses a distribution name, ASCII-case-insensitively: `static`,
    /// `shared` (also `dynamic` or `dyn`), or `sources`; anything else,
    /// including the sentinel `unknown`, is rejected.
    pub fn from_str(s: &str) -> (r: Result<Distribution, PuffError>)
        ensures
            r matches Ok(d) ==> distribution_of_str(s@) == Some(d),
            r is Ok <==> distribution_of_str(s@) is Some,
            r matches Err(e) ==> e == PuffError::UnknownDistribution,
    {
        let v = str_to_chars(s);
        let n = v.len();
        proof {
            assert(v@.subrange(0, n as int) =~= s@);
        }
        if chars_eq_ci(&v, 0, n, "static") {
            Ok(Distribution::Static)
        } else if chars_eq_ci(&v, 0, n, "shared") || chars_eq_ci(&v, 0, n, "dynamic")
            || chars_eq_ci(&v, 0, n, "dyn") {
            Ok(Distribution::Shared)
        } else if chars_eq_ci(&v, 0, n, "sources") {
            Ok(Distribution::Sources)
        } else {
            Err(PuffError::UnknownDistribution)
        }
    }
}

impl Default for Distribution {
    /// The default distribution is shared linkage.
    fn default() -> (r: Distribution)
        ensures
            r == Distribution::Shared,
    {
        Distribution::Shared
    }
}

/// The distribution whose canonical token is `s`, exactly.
pub open spec fn distribution_of_token(s: Seq<char>) -> Option<Distribution> {
    if s == "static"@ {
        Some(Distribution::Static)
    } else if s == "shared"@ {
        Some(Distribution::Shared)
    } else if s == "sources"@ {
        Some(Distribution::Sources)
    } else if s == "unknown"@ {
        Some(Distribution::Unknown)
    } else {
        None
    }
}

/// The distribution named by `s` up to ASCII case, under the alias table.
pub open spec fn distribution_of_str(s: Seq<char>) -> Option<Distribution> {
    if str_eq_ci(s, "static"@) {
        Some(Distribution::Static)
    } else if str_eq_ci(s, "shared"@) || str_eq_ci(s, "dynamic"@) || str_eq_ci(s, "dyn"@) {
        Some(Distribution::Shared)
    } else if str_eq_ci(s, "sources"@) {
        Some(Distribution::Sources)
    } else {
        None
    }
}

/// Every canonical distribution token parses back to its distribution, and
/// holds neither a dash nor a dot.
pub proof fn lemma_distribution_token(d: Distribution)
    ensures
        distribution_of_token(d.spec_str()) == Some(d),
        forall|i: int|
            0 <= i < d.spec_str().len() ==> #[trigger] d.spec_str()[i] != '-' && d.spec_str()[i] != '.'
                && d.spec_str()[i] != '/' && d.spec_str()[i] != '\\',
{
    reveal_strlit("static");
    reveal_strlit("shared");
    reveal_strlit("sources");
    reveal_strlit("unknown");
    assert("static"@.len() == 6);
    assert("shared"@.len() == 6);
    assert("sources"@.len() == 7);
    assert("unknown"@.len() == 7);
    assert("static"@[0] == 's');
    assert("shared"@[1] == 'h');
    assert("static"@[1] == 't');
    assert("sources"@[0] == 's');
    assert("unknown"@[0] == 'u');
    assert("static"@ != "shared"@);
    assert("static"@ != "sources"@);
    assert("static"@ != "unknown"@);
    assert("shared"@ != "sources"@);
    assert("shared"@ != "unknown"@);
    assert("sources"@ != "unknown"@);
}

} // verus!
