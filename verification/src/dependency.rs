use vstd::prelude::*;
use vstd::string::StringExecFns;

use crate::arch::{arch_of_token, lemma_arch_token, Arch};
use crate::distribution::{distribution_of_token, lemma_distribution_token, Distribution};
use crate::error::PuffError;
use crate::os::{lemma_os_token, os_of_token, OperatingSystem};
use crate::text::{chars_eq, chars_to_string, is_digit, push_str_chars, str_to_chars};
use crate::version::{
    is_version_str, lemma_version_chars_round_trip, lemma_version_str_canonical, version_split_at,
    version_str_val, Version, VersionRange,
};

verus! {

/// The identity of a wanted or available artifact: a query carries a version
/// range, a resolved artifact a degenerate one.
#[derive(Debug)]
pub struct Dependency {
    pub name: String,
    pub version: VersionRange,
    pub arch: Arch,
    pub os: OperatingSystem,
    pub distribution: Distribution,
}

/// The mathematical value of a `Dependency`.
pub struct DepView {
    pub name: Seq<char>,
    pub version: VersionRange,
    pub arch: Arch,
    pub os: OperatingSystem,
    pub distribution: Distribution,
}

impl View for Dependency {
    type V = DepView;

    open spec fn view(&self) -> DepView {
        DepView {
            name: self.name@,
            version: self.version,
            arch: self.arch,
            os: self.os,
            distribution: self.distribution,
        }
    }
}

impl DepView {
    /// Source packages are platform-independent: a sources dependency must
    /// carry the unknown architecture and operating system.
    pub open spec fn wf(self) -> bool {
        self.distribution == Distribution::Sources ==> (self.arch == Arch::Unknown && self.os
            == OperatingSystem::Unknown)
    }

    /// A resolved artifact's range is degenerate.
    pub open spec fn concrete(self) -> bool {
        self.version.min == self.version.max
    }

    /// The same identity with the platform cleared and the distribution set
    /// to sources.
    pub open spec fn as_sources(self) -> DepView {
        DepView {
            name: self.name,
            version: self.version,
            arch: Arch::Unknown,
            os: OperatingSystem::Unknown,
            distribution: Distribution::Sources,
        }
    }
}

/// Whether a candidate artifact satisfies a query: same package name, a
/// platform match (waived when the query itself asks for sources), and the
/// candidate's range contained in the query's range.
pub open spec fn spec_ranged_compare(c: DepView, q: DepView) -> bool {
    &&& c.name == q.name
    &&& (q.distribution == Distribution::Sources || (c.arch == q.arch && c.os == q.os))
    &&& q.version.min.spec_le(c.version.min)
    &&& c.version.max.spec_le(q.version.max)
}

impl Clone for Dependency {
    fn clone(&self) -> (r: Self)
        ensures
            r@ == self@,
    {
        Dependency {
            name: self.name.clone(),
            version: self.version,
            arch: self.arch,
            os: self.os,
            distribution: self.distribution,
        }
    }
}

impl PartialEq for Dependency {
    fn eq(&self, other: &Dependency) -> (r: bool) {
        self.name == other.name && self.version == other.version && self.arch == other.arch
            && self.os == other.os && self.distribution == other.distribution
    }
}

impl Eq for Dependency {

}

impl vstd::std_specs::cmp::PartialEqSpecImpl for Dependency {
    open spec fn obeys_eq_spec() -> bool {
        true
    }

    open spec fn eq_spec(&self, other: &Dependency) -> bool {
        self@ == other@
    }
}

impl Dependency {
    pub fn new(
        name: String,
        version: VersionRange,
        arch: Arch,
        os: OperatingSystem,
        distribution: Distribution,
    ) -> (r: Dependency)
        ensures
            r@ == (DepView { name: name@, version, arch, os, distribution }),
    {
        Dependency { name, version, arch, os, distribution }
    }

    /// Whether `self`, a concrete candidate, satisfies the query `other`.
    pub fn ranged_compare(&self, other: &Dependency) -> (r: bool)
        ensures
            r == spec_ranged_compare(self@, other@),
    {
        let name_ok = self.name == other.name;
        let platform_ok = matches!(other.distribution, Distribution::Sources) || (self.arch
            == other.arch && self.os == other.os);
        name_ok && platform_ok && other.version.min.le(&self.version.min) && self.version.max.le(
            &other.version.max,
        )
    }

    /// Relaxes a binary query into its source-fallback query.
    pub fn as_sources_dependency(&self) -> (r: Dependency)
        ensures
            r@ == self@.as_sources(),
    {
        Dependency {
            name: self.name.clone(),
            version: self.version,
            arch: Arch::Unknown,
            os: OperatingSystem::Unknown,
            distribution: Distribution::Sources,
        }
    }

    /// Rebinds this query to the concrete version of a found artifact, so
    /// that later steps always operate on an exact version.
    pub fn with_updated_version(&self, rhs: &Dependency) -> (r: Result<Dependency, PuffError>)
        ensures
            r matches Ok(d) ==> d@ == (DepView {
                name: self@.name,
                version: rhs@.version,
                arch: self@.arch,
                os: self@.os,
                distribution: self@.distribution,
            }),
            r is Ok,
    {
        Ok(
            Dependency {
                name: self.name.clone(),
                version: rhs.version,
                arch: self.arch,
                os: self.os,
                distribution: self.distribution,
            },
        )
    }

    /// The display form `name@version/arch/os/distribution`.
    pub fn pretty_print(&self) -> (r: String)
        ensures
            r@ == self@.name + "@"@ + self.version.spec_display() + "/"@ + self.arch.spec_str()
                + "/"@ + self.os.spec_str() + "/"@ + self.distribution.spec_str(),
    {
        let mut out: Vec<char> = Vec::new();
        push_str_chars(&mut out, self.name.as_str());
        push_str_chars(&mut out, "@");
        let version = self.version.to_string();
        push_str_chars(&mut out, version.as_str());
        push_str_chars(&mut out, "/");
        let arch = self.arch.to_string();
        push_str_chars(&mut out, arch.as_str());
        push_str_chars(&mut out, "/");
        let os = self.os.to_string();
        push_str_chars(&mut out, os.as_str());
        push_str_chars(&mut out, "/");
        let distribution = self.distribution.to_string();
        push_str_chars(&mut out, distribution.as_str());
        chars_to_string(&out)
    }
}

// ---------------------------------------------------------------------------
// The canonical file-name codec
// ---------------------------------------------------------------------------

/// A character allowed in a package name.
pub open spec fn is_name_char(c: char) -> bool {
    ||| is_digit(c)
    ||| 65 <= c as u32 <= 90
    ||| 97 <= c as u32 <= 122
    ||| c == '_'
    ||| c == '+'
}

/// A non-empty package name.
pub open spec fn is_name(s: Seq<char>) -> bool {
    s.len() >= 1 && forall|i: int| 0 <= i < s.len() ==> is_name_char(#[trigger] s[i])
}

/// Whether `s` ends with the archive suffix.
pub open spec fn has_tar_gz_suffix(s: Seq<char>) -> bool {
    s.len() >= 7 && s.subrange(s.len() - 7, s.len() as int) == ".tar.gz"@
}

/// The file name with the archive suffix removed.
pub open spec fn package_stem(s: Seq<char>) -> Seq<char> {
    s.subrange(0, s.len() - 7)
}

/// A split of a file-name stem into name, version, architecture, operating
/// system and distribution at four dash positions.
pub open spec fn stem_split_at(stem: Seq<char>, d1: int, d2: int, d3: int, d4: int) -> bool {
    &&& 0 <= d1 < d2 < d3 < d4 < stem.len()
    &&& stem[d1] == '-'
    &&& stem[d2] == '-'
    &&& stem[d3] == '-'
    &&& stem[d4] == '-'
    &&& is_name(stem.subrange(0, d1))
    &&& is_version_str(stem.subrange(d1 + 1, d2))
    &&& arch_of_token(stem.subrange(d2 + 1, d3)) is Some
    &&& os_of_token(stem.subrange(d3 + 1, d4)) is Some
    &&& distribution_of_token(stem.subrange(d4 + 1, stem.len() as int)) is Some
}

pub open spec fn package_split_at(s: Seq<char>, d1: int, d2: int, d3: int, d4: int) -> bool {
    has_tar_gz_suffix(s) && stem_split_at(package_stem(s), d1, d2, d3, d4)
}

/// A canonical package file name.
pub open spec fn is_package_name(s: Seq<char>) -> bool {
    exists|d1: int, d2: int, d3: int, d4: int| package_split_at(s, d1, d2, d3, d4)
}

/// The dependency that a canonical package file name denotes; its version
/// range is degenerate.
pub open spec fn package_name_view(s: Seq<char>) -> DepView {
    let (d1, d2, d3, d4) = choose|d1: int, d2: int, d3: int, d4: int|
        package_split_at(s, d1, d2, d3, d4);
    let stem = package_stem(s);
    let v = version_str_val(stem.subrange(d1 + 1, d2));
    DepView {
        name: stem.subrange(0, d1),
        version: VersionRange { min: v, max: v },
        arch: arch_of_token(stem.subrange(d2 + 1, d3))->0,
        os: os_of_token(stem.subrange(d3 + 1, d4))->0,
        distribution: distribution_of_token(stem.subrange(d4 + 1, stem.len() as int))->0,
    }
}

/// The canonical file name of a dependency, written from its lower version
/// bound.
pub open spec fn package_name_chars(d: DepView) -> Seq<char> {
    d.name + seq!['-'] + d.version.min.spec_chars() + seq!['-'] + d.arch.spec_str() + seq!['-']
        + d.os.spec_str() + seq!['-'] + d.distribution.spec_str() + ".tar.gz"@
}

/// A version string holds only digits and dots, never a dash.
pub proof fn lemma_version_str_no_dash(t: Seq<char>)
    requires
        is_version_str(t),
    ensures
        forall|i: int| 0 <= i < t.len() ==> #[trigger] t[i] != '-',
{
    let (p1, p2) = choose|p1: int, p2: int| version_split_at(t, p1, p2);
    assert(version_split_at(t, p1, p2));
    assert forall|i: int| 0 <= i < t.len() implies #[trigger] t[i] != '-' by {
        if i < p1 {
            assert(is_digit(t.subrange(0, p1)[i]));
            assert(t.subrange(0, p1)[i] == t[i]);
        } else if i == p1 || i == p2 {
        } else if i < p2 {
            assert(is_digit(t.subrange(p1 + 1, p2)[i - p1 - 1]));
            assert(t.subrange(p1 + 1, p2)[i - p1 - 1] == t[i]);
        } else {
            assert(is_digit(t.subrange(p2 + 1, t.len() as int)[i - p2 - 1]));
            assert(t.subrange(p2 + 1, t.len() as int)[i - p2 - 1] == t[i]);
        }
    }
}

/// A recognised architecture token is the canonical token of its
/// architecture, and holds neither a dash nor a dot.
pub proof fn lemma_arch_token_some(t: Seq<char>)
    requires
        arch_of_token(t) is Some,
    ensures
        t == (arch_of_token(t)->0).spec_str(),
        forall|i: int|
            0 <= i < t.len() ==> #[trigger] t[i] != '-' && t[i] != '.' && t[i] != '/' && t[i]
                != '\\',
{
    let a = arch_of_token(t)->0;
    lemma_arch_token(a);
}

/// A recognised operating-system token is the canonical token of its
/// system, and holds neither a dash nor a dot.
pub proof fn lemma_os_token_some(t: Seq<char>)
    requires
        os_of_token(t) is Some,
    ensures
        t == (os_of_token(t)->0).spec_str(),
        forall|i: int|
            0 <= i < t.len() ==> #[trigger] t[i] != '-' && t[i] != '.' && t[i] != '/' && t[i]
                != '\\',
{
    let o = os_of_token(t)->0;
    lemma_os_token(o);
}

/// A recognised distribution token is the canonical token of its
/// distribution, and holds neither a dash nor a dot.
pub proof fn lemma_distribution_token_some(t: Seq<char>)
    requires
        distribution_of_token(t) is Some,
    ensures
        t == (distribution_of_token(t)->0).spec_str(),
        forall|i: int|
            0 <= i < t.len() ==> #[trigger] t[i] != '-' && t[i] != '.' && t[i] != '/' && t[i]
                != '\\',
{
    let d = distribution_of_token(t)->0;
    lemma_distribution_token(d);
}

/// Within a valid stem split, every dash of the stem is one of the four
/// separators.
proof fn lemma_stem_dashes(stem: Seq<char>, e1: int, e2: int, e3: int, e4: int)
    requires
        stem_split_at(stem, e1, e2, e3, e4),
    ensures
        forall|j: int|
            0 <= j < stem.len() && #[trigger] stem[j] == '-' ==> (j == e1 || j == e2 || j == e3
                || j == e4),
{
    lemma_version_str_no_dash(stem.subrange(e1 + 1, e2));
    lemma_arch_token_some(stem.subrange(e2 + 1, e3));
    lemma_os_token_some(stem.subrange(e3 + 1, e4));
    lemma_distribution_token_some(stem.subrange(e4 + 1, stem.len() as int));
    assert forall|j: int|
        0 <= j < stem.len() && #[trigger] stem[j] == '-' implies (j == e1 || j == e2 || j == e3
        || j == e4) by {
        if j < e1 {
            assert(is_name_char(stem.subrange(0, e1)[j]));
            assert(stem.subrange(0, e1)[j] == stem[j]);
        } else if e1 < j < e2 {
            assert(stem.subrange(e1 + 1, e2)[j - e1 - 1] == stem[j]);
        } else if e2 < j < e3 {
            assert(stem.subrange(e2 + 1, e3)[j - e2 - 1] == stem[j]);
        } else if e3 < j < e4 {
            assert(stem.subrange(e3 + 1, e4)[j - e3 - 1] == stem[j]);
        } else if e4 < j {
            assert(stem.subrange(e4 + 1, stem.len() as int)[j - e4 - 1] == stem[j]);
        }
    }
}

/// A file name splits at only one quadruple of positions.
proof fn lemma_package_split_unique(
    s: Seq<char>,
    d1: int,
    d2: int,
    d3: int,
    d4: int,
    e1: int,
    e2: int,
    e3: int,
    e4: int,
)
    requires
        package_split_at(s, d1, d2, d3, d4),
        package_split_at(s, e1, e2, e3, e4),
    ensures
        d1 == e1 && d2 == e2 && d3 == e3 && d4 == e4,
{
    let stem = package_stem(s);
    lemma_stem_dashes(stem, d1, d2, d3, d4);
    lemma_stem_dashes(stem, e1, e2, e3, e4);
    assert(d1 == e1);
    assert(d2 == e2);
    assert(d3 == e3);
    assert(d4 == e4);
}

/// At a valid split, the denoted dependency is read off the four segments.
proof fn lemma_package_view_at(s: Seq<char>, d1: int, d2: int, d3: int, d4: int)
    requires
        package_split_at(s, d1, d2, d3, d4),
    ensures
        ({
            let stem = package_stem(s);
            let v = version_str_val(stem.subrange(d1 + 1, d2));
            package_name_view(s) == (DepView {
                name: stem.subrange(0, d1),
                version: VersionRange { min: v, max: v },
                arch: arch_of_token(stem.subrange(d2 + 1, d3))->0,
                os: os_of_token(stem.subrange(d3 + 1, d4))->0,
                distribution: distribution_of_token(stem.subrange(d4 + 1, stem.len() as int))->0,
            })
        }),
{
    let (e1, e2, e3, e4) = choose|e1: int, e2: int, e3: int, e4: int|
        package_split_at(s, e1, e2, e3, e4);
    lemma_package_split_unique(s, d1, d2, d3, d4, e1, e2, e3, e4);
}

impl Dependency {
    /// The canonical file name `name-major.minor.patch-arch-os-dist.tar.gz`.
    pub fn to_package_name(&self) -> (r: String)
        ensures
            r@ == package_name_chars(self@),
    {
        let mut out: Vec<char> = Vec::new();
        push_str_chars(&mut out, self.name.as_str());
        out.push('-');
        self.version.min.push_chars(&mut out);
        out.push('-');
        self.arch.push_token(&mut out);
        out.push('-');
        self.os.push_token(&mut out);
        out.push('-');
        self.distribution.push_token(&mut out);
        push_str_chars(&mut out, ".tar.gz");
        proof {
            assert(out@ =~= package_name_chars(self@));
        }
        chars_to_string(&out)
    }

    /// Decodes a canonical package file name held in `w`.
    pub fn from_package_chars(w: &Vec<char>) -> (r: Result<Dependency, PuffError>)
        ensures
            r is Ok <==> is_package_name(w@),
            r matches Ok(d) ==> d@ == package_name_view(w@),
            r matches Err(e) ==> e == PuffError::InvalidPackageName,
    {
        let n = w.len();
        if n < 7 {
            return Err(PuffError::InvalidPackageName);
        }
        if !chars_eq(w, n - 7, n, ".tar.gz") {
            return Err(PuffError::InvalidPackageName);
        }
        let stem_end = n - 7;
        let ghost stem = package_stem(w@);
        proof {
            assert(stem =~= w@.subrange(0, stem_end as int));
            assert(forall|j: int| 0 <= j < stem.len() ==> stem[j] == w@[j]);
        }
        let d1 = find_dash(w, 0, stem_end);
        if d1 == stem_end {
            proof {
                assert(!is_package_name(w@)) by {
                    if is_package_name(w@) {
                        let (e1, e2, e3, e4) = choose|e1: int, e2: int, e3: int, e4: int|
                            package_split_at(w@, e1, e2, e3, e4);
                        assert(stem[e1] == '-');
                    }
                }
            }
            return Err(PuffError::InvalidPackageName);
        }
        let d2 = find_dash(w, d1 + 1, stem_end);
        if d2 == stem_end {
            proof {
                assert(!is_package_name(w@)) by {
                    if is_package_name(w@) {
                        let (e1, e2, e3, e4) = choose|e1: int, e2: int, e3: int, e4: int|
                            package_split_at(w@, e1, e2, e3, e4);
                        lemma_stem_dashes(stem, e1, e2, e3, e4);
                        assert(stem[d1 as int] == '-');
                        assert(e1 == d1);
                        assert(stem[e2] == '-');
                    }
                }
            }
            return Err(PuffError::InvalidPackageName);
        }
        let d3 = find_dash(w, d2 + 1, stem_end);
        if d3 == stem_end {
            proof {
                assert(!is_package_name(w@)) by {
                    if is_package_name(w@) {
                        let (e1, e2, e3, e4) = choose|e1: int, e2: int, e3: int, e4: int|
                            package_split_at(w@, e1, e2, e3, e4);
                        lemma_stem_dashes(stem, e1, e2, e3, e4);
                        assert(stem[d1 as int] == '-');
                        assert(stem[d2 as int] == '-');
                        assert(e1 == d1);
                        assert(e2 == d2);
                        assert(stem[e3] == '-');
                    }
                }
            }
            return Err(PuffError::InvalidPackageName);
        }
        let d4 = find_dash(w, d3 + 1, stem_end);
        if d4 == stem_end {
            proof {
                assert(!is_package_name(w@)) by {
                    if is_package_name(w@) {
                        let (e1, e2, e3, e4) = choose|e1: int, e2: int, e3: int, e4: int|
                            package_split_at(w@, e1, e2, e3, e4);
                        lemma_stem_dashes(stem, e1, e2, e3, e4);
                        assert(stem[d1 as int] == '-');
                        assert(stem[d2 as int] == '-');
                        assert(stem[d3 as int] == '-');
                        assert(e1 == d1);
                        assert(e2 == d2);
                        assert(e3 == d3);
                        assert(stem[e4] == '-');
                    }
                }
            }
            return Err(PuffError::InvalidPackageName);
        }
        proof {
            assert(stem.subrange(0, d1 as int) =~= w@.subrange(0, d1 as int));
            assert(stem.subrange(d1 + 1, d2 as int) =~= w@.subrange(d1 + 1, d2 as int));
            assert(stem.subrange(d2 + 1, d3 as int) =~= w@.subrange(d2 + 1, d3 as int));
            assert(stem.subrange(d3 + 1, d4 as int) =~= w@.subrange(d3 + 1, d4 as int));
            assert(stem.subrange(d4 + 1, stem.len() as int) =~= w@.subrange(
                d4 + 1,
                stem_end as int,
            ));
        }
        let name_ok = check_name(w, 0, d1);
        let version = Version::from_chars(w, d1 + 1, d2);
        let arch = Arch::from_token(w, d2 + 1, d3);
        let os = OperatingSystem::from_token(w, d3 + 1, d4);
        let distribution = Distribution::from_token(w, d4 + 1, stem_end);
        proof {
            if is_package_name(w@) {
                let (e1, e2, e3, e4) = choose|e1: int, e2: int, e3: int, e4: int|
                    package_split_at(w@, e1, e2, e3, e4);
                lemma_stem_dashes(stem, e1, e2, e3, e4);
                assert(stem[d1 as int] == '-');
                assert(stem[d2 as int] == '-');
                assert(stem[d3 as int] == '-');
                assert(stem[d4 as int] == '-');
                assert(e1 == d1);
                assert(e2 == d2);
                assert(e3 == d3);
                assert(e4 == d4);
            }
        }
        if name_ok {
            if let (Ok(v), Some(a), Some(o), Some(dist)) = (version, arch, os, distribution) {
                proof {
                    assert(package_split_at(w@, d1 as int, d2 as int, d3 as int, d4 as int));
                    lemma_package_view_at(w@, d1 as int, d2 as int, d3 as int, d4 as int);
                }
                let name_span = copy_span(w, 0, d1);
                let name = chars_to_string(&name_span);
                return Ok(
                    Dependency {
                        name,
                        version: VersionRange { min: v, max: v },
                        arch: a,
                        os: o,
                        distribution: dist,
                    },
                );
            }
        }
        Err(PuffError::InvalidPackageName)
    }

    /// Decodes a canonical package file name.
    pub fn from_package_name(package_name: &str) -> (r: Result<Dependency, PuffError>)
        ensures
            r is Ok <==> is_package_name(package_name@),
            r matches Ok(d) ==> d@ == package_name_view(package_name@),
            r matches Err(e) ==> e == PuffError::InvalidPackageName,
    {
        let w = str_to_chars(package_name);
        Self::from_package_chars(&w)
    }

    /// Decodes the file-name component of a path: everything after the last
    /// path separator.
    pub fn from_std_path(path: &str) -> (r: Result<Dependency, PuffError>)
        ensures
            r is Ok <==> is_package_name(file_name_of(path@)),
            r matches Ok(d) ==> d@ == package_name_view(file_name_of(path@)),
            r matches Err(e) ==> e == PuffError::InvalidPackageName,
    {
        let w = str_to_chars(path);
        let n = w.len();
        let mut i: usize = n;
        proof {
            assert(w@.subrange(0, n as int) =~= w@);
            assert(file_name_of(w@) + w@.subrange(n as int, n as int) =~= file_name_of(w@));
        }
        while i > 0 && !is_sep_exec(w[i - 1])
            invariant
                0 <= i <= n,
                n == w@.len(),
                file_name_of(w@) == file_name_of(w@.subrange(0, i as int)) + w@.subrange(
                    i as int,
                    n as int,
                ),
            decreases i,
        {
            proof {
                let pre = w@.subrange(0, i as int);
                assert(pre.last() == w@[i - 1]);
                assert(pre.drop_last() =~= w@.subrange(0, i - 1));
                assert(file_name_of(pre) == file_name_of(w@.subrange(0, i - 1)) + seq![
                    w@[i - 1],
                ]);
                assert(file_name_of(w@.subrange(0, i - 1)) + seq![w@[i - 1]] + w@.subrange(
                    i as int,
                    n as int,
                ) =~= file_name_of(w@.subrange(0, i - 1)) + w@.subrange(i - 1, n as int));
            }
            i -= 1;
        }
        proof {
            if i == 0 {
                assert(w@.subrange(0, 0) =~= Seq::<char>::empty());
                assert(file_name_of(Seq::<char>::empty()) == Seq::<char>::empty());
            } else {
                let pre = w@.subrange(0, i as int);
                assert(pre.last() == w@[i - 1]);
                assert(file_name_of(pre) == Seq::<char>::empty());
            }
            assert(file_name_of(w@) =~= w@.subrange(i as int, n as int));
        }
        let span = copy_span(&w, i, n);
        Self::from_package_chars(&span)
    }

    /// Rebinds this query to the concrete version decoded from the file-name
    /// component of an archive path.
    pub fn with_updated_version_from_archive_name(&self, path: &str) -> (r: Result<
        Dependency,
        PuffError,
    >)
        ensures
            r is Ok <==> is_package_name(file_name_of(path@)),
            r matches Ok(d) ==> d@ == (DepView {
                name: self@.name,
                version: package_name_view(file_name_of(path@)).version,
                arch: self@.arch,
                os: self@.os,
                distribution: self@.distribution,
            }),
            r matches Err(e) ==> e == PuffError::InvalidPackageName,
    {
        let dep = Self::from_std_path(path)?;
        let r = self.with_updated_version(&dep);
        match r {
            Ok(d) => Ok(d),
            Err(_) => Err(PuffError::InvalidPackageName),
        }
    }
}

/// A path separator.
pub open spec fn is_sep(c: char) -> bool {
    c == '/' || c == '\\'
}

fn is_sep_exec(c: char) -> (r: bool)
    ensures
        r == is_sep(c),
{
    c == '/' || c == '\\'
}

/// The file-name component of a path: everything after the last separator,
/// or the whole path when it holds none.
pub open spec fn file_name_of(s: Seq<char>) -> Seq<char>
    decreases s.len(),
{
    if s.len() == 0 {
        s
    } else if is_sep(s.last()) {
        Seq::empty()
    } else {
        file_name_of(s.drop_last()) + seq![s.last()]
    }
}

/// The first dash at or after `from` and before `to`, or `to` when there is
/// none.
fn find_dash(v: &Vec<char>, from: usize, to: usize) -> (r: usize)
    requires
        from <= to <= v@.len(),
    ensures
        from <= r <= to,
        forall|j: int| from <= j < r ==> v@[j] != '-',
        r < to ==> v@[r as int] == '-',
{
    let mut i = from;
    while i < to && v[i] != '-'
        invariant
            from <= i <= to <= v@.len(),
            forall|j: int| from <= j < i ==> v@[j] != '-',
        decreases to - i,
    {
        i += 1;
    }
    i
}

/// Whether the span `[from, to)` of `v` is a valid package name.
fn check_name(v: &Vec<char>, from: usize, to: usize) -> (r: bool)
    requires
        from <= to <= v@.len(),
    ensures
        r == is_name(v@.subrange(from as int, to as int)),
{
    let ghost sub = v@.subrange(from as int, to as int);
    if from == to {
        return false;
    }
    let mut i = from;
    while i < to
        invariant
            from <= i <= to <= v@.len(),
            sub == v@.subrange(from as int, to as int),
            forall|j: int| from <= j < i ==> is_name_char(#[trigger] v@[j]),
        decreases to - i,
    {
        let c = v[i];
        let u = c as u32;
        let ok = (48 <= u && u <= 57) || (65 <= u && u <= 90) || (97 <= u && u <= 122) || c == '_'
            || c == '+';
        if !ok {
            proof {
                assert(sub[i - from] == v@[i as int]);
                assert(!is_name_char(sub[i - from]));
            }
            return false;
        }
        i += 1;
    }
    proof {
        assert forall|j: int| 0 <= j < sub.len() implies is_name_char(#[trigger] sub[j]) by {
            assert(sub[j] == v@[from + j]);
        }
    }
    true
}

/// The characters of the span `[from, to)` of `v`.
fn copy_span(v: &Vec<char>, from: usize, to: usize) -> (r: Vec<char>)
    requires
        from <= to <= v@.len(),
    ensures
        r@ == v@.subrange(from as int, to as int),
{
    let mut out: Vec<char> = Vec::new();
    let mut i = from;
    while i < to
        invariant
            from <= i <= to <= v@.len(),
            out@ == v@.subrange(from as int, i as int),
        decreases to - i,
    {
        out.push(v[i]);
        proof {
            assert(out@ =~= v@.subrange(from as int, i + 1));
        }
        i += 1;
    }
    out
}


/// A version string holds no path separator.
pub proof fn lemma_version_str_no_sep(t: Seq<char>)
    requires
        is_version_str(t),
    ensures
        forall|i: int| 0 <= i < t.len() ==> !is_sep(#[trigger] t[i]),
{
    let (p1, p2) = choose|p1: int, p2: int| version_split_at(t, p1, p2);
    assert(version_split_at(t, p1, p2));
    assert forall|i: int| 0 <= i < t.len() implies !is_sep(#[trigger] t[i]) by {
        if i < p1 {
            assert(is_digit(t.subrange(0, p1)[i]));
            assert(t.subrange(0, p1)[i] == t[i]);
        } else if i == p1 || i == p2 {
        } else if i < p2 {
            assert(is_digit(t.subrange(p1 + 1, p2)[i - p1 - 1]));
            assert(t.subrange(p1 + 1, p2)[i - p1 - 1] == t[i]);
        } else {
            assert(is_digit(t.subrange(p2 + 1, t.len() as int)[i - p2 - 1]));
            assert(t.subrange(p2 + 1, t.len() as int)[i - p2 - 1] == t[i]);
        }
    }
}

/// A canonical package file name holds no path separator, so it is its own
/// file-name component.
pub proof fn lemma_package_name_no_sep(s: Seq<char>)
    requires
        is_package_name(s),
    ensures
        forall|i: int| 0 <= i < s.len() ==> !is_sep(#[trigger] s[i]),
{
    let (d1, d2, d3, d4) = choose|d1: int, d2: int, d3: int, d4: int|
        package_split_at(s, d1, d2, d3, d4);
    assert(package_split_at(s, d1, d2, d3, d4));
    let stem = package_stem(s);
    lemma_version_str_no_sep(stem.subrange(d1 + 1, d2));
    lemma_arch_token_some(stem.subrange(d2 + 1, d3));
    lemma_os_token_some(stem.subrange(d3 + 1, d4));
    lemma_distribution_token_some(stem.subrange(d4 + 1, stem.len() as int));
    reveal_strlit(".tar.gz");
    assert(".tar.gz"@.len() == 7);
    assert forall|i: int| 0 <= i < s.len() implies !is_sep(#[trigger] s[i]) by {
        if i < stem.len() {
            assert(stem[i] == s[i]);
            if i < d1 {
                assert(is_name_char(stem.subrange(0, d1)[i]));
                assert(stem.subrange(0, d1)[i] == stem[i]);
            } else if i == d1 || i == d2 || i == d3 || i == d4 {
            } else if i < d2 {
                assert(stem.subrange(d1 + 1, d2)[i - d1 - 1] == stem[i]);
            } else if i < d3 {
                assert(stem.subrange(d2 + 1, d3)[i - d2 - 1] == stem[i]);
            } else if i < d4 {
                assert(stem.subrange(d3 + 1, d4)[i - d3 - 1] == stem[i]);
            } else {
                assert(stem.subrange(d4 + 1, stem.len() as int)[i - d4 - 1] == stem[i]);
            }
        } else {
            assert(s.subrange(s.len() - 7, s.len() as int)[i - (s.len() - 7)] == s[i]);
            assert(".tar.gz"@[i - (s.len() - 7)] == s[i]);
        }
    }
}

/// The file-name component of a path formed by joining a separator-free
/// name to a directory is that name.
pub proof fn lemma_file_name_of_joined(prefix: Seq<char>, name: Seq<char>)
    requires
        forall|i: int| 0 <= i < name.len() ==> !is_sep(#[trigger] name[i]),
    ensures
        file_name_of(prefix + seq!['/'] + name) == name,
    decreases name.len(),
{
    let s = prefix + seq!['/'] + name;
    if name.len() == 0 {
        assert(s.last() == '/');
        assert(file_name_of(s) =~= name);
    } else {
        assert(s.last() == name.last());
        assert(s.drop_last() =~= prefix + seq!['/'] + name.drop_last());
        lemma_file_name_of_joined(prefix, name.drop_last());
        assert(file_name_of(s) == file_name_of(s.drop_last()) + seq![s.last()]);
        assert(file_name_of(s) =~= name);
    }
}

/// What a canonical file name denotes is well-formed for re-encoding: a
/// valid package name and a degenerate version range.
pub proof fn lemma_package_view_wf(s: Seq<char>)
    requires
        is_package_name(s),
    ensures
        is_name(package_name_view(s).name),
        package_name_view(s).concrete(),
{
    let (d1, d2, d3, d4) = choose|d1: int, d2: int, d3: int, d4: int|
        package_split_at(s, d1, d2, d3, d4);
    assert(package_split_at(s, d1, d2, d3, d4));
    lemma_package_view_at(s, d1, d2, d3, d4);
}

/// Encoding a concrete dependency with a valid name and decoding the result
/// gives the dependency back.
pub proof fn lemma_package_name_round_trip(d: DepView)
    requires
        is_name(d.name),
        d.concrete(),
    ensures
        is_package_name(package_name_chars(d)),
        package_name_view(package_name_chars(d)) == d,
{
    let s = package_name_chars(d);
    let name = d.name;
    let ver = d.version.min.spec_chars();
    let at = d.arch.spec_str();
    let ot = d.os.spec_str();
    let dt = d.distribution.spec_str();
    reveal_strlit(".tar.gz");
    assert(".tar.gz"@.len() == 7);
    let d1 = name.len() as int;
    let d2 = d1 + 1 + ver.len();
    let d3 = d2 + 1 + at.len();
    let d4 = d3 + 1 + ot.len();
    let stem_len = d4 + 1 + dt.len();
    assert(s.len() == stem_len + 7);
    let stem = package_stem(s);
    assert(s.subrange(s.len() - 7, s.len() as int) =~= ".tar.gz"@);
    assert(stem.subrange(0, d1) =~= name);
    assert(stem[d1] == '-');
    assert(stem.subrange(d1 + 1, d2) =~= ver);
    assert(stem[d2] == '-');
    assert(stem.subrange(d2 + 1, d3) =~= at);
    assert(stem[d3] == '-');
    assert(stem.subrange(d3 + 1, d4) =~= ot);
    assert(stem[d4] == '-');
    assert(stem.subrange(d4 + 1, stem.len() as int) =~= dt);
    lemma_version_chars_round_trip(d.version.min);
    lemma_arch_token(d.arch);
    lemma_os_token(d.os);
    lemma_distribution_token(d.distribution);
    assert(package_split_at(s, d1, d2, d3, d4));
    lemma_package_view_at(s, d1, d2, d3, d4);
    assert(package_name_view(s) == d);
}

/// Encoding the dependency that a canonical file name denotes gives the file
/// name back: the codec round-trips on every canonical name.
pub proof fn lemma_package_name_canonical(s: Seq<char>)
    requires
        is_package_name(s),
    ensures
        package_name_chars(package_name_view(s)) == s,
{
    let (d1, d2, d3, d4) = choose|d1: int, d2: int, d3: int, d4: int|
        package_split_at(s, d1, d2, d3, d4);
    assert(package_split_at(s, d1, d2, d3, d4));
    lemma_package_view_at(s, d1, d2, d3, d4);
    let stem = package_stem(s);
    let v = package_name_view(s);
    lemma_version_str_canonical(stem.subrange(d1 + 1, d2));
    lemma_arch_token_some(stem.subrange(d2 + 1, d3));
    lemma_os_token_some(stem.subrange(d3 + 1, d4));
    lemma_distribution_token_some(stem.subrange(d4 + 1, stem.len() as int));
    reveal_strlit(".tar.gz");
    assert(".tar.gz"@.len() == 7);
    assert(package_name_chars(v) =~= s);
}

} // verus!
