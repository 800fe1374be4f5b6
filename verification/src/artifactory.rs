use vstd::prelude::*;
use vstd::string::StrSliceExecFns;
use vstd::string::StringExecFns;

use crate::config::{Config, RegistryData};
use crate::dependency::{
    is_package_name, package_name_view, spec_ranged_compare, DepView, Dependency,
};
use crate::error::PuffError;
use crate::template::{format_url, subst_url};
use crate::text::{chars_eq, str_to_chars};

verus! {

/// One synced remote listing: an available artifact with its download URL
/// and its checksum-API URL, both already formatted.
#[derive(Debug)]
pub struct Entry {
    pub dependency: Dependency,
    pub url: String,
    pub api_url: String,
}

/// The mathematical value of an `Entry`.
pub struct EntryView {
    pub dependency: DepView,
    pub url: Seq<char>,
    pub api_url: Seq<char>,
}

impl View for Entry {
    type V = EntryView;

    open spec fn view(&self) -> EntryView {
        EntryView { dependency: self.dependency@, url: self.url@, api_url: self.api_url@ }
    }
}

impl Clone for Entry {
    fn clone(&self) -> (r: Self)
        ensures
            r@ == self@,
    {
        Entry {
            dependency: self.dependency.clone(),
            url: self.url.clone(),
            api_url: self.api_url.clone(),
        }
    }
}

impl Entry {
    /// Formats the two URLs of an available artifact from the remote's
    /// patterns.
    pub fn new(dependency: Dependency, fmt_url: &str, fmt_api_url: &str) -> (r: Result<
        Entry,
        PuffError,
    >)
        ensures
            r is Ok <==> subst_url(fmt_url@, dependency@) is Some && subst_url(
                fmt_api_url@,
                dependency@,
            ) is Some,
            r matches Ok(e) ==> e@.dependency == dependency@ && Some(e@.url) == subst_url(
                fmt_url@,
                dependency@,
            ) && Some(e@.api_url) == subst_url(fmt_api_url@, dependency@),
            r matches Err(e) ==> e == PuffError::UrlFormatError,
    {
        let url = format_url(fmt_url, &dependency)?;
        let api_url = format_url(fmt_api_url, &dependency)?;
        Ok(Entry { dependency, url, api_url })
    }
}

// ---------------------------------------------------------------------------
// Trusted views of the outside world
// ---------------------------------------------------------------------------

/// The artifact names listed under `results` in a search response; a
/// function of the response text alone.
pub uninterp spec fn aql_names(raw: Seq<char>) -> Option<Seq<Seq<char>>>;

/// Relies on `serde_json::from_str` and `serde_json::Value` navigation: the
/// `name` field of every element of the `results` array, in order, or
/// nothing when the text is not such a document.
#[verifier::external_body]
fn aql_result_names(raw: &str) -> (r: Option<Vec<String>>)
    ensures
        match (r, aql_names(raw@)) {
            (Some(v), Some(s)) => v@.len() == s.len() && (forall|i: int|
                0 <= i < s.len() ==> #[trigger] v@[i]@ == s[i]),
            (None, None) => true,
            _ => false,
        },
{
    let value: serde_json::Value = serde_json::from_str(raw).ok()?;
    value.get("results")?.as_array()?.iter().map(
        |item| Some(item.get("name")?.as_str()?.to_string()),
    ).collect::<Option<Vec<String>>>()
}

/// The digest listed under `checksums.md5` in a storage-info response; a
/// function of the response text alone.
pub uninterp spec fn checksum_md5_of(raw: Seq<char>) -> Option<Seq<char>>;

/// Relies on `serde_json::from_str` and `serde_json::Value` navigation: the
/// string at `checksums.md5`, or nothing when the text has none.
#[verifier::external_body]
fn checksum_from_response(raw: &str) -> (r: Option<String>)
    ensures
        match (r, checksum_md5_of(raw@)) {
            (Some(s), Some(t)) => s@ == t,
            (None, None) => true,
            _ => false,
        },
{
    let value: serde_json::Value = serde_json::from_str(raw).ok()?;
    Some(value.get("checksums")?.get("md5")?.as_str()?.to_string())
}

/// The MD5 digest of a byte string, printed as lower-case hex; a function of
/// the bytes alone.
pub uninterp spec fn md5_hex_of(data: Seq<u8>) -> Seq<char>;

/// Relies on `md5::compute`: the digest of the bytes, formatted as
/// lower-case hex.
#[verifier::external_body]
fn md5_hex(data: &Vec<u8>) -> (r: String)
    ensures
        r@ == md5_hex_of(data@),
{
    format!("{:x}", md5::compute(data.as_slice()))
}

/// Compares a downloaded artifact against the digest its remote reports.
/// Returns whether the digests agree; under the strict policy a disagreement
/// is an error instead. A response without a digest is always an error.
pub fn verify_checksum(data: &Vec<u8>, checksum_response: &str, strict: bool) -> (r: Result<
    bool,
    PuffError,
>)
    ensures
        r == (match checksum_md5_of(checksum_response@) {
            None => Result::<bool, PuffError>::Err(PuffError::RegistryUnreachable),
            Some(expected) => if expected == md5_hex_of(data@) {
                Result::<bool, PuffError>::Ok(true)
            } else if strict {
                Result::<bool, PuffError>::Err(PuffError::ChecksumMismatch)
            } else {
                Result::<bool, PuffError>::Ok(false)
            },
        }),
{
    let expected = match checksum_from_response(checksum_response) {
        Some(s) => s,
        None => {
            return Err(PuffError::RegistryUnreachable);
        },
    };
    let actual = md5_hex(data);
    if expected == actual {
        Ok(true)
    } else if strict {
        Err(PuffError::ChecksumMismatch)
    } else {
        Ok(false)
    }
}

// ---------------------------------------------------------------------------
// One remote
// ---------------------------------------------------------------------------

/// The separator appended after a base URL: nothing when the base already
/// ends with a slash.
pub open spec fn url_sep(base: Seq<char>) -> Seq<char> {
    if base.len() > 0 && base[base.len() - 1] == '/' {
        Seq::empty()
    } else {
        "/"@
    }
}

/// One remote package index: its formatted URLs, optional credentials, and
/// the artifact listing of its last sync.
#[derive(Debug)]
pub struct Artifactory {
    pub name: String,
    pub url_format: String,
    pub url_api_format: String,
    pub url_ping: String,
    pub url_aql: String,
    pub username: Option<String>,
    pub token: Option<String>,
    pub available_packages: Vec<Entry>,
}

/// Whether an `Artifactory` was built from one configured remote.
pub open spec fn built_from(a: &Artifactory, reg: RegistryData) -> bool {
    &&& a.name@ == reg.name@
    &&& a.url_format@ == reg.base_url@ + url_sep(reg.base_url@) + reg.name@ + "/"@ + reg.pattern@
    &&& a.url_api_format@ == reg.base_url@ + url_sep(reg.base_url@) + "api/storage/"@ + reg.name@
        + "/"@ + reg.pattern@
    &&& a.url_ping@ == reg.base_url@ + url_sep(reg.base_url@) + reg.name@
    &&& a.url_aql@ == reg.base_url@ + url_sep(reg.base_url@) + "api/search/aql"@
    &&& (match (reg.auth, a.username) {
        (Some(auth), Some(u)) => u@ == auth.username@,
        (None, None) => true,
        _ => false,
    })
    &&& (match (reg.auth, a.token) {
        (Some(auth), Some(t)) => t@ == auth.password@,
        (None, None) => true,
        _ => false,
    })
    &&& a.available_packages@.len() == 0
}

/// Case-sensitive string equality.
pub(crate) fn str_eq(a: &str, b: &str) -> (r: bool)
    ensures
        r == (a@ == b@),
{
    let v = str_to_chars(a);
    let n = v.len();
    proof {
        assert(v@.subrange(0, n as int) =~= a@);
    }
    chars_eq(&v, 0, n, b)
}

impl Artifactory {
    /// The artifact identity listed at position `i`.
    pub open spec fn pkg(self, i: int) -> DepView {
        self.available_packages@[i]@.dependency
    }

    /// Whether some listed artifact satisfies the query.
    pub open spec fn has_pkg_match(self, q: DepView) -> bool {
        exists|i: int|
            0 <= i < self.available_packages@.len() && spec_ranged_compare(#[trigger] self.pkg(i), q)
    }

    /// Whether the listing can satisfy the query, with the source-fallback
    /// relaxation when it is allowed.
    pub open spec fn resolves(self, q: DepView, allow_sources: bool) -> bool {
        self.has_pkg_match(q) || (allow_sources && self.has_pkg_match(q.as_sources()))
    }

    /// `d` is a listed artifact satisfying the query — binary first, sources
    /// only when no binary matches — of maximal version among those.
    pub open spec fn is_latest_match(self, q: DepView, allow_sources: bool, d: DepView) -> bool {
        let n = self.available_packages@.len() as int;
        if self.has_pkg_match(q) {
            exists|i: int|
                0 <= i < n && #[trigger] self.pkg(i) == d && spec_ranged_compare(self.pkg(i), q)
                    && (forall|j: int|
                    0 <= j < n && spec_ranged_compare(#[trigger] self.pkg(j), q) ==> self.pkg(
                        j,
                    ).version.spec_le(d.version))
        } else {
            allow_sources && {
                let s = q.as_sources();
                exists|i: int|
                    0 <= i < n && #[trigger] self.pkg(i) == d && spec_ranged_compare(self.pkg(i), s)
                        && (forall|j: int|
                        0 <= j < n && spec_ranged_compare(#[trigger] self.pkg(j), s) ==> self.pkg(
                            j,
                        ).version.spec_le(d.version))
            }
        }
    }

    /// Builds the remote named `name` from the configuration; the first
    /// configured remote of that name is taken.
    pub fn new(config: &Config, name: &str) -> (r: Result<Artifactory, PuffError>)
        ensures
            r is Ok <==> exists|i: int|
                0 <= i < config.registry.list@.len() && (#[trigger] config.registry.list@[i].name@)
                    == name@,
            r matches Ok(a) ==> exists|i: int|
                {
                    &&& 0 <= i < config.registry.list@.len()
                    &&& (#[trigger] config.registry.list@[i].name@) == name@
                    &&& forall|j: int| 0 <= j < i ==> config.registry.list@[j].name@ != name@
                    &&& built_from(&a, config.registry.list@[i])
                },
            r matches Err(e) ==> e == PuffError::NoSuchRegistry,
    {
        let list_len = config.registry.list.len();
        let mut idx: usize = 0;
        let mut found = false;
        while idx < list_len && !found
            invariant
                0 <= idx <= list_len,
                list_len == config.registry.list@.len(),
                !found ==> forall|j: int| 0 <= j < idx ==> config.registry.list@[j].name@ != name@,
                found ==> idx < list_len && config.registry.list@[idx as int].name@ == name@ && (
                forall|j: int| 0 <= j < idx ==> config.registry.list@[j].name@ != name@),
            decreases list_len - idx + (if found { 0int } else { 1int }),
        {
            if str_eq(config.registry.list[idx].name.as_str(), name) {
                found = true;
            } else {
                idx += 1;
            }
        }
        if !found {
            return Err(PuffError::NoSuchRegistry);
        }
        let reg = &config.registry.list[idx];
        let base_len = reg.base_url.as_str().unicode_len();
        let needs_sep = if base_len == 0 {
            true
        } else {
            reg.base_url.as_str().get_char(base_len - 1) != '/'
        };
        let sep: &str = if needs_sep {
            "/"
        } else {
            ""
        };
        proof {
            reveal_strlit("");
            assert(""@ =~= Seq::<char>::empty());
            assert(sep@ == url_sep(reg.base_url@));
        }
        let mut url_format = reg.base_url.clone();
        url_format.append(sep);
        url_format.append(reg.name.as_str());
        url_format.append("/");
        url_format.append(reg.pattern.as_str());
        let mut url_api_format = reg.base_url.clone();
        url_api_format.append(sep);
        url_api_format.append("api/storage/");
        url_api_format.append(reg.name.as_str());
        url_api_format.append("/");
        url_api_format.append(reg.pattern.as_str());
        let mut url_ping = reg.base_url.clone();
        url_ping.append(sep);
        url_ping.append(reg.name.as_str());
        let mut url_aql = reg.base_url.clone();
        url_aql.append(sep);
        url_aql.append("api/search/aql");
        let (username, token) = match &reg.auth {
            None => (None, None),
            Some(auth) => (Some(auth.username.clone()), Some(auth.password.clone())),
        };
        Ok(
            Artifactory {
                name: reg.name.clone(),
                url_format,
                url_api_format,
                url_ping,
                url_aql,
                username,
                token,
                available_packages: Vec::new(),
            },
        )
    }

    /// Whether some listed artifact satisfies the query.
    pub fn contains(&self, dependency: &Dependency) -> (r: bool)
        ensures
            r == self.has_pkg_match(dependency@),
    {
        let len = self.available_packages.len();
        let mut i: usize = 0;
        while i < len
            invariant
                0 <= i <= len,
                len == self.available_packages@.len(),
                forall|j: int| 0 <= j < i ==> !spec_ranged_compare(#[trigger] self.pkg(j), dependency@),
            decreases len - i,
        {
            if self.available_packages[i].dependency.ranged_compare(dependency) {
                proof {
                    assert(spec_ranged_compare(self.pkg(i as int), dependency@));
                }
                return true;
            }
            i += 1;
        }
        false
    }

    /// Replaces the listing with the artifacts named in a raw search
    /// response; under a lazy sync an already-populated listing is kept and
    /// the response is ignored.
    pub fn sync_aql(&mut self, raw: &str, lazy: bool) -> (r: Result<usize, PuffError>)
        ensures
            lazy && old(self).available_packages@.len() > 0 ==> r == Result::<usize, PuffError>::Ok(
                old(self).available_packages@.len() as usize,
            ) && *final(self) == *old(self),
            !(lazy && old(self).available_packages@.len() > 0) ==> (match aql_names(raw@) {
                None => r == Result::<usize, PuffError>::Err(PuffError::RegistryUnreachable)
                    && *final(self) == *old(self),
                Some(ns) => {
                    &&& (r is Ok <==> (forall|k: int|
                        0 <= k < ns.len() ==> sync_entry_ok(
                            (#[trigger] ns[k]),
                            old(self).url_format@,
                            old(self).url_api_format@,
                        )))
                    &&& (r matches Ok(n) ==> n == final(self).available_packages@.len())
                    &&& (r is Ok ==> {
                        &&& final(self).available_packages@.len() == ns.len()
                        &&& (forall|k: int|
                            0 <= k < ns.len() ==> {
                                let e = (#[trigger] final(self).available_packages@[k])@;
                                &&& e.dependency == package_name_view(ns[k])
                                &&& Some(e.url) == subst_url(
                                    old(self).url_format@,
                                    package_name_view(ns[k]),
                                )
                                &&& Some(e.api_url) == subst_url(
                                    old(self).url_api_format@,
                                    package_name_view(ns[k]),
                                )
                            })
                        &&& final(self).name == old(self).name
                        &&& final(self).url_format == old(self).url_format
                        &&& final(self).url_api_format == old(self).url_api_format
                        &&& final(self).url_ping == old(self).url_ping
                        &&& final(self).url_aql == old(self).url_aql
                        &&& final(self).username == old(self).username
                        &&& final(self).token == old(self).token
                    })
                    &&& (r is Err ==> *final(self) == *old(self))
                    &&& (r matches Err(e) ==> e == PuffError::InvalidPackageName || e
                        == PuffError::UrlFormatError)
                },
            }),
    {
        if lazy && self.available_packages.len() > 0 {
            let n = self.available_packages.len();
            return Ok(n);
        }
        let names = match aql_result_names(raw) {
            Some(v) => v,
            None => {
                return Err(PuffError::RegistryUnreachable);
            },
        };
        let ghost ns = aql_names(raw@)->0;
        let count = names.len();
        let mut packages: Vec<Entry> = Vec::new();
        let mut k: usize = 0;
        while k < count
            invariant
                0 <= k <= count,
                count == ns.len(),
                count == names@.len(),
                !(lazy && old(self).available_packages@.len() > 0),
                aql_names(raw@) == Some(ns),
                forall|i: int| 0 <= i < count ==> (#[trigger] names@[i])@ == ns[i],
                packages@.len() == k,
                forall|i: int|
                    0 <= i < k ==> sync_entry_ok(
                        (#[trigger] ns[i]),
                        self.url_format@,
                        self.url_api_format@,
                    ),
                forall|i: int|
                    0 <= i < k ==> {
                        let e = (#[trigger] packages@[i])@;
                        &&& e.dependency == package_name_view(ns[i])
                        &&& Some(e.url) == subst_url(self.url_format@, package_name_view(ns[i]))
                        &&& Some(e.api_url) == subst_url(
                            self.url_api_format@,
                            package_name_view(ns[i]),
                        )
                    },
                *self == *old(self),
            decreases count - k,
        {
            let dep = match Dependency::from_package_name(names[k].as_str()) {
                Ok(d) => d,
                Err(_) => {
                    return Err(PuffError::InvalidPackageName);
                },
            };
            let entry = match Entry::new(dep, self.url_format.as_str(), self.url_api_format.as_str(),
            ) {
                Ok(e) => e,
                Err(_) => {
                    return Err(PuffError::UrlFormatError);
                },
            };
            packages.push(entry);
            k += 1;
        }
        self.available_packages = packages;
        Ok(count)
    }

    /// The listed artifact of maximal version satisfying the query: binary
    /// first, then — when allowed — the source-fallback relaxation.
    pub fn latest_satisfied(&self, dependency: &Dependency, allow_sources: bool) -> (r: Result<
        Dependency,
        PuffError,
    >)
        ensures
            r is Ok <==> self.resolves(dependency@, allow_sources),
            r matches Ok(d) ==> self.is_latest_match(dependency@, allow_sources, d@),
            r matches Err(e) ==> e == PuffError::PackageNotFound,
    {
        let len = self.available_packages.len();
        let mut best: Option<Dependency> = None;
        let ghost mut bi: int = 0;
        let mut i: usize = 0;
        while i < len
            invariant
                0 <= i <= len,
                len == self.available_packages@.len(),
                best is None ==> forall|j: int|
                    0 <= j < i ==> !spec_ranged_compare(#[trigger] self.pkg(j), dependency@),
                best matches Some(b) ==> {
                    &&& 0 <= bi < i
                    &&& self.pkg(bi) == b@
                    &&& spec_ranged_compare(self.pkg(bi), dependency@)
                    &&& forall|j: int|
                        0 <= j < i && spec_ranged_compare(#[trigger] self.pkg(j), dependency@)
                            ==> self.pkg(j).version.spec_le(b@.version)
                },
            decreases len - i,
        {
            let e = &self.available_packages[i];
            if e.dependency.ranged_compare(dependency) {
                let take = match &best {
                    None => true,
                    Some(b) => b.version.le(&e.dependency.version),
                };
                if take {
                    best = Some(e.dependency.clone());
                    proof {
                        bi = i as int;
                    }
                }
            }
            i += 1;
        }
        if let Some(b) = best {
            return Ok(b);
        }
        if !allow_sources {
            return Err(PuffError::PackageNotFound);
        }
        let src = dependency.as_sources_dependency();
        let mut best2: Option<Dependency> = None;
        let ghost mut b2i: int = 0;
        let mut i2: usize = 0;
        while i2 < len
            invariant
                0 <= i2 <= len,
                len == self.available_packages@.len(),
                src@ == dependency@.as_sources(),
                best2 is None ==> forall|j: int|
                    0 <= j < i2 ==> !spec_ranged_compare(#[trigger] self.pkg(j), src@),
                best2 matches Some(b) ==> {
                    &&& 0 <= b2i < i2
                    &&& self.pkg(b2i) == b@
                    &&& spec_ranged_compare(self.pkg(b2i), src@)
                    &&& forall|j: int|
                        0 <= j < i2 && spec_ranged_compare(#[trigger] self.pkg(j), src@) ==> self.pkg(
                            j,
                        ).version.spec_le(b@.version)
                },
            decreases len - i2,
        {
            let e = &self.available_packages[i2];
            if e.dependency.ranged_compare(&src) {
                let take = match &best2 {
                    None => true,
                    Some(b) => b.version.le(&e.dependency.version),
                };
                if take {
                    best2 = Some(e.dependency.clone());
                    proof {
                        b2i = i2 as int;
                    }
                }
            }
            i2 += 1;
        }
        match best2 {
            Some(b) => Ok(b),
            None => Err(PuffError::PackageNotFound),
        }
    }

    /// The entry to download for the query: the listed entry holding the
    /// latest satisfying artifact.
    pub fn get(&self, dependency: &Dependency, allow_sources: bool) -> (r: Result<
        Entry,
        PuffError,
    >)
        ensures
            r is Ok <==> self.resolves(dependency@, allow_sources),
            r matches Ok(e) ==> (exists|i: int|
                0 <= i < self.available_packages@.len() && e@ == (
                #[trigger] self.available_packages@[i])@) && self.is_latest_match(
                dependency@,
                allow_sources,
                e@.dependency,
            ),
            r matches Err(e) ==> e == PuffError::PackageNotFound,
    {
        let dep = self.latest_satisfied(dependency, allow_sources)?;
        let len = self.available_packages.len();
        let mut i: usize = 0;
        while i < len
            invariant
                0 <= i <= len,
                len == self.available_packages@.len(),
                exists|j: int| 0 <= j < len && #[trigger] self.pkg(j) == dep@,
                self.is_latest_match(dependency@, allow_sources, dep@),
                forall|j: int| 0 <= j < i ==> (#[trigger] self.pkg(j)) != dep@,
            decreases len - i,
        {
            let e = &self.available_packages[i];
            if e.dependency.eq(&dep) {
                return Ok(e.clone());
            }
            i += 1;
        }
        proof {
            assert(false);
        }
        Err(PuffError::PackageNotFound)
    }
}

/// A latest listed match is itself listed and satisfies the query at the
/// stage that served it.
pub proof fn lemma_latest_pkg_compare(a: &Artifactory, q: DepView, allow_sources: bool, d: DepView)
    requires
        a.is_latest_match(q, allow_sources, d),
    ensures
        spec_ranged_compare(d, q) || (allow_sources && spec_ranged_compare(d, q.as_sources())),
        exists|k: int| 0 <= k < a.available_packages@.len() && #[trigger] a.pkg(k) == d,
{
    let n = a.available_packages@.len() as int;
    if a.has_pkg_match(q) {
        let i = choose|i: int|
            0 <= i < n && #[trigger] a.pkg(i) == d && spec_ranged_compare(a.pkg(i), q) && (forall|
                j: int,
            |
                0 <= j < n && spec_ranged_compare(#[trigger] a.pkg(j), q) ==> a.pkg(
                    j,
                ).version.spec_le(d.version));
        assert(a.pkg(i) == d);
    } else {
        let s = q.as_sources();
        let i = choose|i: int|
            0 <= i < n && #[trigger] a.pkg(i) == d && spec_ranged_compare(a.pkg(i), s) && (forall|
                j: int,
            |
                0 <= j < n && spec_ranged_compare(#[trigger] a.pkg(j), s) ==> a.pkg(
                    j,
                ).version.spec_le(d.version));
        assert(a.pkg(i) == d);
    }
}

/// A name of a synced listing is acceptable when it decodes and both URL
/// patterns accept the decoded artifact.
pub open spec fn sync_entry_ok(s: Seq<char>, fmt: Seq<char>, api_fmt: Seq<char>) -> bool {
    &&& is_package_name(s)
    &&& subst_url(fmt, package_name_view(s)) is Some
    &&& subst_url(api_fmt, package_name_view(s)) is Some
}

// ---------------------------------------------------------------------------
// The aggregated registry
// ---------------------------------------------------------------------------

/// The aggregation of the configured remotes, in priority order.
#[derive(Debug)]
pub struct Registry {
    pub remotes: Vec<Artifactory>,
}

/// The remote at position `k` was built from the first configured registry
/// that shares its name with the one at position `k`.
pub open spec fn built_from_list(list: Seq<RegistryData>, k: int, a: &Artifactory) -> bool {
    exists|j: int|
        0 <= j <= k && (#[trigger] list[j]).name@ == list[k].name@ && built_from(a, list[j])
}

impl Registry {
    /// Every listed artifact across the remotes carries a valid package name
    /// and a concrete version — as every artifact decoded by a sync does.
    pub open spec fn entries_wf(self) -> bool {
        forall|i: int, k: int|
            0 <= i < self.remotes@.len() && 0 <= k
                < self.remotes@[i].available_packages@.len() ==> crate::dependency::is_name(
                (#[trigger] self.remotes@[i].available_packages@[k])@.dependency.name,
            ) && self.remotes@[i].available_packages@[k]@.dependency.concrete()
    }

    /// Whether some remote can satisfy the query, with the source-fallback
    /// relaxation when it is allowed.
    pub open spec fn resolves(self, q: DepView, allow_sources: bool) -> bool {
        exists|i: int|
            0 <= i < self.remotes@.len() && (#[trigger] self.remotes@[i]).resolves(q, allow_sources)
    }

    /// Builds one remote per configured registry, in configured order.
    pub fn new(config: &Config) -> (r: Result<Registry, PuffError>)
        ensures
            r is Ok,
            r matches Ok(reg) ==> reg.remotes@.len() == config.registry.list@.len() && forall|
                i: int,
            |
                0 <= i < reg.remotes@.len() ==> built_from_list(
                    config.registry.list@,
                    i,
                    #[trigger] &reg.remotes@[i],
                ),
    {
        let len = config.registry.list.len();
        let mut remotes: Vec<Artifactory> = Vec::new();
        let mut i: usize = 0;
        while i < len
            invariant
                0 <= i <= len,
                len == config.registry.list@.len(),
                remotes@.len() == i,
                forall|k: int|
                    0 <= k < i ==> built_from_list(config.registry.list@, k, #[trigger] &remotes@[k]),
            decreases len - i,
        {
            let a = match Artifactory::new(config, config.registry.list[i].name.as_str()) {
                Ok(a) => a,
                Err(_) => {
                    proof {
                        assert(config.registry.list@[i as int].name@
                            == config.registry.list@[i as int].name@);
                        assert(false);
                    }
                    return Err(PuffError::NoSuchRegistry);
                },
            };
            remotes.push(a);
            i += 1;
        }
        Ok(Registry { remotes })
    }

    /// Judges the reachability probes of the remotes, in configured order:
    /// every remote must have answered its ping successfully, and the first
    /// unreachable one fails the whole sync. The probes themselves are the
    /// surrounding application's business.
    pub fn ping_all(&self, reachable: &Vec<bool>) -> (r: Result<(), PuffError>)
        requires
            reachable@.len() == self.remotes@.len(),
        ensures
            r is Ok <==> (forall|i: int| 0 <= i < reachable@.len() ==> #[trigger] reachable@[i]),
            r matches Err(e) ==> e == PuffError::RegistryUnreachable,
    {
        let len = reachable.len();
        let mut i: usize = 0;
        while i < len
            invariant
                0 <= i <= len,
                len == reachable@.len(),
                forall|j: int| 0 <= j < i ==> #[trigger] reachable@[j],
            decreases len - i,
        {
            if !reachable[i] {
                return Err(PuffError::RegistryUnreachable);
            }
            i += 1;
        }
        Ok(())
    }

    /// Whether some remote lists an artifact satisfying the query.
    pub fn contains(&self, dependency: &Dependency) -> (r: bool)
        ensures
            r == exists|i: int|
                0 <= i < self.remotes@.len() && (#[trigger] self.remotes@[i]).has_pkg_match(
                    dependency@,
                ),
    {
        let len = self.remotes.len();
        let mut i: usize = 0;
        while i < len
            invariant
                0 <= i <= len,
                len == self.remotes@.len(),
                forall|j: int|
                    0 <= j < i ==> !(#[trigger] self.remotes@[j]).has_pkg_match(dependency@),
            decreases len - i,
        {
            if self.remotes[i].contains(dependency) {
                return true;
            }
            i += 1;
        }
        false
    }

    /// The first remote, in configured order, that can satisfy the query,
    /// with the entry to download from it.
    pub fn get(&self, dependency: &Dependency, allow_sources: bool) -> (r: Result<
        (usize, Entry),
        PuffError,
    >)
        ensures
            r is Ok <==> self.resolves(dependency@, allow_sources),
            r matches Ok((i, e)) ==> {
                &&& i < self.remotes@.len()
                &&& self.remotes@[i as int].resolves(dependency@, allow_sources)
                &&& forall|j: int|
                    0 <= j < i ==> !(#[trigger] self.remotes@[j]).resolves(
                        dependency@,
                        allow_sources,
                    )
                &&& (exists|k: int|
                    0 <= k < self.remotes@[i as int].available_packages@.len() && e@ == (
                    #[trigger] self.remotes@[i as int].available_packages@[k])@)
                &&& self.remotes@[i as int].is_latest_match(
                    dependency@,
                    allow_sources,
                    e@.dependency,
                )
            },
            r matches Err(e) ==> e == PuffError::PackageNotFound,
    {
        let len = self.remotes.len();
        let mut i: usize = 0;
        while i < len
            invariant
                0 <= i <= len,
                len == self.remotes@.len(),
                forall|j: int|
                    0 <= j < i ==> !(#[trigger] self.remotes@[j]).resolves(
                        dependency@,
                        allow_sources,
                    ),
            decreases len - i,
        {
            match self.remotes[i].get(dependency, allow_sources) {
                Ok(e) => {
                    return Ok((i, e));
                },
                Err(_) => {},
            }
            i += 1;
        }
        Err(PuffError::PackageNotFound)
    }
}

/// Whether a push should upload: an artifact already present on the remote
/// is only overwritten under `force`.
pub fn push_plan(exists_already: bool, force: bool) -> (r: bool)
    ensures
        r == (!exists_already || force),
{
    !exists_already || force
}

} // verus!
