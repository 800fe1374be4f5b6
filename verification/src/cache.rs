use vstd::prelude::*;
use vstd::string::StringExecFns;

use crate::artifactory::{Entry, Registry};
use crate::dependency::{
    is_name, is_package_name, package_name_chars, package_name_view, spec_ranged_compare, DepView,
    Dependency, lemma_package_name_round_trip,
};
use crate::error::PuffError;

verus! {

/// The local artifact store: a directory path and the canonical tarball
/// names found in it. Reading the directory and moving bytes is the
/// surrounding application's business; the selection logic lives here.
#[derive(Debug)]
pub struct Cache {
    pub path: String,
    pub files: Vec<String>,
}

/// A pending transfer that the caller must perform: the listed entry is to
/// be downloaded from the remote at `remote_index` into the cache.
#[derive(Debug)]
pub struct DownloadRequest {
    pub remote_index: usize,
    pub entry: Entry,
}

/// What `get_or_download` decided: the artifact's path in the cache, and the
/// transfer still owed when the artifact was not already present.
#[derive(Debug)]
pub struct CacheOutcome {
    pub archive_path: String,
    pub download: Option<DownloadRequest>,
}

/// A path joined to a file name inside it.
pub open spec fn joined(path: Seq<char>, name: Seq<char>) -> Seq<char> {
    path + "/"@ + name
}

impl Cache {
    /// The file name listed at position `i`.
    pub open spec fn file(self, i: int) -> Seq<char> {
        self.files@[i]@
    }

    /// Every listed file name follows the canonical codec.
    pub open spec fn all_canonical(self) -> bool {
        forall|i: int| 0 <= i < self.files@.len() ==> is_package_name(#[trigger] self.file(i))
    }

    /// The file at position `i` decodes to an artifact satisfying the query.
    pub open spec fn file_matches(self, i: int, q: DepView) -> bool {
        is_package_name(self.file(i)) && spec_ranged_compare(package_name_view(self.file(i)), q)
    }

    /// Whether some listed file satisfies the query.
    pub open spec fn has_match(self, q: DepView) -> bool {
        exists|i: int| 0 <= i < self.files@.len() && self.file_matches(i, q)
    }

    /// Whether the cache can satisfy the query, with the source-fallback
    /// relaxation when it is allowed.
    pub open spec fn resolves(self, q: DepView, allow_sources: bool) -> bool {
        self.has_match(q) || (allow_sources && self.has_match(q.as_sources()))
    }

    /// `d` decodes from a listed file satisfying the query — binary first,
    /// sources only when no binary matches — of maximal version among those.
    pub open spec fn is_latest_match(self, q: DepView, allow_sources: bool, d: DepView) -> bool {
        let n = self.files@.len() as int;
        if self.has_match(q) {
            exists|i: int|
                0 <= i < n && #[trigger] self.file_matches(i, q) && package_name_view(self.file(i))
                    == d && (forall|j: int|
                    0 <= j < n && #[trigger] self.file_matches(j, q) ==> package_name_view(
                        self.file(j),
                    ).version.spec_le(d.version))
        } else {
            allow_sources && {
                let s = q.as_sources();
                exists|i: int|
                    0 <= i < n && #[trigger] self.file_matches(i, s) && package_name_view(
                        self.file(i),
                    ) == d && (forall|j: int|
                        0 <= j < n && #[trigger] self.file_matches(j, s) ==> package_name_view(
                            self.file(j),
                        ).version.spec_le(d.version))
            }
        }
    }

    /// The position of the best match among the first `n` files: a matching
    /// file of maximal version — the last such file when versions tie — or
    /// `-1` when none of the first `n` files matches.
    pub open spec fn best_idx(self, q: DepView, n: int) -> int
        decreases n,
    {
        if n <= 0 {
            -1
        } else {
            let prev = self.best_idx(q, n - 1);
            if self.file_matches(n - 1, q) && (prev == -1 || package_name_view(
                self.file(prev),
            ).version.spec_le(package_name_view(self.file(n - 1)).version)) {
                n - 1
            } else {
                prev
            }
        }
    }

    /// The position of the file a lookup returns: the best binary match, or
    /// — only when sources are allowed and no binary matches — the best
    /// sources match; `-1` on a miss. This pins the tie-break, so repeated
    /// lookups of one query against one listing return one path.
    pub open spec fn selected_match(self, q: DepView, allow_sources: bool) -> int {
        let n = self.files@.len() as int;
        if self.best_idx(q, n) >= 0 {
            self.best_idx(q, n)
        } else if allow_sources {
            self.best_idx(q.as_sources(), n)
        } else {
            -1
        }
    }

    pub fn new(path: String, files: Vec<String>) -> (r: Cache)
        ensures
            r.path == path,
            r.files == files,
    {
        Cache { path, files }
    }

    /// The search shared by the lookup functions: the winning artifact and
    /// the listing position it was decoded from.
    #[verifier::rlimit(100)]
    fn search(&self, dependency: &Dependency, allow_sources: bool) -> (r: Result<
        (Dependency, usize),
        PuffError,
    >)
        ensures
            !self.all_canonical() ==> r == Result::<(Dependency, usize), PuffError>::Err(
                PuffError::InvalidPackageName,
            ),
            self.all_canonical() ==> {
                &&& (r is Ok <==> self.resolves(dependency@, allow_sources))
                &&& (r matches Ok((d, idx)) ==> {
                    &&& idx < self.files@.len()
                    &&& idx as int == self.selected_match(dependency@, allow_sources)
                    &&& is_package_name(self.file(idx as int))
                    &&& package_name_view(self.file(idx as int)) == d@
                    &&& self.is_latest_match(dependency@, allow_sources, d@)
                })
                &&& (r matches Err(e) ==> e == PuffError::CacheMiss)
            },
    {
        let len = self.files.len();
        let mut best: Option<Dependency> = None;
        let mut bi: usize = 0;
        let mut i: usize = 0;
        while i < len
            invariant
                0 <= i <= len,
                len == self.files@.len(),
                forall|j: int| 0 <= j < i ==> is_package_name(#[trigger] self.file(j)),
                best is None <==> self.best_idx(dependency@, i as int) == -1,
                best is None ==> forall|j: int|
                    0 <= j < i ==> !(#[trigger] self.file_matches(j, dependency@)),
                best matches Some(b) ==> {
                    &&& 0 <= bi < i
                    &&& bi as int == self.best_idx(dependency@, i as int)
                    &&& self.file_matches(bi as int, dependency@)
                    &&& package_name_view(self.file(bi as int)) == b@
                    &&& forall|j: int|
                        0 <= j < i && #[trigger] self.file_matches(j, dependency@)
                            ==> package_name_view(self.file(j)).version.spec_le(b@.version)
                },
            decreases len - i,
        {
            let d = match Dependency::from_package_name(self.files[i].as_str()) {
                Ok(d) => d,
                Err(_) => {
                    proof {
                        assert(!is_package_name(self.file(i as int)));
                    }
                    return Err(PuffError::InvalidPackageName);
                },
            };
            if d.ranged_compare(dependency) {
                let take = match &best {
                    None => true,
                    Some(b) => b.version.le(&d.version),
                };
                if take {
                    best = Some(d);
                    bi = i;
                }
            }
            proof {
                assert(self.best_idx(dependency@, i + 1) == (if self.file_matches(
                    i as int,
                    dependency@,
                ) && (self.best_idx(dependency@, i as int) == -1 || package_name_view(
                    self.file(self.best_idx(dependency@, i as int)),
                ).version.spec_le(package_name_view(self.file(i as int)).version)) {
                    i as int
                } else {
                    self.best_idx(dependency@, i as int)
                }));
            }
            i += 1;
        }
        if let Some(b) = best {
            return Ok((b, bi));
        }
        if !allow_sources {
            return Err(PuffError::CacheMiss);
        }
        let src = dependency.as_sources_dependency();
        let mut best2: Option<Dependency> = None;
        let mut b2i: usize = 0;
        let mut i2: usize = 0;
        while i2 < len
            invariant
                0 <= i2 <= len,
                len == self.files@.len(),
                src@ == dependency@.as_sources(),
                self.all_canonical(),
                !self.has_match(dependency@),
                self.best_idx(dependency@, len as int) == -1,
                best2 is None <==> self.best_idx(src@, i2 as int) == -1,
                best2 is None ==> forall|j: int|
                    0 <= j < i2 ==> !(#[trigger] self.file_matches(j, src@)),
                best2 matches Some(b) ==> {
                    &&& 0 <= b2i < i2
                    &&& b2i as int == self.best_idx(src@, i2 as int)
                    &&& self.file_matches(b2i as int, src@)
                    &&& package_name_view(self.file(b2i as int)) == b@
                    &&& forall|j: int|
                        0 <= j < i2 && #[trigger] self.file_matches(j, src@) ==> package_name_view(
                            self.file(j),
                        ).version.spec_le(b@.version)
                },
            decreases len - i2,
        {
            let d = match Dependency::from_package_name(self.files[i2].as_str()) {
                Ok(d) => d,
                Err(_) => {
                    proof {
                        assert(is_package_name(self.file(i2 as int)));
                        assert(false);
                    }
                    return Err(PuffError::InvalidPackageName);
                },
            };
            if d.ranged_compare(&src) {
                let take = match &best2 {
                    None => true,
                    Some(b) => b.version.le(&d.version),
                };
                if take {
                    best2 = Some(d);
                    b2i = i2;
                }
            }
            proof {
                assert(self.best_idx(src@, i2 + 1) == (if self.file_matches(i2 as int, src@) && (
                self.best_idx(src@, i2 as int) == -1 || package_name_view(
                    self.file(self.best_idx(src@, i2 as int)),
                ).version.spec_le(package_name_view(self.file(i2 as int)).version)) {
                    i2 as int
                } else {
                    self.best_idx(src@, i2 as int)
                }));
            }
            i2 += 1;
        }
        match best2 {
            Some(b) => Ok((b, b2i)),
            None => Err(PuffError::CacheMiss),
        }
    }

    /// The listed artifact of maximal version satisfying the query — binary
    /// first, then, when allowed, the source-fallback relaxation. A listing
    /// holding any non-canonical file name fails outright.
    pub fn latest_satisfied(&self, dependency: &Dependency, allow_sources: bool) -> (r: Result<
        Dependency,
        PuffError,
    >)
        ensures
            !self.all_canonical() ==> r == Result::<Dependency, PuffError>::Err(
                PuffError::InvalidPackageName,
            ),
            self.all_canonical() ==> {
                &&& (r is Ok <==> self.resolves(dependency@, allow_sources))
                &&& (r matches Ok(d) ==> self.is_latest_match(dependency@, allow_sources, d@))
                &&& (r matches Err(e) ==> e == PuffError::CacheMiss)
            },
    {
        match self.search(dependency, allow_sources) {
            Ok((d, _)) => Ok(d),
            Err(e) => Err(e),
        }
    }

    /// The path of the cached tarball that satisfies the query.
    #[verifier::rlimit(100)]
    pub fn get(&self, dependency: &Dependency, allow_sources: bool) -> (r: Result<
        String,
        PuffError,
    >)
        ensures
            !self.all_canonical() ==> r == Result::<String, PuffError>::Err(
                PuffError::InvalidPackageName,
            ),
            self.all_canonical() ==> {
                &&& (r is Ok <==> self.resolves(dependency@, allow_sources))
                &&& (r matches Ok(p) ==> p@ == joined(
                    self.path@,
                    self.file(self.selected_match(dependency@, allow_sources)),
                ) && self.selected_match(dependency@, allow_sources) >= 0)
                &&& (r matches Ok(p) ==> exists|i: int|
                    {
                        &&& 0 <= i < self.files@.len()
                        &&& is_package_name(#[trigger] self.file(i))
                        &&& self.is_latest_match(
                            dependency@,
                            allow_sources,
                            package_name_view(self.file(i)),
                        )
                        &&& p@ == joined(self.path@, self.file(i))
                    })
                &&& (r matches Err(e) ==> e == PuffError::CacheMiss)
            },
    {
        let r = self.search(dependency, allow_sources);
        match r {
            Ok((_, idx)) => {
                let mut p = self.path.clone();
                p.append("/");
                p.append(self.files[idx].as_str());
                Ok(p)
            },
            Err(e) => Err(e),
        }
    }

    /// Whether the cache can satisfy the query.
    pub fn contains(&self, dependency: &Dependency, allow_sources: bool) -> (r: bool)
        ensures
            r == (self.all_canonical() && self.resolves(dependency@, allow_sources)),
    {
        self.latest_satisfied(dependency, allow_sources).is_ok()
    }

    /// Admits an externally produced, canonically named tarball into the
    /// listing; anything else is rejected.
    pub fn put(&mut self, file_name: String) -> (r: Result<(), PuffError>)
        ensures
            is_package_name(file_name@) ==> r is Ok && final(self).files@ == old(
                self,
            ).files@.push(file_name) && final(self).path == old(self).path,
            !is_package_name(file_name@) ==> r == Result::<(), PuffError>::Err(
                PuffError::InvalidPackageName,
            ) && *final(self) == *old(self),
    {
        match Dependency::from_package_name(file_name.as_str()) {
            Ok(_) => {
                self.files.push(file_name);
                Ok(())
            },
            Err(_) => Err(PuffError::InvalidPackageName),
        }
    }

    /// Advisory check on the cache's total size: warns, never blocks, once
    /// the soft threshold of 512 MB is passed. The caller measures the
    /// directory and reports the warning.
    pub fn check_cache_total_size(total_size_bytes: u64) -> (r: bool)
        ensures
            r == (total_size_bytes > 536870912),
    {
        total_size_bytes > 536870912
    }

    /// The cached path of an artifact satisfying the query; on a miss, the
    /// decision which remote entry to fetch. A fetch is recorded in the
    /// listing at once — the caller performs the transfer, and a failed
    /// transfer aborts the whole resolution.
    pub fn get_or_download(
        &mut self,
        dependency: &Dependency,
        allow_sources: bool,
        registry: &Registry,
    ) -> (r: Result<CacheOutcome, PuffError>)
        ensures
            old(self).all_canonical() && old(self).resolves(dependency@, allow_sources) ==> {
                &&& *final(self) == *old(self)
                &&& r is Ok
                &&& (r matches Ok(o) ==> o.archive_path@ == joined(
                    old(self).path@,
                    old(self).file(old(self).selected_match(dependency@, allow_sources)),
                ))
                &&& (r matches Ok(o) ==> o.download is None && (exists|i: int|
                    {
                        &&& 0 <= i < old(self).files@.len()
                        &&& is_package_name(#[trigger] old(self).file(i))
                        &&& old(self).is_latest_match(
                            dependency@,
                            allow_sources,
                            package_name_view(old(self).file(i)),
                        )
                        &&& o.archive_path@ == joined(old(self).path@, old(self).file(i))
                    }))
            },
            !(old(self).all_canonical() && old(self).resolves(dependency@, allow_sources)) ==> {
                &&& (r is Ok <==> registry.resolves(dependency@, allow_sources))
                &&& (r matches Ok(o) ==> {
                    &&& o.download matches Some(req)
                    &&& (o.download matches Some(req) ==> {
                        &&& req.remote_index < registry.remotes@.len()
                        &&& registry.remotes@[req.remote_index as int].resolves(
                            dependency@,
                            allow_sources,
                        )
                        &&& (forall|j: int|
                            0 <= j < req.remote_index ==> !(#[trigger] registry.remotes@[j]).resolves(
                                dependency@,
                                allow_sources,
                            ))
                        &&& registry.remotes@[req.remote_index as int].is_latest_match(
                            dependency@,
                            allow_sources,
                            req.entry@.dependency,
                        )
                        &&& final(self).files@.len() == old(self).files@.len() + 1
                        &&& (forall|i: int|
                            0 <= i < old(self).files@.len() ==> final(self).file(i) == old(
                                self,
                            ).file(i))
                        &&& final(self).file(old(self).files@.len() as int) == package_name_chars(
                            req.entry@.dependency,
                        )
                        &&& o.archive_path@ == joined(
                            old(self).path@,
                            package_name_chars(req.entry@.dependency),
                        )
                        &&& final(self).path == old(self).path
                    })
                })
                &&& (r is Err ==> *final(self) == *old(self) && (r matches Err(e) ==> e
                    == PuffError::PackageNotFound))
            },
    {
        match self.get(dependency, allow_sources) {
            Ok(p) => Ok(CacheOutcome { archive_path: p, download: None }),
            Err(_) => {
                let (remote_index, entry) = registry.get(dependency, allow_sources)?;
                let file_name = entry.dependency.to_package_name();
                let mut p = self.path.clone();
                p.append("/");
                p.append(file_name.as_str());
                self.files.push(file_name);
                Ok(
                    CacheOutcome {
                        archive_path: p,
                        download: Some(DownloadRequest { remote_index, entry }),
                    },
                )
            },
        }
    }
}

/// The bounds and meaning of `best_idx`: it points at a match that no other
/// match among the first `n` files exceeds, and is `-1` exactly when none of
/// them matches.
proof fn lemma_best_idx(c: Cache, q: DepView, n: int)
    requires
        0 <= n <= c.files@.len(),
    ensures
        -1 <= c.best_idx(q, n) < n,
        c.best_idx(q, n) >= 0 ==> c.file_matches(c.best_idx(q, n), q),
        c.best_idx(q, n) == -1 ==> forall|j: int| 0 <= j < n ==> !(#[trigger] c.file_matches(j, q)),
        c.best_idx(q, n) >= 0 ==> forall|j: int|
            0 <= j < n && #[trigger] c.file_matches(j, q) ==> package_name_view(
                c.file(j),
            ).version.spec_le(package_name_view(c.file(c.best_idx(q, n))).version),
    decreases n,
{
    if n > 0 {
        lemma_best_idx(c, q, n - 1);
    }
}

/// `best_idx` over the first `n` files reads only those files.
proof fn lemma_best_idx_prefix(c0: Cache, c1: Cache, q: DepView, n: int)
    requires
        0 <= n <= c0.files@.len(),
        n <= c1.files@.len(),
        forall|i: int| 0 <= i < n ==> c1.file(i) == c0.file(i),
    ensures
        c1.best_idx(q, n) == c0.best_idx(q, n),
    decreases n,
{
    if n > 0 {
        lemma_best_idx_prefix(c0, c1, q, n - 1);
        lemma_best_idx(c0, q, n - 1);
        assert(c1.file_matches(n - 1, q) == c0.file_matches(n - 1, q));
        let prev = c0.best_idx(q, n - 1);
        if prev >= 0 {
            assert(c1.file(prev) == c0.file(prev));
        }
    }
}

/// The selected position is in range and a match of the served stage exactly
/// when the cache can satisfy the query at all.
pub proof fn lemma_selected_match(c: Cache, q: DepView, allow_sources: bool)
    ensures
        c.resolves(q, allow_sources) <==> c.selected_match(q, allow_sources) >= 0,
        c.selected_match(q, allow_sources) >= 0 ==> {
            let i = c.selected_match(q, allow_sources);
            &&& i < c.files@.len()
            &&& (c.file_matches(i, q) || (allow_sources && c.file_matches(i, q.as_sources())))
        },
{
    let n = c.files@.len() as int;
    lemma_best_idx(c, q, n);
    lemma_best_idx(c, q.as_sources(), n);
}

/// A latest match satisfies the query at the stage that served it.
pub proof fn lemma_latest_match_compare(c: Cache, q: DepView, allow_sources: bool, d: DepView)
    requires
        c.is_latest_match(q, allow_sources, d),
    ensures
        spec_ranged_compare(d, q) || (allow_sources && spec_ranged_compare(d, q.as_sources())),
{
    let n = c.files@.len() as int;
    if c.has_match(q) {
        let i = choose|i: int|
            0 <= i < n && #[trigger] c.file_matches(i, q) && package_name_view(c.file(i)) == d && (
            forall|j: int|
                0 <= j < n && #[trigger] c.file_matches(j, q) ==> package_name_view(
                    c.file(j),
                ).version.spec_le(d.version));
        assert(spec_ranged_compare(package_name_view(c.file(i)), q));
    } else {
        let s = q.as_sources();
        let i = choose|i: int|
            0 <= i < n && #[trigger] c.file_matches(i, s) && package_name_view(c.file(i)) == d && (
            forall|j: int|
                0 <= j < n && #[trigger] c.file_matches(j, s) ==> package_name_view(
                    c.file(j),
                ).version.spec_le(d.version));
        assert(spec_ranged_compare(package_name_view(c.file(i)), s));
    }
}

/// Cache idempotence: once the artifact fetched for a query has been
/// recorded in the listing, the listing itself satisfies that query — so a
/// second `get_or_download` for the same dependency performs no further
/// fetch.
#[verifier::rlimit(100)]
pub proof fn lemma_cache_idempotence(c0: Cache, c1: Cache, q: DepView, d: DepView, allow_sources: bool)
    requires
        c0.all_canonical(),
        c1.files@.len() == c0.files@.len() + 1,
        forall|i: int| 0 <= i < c0.files@.len() ==> c1.file(i) == c0.file(i),
        c1.file(c0.files@.len() as int) == package_name_chars(d),
        is_name(d.name),
        d.concrete(),
        spec_ranged_compare(d, q) || (allow_sources && spec_ranged_compare(d, q.as_sources())),
    ensures
        c1.all_canonical(),
        c1.resolves(q, allow_sources),
        !c0.resolves(q, allow_sources) ==> c1.selected_match(q, allow_sources)
            == c0.files@.len(),
{
    lemma_package_name_round_trip(d);
    let n = c0.files@.len() as int;
    assert forall|i: int| 0 <= i < c1.files@.len() implies is_package_name(#[trigger] c1.file(i)) by {
        if i < n {
            assert(c1.file(i) == c0.file(i));
            assert(is_package_name(c0.file(i)));
        } else {
            assert(c1.file(i) == package_name_chars(d));
        }
    }
    if spec_ranged_compare(d, q) {
        assert(c1.file_matches(n, q));
    } else {
        assert(c1.file_matches(n, q.as_sources()));
    }
    if !c0.resolves(q, allow_sources) {
        lemma_best_idx(c0, q, n);
        lemma_best_idx(c0, q.as_sources(), n);
        lemma_best_idx_prefix(c0, c1, q, n);
        lemma_best_idx_prefix(c0, c1, q.as_sources(), n);
        assert(c0.best_idx(q, n) == -1) by {
            if c0.best_idx(q, n) >= 0 {
                assert(c0.file_matches(c0.best_idx(q, n), q));
            }
        }
        if spec_ranged_compare(d, q) {
            assert(c1.best_idx(q, n + 1) == n);
        } else {
            assert(!c1.file_matches(n, q)) by {
                assert(package_name_view(c1.file(n)) == d);
            }
            assert(c1.best_idx(q, n + 1) == -1);
            assert(allow_sources);
            assert(c0.best_idx(q.as_sources(), n) == -1) by {
                if c0.best_idx(q.as_sources(), n) >= 0 {
                    assert(c0.file_matches(c0.best_idx(q.as_sources(), n), q.as_sources()));
                }
            }
            assert(c1.best_idx(q.as_sources(), n + 1) == n);
        }
    }
}

} // verus!
