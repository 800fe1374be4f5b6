use vstd::prelude::*;

use crate::cache::{Cache, DownloadRequest, joined};
use crate::dependency::{
    file_name_of, is_package_name, lemma_file_name_of_joined, lemma_package_name_no_sep,
    lemma_package_name_round_trip, package_name_chars, package_name_view,
    spec_ranged_compare, DepView, Dependency,
};
use crate::arch::Arch;
use crate::artifactory::{str_eq, Registry};
use crate::distribution::Distribution;
use crate::manifest::{Manifest, ManifestDependencyData};
use crate::config::Config;
use crate::recipe::{CMakeSection, Recipe, Toolchain, ToolchainSection};
use crate::toolchain::{
    is_cmake_args, is_shell_plan, shell_plan_possible, CMakeToolchain, ShellToolchain,
};
use crate::os::OperatingSystem;
use crate::environment::Environment;
use crate::error::PuffError;
use crate::version::VersionRange;

verus! {

/// One resolved tree node: an identity rebound to its concrete version, a
/// flag for the build-from-source escape hatch, and the local tarball path.
#[derive(Debug)]
pub struct ResolverEntry {
    pub dependency: Dependency,
    pub require_build: bool,
    pub tar_path: String,
}

/// The mathematical value of a `ResolverEntry`.
pub struct ResolverEntryView {
    pub dependency: DepView,
    pub require_build: bool,
    pub tar_path: Seq<char>,
}

impl View for ResolverEntry {
    type V = ResolverEntryView;

    open spec fn view(&self) -> ResolverEntryView {
        ResolverEntryView {
            dependency: self.dependency@,
            require_build: self.require_build,
            tar_path: self.tar_path@,
        }
    }
}

impl Clone for ResolverEntry {
    fn clone(&self) -> (r: Self)
        ensures
            r@ == self@,
    {
        ResolverEntry {
            dependency: self.dependency.clone(),
            require_build: self.require_build,
            tar_path: self.tar_path.clone(),
        }
    }
}

impl ResolverEntry {
    pub fn new(dependency: Dependency, require_build: bool, tar_path: String) -> (r: ResolverEntry)
        ensures
            r@ == (ResolverEntryView {
                dependency: dependency@,
                require_build,
                tar_path: tar_path@,
            }),
    {
        ResolverEntry { dependency, require_build, tar_path }
    }
}

/// The values of a list of entries.
pub open spec fn entry_views(s: Seq<ResolverEntry>) -> Seq<ResolverEntryView> {
    s.map_values(|e: ResolverEntry| e@)
}

// ---------------------------------------------------------------------------
// Deduplication: first occurrence wins, by full dependency identity
// ---------------------------------------------------------------------------

/// Whether some entry carries exactly this dependency identity.
pub open spec fn has_dep(s: Seq<ResolverEntryView>, d: DepView) -> bool {
    exists|i: int| 0 <= i < s.len() && (#[trigger] s[i]).dependency == d
}

/// The list with every repeated dependency identity dropped; the first
/// occurrence stays.
pub open spec fn dedup_spec(s: Seq<ResolverEntryView>) -> Seq<ResolverEntryView>
    decreases s.len(),
{
    if s.len() == 0 {
        s
    } else {
        let prev = dedup_spec(s.drop_last());
        if has_dep(s.drop_last(), s.last().dependency) {
            prev
        } else {
            prev.push(s.last())
        }
    }
}

/// Deduplication keeps exactly the dependency identities of its input.
pub proof fn lemma_dedup_members(s: Seq<ResolverEntryView>, d: DepView)
    ensures
        has_dep(dedup_spec(s), d) == has_dep(s, d),
    decreases s.len(),
{
    if s.len() > 0 {
        let t = s.drop_last();
        lemma_dedup_members(t, d);
        lemma_dedup_members(t, s.last().dependency);
        if has_dep(t, s.last().dependency) {
            assert(has_dep(s, d) ==> has_dep(t, d)) by {
                if has_dep(s, d) {
                    let i = choose|i: int| 0 <= i < s.len() && (#[trigger] s[i]).dependency == d;
                    if i < s.len() - 1 {
                        assert(t[i] == s[i]);
                    } else {
                        let j = choose|j: int|
                            0 <= j < t.len() && (#[trigger] t[j]).dependency
                                == s.last().dependency;
                        assert(t[j].dependency == d);
                    }
                }
            }
            assert(has_dep(t, d) ==> has_dep(s, d)) by {
                if has_dep(t, d) {
                    let i = choose|i: int| 0 <= i < t.len() && (#[trigger] t[i]).dependency == d;
                    assert(s[i] == t[i]);
                }
            }
        } else {
            let prev = dedup_spec(t);
            assert(has_dep(s, d) ==> has_dep(dedup_spec(s), d)) by {
                if has_dep(s, d) {
                    let i = choose|i: int| 0 <= i < s.len() && (#[trigger] s[i]).dependency == d;
                    if i < s.len() - 1 {
                        assert(t[i] == s[i]);
                        assert(has_dep(t, d));
                        let j = choose|j: int|
                            0 <= j < prev.len() && (#[trigger] prev[j]).dependency == d;
                        assert(dedup_spec(s)[j] == prev[j]);
                    } else {
                        assert(dedup_spec(s).last() == s.last());
                    }
                }
            }
            assert(has_dep(dedup_spec(s), d) ==> has_dep(s, d)) by {
                if has_dep(dedup_spec(s), d) {
                    let i = choose|i: int|
                        0 <= i < dedup_spec(s).len() && (#[trigger] dedup_spec(s)[i]).dependency
                            == d;
                    if i < prev.len() {
                        assert(prev[i] == dedup_spec(s)[i]);
                        let j = choose|j: int|
                            0 <= j < t.len() && (#[trigger] t[j]).dependency == d;
                        assert(s[j] == t[j]);
                    } else {
                        assert(dedup_spec(s)[i] == s.last());
                        assert(s[s.len() - 1].dependency == d);
                    }
                }
            }
        }
    }
}

/// Deduplication leaves no two entries with one identity, and every kept
/// entry comes from the input.
pub proof fn lemma_dedup_distinct(s: Seq<ResolverEntryView>)
    ensures
        forall|k1: int, k2: int|
            0 <= k1 < k2 < dedup_spec(s).len() ==> (#[trigger] dedup_spec(s)[k1]).dependency != (
            #[trigger] dedup_spec(s)[k2]).dependency,
        forall|k: int|
            0 <= k < dedup_spec(s).len() ==> exists|i: int|
                0 <= i < s.len() && (#[trigger] dedup_spec(s)[k]) == s[i],
    decreases s.len(),
{
    if s.len() > 0 {
        let t = s.drop_last();
        lemma_dedup_distinct(t);
        let prev = dedup_spec(t);
        assert forall|k: int| 0 <= k < prev.len() implies exists|i: int|
            0 <= i < s.len() && (#[trigger] prev[k]) == s[i] by {
            let i = choose|i: int| 0 <= i < t.len() && prev[k] == t[i];
            assert(s[i] == t[i]);
        }
        if !has_dep(t, s.last().dependency) {
            assert forall|k1: int, k2: int|
                0 <= k1 < k2 < dedup_spec(s).len() implies (#[trigger] dedup_spec(
                s,
            )[k1]).dependency != (#[trigger] dedup_spec(s)[k2]).dependency by {
                if k2 == dedup_spec(s).len() - 1 {
                    assert(dedup_spec(s)[k1] == prev[k1]);
                    let i = choose|i: int| 0 <= i < t.len() && prev[k1] == t[i];
                    if prev[k1].dependency == s.last().dependency {
                        assert(t[i].dependency == s.last().dependency);
                        assert(has_dep(t, s.last().dependency));
                    }
                } else {
                    assert(dedup_spec(s)[k1] == prev[k1]);
                    assert(dedup_spec(s)[k2] == prev[k2]);
                }
            }
            assert(dedup_spec(s).last() == s.last());
            assert(s.last() == s[s.len() - 1]);
        }
    }
}

/// Drops every entry whose full dependency identity has already appeared;
/// the first occurrence wins.
pub fn deduplicate(entries: Vec<ResolverEntry>) -> (r: Vec<ResolverEntry>)
    ensures
        entry_views(r@) == dedup_spec(entry_views(entries@)),
{
    let len = entries.len();
    let mut out: Vec<ResolverEntry> = Vec::new();
    let mut i: usize = 0;
    proof {
        assert(entries@.subrange(0, 0) =~= Seq::<ResolverEntry>::empty());
        assert(entry_views(entries@.subrange(0, 0)) =~= Seq::<ResolverEntryView>::empty());
        assert(entry_views(out@) =~= dedup_spec(entry_views(entries@.subrange(0, 0))));
    }
    while i < len
        invariant
            0 <= i <= len,
            len == entries@.len(),
            entry_views(out@) == dedup_spec(entry_views(entries@.subrange(0, i as int))),
        decreases len - i,
    {
        let ghost pre = entry_views(entries@.subrange(0, i as int));
        let e = entries[i].clone();
        let out_len = out.len();
        let mut seen = false;
        let mut j: usize = 0;
        while j < out_len && !seen
            invariant
                0 <= j <= out_len,
                out_len == out@.len(),
                !seen ==> forall|m: int|
                    0 <= m < j ==> (#[trigger] entry_views(out@)[m]).dependency != e@.dependency,
                seen ==> has_dep(entry_views(out@), e@.dependency),
            decreases out_len - j + (if seen { 0int } else { 1int }),
        {
            if out[j].dependency.eq(&e.dependency) {
                seen = true;
                proof {
                    assert(entry_views(out@)[j as int].dependency == e@.dependency);
                }
            } else {
                j += 1;
            }
        }
        proof {
            lemma_dedup_members(pre, e@.dependency);
            assert(entries@.subrange(0, i + 1).drop_last() =~= entries@.subrange(0, i as int));
            assert(entry_views(entries@.subrange(0, i + 1)).drop_last() =~= pre);
            assert(entry_views(entries@.subrange(0, i + 1)).last() == entries@[i as int]@);
            assert(entries@[i as int]@ == e@);
        }
        if !seen {
            out.push(e);
            proof {
                assert(entry_views(out@) =~= dedup_spec(entry_views(entries@.subrange(0, i + 1))));
            }
        } else {
            proof {
                assert(entry_views(out@) =~= dedup_spec(entry_views(entries@.subrange(0, i + 1))));
            }
        }
        i += 1;
    }
    proof {
        assert(entries@.subrange(0, len as int) =~= entries@);
    }
    out
}

// ---------------------------------------------------------------------------
// Conflict resolution: one entry per (name, distribution, arch), highest wins
// ---------------------------------------------------------------------------

/// Two identities compete when they agree on name, distribution and
/// architecture.
pub open spec fn same_group(a: DepView, b: DepView) -> bool {
    a.name == b.name && a.distribution == b.distribution && a.arch == b.arch
}

/// Whether a kept entry already competes with `d`.
pub open spec fn has_group(acc: Seq<ResolverEntryView>, d: DepView) -> bool {
    exists|k: int| 0 <= k < acc.len() && same_group((#[trigger] acc[k]).dependency, d)
}

/// The position of the first kept entry competing with `d`, or the length.
pub open spec fn first_group(acc: Seq<ResolverEntryView>, d: DepView) -> nat
    decreases acc.len(),
{
    if acc.len() == 0 {
        0
    } else if same_group(acc[0].dependency, d) {
        0
    } else {
        1 + first_group(acc.skip(1), d)
    }
}

pub proof fn lemma_first_group_at(acc: Seq<ResolverEntryView>, d: DepView, k: int)
    requires
        0 <= k <= acc.len(),
        forall|m: int| 0 <= m < k ==> !same_group((#[trigger] acc[m]).dependency, d),
        k < acc.len() ==> same_group(acc[k].dependency, d),
    ensures
        first_group(acc, d) == k,
    decreases k,
{
    if k == 0 {
    } else {
        assert(!same_group(acc[0].dependency, d));
        assert forall|m: int| 0 <= m < k - 1 implies !same_group(
            (#[trigger] acc.skip(1)[m]).dependency,
            d,
        ) by {
            assert(acc.skip(1)[m] == acc[m + 1]);
        }
        assert(k - 1 < acc.skip(1).len() ==> acc.skip(1)[k - 1] == acc[k]);
        lemma_first_group_at(acc.skip(1), d, k - 1);
    }
}

/// One step of the collapse: a newcomer is dropped when a kept competitor is
/// at least as new, replaces a strictly older competitor in place, and is
/// appended when no competitor is kept.
pub open spec fn conflict_step(acc: Seq<ResolverEntryView>, e: ResolverEntryView) -> Seq<
    ResolverEntryView,
> {
    if has_group(acc, e.dependency) {
        let k = first_group(acc, e.dependency) as int;
        if e.dependency.version.spec_le(acc[k].dependency.version) {
            acc
        } else {
            acc.update(k, e)
        }
    } else {
        acc.push(e)
    }
}

/// The collapse of a whole list, left to right.
pub open spec fn conflict_fold(s: Seq<ResolverEntryView>) -> Seq<ResolverEntryView>
    decreases s.len(),
{
    if s.len() == 0 {
        s
    } else {
        conflict_step(conflict_fold(s.drop_last()), s.last())
    }
}

/// Collapses version conflicts: within each (name, distribution,
/// architecture) group only the highest version is kept — unless exact
/// version mode is requested, in which case every pinned entry is retained
/// verbatim.
pub fn resolve_conflicts(entries: Vec<ResolverEntry>, exact_version: bool) -> (r: Vec<
    ResolverEntry,
>)
    ensures
        exact_version ==> r == entries,
        !exact_version ==> entry_views(r@) == conflict_fold(entry_views(entries@)),
{
    if exact_version {
        return entries;
    }
    let len = entries.len();
    let mut acc: Vec<ResolverEntry> = Vec::new();
    let mut i: usize = 0;
    proof {
        assert(entries@.subrange(0, 0) =~= Seq::<ResolverEntry>::empty());
        assert(entry_views(acc@) =~= conflict_fold(entry_views(entries@.subrange(0, 0))));
    }
    while i < len
        invariant
            0 <= i <= len,
            len == entries@.len(),
            entry_views(acc@) == conflict_fold(entry_views(entries@.subrange(0, i as int))),
        decreases len - i,
    {
        let e = entries[i].clone();
        let acc_len = acc.len();
        let mut k: usize = 0;
        let mut found = false;
        while k < acc_len && !found
            invariant
                0 <= k <= acc_len,
                acc_len == acc@.len(),
                !found ==> forall|m: int|
                    0 <= m < k ==> !same_group((#[trigger] entry_views(acc@)[m]).dependency, e@.dependency),
                found ==> k < acc_len && same_group(entry_views(acc@)[k as int].dependency, e@.dependency)
                    && (forall|m: int|
                    0 <= m < k ==> !same_group(
                        (#[trigger] entry_views(acc@)[m]).dependency,
                        e@.dependency,
                    )),
            decreases acc_len - k + (if found { 0int } else { 1int }),
        {
            let candidate = &acc[k];
            let names_eq = candidate.dependency.name == e.dependency.name;
            let group_eq = names_eq && candidate.dependency.distribution == e.dependency.distribution
                && candidate.dependency.arch == e.dependency.arch;
            if group_eq {
                found = true;
            } else {
                k += 1;
            }
        }
        proof {
            assert(entries@.subrange(0, i + 1).drop_last() =~= entries@.subrange(0, i as int));
            assert(entry_views(entries@.subrange(0, i + 1)).drop_last() =~= entry_views(
                entries@.subrange(0, i as int),
            ));
            assert(entry_views(entries@.subrange(0, i + 1)).last() == entries@[i as int]@);
            assert(entries@[i as int]@ == e@);
            if found {
                lemma_first_group_at(entry_views(acc@), e@.dependency, k as int);
            } else {
                lemma_first_group_at(entry_views(acc@), e@.dependency, acc@.len() as int);
            }
        }
        if found {
            let keep = e.dependency.version.le(&acc[k].dependency.version);
            if !keep {
                acc.set(k, e);
                proof {
                    assert(entry_views(acc@) =~= conflict_fold(
                        entry_views(entries@.subrange(0, i + 1)),
                    ));
                }
            } else {
                proof {
                    assert(entry_views(acc@) =~= conflict_fold(
                        entry_views(entries@.subrange(0, i + 1)),
                    ));
                }
            }
        } else {
            acc.push(e);
            proof {
                assert(entry_views(acc@) =~= conflict_fold(
                    entry_views(entries@.subrange(0, i + 1)),
                ));
            }
        }
        i += 1;
    }
    proof {
        assert(entries@.subrange(0, len as int) =~= entries@);
    }
    acc
}

/// Within a collapse, no two kept entries compete.
proof fn lemma_conflict_distinct(s: Seq<ResolverEntryView>)
    ensures
        forall|k1: int, k2: int|
            0 <= k1 < k2 < conflict_fold(s).len() ==> !same_group(
                (#[trigger] conflict_fold(s)[k1]).dependency,
                (#[trigger] conflict_fold(s)[k2]).dependency,
            ),
    decreases s.len(),
{
    if s.len() > 0 {
        let t = s.drop_last();
        lemma_conflict_distinct(t);
        let prev = conflict_fold(t);
        let e = s.last();
        let cf = conflict_fold(s);
        assert(cf == conflict_step(prev, e));
        if has_group(prev, e.dependency) {
            let k0 = first_group(prev, e.dependency) as int;
            lemma_first_group_some(prev, e.dependency);
            if !e.dependency.version.spec_le(prev[k0].dependency.version) {
                assert(cf == prev.update(k0, e));
                assert forall|k1: int, k2: int|
                    0 <= k1 < k2 < cf.len() implies !same_group(
                    (#[trigger] cf[k1]).dependency,
                    (#[trigger] cf[k2]).dependency,
                ) by {
                    if k1 != k0 && k2 != k0 {
                        assert(cf[k1] == prev[k1] && cf[k2] == prev[k2]);
                    } else if k1 == k0 {
                        assert(cf[k2] == prev[k2]);
                        if same_group(cf[k1].dependency, cf[k2].dependency) {
                            assert(same_group(prev[k0].dependency, prev[k2].dependency));
                        }
                    } else {
                        assert(cf[k1] == prev[k1]);
                        if same_group(cf[k1].dependency, cf[k2].dependency) {
                            assert(same_group(prev[k1].dependency, prev[k0].dependency));
                        }
                    }
                }
            }
        } else {
            assert(cf == prev.push(e));
            assert forall|k1: int, k2: int|
                0 <= k1 < k2 < cf.len() implies !same_group(
                (#[trigger] cf[k1]).dependency,
                (#[trigger] cf[k2]).dependency,
            ) by {
                if k2 == cf.len() - 1 {
                    assert(cf[k1] == prev[k1]);
                    if same_group(cf[k1].dependency, e.dependency) {
                        assert(has_group(prev, e.dependency));
                    }
                } else {
                    assert(cf[k1] == prev[k1] && cf[k2] == prev[k2]);
                }
            }
        }
    }
}

/// Every kept entry of a collapse comes from the input.
proof fn lemma_conflict_members(s: Seq<ResolverEntryView>)
    ensures
        forall|k: int|
            0 <= k < conflict_fold(s).len() ==> exists|i: int|
                0 <= i < s.len() && (#[trigger] conflict_fold(s)[k]) == s[i],
    decreases s.len(),
{
    if s.len() > 0 {
        let t = s.drop_last();
        lemma_conflict_members(t);
        let prev = conflict_fold(t);
        let e = s.last();
        let cf = conflict_fold(s);
        assert(cf == conflict_step(prev, e));
        assert(e == s[s.len() - 1]);
        assert forall|i: int| 0 <= i < t.len() implies s[i] == t[i] by {}
        if has_group(prev, e.dependency) {
            let k0 = first_group(prev, e.dependency) as int;
            lemma_first_group_some(prev, e.dependency);
            if !e.dependency.version.spec_le(prev[k0].dependency.version) {
                assert(cf == prev.update(k0, e));
                assert forall|k: int| 0 <= k < cf.len() implies exists|i: int|
                    0 <= i < s.len() && (#[trigger] cf[k]) == s[i] by {
                    if k == k0 {
                        assert(cf[k] == s[s.len() - 1]);
                    } else {
                        assert(cf[k] == prev[k]);
                        let i = choose|i: int| 0 <= i < t.len() && prev[k] == t[i];
                        assert(cf[k] == s[i]);
                    }
                }
            }
        } else {
            assert(cf == prev.push(e));
            assert forall|k: int| 0 <= k < cf.len() implies exists|i: int|
                0 <= i < s.len() && (#[trigger] cf[k]) == s[i] by {
                if k == cf.len() - 1 {
                    assert(cf[k] == s[s.len() - 1]);
                } else {
                    assert(cf[k] == prev[k]);
                    let i = choose|i: int| 0 <= i < t.len() && prev[k] == t[i];
                    assert(cf[k] == s[i]);
                }
            }
        }
    }
}

/// Every input entry is dominated by a kept competitor of at least its
/// version.
proof fn lemma_conflict_dominates(s: Seq<ResolverEntryView>)
    ensures
        forall|i: int|
            0 <= i < s.len() ==> exists|k: int|
                {
                    &&& 0 <= k < conflict_fold(s).len()
                    &&& same_group((#[trigger] s[i]).dependency, conflict_fold(s)[k].dependency)
                    &&& s[i].dependency.version.spec_le(conflict_fold(s)[k].dependency.version)
                },
    decreases s.len(),
{
    if s.len() > 0 {
        let t = s.drop_last();
        lemma_conflict_dominates(t);
        let prev = conflict_fold(t);
        let e = s.last();
        let cf = conflict_fold(s);
        assert(cf == conflict_step(prev, e));
        assert(e == s[s.len() - 1]);
        assert forall|i: int| 0 <= i < t.len() implies s[i] == t[i] by {}
        if has_group(prev, e.dependency) {
            let k0 = first_group(prev, e.dependency) as int;
            lemma_first_group_some(prev, e.dependency);
            if e.dependency.version.spec_le(prev[k0].dependency.version) {
                assert(cf == prev);
                assert forall|i: int| 0 <= i < s.len() implies exists|k: int|
                    {
                        &&& 0 <= k < cf.len()
                        &&& same_group((#[trigger] s[i]).dependency, cf[k].dependency)
                        &&& s[i].dependency.version.spec_le(cf[k].dependency.version)
                    } by {
                    if i == s.len() - 1 {
                        assert(same_group(s[i].dependency, cf[k0].dependency));
                    }
                }
            } else {
                assert(cf == prev.update(k0, e));
                assert forall|i: int| 0 <= i < s.len() implies exists|k: int|
                    {
                        &&& 0 <= k < cf.len()
                        &&& same_group((#[trigger] s[i]).dependency, cf[k].dependency)
                        &&& s[i].dependency.version.spec_le(cf[k].dependency.version)
                    } by {
                    if i < s.len() - 1 {
                        let k = choose|k: int|
                            {
                                &&& 0 <= k < prev.len()
                                &&& same_group((t[i]).dependency, prev[k].dependency)
                                &&& t[i].dependency.version.spec_le(prev[k].dependency.version)
                            };
                        if k == k0 {
                            assert(same_group(s[i].dependency, cf[k0].dependency));
                            assert(s[i].dependency.version.spec_le(e.dependency.version));
                        } else {
                            assert(cf[k] == prev[k]);
                        }
                    } else {
                        assert(cf[k0] == e);
                        assert(same_group(s[i].dependency, cf[k0].dependency));
                    }
                }
            }
        } else {
            assert(cf == prev.push(e));
            assert forall|i: int| 0 <= i < s.len() implies exists|k: int|
                {
                    &&& 0 <= k < cf.len()
                    &&& same_group((#[trigger] s[i]).dependency, cf[k].dependency)
                    &&& s[i].dependency.version.spec_le(cf[k].dependency.version)
                } by {
                if i < s.len() - 1 {
                    let k = choose|k: int|
                        {
                            &&& 0 <= k < prev.len()
                            &&& same_group((t[i]).dependency, prev[k].dependency)
                            &&& t[i].dependency.version.spec_le(prev[k].dependency.version)
                        };
                    assert(cf[k] == prev[k]);
                } else {
                    assert(cf[cf.len() - 1] == e);
                    assert(same_group(s[i].dependency, e.dependency));
                }
            }
        }
    }
}

/// Conflict collapsing keeps at most one entry per group, keeps only
/// entries of the input, and dominates every input entry: each input is
/// matched by a kept competitor of at least its version.
pub proof fn lemma_conflict_collapsing(s: Seq<ResolverEntryView>)
    ensures
        forall|k1: int, k2: int|
            0 <= k1 < k2 < conflict_fold(s).len() ==> !same_group(
                (#[trigger] conflict_fold(s)[k1]).dependency,
                (#[trigger] conflict_fold(s)[k2]).dependency,
            ),
        forall|k: int|
            0 <= k < conflict_fold(s).len() ==> exists|i: int|
                0 <= i < s.len() && (#[trigger] conflict_fold(s)[k]) == s[i],
        forall|i: int|
            0 <= i < s.len() ==> exists|k: int|
                {
                    &&& 0 <= k < conflict_fold(s).len()
                    &&& same_group((#[trigger] s[i]).dependency, conflict_fold(s)[k].dependency)
                    &&& s[i].dependency.version.spec_le(conflict_fold(s)[k].dependency.version)
                },
{
    lemma_conflict_distinct(s);
    lemma_conflict_members(s);
    lemma_conflict_dominates(s);
}

// ---------------------------------------------------------------------------
// The resolver: four-tier acquisition and the recursive walk
// ---------------------------------------------------------------------------

/// A query rebound to a concrete version: identity kept, range replaced.
pub open spec fn rebound(q: DepView, v: VersionRange) -> DepView {
    DepView { name: q.name, version: v, arch: q.arch, os: q.os, distribution: q.distribution }
}

/// A transfer decision taken from the registry: the first remote able to
/// satisfy the query, with its latest satisfying artifact.
pub open spec fn download_from(
    registry: &Registry,
    q: DepView,
    allow_sources: bool,
    req: DownloadRequest,
) -> bool {
    &&& req.remote_index < registry.remotes@.len()
    &&& registry.remotes@[req.remote_index as int].resolves(q, allow_sources)
    &&& (forall|j: int|
        0 <= j < req.remote_index ==> !(#[trigger] registry.remotes@[j]).resolves(
            q,
            allow_sources,
        ))
    &&& registry.remotes@[req.remote_index as int].is_latest_match(
        q,
        allow_sources,
        req.entry@.dependency,
    )
}

/// The cache after recording one fetched artifact.
pub open spec fn cache_extended(c0: Cache, c1: Cache, d: DepView) -> bool {
    &&& c1.path == c0.path
    &&& c1.files@.len() == c0.files@.len() + 1
    &&& (forall|i: int| 0 <= i < c0.files@.len() ==> c1.file(i) == c0.file(i))
    &&& c1.file(c0.files@.len() as int) == package_name_chars(d)
}

/// A cache hit for the query: the entry was decoded from the listed file of
/// maximal satisfying version, and points at its cached path.
pub open spec fn hit_from(c0: Cache, q: DepView, allow_sources: bool, entry: ResolverEntryView) -> bool {
    exists|i: int|
        {
            &&& 0 <= i < c0.files@.len()
            &&& is_package_name(#[trigger] c0.file(i))
            &&& c0.is_latest_match(q, allow_sources, package_name_view(c0.file(i)))
            &&& entry.dependency == rebound(q, package_name_view(c0.file(i)).version)
            &&& entry.tar_path == joined(c0.path@, c0.file(i))
        }
}

/// A canonically named file joined under a directory is its own file-name
/// component.
proof fn lemma_joined_file_name(prefix: Seq<char>, name: Seq<char>)
    requires
        is_package_name(name),
    ensures
        file_name_of(joined(prefix, name)) == name,
{
    lemma_package_name_no_sep(name);
    reveal_strlit("/");
    assert("/"@ =~= seq!['/']);
    assert(joined(prefix, name) =~= prefix + seq!['/'] + name);
    lemma_file_name_of_joined(prefix, name);
}

/// What a well-formed registry hands out decodes and re-encodes.
proof fn lemma_download_wf(registry: &Registry, q: DepView, allow_sources: bool, req: DownloadRequest)
    requires
        registry.entries_wf(),
        download_from(registry, q, allow_sources, req),
    ensures
        crate::dependency::is_name(req.entry@.dependency.name),
        req.entry@.dependency.concrete(),
        is_package_name(package_name_chars(req.entry@.dependency)),
        package_name_view(package_name_chars(req.entry@.dependency)) == req.entry@.dependency,
        file_name_of(joined(q.name, package_name_chars(req.entry@.dependency))) == package_name_chars(req.entry@.dependency),
{
    let d = req.entry@.dependency;
    let remote = registry.remotes@[req.remote_index as int];
    assert(crate::dependency::is_name(d.name) && d.concrete()) by {
        if remote.has_pkg_match(q) {
            let k = choose|k: int|
                0 <= k < remote.available_packages@.len() && #[trigger] remote.pkg(k) == d
                    && spec_ranged_compare(remote.pkg(k), q);
        } else {
            let k = choose|k: int|
                0 <= k < remote.available_packages@.len() && #[trigger] remote.pkg(k) == d
                    && spec_ranged_compare(remote.pkg(k), q.as_sources());
        }
    }
    lemma_package_name_round_trip(d);
    lemma_joined_file_name(q.name, package_name_chars(d));
}

/// The orchestrator of one resolution: the build target that queries are
/// formed against, and whether exact-version mode suppresses conflict
/// collapsing.
#[derive(Debug)]
pub struct Resolver {
    pub env: Environment,
    pub exact_version: bool,
}

impl Resolver {
    pub fn new(env: Environment, exact_version: bool) -> (r: Resolver)
        ensures
            r.env == env,
            r.exact_version == exact_version,
    {
        Resolver { env, exact_version }
    }

    /// The strict four-tier fallback: local cache binary, remote binary,
    /// local cache sources, remote sources; the first tier that satisfies
    /// the query wins, and the source tiers mark the entry for building.
    #[verifier::rlimit(100)]
    pub fn try_get(&self, cache: &mut Cache, registry: &Registry, dependency: &Dependency) -> (r:
        Result<(ResolverEntry, Option<DownloadRequest>), PuffError>)
        ensures
            ({
                let q = dependency@;
                let c0 = *old(cache);
                let wf = c0.all_canonical() && registry.entries_wf();
                &&& (wf ==> (r is Ok <==> c0.resolves(q, true) || registry.resolves(q, true)))
                &&& (wf ==> (r matches Err(e) ==> e == PuffError::DependencyNotFound
                    && *final(cache) == c0))
                &&& (wf ==> (r matches Ok((entry, dl)) ==> {
                    &&& entry@.dependency.concrete()
                    &&& (if c0.has_match(q) {
                        &&& *final(cache) == c0
                        &&& dl is None
                        &&& entry@.require_build == false
                        &&& hit_from(c0, q, false, entry@)
                    } else if registry.resolves(q, false) {
                        &&& dl matches Some(req)
                        &&& (dl matches Some(req) ==> download_from(registry, q, false, req)
                            && entry@.dependency == rebound(q, req.entry@.dependency.version)
                            && cache_extended(c0, *final(cache), req.entry@.dependency)
                            && entry@.tar_path == joined(
                            c0.path@,
                            package_name_chars(req.entry@.dependency),
                        ))
                        &&& entry@.require_build == false
                    } else if c0.has_match(q.as_sources()) {
                        &&& *final(cache) == c0
                        &&& dl is None
                        &&& entry@.require_build == true
                        &&& hit_from(c0, q, true, entry@)
                    } else {
                        &&& dl matches Some(req)
                        &&& (dl matches Some(req) ==> download_from(registry, q, true, req)
                            && entry@.dependency == rebound(q, req.entry@.dependency.version)
                            && cache_extended(c0, *final(cache), req.entry@.dependency)
                            && entry@.tar_path == joined(
                            c0.path@,
                            package_name_chars(req.entry@.dependency),
                        ))
                        &&& entry@.require_build == true
                    })
                }))
            }),
    {
        let ghost q = dependency@;
        let ghost c0 = *old(cache);
        let ghost wf = c0.all_canonical() && registry.entries_wf();
        let r1 = cache.get_or_download(dependency, false, registry);
        match r1 {
            Ok(o) => {
                proof {
                    if wf {
                        if c0.has_match(q) {
                            let i = choose|i: int|
                                {
                                    &&& 0 <= i < c0.files@.len()
                                    &&& is_package_name(#[trigger] c0.file(i))
                                    &&& c0.is_latest_match(q, false, package_name_view(c0.file(i)))
                                    &&& o.archive_path@ == joined(c0.path@, c0.file(i))
                                };
                            lemma_joined_file_name(c0.path@, c0.file(i));
                        } else {
                            let req = o.download->0;
                            let d = req.entry@.dependency;
                            lemma_download_wf(registry, q, false, req);
                            lemma_joined_file_name(c0.path@, package_name_chars(d));
                        }
                    }
                }
                let dep2 = match dependency.with_updated_version_from_archive_name(
                    o.archive_path.as_str(),
                ) {
                    Ok(d) => d,
                    Err(e) => {
                        proof {
                            if wf {
                                assert(false);
                            }
                        }
                        return Err(e);
                    },
                };
                Ok((ResolverEntry::new(dep2, false, o.archive_path), o.download))
            },
            Err(_) => {
                let r2 = cache.get_or_download(dependency, true, registry);
                match r2 {
                    Ok(o) => {
                        proof {
                            if wf {
                                if c0.has_match(q) || c0.has_match(q.as_sources()) {
                                    let i = choose|i: int|
                                        {
                                            &&& 0 <= i < c0.files@.len()
                                            &&& is_package_name(#[trigger] c0.file(i))
                                            &&& c0.is_latest_match(
                                                q,
                                                true,
                                                package_name_view(c0.file(i)),
                                            )
                                            &&& o.archive_path@ == joined(c0.path@, c0.file(i))
                                        };
                                    lemma_joined_file_name(c0.path@, c0.file(i));
                                } else {
                                    let req = o.download->0;
                                    let d = req.entry@.dependency;
                                    lemma_download_wf(registry, q, true, req);
                                    lemma_joined_file_name(c0.path@, package_name_chars(d));
                                }
                            }
                        }
                        let dep2 = match dependency.with_updated_version_from_archive_name(
                            o.archive_path.as_str(),
                        ) {
                            Ok(d) => d,
                            Err(e) => {
                                proof {
                                    if wf {
                                        assert(false);
                                    }
                                }
                                return Err(e);
                            },
                        };
                        Ok((ResolverEntry::new(dep2, true, o.archive_path), o.download))
                    },
                    Err(_) => Err(PuffError::DependencyNotFound),
                }
            },
        }
    }
}

// ---------------------------------------------------------------------------
// The recursive walk
// ---------------------------------------------------------------------------

/// The manifests already extracted from local archives, keyed by archive
/// path. The walk halts whenever it meets an archive whose manifest is not
/// here yet; the caller extracts it and tries again.
#[derive(Debug)]
pub struct ManifestTable {
    pub entries: Vec<(String, Manifest)>,
}

/// The first position holding a manifest registered under path `p`, or
/// `-1` when there is none.
pub open spec fn first_path_idx(es: Seq<(String, Manifest)>, p: Seq<char>) -> int
    decreases es.len(),
{
    if es.len() == 0 {
        -1
    } else if es[0].0@ == p {
        0
    } else {
        let r = first_path_idx(es.skip(1), p);
        if r == -1 {
            -1
        } else {
            r + 1
        }
    }
}

/// A scan that stops at position `k` on a matching path, having seen no
/// match before, has found the first one.
proof fn lemma_first_path_at(es: Seq<(String, Manifest)>, p: Seq<char>, k: int)
    requires
        0 <= k <= es.len(),
        forall|j: int| 0 <= j < k ==> (#[trigger] es[j]).0@ != p,
        k < es.len() ==> es[k].0@ == p,
    ensures
        k < es.len() ==> first_path_idx(es, p) == k,
        k == es.len() ==> first_path_idx(es, p) == -1,
    decreases k + 1,
{
    if es.len() == 0 {
    } else if k == 0 {
        if k == es.len() {
        }
    } else {
        assert(es[0].0@ != p);
        assert forall|j: int| 0 <= j < k - 1 implies (#[trigger] es.skip(1)[j]).0@ != p by {
            assert(es.skip(1)[j] == es[j + 1]);
        }
        assert(k - 1 < es.skip(1).len() ==> es.skip(1)[k - 1] == es[k]);
        lemma_first_path_at(es.skip(1), p, k - 1);
    }
}

/// The bounds and meaning of `first_path_idx`.
proof fn lemma_first_path_idx(es: Seq<(String, Manifest)>, p: Seq<char>)
    ensures
        -1 <= first_path_idx(es, p) < es.len(),
        first_path_idx(es, p) >= 0 ==> (#[trigger] es[first_path_idx(es, p)]).0@ == p,
    decreases es.len(),
{
    if es.len() > 0 && es[0].0@ != p {
        lemma_first_path_idx(es.skip(1), p);
        if first_path_idx(es.skip(1), p) >= 0 {
            assert(es.skip(1)[first_path_idx(es.skip(1), p)] == es[first_path_idx(es, p)]);
        }
    }
}

impl ManifestTable {
    pub fn new() -> (r: ManifestTable)
        ensures
            r.entries@.len() == 0,
    {
        ManifestTable { entries: Vec::new() }
    }

    pub fn insert(&mut self, archive_path: String, manifest: Manifest)
        ensures
            final(self).entries@ == old(self).entries@.push((archive_path, manifest)),
    {
        self.entries.push((archive_path, manifest));
    }

    /// The position of the first manifest registered under this path.
    pub fn lookup(&self, archive_path: &str) -> (r: Option<usize>)
        ensures
            r matches Some(i) ==> i < self.entries@.len() && self.entries@[i as int].0@
                == archive_path@ && i as int == first_path_idx(self.entries@, archive_path@),
            r is None ==> forall|i: int|
                0 <= i < self.entries@.len() ==> (#[trigger] self.entries@[i].0)@ != archive_path@,
            r is None <==> first_path_idx(self.entries@, archive_path@) == -1,
    {
        let len = self.entries.len();
        let mut i: usize = 0;
        while i < len
            invariant
                0 <= i <= len,
                len == self.entries@.len(),
                forall|j: int| 0 <= j < i ==> (#[trigger] self.entries@[j].0)@ != archive_path@,
            decreases len - i,
        {
            if str_eq(self.entries[i].0.as_str(), archive_path) {
                proof {
                    lemma_first_path_at(self.entries@, archive_path@, i as int);
                }
                return Some(i);
            }
            i += 1;
        }
        proof {
            lemma_first_path_at(self.entries@, archive_path@, len as int);
        }
        None
    }
}

/// Why a walk stopped short of a full collection: a fatal error, or an
/// archive whose manifest must first be extracted (after performing its
/// pending download, when one is owed).
#[derive(Debug)]
pub enum CollectHalt {
    Failed(PuffError),
    NeedManifest(String, Option<DownloadRequest>),
}

/// Every entry of the list carries a concrete version.
pub open spec fn all_concrete(v: Seq<ResolverEntry>) -> bool {
    forall|i: int| 0 <= i < v.len() ==> (#[trigger] v[i])@.dependency.concrete()
}

/// Some entry of the list carries this dependency name.
pub open spec fn has_entry_named(v: Seq<ResolverEntry>, nm: Seq<char>) -> bool {
    exists|i: int| 0 <= i < v.len() && (#[trigger] v[i])@.dependency.name == nm
}

/// Every declared name is carried by some entry of the list.
pub open spec fn names_covered(ns: Seq<(String, ManifestDependencyData)>, v: Seq<ResolverEntry>) -> bool {
    forall|k: int| 0 <= k < ns.len() ==> has_entry_named(v, (#[trigger] ns[k]).0@)
}

/// The archive path that a halt asks a manifest for, when it asks for one.
pub open spec fn halt_need_path(h: CollectHalt) -> Option<Seq<char>> {
    match h {
        CollectHalt::NeedManifest(p, dl) => Some(p@),
        CollectHalt::Failed(e) => None,
    }
}

/// No manifest is registered under this archive path.
pub open spec fn no_manifest_for(t: &ManifestTable, p: Seq<char>) -> bool {
    forall|i: int| 0 <= i < t.entries@.len() ==> (#[trigger] t.entries@[i].0)@ != p
}

/// The query that one declared need forms: the declared range and
/// distribution with the build target's platform — unless the need asks for
/// sources, which forces the unknown platform.
pub open spec fn query_of(env: Environment, name: Seq<char>, d: ManifestDependencyData) -> DepView {
    DepView {
        name,
        version: d.version,
        arch: if d.distribution == Distribution::Sources {
            Arch::Unknown
        } else {
            env.arch
        },
        os: if d.distribution == Distribution::Sources {
            OperatingSystem::Unknown
        } else {
            env.os
        },
        distribution: d.distribution,
    }
}

/// Whether `q` is the query of some need in the given needs list.
pub open spec fn need_declared_in(
    ns: Option<Vec<(String, ManifestDependencyData)>>,
    env: Environment,
    q: DepView,
) -> bool {
    match ns {
        Some(l) => exists|k: int|
            0 <= k < l@.len() && q == query_of(env, (#[trigger] l@[k]).0@, l@[k].1),
        None => false,
    }
}

/// Whether `q` is the query of a need the walk can reach: declared by the
/// root manifest, or by a manifest registered in the table.
pub open spec fn declared_need(
    manifest: &Manifest,
    manifests: &ManifestTable,
    env: Environment,
    q: DepView,
) -> bool {
    ||| need_declared_in(manifest.needs, env, q)
    ||| exists|t: int|
        0 <= t < manifests.entries@.len() && need_declared_in(
            (#[trigger] manifests.entries@[t]).1.needs,
            env,
            q,
        )
}

/// Some reachable need can be satisfied neither by the cache nor by any
/// remote, even with the source-fallback relaxation.
pub open spec fn some_need_unsatisfiable(
    c0: Cache,
    registry: &Registry,
    manifest: &Manifest,
    manifests: &ManifestTable,
    env: Environment,
) -> bool {
    exists|q: DepView|
        #[trigger] declared_need(manifest, manifests, env, q) && !c0.resolves(q, true)
            && !registry.resolves(q, true)
}

/// The error a halt carries, when it carries one.
pub open spec fn halt_failure(h: CollectHalt) -> Option<PuffError> {
    match h {
        CollectHalt::Failed(e) => Some(e),
        CollectHalt::NeedManifest(p, dl) => None,
    }
}

/// Whether some remote lists exactly this artifact.
pub open spec fn listed_in_registry(registry: &Registry, d: DepView) -> bool {
    exists|r: int, k: int|
        0 <= r < registry.remotes@.len() && 0 <= k
            < registry.remotes@[r].available_packages@.len() && (
        #[trigger] registry.remotes@[r].pkg(k)) == d
}

/// The cache as the walk grows it: the old listing kept as a prefix, and
/// every added file the canonical name of an artifact some remote lists.
pub open spec fn cache_evolved(c0: Cache, c1: Cache, registry: &Registry) -> bool {
    &&& c1.path == c0.path
    &&& c1.files@.len() >= c0.files@.len()
    &&& (forall|i: int| 0 <= i < c0.files@.len() ==> #[trigger] c1.file(i) == c0.file(i))
    &&& (forall|i: int|
        c0.files@.len() <= i < c1.files@.len() ==> is_package_name(#[trigger] c1.file(i))
            && listed_in_registry(registry, package_name_view(c1.file(i))))
}

/// Growing the cache keeps every old match, and a match in the grown cache
/// is an old match or an artifact some remote lists as a binary answer.
proof fn lemma_evolved_match(c0: Cache, c1: Cache, registry: &Registry, q: DepView)
    requires
        cache_evolved(c0, c1, registry),
    ensures
        c0.has_match(q) ==> c1.has_match(q),
        c1.has_match(q) ==> c0.has_match(q) || registry.resolves(q, false),
{
    if c0.has_match(q) {
        let i = choose|i: int| 0 <= i < c0.files@.len() && c0.file_matches(i, q);
        assert(c1.file(i) == c0.file(i));
        assert(c1.file_matches(i, q));
    }
    if c1.has_match(q) {
        let i = choose|i: int| 0 <= i < c1.files@.len() && c1.file_matches(i, q);
        if i < c0.files@.len() {
            assert(c1.file(i) == c0.file(i));
            assert(c0.file_matches(i, q));
        } else {
            let d = package_name_view(c1.file(i));
            let (r, k) = choose|r: int, k: int|
                0 <= r < registry.remotes@.len() && 0 <= k
                    < registry.remotes@[r].available_packages@.len() && (
                #[trigger] registry.remotes@[r].pkg(k)) == d;
            assert(spec_ranged_compare(registry.remotes@[r].pkg(k), q));
            assert(registry.remotes@[r].has_pkg_match(q));
            assert(registry.remotes@[r].resolves(q, false));
        }
    }
}

/// Cache growth composes.
proof fn lemma_evolved_trans(c0: Cache, c1: Cache, c2: Cache, registry: &Registry)
    requires
        cache_evolved(c0, c1, registry),
        cache_evolved(c1, c2, registry),
    ensures
        cache_evolved(c0, c2, registry),
{
    assert forall|i: int|
        c0.files@.len() <= i < c2.files@.len() implies is_package_name(#[trigger] c2.file(i))
            && listed_in_registry(registry, package_name_view(c2.file(i))) by {
        if i < c1.files@.len() {
            assert(c2.file(i) == c1.file(i));
            assert(is_package_name(c1.file(i)) && listed_in_registry(
                registry,
                package_name_view(c1.file(i)),
            ));
        }
    }
}

/// Recording one fetched artifact is one step of cache growth.
#[verifier::rlimit(100)]
proof fn lemma_extended_evolves(
    c0: Cache,
    c1: Cache,
    registry: &Registry,
    q: DepView,
    allow_sources: bool,
    req: DownloadRequest,
)
    requires
        registry.entries_wf(),
        download_from(registry, q, allow_sources, req),
        cache_extended(c0, c1, req.entry@.dependency),
    ensures
        cache_evolved(c0, c1, registry),
{
    lemma_download_wf(registry, q, allow_sources, req);
    let d = req.entry@.dependency;
    let remote = registry.remotes@[req.remote_index as int];
    assert(listed_in_registry(registry, d)) by {
        if remote.has_pkg_match(q) {
            let k = choose|k: int|
                0 <= k < remote.available_packages@.len() && #[trigger] remote.pkg(k) == d
                    && spec_ranged_compare(remote.pkg(k), q);
            assert(registry.remotes@[req.remote_index as int].pkg(k) == d);
        } else {
            let k = choose|k: int|
                0 <= k < remote.available_packages@.len() && #[trigger] remote.pkg(k) == d
                    && spec_ranged_compare(remote.pkg(k), q.as_sources());
            assert(registry.remotes@[req.remote_index as int].pkg(k) == d);
        }
    }
    assert forall|i: int|
        c0.files@.len() <= i < c1.files@.len() implies is_package_name(#[trigger] c1.file(i))
            && listed_in_registry(registry, package_name_view(c1.file(i))) by {
        assert(c1.file(i) == package_name_chars(d));
    }
}

/// An artifact the engine could actually hand out: decoded from a file the
/// cache already listed, or listed by some remote.
pub open spec fn artifact_offered(c0: Cache, registry: &Registry, d: DepView) -> bool {
    ||| (exists|i: int|
        0 <= i < c0.files@.len() && is_package_name(#[trigger] c0.file(i)) && package_name_view(
            c0.file(i),
        ) == d)
    ||| listed_in_registry(registry, d)
}

/// One collected entry is the four-tier outcome of a reachable need: its
/// identity is that need's query rebound to the concrete version found, and
/// its build marking tells which side of the binary/sources divide served
/// it — judged against the cache as it stood when the walk began.
pub open spec fn tier_outcome(
    e: ResolverEntryView,
    c0: Cache,
    registry: &Registry,
    manifest: &Manifest,
    manifests: &ManifestTable,
    env: Environment,
) -> bool {
    exists|q: DepView|
        #[trigger] declared_need(manifest, manifests, env, q) && {
            &&& e.dependency == rebound(q, e.dependency.version)
            &&& e.dependency.concrete()
            &&& (e.require_build ==> !c0.has_match(q) && !registry.resolves(q, false))
            &&& (!e.require_build ==> c0.has_match(q) || registry.resolves(q, false))
            &&& (exists|d: DepView|
                #[trigger] artifact_offered(c0, registry, d) && d.version == e.dependency.version
                    && (spec_ranged_compare(d, q) || spec_ranged_compare(d, q.as_sources())))
        }
}

/// A tier outcome carries a concrete version.
proof fn lemma_tier_outcome_concrete(
    e: ResolverEntryView,
    c0: Cache,
    registry: &Registry,
    manifest: &Manifest,
    manifests: &ManifestTable,
    env: Environment,
)
    requires
        tier_outcome(e, c0, registry, manifest, manifests, env),
    ensures
        e.dependency.concrete(),
{
    let q = choose|q: DepView|
        #[trigger] declared_need(manifest, manifests, env, q) && {
            &&& e.dependency == rebound(q, e.dependency.version)
            &&& e.dependency.concrete()
            &&& (e.require_build ==> !c0.has_match(q) && !registry.resolves(q, false))
            &&& (!e.require_build ==> c0.has_match(q) || registry.resolves(q, false))
            &&& (exists|d: DepView|
                #[trigger] artifact_offered(c0, registry, d) && d.version == e.dependency.version
                    && (spec_ranged_compare(d, q) || spec_ranged_compare(d, q.as_sources())))
        };
}

/// One unit of pending work in the iterative walk.
enum Task {
    Visit(String, ManifestDependencyData),
    Emit(ResolverEntry),
}

spec fn is_emit(t: Task) -> bool {
    match t {
        Task::Visit(n, d) => false,
        Task::Emit(e) => true,
    }
}

spec fn task_tar(t: Task) -> Seq<char> {
    match t {
        Task::Visit(n, d) => Seq::empty(),
        Task::Emit(e) => e@.tar_path,
    }
}

spec fn task_name(t: Task) -> Seq<char> {
    match t {
        Task::Visit(n, _) => n@,
        Task::Emit(e) => e@.dependency.name,
    }
}

/// Every need name is still accounted for: by a pending task or by a
/// collected entry.
spec fn covers(stack: Seq<Task>, resolved: Seq<ResolverEntry>, nm: Seq<char>) -> bool {
    (exists|i: int| 0 <= i < stack.len() && task_name(#[trigger] stack[i]) == nm) || (exists|i: int|
        0 <= i < resolved.len() && (#[trigger] resolved[i])@.dependency.name == nm)
}

/// Every pending task is sound: a visit queries a reachable need, and a
/// pending emission already is a tier outcome.
spec fn tasks_wf(
    stack: Seq<Task>,
    c0: Cache,
    registry: &Registry,
    manifest: &Manifest,
    manifests: &ManifestTable,
    env: Environment,
) -> bool {
    forall|i: int|
        0 <= i < stack.len() ==> (match #[trigger] stack[i] {
            Task::Visit(n, d) => declared_need(manifest, manifests, env, query_of(env, n@, d)),
            Task::Emit(e) => tier_outcome(e@, c0, registry, manifest, manifests, env),
        })
}

/// The name is carried by a task strictly above position `i`, or by a
/// collected entry.
spec fn name_above(stack: Seq<Task>, resolved: Seq<ResolverEntry>, i: int, nm: Seq<char>) -> bool {
    (exists|j: int| i < j < stack.len() && task_name(#[trigger] stack[j]) == nm)
        || has_entry_named(resolved, nm)
}

/// Every name of a needs list is accounted for above position `i`.
spec fn needs_above(
    stack: Seq<Task>,
    resolved: Seq<ResolverEntry>,
    i: int,
    ns: Option<Vec<(String, ManifestDependencyData)>>,
) -> bool {
    match ns {
        Some(l) => forall|k: int|
            0 <= k < l@.len() ==> name_above(stack, resolved, i, (#[trigger] l@[k]).0@),
        None => true,
    }
}

/// A pending emission still waits for its subtree: every need that the
/// manifest of its archive declares is pending above it or already
/// collected.
spec fn emit_subtree_pending(
    stack: Seq<Task>,
    resolved: Seq<ResolverEntry>,
    manifests: &ManifestTable,
    i: int,
) -> bool {
    match stack[i] {
        Task::Emit(e) => {
            let t = first_path_idx(manifests.entries@, e@.tar_path);
            t >= 0 ==> needs_above(stack, resolved, i, manifests.entries@[t].1.needs)
        },
        Task::Visit(n, d) => true,
    }
}

/// Some entry before position `p` carries this dependency name.
pub open spec fn entry_before(v: Seq<ResolverEntry>, p: int, nm: Seq<char>) -> bool {
    exists|p2: int| 0 <= p2 < p && (#[trigger] v[p2])@.dependency.name == nm
}

/// Post-order placement: the entry at position `p` follows an entry for
/// every need that the manifest registered under its archive path declares
/// — its subtree precedes it.
pub open spec fn children_precede(v: Seq<ResolverEntry>, manifests: &ManifestTable, p: int) -> bool {
    let t = first_path_idx(manifests.entries@, v[p]@.tar_path);
    t >= 0 ==> (match manifests.entries@[t].1.needs {
        Some(l) => forall|k: int|
            0 <= k < l@.len() ==> entry_before(v, p, (#[trigger] l@[k]).0@),
        None => true,
    })
}

/// A name pending above `i` stays pending when the stack grows or keeps its
/// task names, and the collection only grows.
proof fn lemma_name_above_transfer(
    stack_a: Seq<Task>,
    stack_b: Seq<Task>,
    resolved_a: Seq<ResolverEntry>,
    resolved_b: Seq<ResolverEntry>,
    i: int,
    nm: Seq<char>,
)
    requires
        name_above(stack_a, resolved_a, i, nm),
        stack_b.len() >= stack_a.len(),
        forall|j: int|
            i < j < stack_a.len() ==> task_name(#[trigger] stack_b[j]) == task_name(stack_a[j]),
        resolved_b.len() >= resolved_a.len(),
        forall|j: int| 0 <= j < resolved_a.len() ==> #[trigger] resolved_b[j] == resolved_a[j],
    ensures
        name_above(stack_b, resolved_b, i, nm),
{
    if exists|j: int| i < j < stack_a.len() && task_name(#[trigger] stack_a[j]) == nm {
        let j = choose|j: int| i < j < stack_a.len() && task_name(#[trigger] stack_a[j]) == nm;
        assert(task_name(stack_b[j]) == nm);
    } else {
        let p2 = choose|p2: int|
            0 <= p2 < resolved_a.len() && (#[trigger] resolved_a[p2])@.dependency.name == nm;
        assert(resolved_b[p2]@.dependency.name == nm);
        assert(has_entry_named(resolved_b, nm));
    }
}

/// A pending emission stays pending under the same conditions.
proof fn lemma_pending_transfer(
    stack_a: Seq<Task>,
    stack_b: Seq<Task>,
    resolved_a: Seq<ResolverEntry>,
    resolved_b: Seq<ResolverEntry>,
    manifests: &ManifestTable,
    i: int,
)
    requires
        0 <= i < stack_a.len(),
        stack_b.len() >= stack_a.len(),
        stack_b[i] == stack_a[i],
        forall|j: int|
            i < j < stack_a.len() ==> task_name(#[trigger] stack_b[j]) == task_name(stack_a[j]),
        resolved_b.len() >= resolved_a.len(),
        forall|j: int| 0 <= j < resolved_a.len() ==> #[trigger] resolved_b[j] == resolved_a[j],
        emit_subtree_pending(stack_a, resolved_a, manifests, i),
    ensures
        emit_subtree_pending(stack_b, resolved_b, manifests, i),
{
    match stack_a[i] {
        Task::Emit(e) => {
            let t = first_path_idx(manifests.entries@, e@.tar_path);
            if t >= 0 {
                match manifests.entries@[t].1.needs {
                    Some(l) => {
                        assert forall|k: int| 0 <= k < l@.len() implies name_above(
                            stack_b,
                            resolved_b,
                            i,
                            (#[trigger] l@[k]).0@,
                        ) by {
                            lemma_name_above_transfer(
                                stack_a,
                                stack_b,
                                resolved_a,
                                resolved_b,
                                i,
                                l@[k].0@,
                            );
                        }
                    },
                    None => {},
                }
            }
        },
        Task::Visit(n, d) => {},
    }
}

/// Collecting the top emission keeps every deeper emission pending: a cover
/// that was the collected task itself moves into the collection.
proof fn lemma_pending_after_collect(
    stack_a: Seq<Task>,
    resolved_a: Seq<ResolverEntry>,
    e: ResolverEntry,
    manifests: &ManifestTable,
    i: int,
)
    requires
        stack_a.len() > 0,
        stack_a[stack_a.len() - 1] == Task::Emit(e),
        0 <= i < stack_a.len() - 1,
        emit_subtree_pending(stack_a, resolved_a, manifests, i),
    ensures
        emit_subtree_pending(stack_a.drop_last(), resolved_a.push(e), manifests, i),
{
    let sb = stack_a.drop_last();
    let rb = resolved_a.push(e);
    assert(sb[i] == stack_a[i]);
    match stack_a[i] {
        Task::Emit(e2) => {
            let t = first_path_idx(manifests.entries@, e2@.tar_path);
            if t >= 0 {
                match manifests.entries@[t].1.needs {
                    Some(l) => {
                        assert forall|k: int| 0 <= k < l@.len() implies name_above(
                            sb,
                            rb,
                            i,
                            (#[trigger] l@[k]).0@,
                        ) by {
                            let nm = l@[k].0@;
                            assert(name_above(stack_a, resolved_a, i, nm));
                            if exists|j: int|
                                i < j < stack_a.len() && task_name(#[trigger] stack_a[j]) == nm {
                                let j = choose|j: int|
                                    i < j < stack_a.len() && task_name(#[trigger] stack_a[j])
                                        == nm;
                                if j < stack_a.len() - 1 {
                                    assert(sb[j] == stack_a[j]);
                                } else {
                                    assert(rb[rb.len() - 1]@.dependency.name == nm);
                                    assert(has_entry_named(rb, nm));
                                }
                            } else {
                                let p2 = choose|p2: int|
                                    0 <= p2 < resolved_a.len() && (
                                    #[trigger] resolved_a[p2])@.dependency.name == nm;
                                assert(rb[p2]@.dependency.name == nm);
                                assert(has_entry_named(rb, nm));
                            }
                        }
                    },
                    None => {},
                }
            }
        },
        Task::Visit(n, d) => {},
    }
}

/// A growing collection keeps every post-order fact.
proof fn lemma_precede_extend(
    resolved_a: Seq<ResolverEntry>,
    e: ResolverEntry,
    manifests: &ManifestTable,
    p: int,
)
    requires
        0 <= p < resolved_a.len(),
        children_precede(resolved_a, manifests, p),
    ensures
        children_precede(resolved_a.push(e), manifests, p),
{
    let rb = resolved_a.push(e);
    assert(rb[p] == resolved_a[p]);
    let t = first_path_idx(manifests.entries@, resolved_a[p]@.tar_path);
    assert(first_path_idx(manifests.entries@, rb[p]@.tar_path) == t);
    if t >= 0 {
        match manifests.entries@[t].1.needs {
            Some(l) => {
                assert forall|k: int| 0 <= k < l@.len() implies entry_before(
                    rb,
                    p,
                    (#[trigger] l@[k]).0@,
                ) by {
                    let nm = l@[k].0@;
                    assert(entry_before(resolved_a, p, nm));
                    let p2 = choose|p2: int|
                        0 <= p2 < p && (#[trigger] resolved_a[p2])@.dependency.name == nm;
                    assert(rb[p2] == resolved_a[p2]);
                    assert(entry_before(rb, p, nm));
                }
            },
            None => {},
        }
    }
}

/// A cache hit hands out an offered artifact: the winning file was already
/// listed when the walk began, or was recorded from a remote's listing.
proof fn lemma_hit_offered(
    c0: Cache,
    c_pre: Cache,
    registry: &Registry,
    q: DepView,
    allow_sources: bool,
    e: ResolverEntryView,
)
    requires
        cache_evolved(c0, c_pre, registry),
        hit_from(c_pre, q, allow_sources, e),
    ensures
        exists|d: DepView|
            #[trigger] artifact_offered(c0, registry, d) && d.version == e.dependency.version && (
            spec_ranged_compare(d, q) || spec_ranged_compare(d, q.as_sources())),
{
    let i = choose|i: int|
        {
            &&& 0 <= i < c_pre.files@.len()
            &&& is_package_name(#[trigger] c_pre.file(i))
            &&& c_pre.is_latest_match(q, allow_sources, package_name_view(c_pre.file(i)))
            &&& e.dependency == rebound(q, package_name_view(c_pre.file(i)).version)
            &&& e.tar_path == joined(c_pre.path@, c_pre.file(i))
        };
    let d = package_name_view(c_pre.file(i));
    crate::cache::lemma_latest_match_compare(c_pre, q, allow_sources, d);
    assert(artifact_offered(c0, registry, d)) by {
        if i < c0.files@.len() {
            assert(c0.file(i) == c_pre.file(i));
            assert(is_package_name(c0.file(i)) && package_name_view(c0.file(i)) == d);
        } else {
            assert(listed_in_registry(registry, d));
        }
    }
    assert(d.version == e.dependency.version);
}

/// Recording a well-formed fetched artifact keeps every cache file
/// canonical.
#[verifier::rlimit(100)]
#[verifier::spinoff_prover]
proof fn lemma_fetch_preserves(
    c0: Cache,
    c1: Cache,
    registry: &Registry,
    q: DepView,
    allow_sources: bool,
    req: DownloadRequest,
)
    requires
        c0.all_canonical(),
        registry.entries_wf(),
        download_from(registry, q, allow_sources, req),
        cache_extended(c0, c1, req.entry@.dependency),
    ensures
        c1.all_canonical(),
{
    lemma_download_wf(registry, q, allow_sources, req);
    assert forall|i: int| 0 <= i < c1.files@.len() implies is_package_name(#[trigger] c1.file(i)) by {
        if i < c0.files@.len() {
            assert(c1.file(i) == c0.file(i));
            assert(is_package_name(c0.file(i)));
        } else {
            assert(c1.file(i) == package_name_chars(req.entry@.dependency));
        }
    }
}

impl Resolver {
    /// Walks the dependency tree depth-first: each declared need is
    /// acquired through the four tiers, the manifest found inside its
    /// archive is walked in turn, and the node's own entry follows its
    /// subtree. A step budget guards the walk, since a cyclic graph would
    /// never let it finish.
    #[verifier::rlimit(100)]
    pub fn collect_recursively(
        &self,
        cache: &mut Cache,
        registry: &Registry,
        manifest: &Manifest,
        manifests: &ManifestTable,
    ) -> (r: Result<Vec<ResolverEntry>, CollectHalt>)
        ensures
            ({
                let wf = old(cache).all_canonical() && registry.entries_wf();
                &&& (manifest.needs is None ==> r is Ok)
                &&& (manifest.needs is Some && manifest.needs->0@.len() == 0 ==> r is Ok)
                &&& (wf ==> final(cache).all_canonical())
                &&& (wf ==> cache_evolved(*old(cache), *final(cache), registry))
                &&& (wf ==> (r matches Ok(v) ==> all_concrete(v@)))
                &&& (wf ==> (r matches Ok(v) ==> (forall|k: int|
                    0 <= k < v@.len() ==> tier_outcome(
                        (#[trigger] v@[k])@,
                        *old(cache),
                        registry,
                        manifest,
                        manifests,
                        self.env,
                    ))))
                &&& (wf ==> (r matches Ok(v) ==> (match manifest.needs {
                    Some(ns) => names_covered(ns@, v@),
                    None => v@.len() == 0,
                })))
                &&& (wf ==> (r matches Ok(v) ==> (forall|p: int|
                    0 <= p < v@.len() ==> children_precede(v@, manifests, p))))
                &&& (wf ==> (r matches Err(h) ==> (halt_failure(h) is Some ==> halt_failure(h)->0
                    == PuffError::DependencyCycle || some_need_unsatisfiable(
                    *old(cache),
                    registry,
                    manifest,
                    manifests,
                    self.env,
                ))))
                &&& (r matches Err(h) ==> (halt_need_path(h) is Some ==> no_manifest_for(
                    manifests,
                    halt_need_path(h)->0,
                )))
            }),
    {
        let ghost wf = old(cache).all_canonical() && registry.entries_wf();
        let mut stack: Vec<Task> = Vec::new();
        match &manifest.needs {
            None => {},
            Some(ns) => {
                let n = ns.len();
                let mut k = n;
                while k > 0
                    invariant
                        0 <= k <= n,
                        n == ns@.len(),
                        manifest.needs == Some(*ns),
                        n == 0 ==> stack@.len() == 0,
                        forall|j: int|
                            k <= j < n ==> exists|i: int|
                                0 <= i < stack@.len() && task_name(#[trigger] stack@[i]) == (
                                #[trigger] ns@[j]).0@,
                        tasks_wf(stack@, *old(cache), registry, manifest, manifests, self.env),
                        forall|i: int| 0 <= i < stack@.len() ==> !is_emit(#[trigger] stack@[i]),
                    decreases k,
                {
                    k -= 1;
                    let name = ns[k].0.clone();
                    let data = ns[k].1;
                    let ghost nm = name@;
                    let ghost stack0 = stack@;
                    stack.push(Task::Visit(name, data));
                    proof {
                        assert(task_name(stack@[stack@.len() - 1]) == ns@[k as int].0@);
                        assert(need_declared_in(
                            manifest.needs,
                            self.env,
                            query_of(self.env, nm, data),
                        )) by {
                            assert(ns@[k as int].0@ == nm && ns@[k as int].1 == data);
                        }
                        assert(declared_need(
                            manifest,
                            manifests,
                            self.env,
                            query_of(self.env, nm, data),
                        ));
                        assert(forall|i: int| 0 <= i < stack0.len() ==> stack@[i] == stack0[i]);
                        assert forall|j: int| k <= j < n implies exists|i: int|
                            0 <= i < stack@.len() && task_name(#[trigger] stack@[i]) == (
                            #[trigger] ns@[j]).0@ by {
                            if j > k {
                                let i = choose|i: int|
                                    0 <= i < stack0.len() && task_name(#[trigger] stack0[i])
                                        == ns@[j].0@;
                                assert(stack@[i] == stack0[i]);
                            }
                        }
                    }
                }
            },
        }
        let mut resolved: Vec<ResolverEntry> = Vec::new();
        let mut steps: u64 = 0;
        proof {
            if wf {
                assert(cache_evolved(*old(cache), *cache, registry));
            }
            assert forall|i: int| 0 <= i < stack@.len() implies emit_subtree_pending(
                stack@,
                resolved@,
                manifests,
                i,
            ) by {
                assert(!is_emit(stack@[i]));
            }
        }
        while stack.len() > 0
            invariant
                wf == (old(cache).all_canonical() && registry.entries_wf()),
                wf ==> cache.all_canonical(),
                wf ==> cache_evolved(*old(cache), *cache, registry),
                wf ==> tasks_wf(stack@, *old(cache), registry, manifest, manifests, self.env),
                wf ==> (forall|i: int|
                    0 <= i < resolved@.len() ==> tier_outcome(
                        (#[trigger] resolved@[i])@,
                        *old(cache),
                        registry,
                        manifest,
                        manifests,
                        self.env,
                    )),
                wf ==> (match manifest.needs {
                    Some(ns) => forall|k: int|
                        0 <= k < ns@.len() ==> covers(stack@, resolved@, (#[trigger] ns@[k]).0@),
                    None => true,
                }),
                wf ==> (forall|i: int|
                    0 <= i < stack@.len() ==> emit_subtree_pending(
                        stack@,
                        resolved@,
                        manifests,
                        i,
                    )),
                wf ==> (forall|p: int|
                    0 <= p < resolved@.len() ==> children_precede(resolved@, manifests, p)),
                manifest.needs is None ==> stack@.len() == 0 && resolved@.len() == 0,
                manifest.needs is Some && manifest.needs->0@.len() == 0 ==> stack@.len() == 0
                    && resolved@.len() == 0,
            decreases u64::MAX - steps,
        {
            if steps == u64::MAX {
                return Err(CollectHalt::Failed(PuffError::DependencyCycle));
            }
            steps += 1;
            let ghost stack_before = stack@;
            let ghost resolved_before = resolved@;
            let task = match stack.pop() {
                Some(t) => t,
                None => {
                    proof {
                        assert(false);
                    }
                    return Err(CollectHalt::Failed(PuffError::DependencyCycle));
                },
            };
            match task {
                Task::Emit(e) => {
                    proof {
                        if wf {
                            assert(tier_outcome(
                                e@,
                                *old(cache),
                                registry,
                                manifest,
                                manifests,
                                self.env,
                            )) by {
                                assert(stack_before[stack_before.len() - 1] == Task::Emit(e));
                            }
                        }
                    }
                    resolved.push(e);
                    proof {
                        assert(forall|i: int|
                            0 <= i < stack@.len() ==> stack@[i] == stack_before[i]);
                        if wf {
                            let top = stack_before.len() - 1;
                            let p_new = resolved_before.len() as int;
                            assert(emit_subtree_pending(
                                stack_before,
                                resolved_before,
                                manifests,
                                top,
                            ));
                            assert(resolved@ == resolved_before.push(e));
                            assert(stack@ == stack_before.drop_last());
                            assert(children_precede(resolved@, manifests, p_new)) by {
                                let t = first_path_idx(manifests.entries@, e@.tar_path);
                                assert(resolved@[p_new] == e);
                                assert(first_path_idx(
                                    manifests.entries@,
                                    resolved@[p_new]@.tar_path,
                                ) == t);
                                if t >= 0 {
                                    match manifests.entries@[t].1.needs {
                                        Some(l) => {
                                            assert forall|k: int| 0 <= k < l@.len() implies entry_before(
                                                resolved@,
                                                p_new,
                                                (#[trigger] l@[k]).0@,
                                            ) by {
                                                let nm = l@[k].0@;
                                                assert(name_above(
                                                    stack_before,
                                                    resolved_before,
                                                    top,
                                                    nm,
                                                ));
                                                assert(has_entry_named(resolved_before, nm));
                                                let p2 = choose|p2: int|
                                                    0 <= p2 < resolved_before.len() && (
                                                    #[trigger] resolved_before[p2])@.dependency.name
                                                        == nm;
                                                assert(resolved@[p2] == resolved_before[p2]);
                                                assert(entry_before(resolved@, p_new, nm));
                                            }
                                        },
                                        None => {},
                                    }
                                }
                            }
                            assert forall|p: int| 0 <= p < resolved@.len() implies children_precede(
                                resolved@,
                                manifests,
                                p,
                            ) by {
                                if p < p_new {
                                    assert(children_precede(resolved_before, manifests, p));
                                    lemma_precede_extend(resolved_before, e, manifests, p);
                                }
                            }
                            assert forall|i: int| 0 <= i < stack@.len() implies emit_subtree_pending(
                                stack@,
                                resolved@,
                                manifests,
                                i,
                            ) by {
                                assert(emit_subtree_pending(
                                    stack_before,
                                    resolved_before,
                                    manifests,
                                    i,
                                ));
                                lemma_pending_after_collect(
                                    stack_before,
                                    resolved_before,
                                    e,
                                    manifests,
                                    i,
                                );
                            }
                                                        assert(task_name(stack_before[stack_before.len() - 1])
                                == e@.dependency.name);
                            match &manifest.needs {
                                Some(ns) => {
                                    assert forall|k: int| 0 <= k < ns@.len() implies covers(
                                        stack@,
                                        resolved@,
                                        (#[trigger] ns@[k]).0@,
                                    ) by {
                                        let nm = ns@[k].0@;
                                        if exists|i: int|
                                            0 <= i < stack_before.len() && task_name(
                                                #[trigger] stack_before[i],
                                            ) == nm {
                                            let i = choose|i: int|
                                                0 <= i < stack_before.len() && task_name(
                                                    #[trigger] stack_before[i],
                                                ) == nm;
                                            if i < stack_before.len() - 1 {
                                                assert(stack@[i] == stack_before[i]);
                                            } else {
                                                assert(resolved@[resolved@.len() - 1]@.dependency.name
                                                    == nm);
                                            }
                                        } else {
                                            let i = choose|i: int|
                                                0 <= i < resolved_before.len() && (
                                                #[trigger] resolved_before[i])@.dependency.name
                                                    == nm;
                                            assert(resolved@[i] == resolved_before[i]);
                                        }
                                    }
                                },
                                None => {},
                            }
                        }
                    }
                },
                Task::Visit(name, data) => {
                    let ghost visit_name = name@;
                    let ghost visit_data = data;
                    let (qa, qo) = if matches!(data.distribution, Distribution::Sources) {
                        (Arch::Unknown, OperatingSystem::Unknown)
                    } else {
                        (self.env.arch, self.env.os)
                    };
                    let q = Dependency::new(name, data.version, qa, qo, data.distribution);
                    let ghost qv = q@;
                    proof {
                        if wf {
                            assert(declared_need(manifest, manifests, self.env, query_of(
                                self.env,
                                visit_name,
                                visit_data,
                            ))) by {
                                assert(task_name(stack_before[stack_before.len() - 1])
                                    == visit_name);
                            }
                            assert(qv == query_of(self.env, visit_name, visit_data));
                        }
                    }
                    let ghost cache_pre = *cache;
                    let got = self.try_get(cache, registry, &q);
                    let (entry, dl) = match got {
                        Ok(x) => x,
                        Err(e) => {
                            proof {
                                if wf {
                                    lemma_evolved_match(*old(cache), cache_pre, registry, qv);
                                    lemma_evolved_match(
                                        *old(cache),
                                        cache_pre,
                                        registry,
                                        qv.as_sources(),
                                    );
                                    assert(!old(cache).resolves(qv, true));
                                    assert(!registry.resolves(qv, true));
                                    assert(some_need_unsatisfiable(
                                        *old(cache),
                                        registry,
                                        manifest,
                                        manifests,
                                        self.env,
                                    ));
                                }
                            }
                            return Err(CollectHalt::Failed(e));
                        },
                    };
                    proof {
                        if wf {
                            if cache_pre.has_match(qv) {
                                assert(cache_evolved(cache_pre, *cache, registry));
                                lemma_evolved_match(*old(cache), cache_pre, registry, qv);
                            } else if registry.resolves(qv, false) {
                                let req = dl->0;
                                lemma_fetch_preserves(cache_pre, *cache, registry, qv, false, req);
                                lemma_extended_evolves(cache_pre, *cache, registry, qv, false, req);
                            } else if cache_pre.has_match(qv.as_sources()) {
                                assert(cache_evolved(cache_pre, *cache, registry));
                                lemma_evolved_match(*old(cache), cache_pre, registry, qv);
                            } else {
                                let req = dl->0;
                                lemma_fetch_preserves(cache_pre, *cache, registry, qv, true, req);
                                lemma_extended_evolves(cache_pre, *cache, registry, qv, true, req);
                                lemma_evolved_match(*old(cache), cache_pre, registry, qv);
                            }
                            lemma_evolved_trans(*old(cache), cache_pre, *cache, registry);
                            assert(entry@.dependency.name == visit_name);
                            assert(entry@.dependency == rebound(qv, entry@.dependency.version));
                            if cache_pre.has_match(qv) {
                                lemma_hit_offered(
                                    *old(cache),
                                    cache_pre,
                                    registry,
                                    qv,
                                    false,
                                    entry@,
                                );
                            } else if registry.resolves(qv, false) {
                                let req = dl->0;
                                let d = req.entry@.dependency;
                                crate::artifactory::lemma_latest_pkg_compare(
                                    &registry.remotes@[req.remote_index as int],
                                    qv,
                                    false,
                                    d,
                                );
                                assert(listed_in_registry(registry, d));
                                assert(artifact_offered(*old(cache), registry, d));
                                assert(d.version == entry@.dependency.version);
                            } else if cache_pre.has_match(qv.as_sources()) {
                                lemma_hit_offered(
                                    *old(cache),
                                    cache_pre,
                                    registry,
                                    qv,
                                    true,
                                    entry@,
                                );
                            } else {
                                let req = dl->0;
                                let d = req.entry@.dependency;
                                crate::artifactory::lemma_latest_pkg_compare(
                                    &registry.remotes@[req.remote_index as int],
                                    qv,
                                    true,
                                    d,
                                );
                                assert(listed_in_registry(registry, d));
                                assert(artifact_offered(*old(cache), registry, d));
                                assert(d.version == entry@.dependency.version);
                            }
                            assert(tier_outcome(
                                entry@,
                                *old(cache),
                                registry,
                                manifest,
                                manifests,
                                self.env,
                            ));
                        }
                    }
                    let ghost entry_tar = entry@.tar_path;
                    match manifests.lookup(entry.tar_path.as_str()) {
                        None => {
                            return Err(CollectHalt::NeedManifest(entry.tar_path, dl));
                        },
                        Some(mi) => {
                            let ghost stack1 = stack@;
                            stack.push(Task::Emit(entry));
                            let ghost emitted = stack@[stack1.len() as int];
                            proof {
                                assert(is_emit(emitted));
                                assert(task_tar(emitted) == entry_tar);
                                assert(forall|i: int|
                                    0 <= i < stack1.len() ==> stack@[i] == stack1[i]);
                                if wf {
                                    assert(task_name(stack@[stack@.len() - 1]) == visit_name);
                                    assert(stack@.len() == stack_before.len());
                                    assert forall|j: int|
                                        0 <= j < stack_before.len() implies task_name(
                                        #[trigger] stack@[j],
                                    ) == task_name(stack_before[j]) by {
                                        if j < stack_before.len() - 1 {
                                            assert(stack@[j] == stack_before[j]);
                                        } else {
                                            assert(task_name(stack@[j]) == visit_name);
                                            assert(task_name(stack_before[j]) == visit_name);
                                        }
                                    }
                                    assert forall|i: int|
                                        0 <= i < stack1.len() implies emit_subtree_pending(
                                        stack@,
                                        resolved@,
                                        manifests,
                                        i,
                                    ) by {
                                        assert(emit_subtree_pending(
                                            stack_before,
                                            resolved@,
                                            manifests,
                                            i,
                                        ));
                                        lemma_pending_transfer(
                                            stack_before,
                                            stack@,
                                            resolved@,
                                            resolved@,
                                            manifests,
                                            i,
                                        );
                                    }
                                }
                            }
                                                        let m = &manifests.entries[mi].1;
                            match &m.needs {
                                None => {
                                    proof {
                                        if wf {
                                            assert(emit_subtree_pending(
                                                stack@,
                                                resolved@,
                                                manifests,
                                                stack1.len() as int,
                                            )) by {
                                                assert(stack@[stack1.len() as int] == emitted);
                                                assert(mi as int == first_path_idx(
                                                    manifests.entries@,
                                                    entry_tar,
                                                ));
                                                assert(manifests.entries@[mi as int].1.needs
                                                    is None);
                                            }
                                            assert forall|i: int|
                                                0 <= i < stack@.len() implies emit_subtree_pending(
                                                stack@,
                                                resolved@,
                                                manifests,
                                                i,
                                            ) by {
                                                assert(stack@.len() == stack1.len() + 1);
                                            }
                                        }
                                    }
                                },
                                Some(ns2) => {
                                    let n2 = ns2.len();
                                    let mut k2 = n2;
                                    while k2 > 0
                                        invariant
                                            0 <= k2 <= n2,
                                            n2 == ns2@.len(),
                                            mi < manifests.entries@.len(),
                                            manifests.entries@[mi as int].1.needs == Some(*ns2),
                                            stack@.len() >= stack1.len() + 1,
                                            forall|i: int|
                                                0 <= i < stack1.len() + 1 ==> #[trigger] stack@[i]
                                                    == stack1.push(
                                                    stack@[stack1.len() as int],
                                                )[i],
                                            stack@[stack1.len() as int] == emitted,
                                            forall|i: int|
                                                stack1.len() < i < stack@.len() ==> !is_emit(
                                                    #[trigger] stack@[i],
                                                ),
                                            wf ==> task_name(stack@[stack1.len() as int])
                                                == visit_name,
                                            wf ==> tasks_wf(
                                                stack@,
                                                *old(cache),
                                                registry,
                                                manifest,
                                                manifests,
                                                self.env,
                                            ),
                                            wf ==> (forall|i: int|
                                                0 <= i < stack1.len() ==> emit_subtree_pending(
                                                    stack@,
                                                    resolved@,
                                                    manifests,
                                                    i,
                                                )),
                                            wf ==> (forall|k: int|
                                                k2 <= k < n2 ==> name_above(
                                                    stack@,
                                                    resolved@,
                                                    stack1.len() as int,
                                                    (#[trigger] ns2@[k]).0@,
                                                )),
                                        decreases k2,
                                    {
                                        k2 -= 1;
                                        let cname = ns2[k2].0.clone();
                                        let cdata = ns2[k2].1;
                                        let ghost cn = cname@;
                                        let ghost stack2 = stack@;
                                        stack.push(Task::Visit(cname, cdata));
                                        proof {
                                            assert(forall|i: int|
                                                0 <= i < stack2.len() ==> stack@[i] == stack2[i]);
                                            if wf {
                                                assert(task_name(stack@[stack@.len() - 1]) == cn
                                                    && cn == ns2@[k2 as int].0@);
                                                assert forall|j: int|
                                                    0 <= j < stack2.len() implies task_name(
                                                    #[trigger] stack@[j],
                                                ) == task_name(stack2[j]) by {
                                                    assert(stack@[j] == stack2[j]);
                                                }
                                                assert forall|k: int|
                                                    k2 <= k < n2 implies name_above(
                                                    stack@,
                                                    resolved@,
                                                    stack1.len() as int,
                                                    (#[trigger] ns2@[k]).0@,
                                                ) by {
                                                    let nm = ns2@[k].0@;
                                                    if k == k2 {
                                                        assert(task_name(
                                                            stack@[stack@.len() - 1],
                                                        ) == nm);
                                                    } else {
                                                        assert(name_above(
                                                            stack2,
                                                            resolved@,
                                                            stack1.len() as int,
                                                            nm,
                                                        ));
                                                        lemma_name_above_transfer(
                                                            stack2,
                                                            stack@,
                                                            resolved@,
                                                            resolved@,
                                                            stack1.len() as int,
                                                            nm,
                                                        );
                                                    }
                                                }
                                                assert forall|i: int|
                                                    0 <= i < stack1.len() implies emit_subtree_pending(
                                                    stack@,
                                                    resolved@,
                                                    manifests,
                                                    i,
                                                ) by {
                                                    assert(emit_subtree_pending(
                                                        stack2,
                                                        resolved@,
                                                        manifests,
                                                        i,
                                                    ));
                                                    lemma_pending_transfer(
                                                        stack2,
                                                        stack@,
                                                        resolved@,
                                                        resolved@,
                                                        manifests,
                                                        i,
                                                    );
                                                }
                                                assert(need_declared_in(
                                                    manifests.entries@[mi as int].1.needs,
                                                    self.env,
                                                    query_of(self.env, cn, cdata),
                                                )) by {
                                                    assert(ns2@[k2 as int].0@ == cn
                                                        && ns2@[k2 as int].1 == cdata);
                                                }
                                                assert(declared_need(
                                                    manifest,
                                                    manifests,
                                                    self.env,
                                                    query_of(self.env, cn, cdata),
                                                ));
                                                assert(task_name(stack@[stack@.len() - 1]) == cn);
                                            }
                                        }
                                    }
                                    proof {
                                        if wf {
                                            assert(emit_subtree_pending(
                                                stack@,
                                                resolved@,
                                                manifests,
                                                stack1.len() as int,
                                            )) by {
                                                assert(stack@[stack1.len() as int] == emitted);
                                                assert(mi as int == first_path_idx(
                                                    manifests.entries@,
                                                    entry_tar,
                                                ));
                                                assert(manifests.entries@[mi as int].1.needs
                                                    == Some(*ns2));
                                            }
                                            assert forall|i: int|
                                                0 <= i < stack@.len() implies emit_subtree_pending(
                                                stack@,
                                                resolved@,
                                                manifests,
                                                i,
                                            ) by {
                                                if i > stack1.len() {
                                                    assert(!is_emit(stack@[i]));
                                                }
                                            }
                                        }
                                    }
                                },
                            }
                            proof {
                                if wf {
                                    match &manifest.needs {
                                        Some(ns) => {
                                            assert forall|k: int| 0 <= k < ns@.len() implies covers(
                                                stack@,
                                                resolved@,
                                                (#[trigger] ns@[k]).0@,
                                            ) by {
                                                let nm = ns@[k].0@;
                                                if exists|i: int|
                                                    0 <= i < stack_before.len() && task_name(
                                                        #[trigger] stack_before[i],
                                                    ) == nm {
                                                    let i = choose|i: int|
                                                        0 <= i < stack_before.len() && task_name(
                                                            #[trigger] stack_before[i],
                                                        ) == nm;
                                                    if i < stack_before.len() - 1 {
                                                        assert(stack@[i] == stack_before[i]);
                                                        assert(task_name(stack@[i]) == nm);
                                                    } else {
                                                        assert(task_name(
                                                            stack@[stack1.len() as int],
                                                        ) == nm);
                                                    }
                                                } else {
                                                    let i = choose|i: int|
                                                        0 <= i < resolved_before.len() && (
                                                        #[trigger] resolved_before[i])@.dependency.name
                                                            == nm;
                                                }
                                            }
                                        },
                                        None => {},
                                    }
                                }
                            }
                        },
                    }
                },
            }
        }
        proof {
            if wf {
                assert forall|i: int| 0 <= i < resolved@.len() implies (
                #[trigger] resolved@[i])@.dependency.concrete() by {
                    lemma_tier_outcome_concrete(
                        resolved@[i]@,
                        *old(cache),
                        registry,
                        manifest,
                        manifests,
                        self.env,
                    );
                }
                if manifest.needs is Some {
                    let ns = manifest.needs->0;
                    assert forall|k: int| 0 <= k < ns@.len() implies has_entry_named(
                        resolved@,
                        (#[trigger] ns@[k]).0@,
                    ) by {
                        let nm = ns@[k].0@;
                        assert(covers(stack@, resolved@, nm));
                        let i = choose|i: int|
                            0 <= i < resolved@.len() && (#[trigger] resolved@[i])@.dependency.name
                                == nm;
                        assert(0 <= i < resolved@.len() && resolved@[i]@.dependency.name == nm);
                        assert(has_entry_named(resolved@, nm));
                    }
                    assert(names_covered(ns@, resolved@));
                }
            }
        }
        Ok(resolved)
    }

/// A dependency name present in a list survives deduplication and, unless
/// exact-version mode retains everything, conflict collapsing.
proof fn lemma_pipeline_name(s: Seq<ResolverEntryView>, nm: Seq<char>, exact: bool, out: Seq<ResolverEntryView>)
    requires
        exists|i: int| 0 <= i < s.len() && (#[trigger] s[i]).dependency.name == nm,
        out == (if exact {
            dedup_spec(s)
        } else {
            conflict_fold(dedup_spec(s))
        }),
    ensures
        exists|k: int| 0 <= k < out.len() && (#[trigger] out[k]).dependency.name == nm,
{
    let i = choose|i: int| 0 <= i < s.len() && (#[trigger] s[i]).dependency.name == nm;
    let d = s[i].dependency;
    assert(has_dep(s, d));
    lemma_dedup_members(s, d);
    let dd = dedup_spec(s);
    let j = choose|j: int| 0 <= j < dd.len() && (#[trigger] dd[j]).dependency == d;
    if exact {
        assert(out[j] == dd[j]);
        assert(out[j].dependency.name == nm);
    } else {
        lemma_conflict_dominates(dd);
        let cf = conflict_fold(dd);
        let l = choose|l: int|
            {
                &&& 0 <= l < cf.len()
                &&& same_group((#[trigger] dd[j]).dependency, cf[l].dependency)
                &&& dd[j].dependency.version.spec_le(cf[l].dependency.version)
            };
        assert(out[l] == cf[l]);
        assert(out[l].dependency.name == nm);
    }
}

/// Concreteness of every entry survives deduplication and conflict
/// collapsing.
proof fn lemma_pipeline_concrete(s: Seq<ResolverEntryView>, exact: bool, out: Seq<ResolverEntryView>)
    requires
        forall|i: int| 0 <= i < s.len() ==> (#[trigger] s[i]).dependency.concrete(),
        out == (if exact {
            dedup_spec(s)
        } else {
            conflict_fold(dedup_spec(s))
        }),
    ensures
        forall|k: int| 0 <= k < out.len() ==> (#[trigger] out[k]).dependency.concrete(),
{
    lemma_dedup_distinct(s);
    let dd = dedup_spec(s);
    assert forall|k: int| 0 <= k < dd.len() implies (#[trigger] dd[k]).dependency.concrete() by {
        let i = choose|i: int| 0 <= i < s.len() && dd[k] == s[i];
    }
    if !exact {
        lemma_conflict_members(dd);
        let cf = conflict_fold(dd);
        assert forall|k: int| 0 <= k < cf.len() implies (#[trigger] cf[k]).dependency.concrete() by {
            let i = choose|i: int| 0 <= i < dd.len() && cf[k] == dd[i];
        }
        assert forall|k: int| 0 <= k < out.len() implies (
        #[trigger] out[k]).dependency.concrete() by {
            assert(out[k] == cf[k]);
        }
    } else {
        assert forall|k: int| 0 <= k < out.len() implies (
        #[trigger] out[k]).dependency.concrete() by {
            assert(out[k] == dd[k]);
        }
    }
}

    /// One full resolution over the models: collect the tree, drop repeated
    /// identities, and collapse version conflicts. Whatever remains marked
    /// for building must then be built and re-admitted through the cache.
    #[verifier::rlimit(100)]
    pub fn resolve(
        &self,
        cache: &mut Cache,
        registry: &Registry,
        manifest: &Manifest,
        manifests: &ManifestTable,
    ) -> (r: Result<Vec<ResolverEntry>, CollectHalt>)
        ensures
            ({
                let wf = old(cache).all_canonical() && registry.entries_wf();
                &&& (manifest.needs is None ==> r is Ok)
                &&& (manifest.needs is Some && manifest.needs->0@.len() == 0 ==> r is Ok)
                &&& (wf ==> final(cache).all_canonical())
                &&& (wf ==> cache_evolved(*old(cache), *final(cache), registry))
                &&& (wf ==> (r matches Ok(v) ==> (forall|i: int|
                    0 <= i < v@.len() ==> (#[trigger] v@[i])@.dependency.concrete())))
                &&& (wf ==> (r matches Ok(v) ==> (forall|k: int|
                    0 <= k < v@.len() ==> tier_outcome(
                        (#[trigger] v@[k])@,
                        *old(cache),
                        registry,
                        manifest,
                        manifests,
                        self.env,
                    ))))
                &&& (wf ==> (r matches Ok(v) ==> (match manifest.needs {
                    Some(ns) => names_covered(ns@, v@),
                    None => v@.len() == 0,
                })))
                &&& (wf && !self.exact_version ==> (r matches Ok(v) ==> (forall|k1: int, k2: int|
                    0 <= k1 < k2 < v@.len() ==> !same_group(
                        (#[trigger] v@[k1])@.dependency,
                        (#[trigger] v@[k2])@.dependency,
                    ))))
                &&& (wf ==> (r matches Err(h) ==> (halt_failure(h) is Some ==> halt_failure(h)->0
                    == PuffError::DependencyCycle || some_need_unsatisfiable(
                    *old(cache),
                    registry,
                    manifest,
                    manifests,
                    self.env,
                ))))
                &&& (r matches Err(h) ==> (halt_need_path(h) is Some ==> no_manifest_for(
                    manifests,
                    halt_need_path(h)->0,
                )))
            }),
    {
        let ghost wf = old(cache).all_canonical() && registry.entries_wf();
        let raw = match self.collect_recursively(cache, registry, manifest, manifests) {
            Ok(v) => v,
            Err(h) => {
                return Err(h);
            },
        };
        let ghost raw_views = entry_views(raw@);
        let deduped = deduplicate(raw);
        let ghost dd = dedup_spec(raw_views);
        let result = resolve_conflicts(deduped, self.exact_version);
        proof {
            if wf {
                let out = entry_views(result@);
                if self.exact_version {
                    assert(out == dd);
                } else {
                    assert(out == conflict_fold(dd));
                    lemma_conflict_distinct(dd);
                }
                lemma_dedup_distinct(raw_views);
                if !self.exact_version {
                    lemma_conflict_members(dd);
                }
                assert forall|k: int| 0 <= k < result@.len() implies tier_outcome(
                    (#[trigger] result@[k])@,
                    *old(cache),
                    registry,
                    manifest,
                    manifests,
                    self.env,
                ) by {
                    assert(out[k] == result@[k]@);
                    if self.exact_version {
                        let l = choose|l: int| 0 <= l < raw_views.len() && dd[k] == raw_views[l];
                        assert(raw_views[l] == raw@[l]@);
                        assert(tier_outcome(
                            raw@[l]@,
                            *old(cache),
                            registry,
                            manifest,
                            manifests,
                            self.env,
                        ));
                    } else {
                        let j = choose|j: int| 0 <= j < dd.len() && out[k] == dd[j];
                        let l = choose|l: int| 0 <= l < raw_views.len() && dd[j] == raw_views[l];
                        assert(raw_views[l] == raw@[l]@);
                        assert(tier_outcome(
                            raw@[l]@,
                            *old(cache),
                            registry,
                            manifest,
                            manifests,
                            self.env,
                        ));
                    }
                }
                assert forall|i: int| 0 <= i < raw_views.len() implies (
                #[trigger] raw_views[i]).dependency.concrete() by {
                    assert(raw_views[i] == raw@[i]@);
                }
                Self::lemma_pipeline_concrete(raw_views, self.exact_version, out);
                assert forall|i: int| 0 <= i < result@.len() implies (
                #[trigger] result@[i])@.dependency.concrete() by {
                    assert(out[i] == result@[i]@);
                }
                assert forall|k1: int, k2: int|
                    0 <= k1 < k2 < result@.len() && !self.exact_version implies !same_group(
                    (#[trigger] result@[k1])@.dependency,
                    (#[trigger] result@[k2])@.dependency,
                ) by {
                    assert(out[k1] == result@[k1]@);
                    assert(out[k2] == result@[k2]@);
                }
                if manifest.needs is Some {
                    let ns = manifest.needs->0;
                    assert forall|k: int| 0 <= k < ns@.len() implies has_entry_named(
                        result@,
                        (#[trigger] ns@[k]).0@,
                    ) by {
                        let nm = ns@[k].0@;
                        assert(has_entry_named(raw@, nm));
                        let i0 = choose|i: int|
                            0 <= i < raw@.len() && (#[trigger] raw@[i])@.dependency.name == nm;
                        assert(raw_views[i0].dependency.name == nm);
                        Self::lemma_pipeline_name(raw_views, nm, self.exact_version, out);
                        let l = choose|l: int|
                            0 <= l < out.len() && (#[trigger] out[l]).dependency.name == nm;
                        assert(0 <= l < result@.len() && result@[l]@.dependency.name == nm);
                        assert(has_entry_named(result@, nm));
                    }
                    assert(names_covered(ns@, result@));
                } else {
                    assert(raw_views.len() == 0);
                    assert(dd.len() == 0);
                    if !self.exact_version {
                        assert(conflict_fold(dd).len() == 0);
                    }
                    assert(entry_views(result@).len() == 0);
                }
            }
        }
        Ok(result)
    }
}

// ---------------------------------------------------------------------------
// The build-from-source escape hatch
// ---------------------------------------------------------------------------

/// The command lines of one build: a CMake configure invocation, or the
/// word-split lines of a shell recipe. Running them is the surrounding
/// application's business.
#[derive(Debug)]
pub enum BuildCommands {
    CMake(String, Vec<String>),
    Shell(Vec<Vec<String>>),
}

/// What one build must run: the effective linkage — flipped to the other
/// one when the requested section is absent — and the chosen toolchain's
/// command lines.
#[derive(Debug)]
pub struct BuildPlan {
    pub effective_distribution: Distribution,
    pub commands: BuildCommands,
}

/// The rendered `key=value` strings of the configured additional CMake
/// definitions.
pub open spec fn additional_args_ok(additional: Seq<String>, config: &Config) -> bool {
    &&& additional.len() == config.toolchain.cmake.configure_additional_definitions@.len()
    &&& (forall|i: int|
        0 <= i < additional.len() ==> (#[trigger] additional[i])@ == (
        #[trigger] config.toolchain.cmake.configure_additional_definitions@[i]).0@ + "="@
            + config.toolchain.cmake.configure_additional_definitions@[i].1@)
}

/// A correct CMake plan for one recipe section.
pub open spec fn cmake_plan_ok(
    c: BuildCommands,
    sec: CMakeSection,
    config: &Config,
    src: Seq<char>,
    build: Seq<char>,
) -> bool {
    match c {
        BuildCommands::CMake(cmd, args) => {
            &&& cmd@ == config.toolchain.cmake.configure_command@
            &&& (exists|additional: Seq<String>|
                additional_args_ok(additional, config) && is_cmake_args(
                    args@,
                    additional,
                    sec.generator,
                    (match sec.definitions {
                        Some(d) => d@,
                        None => Seq::empty(),
                    }),
                    src,
                    build,
                ))
        },
        BuildCommands::Shell(p) => false,
    }
}

/// A correct plan for one toolchain section: CMake first, shell otherwise,
/// an error where the section declares neither.
pub open spec fn plan_ok(
    r: Result<BuildPlan, PuffError>,
    section: ToolchainSection,
    eff: Distribution,
    config: &Config,
    src: Seq<char>,
    build: Seq<char>,
) -> bool {
    if section.cmake is Some {
        &&& r is Ok
        &&& (r matches Ok(p) ==> p.effective_distribution == eff && cmake_plan_ok(
            p.commands,
            section.cmake->0,
            config,
            src,
            build,
        ))
    } else if section.shell is Some {
        &&& (r is Ok <==> shell_plan_possible(section.shell->0@))
        &&& (r matches Ok(p) ==> p.effective_distribution == eff && (match p.commands {
            BuildCommands::Shell(lines) => is_shell_plan(lines@, section.shell->0@),
            BuildCommands::CMake(cmd, args) => false,
        }))
        &&& (r matches Err(e) ==> e == PuffError::InvalidShellCommand)
    } else {
        r == Result::<BuildPlan, PuffError>::Err(PuffError::MissingToolchain)
    }
}

/// The selection between the requested linkage and its fallback.
pub open spec fn build_selection_ok(
    r: Result<BuildPlan, PuffError>,
    primary: Option<Toolchain>,
    other: Option<Toolchain>,
    pd: Distribution,
    od: Distribution,
    config: &Config,
    src: Seq<char>,
    build: Seq<char>,
) -> bool {
    if primary is Some {
        plan_ok(r, primary->0.toolchain, pd, config, src, build)
    } else if other is Some {
        plan_ok(r, other->0.toolchain, od, config, src, build)
    } else {
        r == Result::<BuildPlan, PuffError>::Err(PuffError::MissingToolchain)
    }
}

impl Resolver {
    /// Plans the build of a source package: selects the recipe section for
    /// the entry's distribution, falling back to the other linkage — and
    /// flipping the effective distribution — when the requested section is
    /// absent, then renders the chosen toolchain's command lines.
    pub fn build(
        &self,
        entry: &ResolverEntry,
        recipe: &Recipe,
        config: &Config,
        source_directory: &str,
        build_directory: &str,
    ) -> (r: Result<BuildPlan, PuffError>)
        ensures
            ({
                let d = entry@.dependency.distribution;
                &&& ((d == Distribution::Sources || d == Distribution::Unknown) ==> r == Result::<
                    BuildPlan,
                    PuffError,
                >::Err(PuffError::UnsupportedDistribution))
                &&& (d == Distribution::Static ==> build_selection_ok(
                    r,
                    recipe.static_toolchain,
                    recipe.shared_toolchain,
                    Distribution::Static,
                    Distribution::Shared,
                    config,
                    source_directory@,
                    build_directory@,
                ))
                &&& (d == Distribution::Shared ==> build_selection_ok(
                    r,
                    recipe.shared_toolchain,
                    recipe.static_toolchain,
                    Distribution::Shared,
                    Distribution::Static,
                    config,
                    source_directory@,
                    build_directory@,
                ))
            }),
    {
        let (section, effective) = match entry.dependency.distribution {
            Distribution::Static => match &recipe.static_toolchain {
                Some(t) => (&t.toolchain, Distribution::Static),
                None => match &recipe.shared_toolchain {
                    Some(t) => (&t.toolchain, Distribution::Shared),
                    None => {
                        return Err(PuffError::MissingToolchain);
                    },
                },
            },
            Distribution::Shared => match &recipe.shared_toolchain {
                Some(t) => (&t.toolchain, Distribution::Shared),
                None => match &recipe.static_toolchain {
                    Some(t) => (&t.toolchain, Distribution::Static),
                    None => {
                        return Err(PuffError::MissingToolchain);
                    },
                },
            },
            _ => {
                return Err(PuffError::UnsupportedDistribution);
            },
        };
        match &section.cmake {
            Some(cmake_section) => {
                let tc = CMakeToolchain::new(config);
                let args = tc.configure_args(cmake_section, source_directory, build_directory);
                let plan = BuildPlan {
                    effective_distribution: effective,
                    commands: BuildCommands::CMake(tc.configure_command, args),
                };
                proof {
                    assert(additional_args_ok(tc.configure_additional_arguments@, config));
                }
                Ok(plan)
            },
            None => match &section.shell {
                Some(lines) => {
                    let sh = ShellToolchain::new();
                    let plan_lines = sh.build_plan(lines)?;
                    Ok(
                        BuildPlan {
                            effective_distribution: effective,
                            commands: BuildCommands::Shell(plan_lines),
                        },
                    )
                },
                None => Err(PuffError::MissingToolchain),
            },
        }
    }

    /// Admits a freshly built, canonically named tarball into the cache and
    /// re-resolves the entry through the cache: on success the entry points
    /// at the latest cached binary artifact for its dependency and no
    /// longer requires a build.
    pub fn finish_build(
        &self,
        cache: &mut Cache,
        entry: &mut ResolverEntry,
        tar_name: String,
    ) -> (r: Result<(), PuffError>)
        ensures
            !is_package_name(tar_name@) ==> r == Result::<(), PuffError>::Err(
                PuffError::InvalidPackageName,
            ) && *final(cache) == *old(cache) && *final(entry) == *old(entry),
            is_package_name(tar_name@) ==> {
                &&& final(cache).path == old(cache).path
                &&& final(cache).files@ == old(cache).files@.push(tar_name)
                &&& (r is Ok ==> {
                    &&& final(entry)@.dependency == old(entry)@.dependency
                    &&& final(entry)@.require_build == false
                })
                &&& (r is Err ==> *final(entry) == *old(entry))
            },
            is_package_name(tar_name@) && old(cache).all_canonical() ==> {
                &&& final(cache).all_canonical()
                &&& (r is Ok <==> final(cache).resolves(old(entry)@.dependency, false))
                &&& (r is Ok ==> final(entry)@.tar_path == joined(
                    final(cache).path@,
                    final(cache).file(
                        final(cache).selected_match(old(entry)@.dependency, false),
                    ),
                ))
                &&& (r matches Err(e) ==> e == PuffError::CacheMiss)
            },
    {
        let ghost tar_view = tar_name@;
        let put = cache.put(tar_name);
        match put {
            Ok(_) => {},
            Err(e) => {
                return Err(e);
            },
        }
        proof {
            if old(cache).all_canonical() {
                assert forall|i: int| 0 <= i < cache.files@.len() implies is_package_name(
                    #[trigger] cache.file(i),
                ) by {
                    if i < old(cache).files@.len() {
                        assert(cache.file(i) == old(cache).file(i));
                    } else {
                        assert(cache.file(i) == tar_view);
                    }
                }
            }
        }
        match cache.get(&entry.dependency, false) {
            Ok(path) => {
                entry.tar_path = path;
                entry.require_build = false;
                Ok(())
            },
            Err(e) => Err(e),
        }
    }
}

/// When a competitor is kept, `first_group` points at one.
proof fn lemma_first_group_some(acc: Seq<ResolverEntryView>, d: DepView)
    requires
        has_group(acc, d),
    ensures
        first_group(acc, d) < acc.len(),
        same_group(acc[first_group(acc, d) as int].dependency, d),
    decreases acc.len(),
{
    if acc.len() > 0 && !same_group(acc[0].dependency, d) {
        assert(has_group(acc.skip(1), d)) by {
            let k = choose|k: int| 0 <= k < acc.len() && same_group((#[trigger] acc[k]).dependency, d);
            assert(acc.skip(1)[k - 1] == acc[k]);
        }
        lemma_first_group_some(acc.skip(1), d);
        assert(acc[first_group(acc, d) as int] == acc.skip(1)[first_group(acc.skip(1), d) as int]);
    }
}

} // verus!
