use vstd::prelude::*;

verus! {

/// The failure conditions of the package manager's core: each variant names
/// the first fatal condition encountered, and every operation is
/// single-attempt, so one value of this type describes a whole failed run.
#[derive(Debug, Clone, Copy, PartialEq, Eq, Structural)]
pub enum PuffError {
    /// A version or version-range string does not follow the grammar.
    InvalidVersion,
    /// A package file name does not follow the canonical codec.
    InvalidPackageName,
    /// An architecture name is not recognised.
    UnknownArch,
    /// A distribution name is not recognised.
    UnknownDistribution,
    /// No artifact in the local cache satisfies the query.
    CacheMiss,
    /// No remote entry satisfies the query.
    PackageNotFound,
    /// None of the four acquisition tiers satisfies the query.
    DependencyNotFound,
    /// A remote registry could not be reached or gave a malformed answer.
    RegistryUnreachable,
    /// A downloaded artifact's digest differs from the one the remote reports.
    ChecksumMismatch,
    /// A toolchain step exited unsuccessfully.
    BuildFailure,
    /// A source tree lacks its manifest.
    ManifestMissing,
    /// A source package that must be built lacks its recipe.
    RecipeMissing,
    /// A registry name is not present in the configuration.
    NoSuchRegistry,
    /// A URL pattern holds a placeholder that is not recognised.
    UrlFormatError,
    /// A recipe lacks the toolchain section that a build needs.
    MissingToolchain,
    /// A build was requested for a distribution that cannot be built.
    UnsupportedDistribution,
    /// A shell recipe line is empty or cannot be split into words.
    InvalidShellCommand,
    /// The dependency walk exceeded its step budget, as a cyclic dependency
    /// graph would make it do.
    DependencyCycle,
}

} // verus!
