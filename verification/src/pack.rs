use vstd::prelude::*;

use crate::arch::Arch;
use crate::dependency::{package_name_chars, DepView, Dependency};
use crate::distribution::Distribution;
use crate::manifest::Manifest;
use crate::os::OperatingSystem;

verus! {

/// The canonical tarball name under which a freshly built export tree is to
/// be packed for the cache, taken from the package's own manifest and the
/// build target. Writing the archive itself is the surrounding
/// application's business.
pub fn pack_for_cache(
    manifest: &Manifest,
    arch: Arch,
    os: OperatingSystem,
    distribution: Distribution,
) -> (r: String)
    ensures
        r@ == package_name_chars(
            DepView {
                name: manifest.this.name@,
                version: manifest.this.version,
                arch,
                os,
                distribution,
            },
        ),
{
    let dep = Dependency::new(
        manifest.this.name.clone(),
        manifest.this.version,
        arch,
        os,
        distribution,
    );
    dep.to_package_name()
}

} // verus!
