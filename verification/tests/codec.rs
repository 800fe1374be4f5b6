use puff::arch::Arch;
use puff::dependency::Dependency;
use puff::distribution::Distribution;
use puff::error::PuffError;
use puff::os::OperatingSystem;
use puff::version::{Version, VersionRange};

fn concrete(name: &str, v: (u16, u16, u16), arch: Arch, os: OperatingSystem, d: Distribution) -> Dependency {
    let ver = Version(v.0, v.1, v.2);
    Dependency::new(name.to_string(), VersionRange { min: ver, max: ver }, arch, os, d)
}

#[test]
fn test_from_package_name() {
    let dep = Dependency::from_package_name("cmake-0.1.3-unknown-unknown-sources.tar.gz");
    assert!(dep.is_ok());
    assert_eq!(dep.as_ref().unwrap().name, "cmake");
    assert_eq!(dep.as_ref().unwrap().version, VersionRange::from_str("=0.1.3").unwrap());
    assert_eq!(dep.as_ref().unwrap().arch, Arch::Unknown);
    assert_eq!(dep.as_ref().unwrap().os, OperatingSystem::Unknown);
    assert_eq!(dep.as_ref().unwrap().distribution, Distribution::Sources);

    let dep = Dependency::from_package_name("fmt-1.1.3-x86_64-windows-static.tar.gz");
    assert!(dep.is_ok());
    assert_eq!(dep.as_ref().unwrap().name, "fmt");
    assert_eq!(dep.as_ref().unwrap().version, VersionRange::from_str("=1.1.3").unwrap());
    assert_eq!(dep.as_ref().unwrap().arch, Arch::X86_64);
    assert_eq!(dep.as_ref().unwrap().os, OperatingSystem::Windows);
    assert_eq!(dep.as_ref().unwrap().distribution, Distribution::Static);
}

#[test]
fn package_name_round_trips_from_name() {
    for name in [
        "fmt-1.1.3-x86_64-windows-static.tar.gz",
        "cmake-0.1.3-unknown-unknown-sources.tar.gz",
        "lib_a+b-0.0.1-armv7a-android-shared.tar.gz",
        "zlib-65535.65535.65535-loongarch64-macos-unknown.tar.gz",
    ] {
        let dep = Dependency::from_package_name(name).unwrap();
        assert_eq!(dep.to_package_name(), name);
    }
}

#[test]
fn package_name_round_trips_from_dependency() {
    let dep = concrete("spdlog", (1, 14, 1), Arch::Aarch64, OperatingSystem::Linux, Distribution::Shared);
    let encoded = dep.to_package_name();
    assert_eq!(encoded, "spdlog-1.14.1-aarch64-linux-shared.tar.gz");
    let decoded = Dependency::from_package_name(&encoded).unwrap();
    assert_eq!(decoded, dep);
}

#[test]
fn package_name_rejects_malformed() {
    for name in [
        "",
        "fmt.tar.gz",
        "fmt-1.1.3-x86_64-windows-static.tar",
        "fmt-1.1-x86_64-windows-static.tar.gz",
        "fmt-1.1.3-x86_64-windows.tar.gz",
        "fmt-01.1.3-x86_64-windows-static.tar.gz",
        "-1.1.3-x86_64-windows-static.tar.gz",
        "fmt-1.1.3-mips-windows-static.tar.gz",
        "fmt-1.1.3-x86_64-windows-static-extra.tar.gz",
    ] {
        let r = Dependency::from_package_name(name);
        assert_eq!(r.unwrap_err(), PuffError::InvalidPackageName, "{}", name);
    }
}

#[test]
fn from_std_path_takes_file_name() {
    let dep =
        Dependency::from_std_path("/var/cache/puff/fmt-1.1.3-x86_64-windows-static.tar.gz").unwrap();
    assert_eq!(dep.name, "fmt");
    assert_eq!(dep.arch, Arch::X86_64);
    let dep = Dependency::from_std_path("rel\\dir\\abc-1.0.0-unknown-unknown-sources.tar.gz").unwrap();
    assert_eq!(dep.name, "abc");
    assert_eq!(dep.distribution, Distribution::Sources);
}

#[test]
fn ranged_compare_follows_the_containment_rule() {
    let q = Dependency::new(
        "fmt".to_string(),
        VersionRange::from_str("^1.0.0").unwrap(),
        Arch::X86_64,
        OperatingSystem::Linux,
        Distribution::Shared,
    );
    let hit = concrete("fmt", (1, 2, 0), Arch::X86_64, OperatingSystem::Linux, Distribution::Shared);
    assert!(hit.ranged_compare(&q));

    // same name but the wrong platform
    let wrong_arch = concrete("fmt", (1, 2, 0), Arch::Aarch64, OperatingSystem::Linux, Distribution::Shared);
    assert!(!wrong_arch.ranged_compare(&q));

    // another name
    let wrong_name = concrete("spdlog", (1, 2, 0), Arch::X86_64, OperatingSystem::Linux, Distribution::Shared);
    assert!(!wrong_name.ranged_compare(&q));

    // below the lower bound
    let too_old = concrete("fmt", (0, 9, 0), Arch::X86_64, OperatingSystem::Linux, Distribution::Shared);
    assert!(!too_old.ranged_compare(&q));

    // an exact query admits only its own version
    let exact = Dependency::new(
        "fmt".to_string(),
        VersionRange::from_str("=1.2.0").unwrap(),
        Arch::X86_64,
        OperatingSystem::Linux,
        Distribution::Shared,
    );
    assert!(hit.ranged_compare(&exact));
    let newer = concrete("fmt", (1, 3, 0), Arch::X86_64, OperatingSystem::Linux, Distribution::Shared);
    assert!(!newer.ranged_compare(&exact));

    // a sources query waives the platform comparison
    let srcq = q.as_sources_dependency();
    let src_candidate =
        concrete("fmt", (1, 2, 0), Arch::Unknown, OperatingSystem::Unknown, Distribution::Sources);
    assert!(src_candidate.ranged_compare(&srcq));
    assert!(hit.ranged_compare(&srcq));
}

#[test]
fn sources_relaxation_clears_the_platform() {
    let q = Dependency::new(
        "fmt".to_string(),
        VersionRange::from_str("^1.0.0").unwrap(),
        Arch::X86_64,
        OperatingSystem::Windows,
        Distribution::Static,
    );
    let s = q.as_sources_dependency();
    assert_eq!(s.name, "fmt");
    assert_eq!(s.version, q.version);
    assert_eq!(s.arch, Arch::Unknown);
    assert_eq!(s.os, OperatingSystem::Unknown);
    assert_eq!(s.distribution, Distribution::Sources);
}

#[test]
fn version_rebinding_keeps_the_identity() {
    let q = Dependency::new(
        "fmt".to_string(),
        VersionRange::from_str("^1.0.0").unwrap(),
        Arch::X86_64,
        OperatingSystem::Linux,
        Distribution::Shared,
    );
    let rebound = q
        .with_updated_version_from_archive_name("cache/fmt-1.4.0-x86_64-linux-shared.tar.gz")
        .unwrap();
    assert_eq!(rebound.name, "fmt");
    assert_eq!(rebound.version, VersionRange::from_str("=1.4.0").unwrap());
    assert_eq!(rebound.arch, Arch::X86_64);
    assert_eq!(rebound.distribution, Distribution::Shared);
}

#[test]
fn dependency_pretty_print_layout() {
    let d = concrete("fmt", (1, 2, 3), Arch::X86_64, OperatingSystem::Linux, Distribution::Shared);
    assert_eq!(d.pretty_print(), "fmt@=1.2.3/x86_64/linux/shared");
}
