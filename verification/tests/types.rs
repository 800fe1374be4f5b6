use puff::arch::Arch;
use puff::distribution::Distribution;
use puff::manifest::ManifestDependencyData;
use puff::os::OperatingSystem;
use puff::version::{Version, VersionRange};

#[test]
fn serialize_version() {
    let v = Version(1, 2, 3);
    assert_eq!(v.to_string(), "1.2.3");

    let v = Version(0, 0, 0);
    assert_eq!(v.to_string(), "0.0.0");

    let v = Version(65535, 65535, 65535);
    assert_eq!(v.to_string(), "latest");
}

#[test]
fn deserialize_version() {
    let v = Version::from_str("1.2.3").unwrap();
    assert_eq!(v, Version(1, 2, 3));

    let v = Version::from_str("0.0.0").unwrap();
    assert_eq!(v, Version(0, 0, 0));
    assert!(v.is_lowest());

    let v = Version::from_str("65535.65535.65535").unwrap();
    assert_eq!(v, Version(65535, 65535, 65535));
    assert!(v.is_highest());
}

#[test]
fn serialize_version_range() {
    let v = VersionRange { min: Version(1, 2, 3), max: Version(4, 5, 6) };
    assert_eq!(v.to_string(), "1.2.3..4.5.6");

    let v = VersionRange { min: Version(0, 0, 0), max: Version(65535, 65535, 65535) };
    assert_eq!(v.to_string(), "^0.0.0");

    let v = VersionRange { min: Version(1, 2, 3), max: Version(1, 2, 3) };
    assert_eq!(v.to_string(), "=1.2.3");
}

#[test]
fn deserialize_version_range() {
    let v = VersionRange::from_str("1.2.3").unwrap();
    assert_eq!(v, VersionRange { min: Version(1, 2, 3), max: Version::highest() });
    assert_eq!(v.min, Version(1, 2, 3));

    let v = VersionRange::from_str("0.0.0").unwrap();
    assert_eq!(v, VersionRange { min: Version(0, 0, 0), max: Version::highest() });
    assert_eq!(v.min, Version(0, 0, 0));
    assert!(v.min.is_lowest());

    let v = VersionRange::from_str("any").unwrap();
    assert_eq!(v, VersionRange { min: Version(0, 0, 0), max: Version::highest() });
    assert_eq!(v.min, Version(0, 0, 0));
    assert!(v.min.is_lowest());

    let v = VersionRange::from_str("latest").unwrap();
    assert_eq!(v, VersionRange { min: Version(0, 0, 0), max: Version::highest() });
    assert_eq!(v.min, Version(0, 0, 0));
    assert!(v.min.is_lowest());

    let v = VersionRange::from_str("=1.2.3").unwrap();
    assert_eq!(v, VersionRange { min: Version(1, 2, 3), max: Version(1, 2, 3) });
    assert_eq!(v.min, Version(1, 2, 3));
    assert_eq!(v.max, Version(1, 2, 3));

    let v = VersionRange::from_str("^0.0.0").unwrap();
    assert_eq!(v, VersionRange { min: Version(0, 0, 0), max: Version(65535, 65535, 65535) });
    assert_eq!(v.min, Version(0, 0, 0));
    assert!(v.min.is_lowest());
    assert_eq!(v.max, Version(65535, 65535, 65535));
    assert!(v.max.is_highest());

    let v = VersionRange::from_str("<1.2.3").unwrap();
    assert_eq!(v, VersionRange { min: Version(0, 0, 0), max: Version(1, 2, 3) });
    assert_eq!(v.min, Version(0, 0, 0));
    assert!(v.min.is_lowest());
    assert_eq!(v.max, Version(1, 2, 3));
    assert!(!v.max.is_highest());

    let v = VersionRange::from_str("=55.13.5532").unwrap();
    assert_eq!(v, VersionRange { min: Version(55, 13, 5532), max: Version(55, 13, 5532) });
    assert_eq!(v.min, Version(55, 13, 5532));
    assert_eq!(v.max, Version(55, 13, 5532));
}

#[test]
fn version_rejects_malformed() {
    assert!(Version::from_str("").is_err());
    assert!(Version::from_str("1.2").is_err());
    assert!(Version::from_str("1.2.3.4").is_err());
    assert!(Version::from_str("a.b.c").is_err());
    assert!(Version::from_str("65536.0.0").is_err());
    assert!(Version::from_str("01.2.3").is_err());
    assert!(VersionRange::from_str("^").is_err());
    assert!(VersionRange::from_str("=1.2").is_err());
}

#[test]
fn arch_test_serialize() {
    let a = Arch::X86_64;
    assert_eq!(a.to_string(), "x86_64");

    let a = Arch::Aarch64;
    assert_eq!(a.to_string(), "aarch64");

    let a = Arch::Arm;
    assert_eq!(a.to_string(), "arm");

    let a = Arch::ArmV5TE;
    assert_eq!(a.to_string(), "armv5te");

    let a = Arch::ArmV7;
    assert_eq!(a.to_string(), "armv7");

    let a = Arch::ArmV7A;
    assert_eq!(a.to_string(), "armv7a");

    let a = Arch::ArmV7R;
    assert_eq!(a.to_string(), "armv7r");

    let a = Arch::ArmV8;
    assert_eq!(a.to_string(), "armv8");

    let a = Arch::Loongarch64;
    assert_eq!(a.to_string(), "loongarch64");
}

#[test]
fn arch_test_deserialize() {
    let a = Arch::from_str("x86_64").unwrap();
    assert_eq!(a, Arch::X86_64);

    let a = Arch::from_str("aarch64").unwrap();
    assert_eq!(a, Arch::Aarch64);

    let a = Arch::from_str("arm").unwrap();
    assert_eq!(a, Arch::Arm);

    let a = Arch::from_str("armv5te").unwrap();
    assert_eq!(a, Arch::ArmV5TE);

    let a = Arch::from_str("armv7").unwrap();
    assert_eq!(a, Arch::ArmV7);

    let a = Arch::from_str("armv7a").unwrap();
    assert_eq!(a, Arch::ArmV7A);

    let a = Arch::from_str("armv7r").unwrap();
    assert_eq!(a, Arch::ArmV7R);

    let a = Arch::from_str("armv8").unwrap();
    assert_eq!(a, Arch::ArmV8);

    let a = Arch::from_str("loongarch64").unwrap();
    assert_eq!(a, Arch::Loongarch64);

    let a = Arch::from_str("unknown");
    assert!(a.is_err());
}

#[test]
fn distribution_test_serialize() {
    let d = Distribution::Static;
    assert_eq!(d.to_string(), "static");

    let d = Distribution::Shared;
    assert_eq!(d.to_string(), "shared");
}

#[test]
fn distribution_test_deserialize() {
    let d = Distribution::from_str("static").unwrap();
    assert_eq!(d, Distribution::Static);

    let d = Distribution::from_str("shared").unwrap();
    assert_eq!(d, Distribution::Shared);

    let d = Distribution::from_str("dynamic").unwrap();
    assert_eq!(d, Distribution::Shared);

    let d = Distribution::from_str("dyn").unwrap();
    assert_eq!(d, Distribution::Shared);

    let d = Distribution::from_str("StAtIc").unwrap();
    assert_eq!(d, Distribution::Static);

    assert!(Distribution::from_str("unknown").is_err());
}

#[test]
fn os_test_serialize() {
    let os = OperatingSystem::Linux;
    assert_eq!(os.to_string(), "linux");

    let os = OperatingSystem::Windows;
    assert_eq!(os.to_string(), "windows");

    let os = OperatingSystem::MacOS;
    assert_eq!(os.to_string(), "macos");

    let os = OperatingSystem::Android;
    assert_eq!(os.to_string(), "android");

    let os = OperatingSystem::Unknown;
    assert_eq!(os.to_string(), "unknown");
}

#[test]
fn os_test_deserialize() {
    let os = OperatingSystem::from_str("linux").unwrap();
    assert_eq!(os, OperatingSystem::Linux);

    let os = OperatingSystem::from_str("windows").unwrap();
    assert_eq!(os, OperatingSystem::Windows);

    let os = OperatingSystem::from_str("macos").unwrap();
    assert_eq!(os, OperatingSystem::MacOS);

    let os = OperatingSystem::from_str("android").unwrap();
    assert_eq!(os, OperatingSystem::Android);

    let os = OperatingSystem::from_str("unknown").unwrap();
    assert_eq!(os, OperatingSystem::Unknown);

    let os = OperatingSystem::from_str("unix").unwrap();
    assert_eq!(os, OperatingSystem::Linux);

    let os = OperatingSystem::from_str("win32").unwrap();
    assert_eq!(os, OperatingSystem::Windows);

    let os = OperatingSystem::from_str("darwin").unwrap();
    assert_eq!(os, OperatingSystem::MacOS);

    let os = OperatingSystem::from_str("apple").unwrap();
    assert_eq!(os, OperatingSystem::MacOS);

    let os = OperatingSystem::from_str("android-os").unwrap();
    assert_eq!(os, OperatingSystem::Android);

    let os = OperatingSystem::from_str("androidos").unwrap();
    assert_eq!(os, OperatingSystem::Android);

    let os = OperatingSystem::from_str("microsoft").unwrap();
    assert_eq!(os, OperatingSystem::Windows);

    let os = OperatingSystem::from_str("win").unwrap();
    assert_eq!(os, OperatingSystem::Windows);

    let os = OperatingSystem::from_str("mac").unwrap();
    assert_eq!(os, OperatingSystem::MacOS);

    let os = OperatingSystem::from_str("apple").unwrap();
    assert_eq!(os, OperatingSystem::MacOS);

    let os = OperatingSystem::from_str("unix").unwrap();
    assert_eq!(os, OperatingSystem::Linux);

    let os = OperatingSystem::from_str("gnu/linux").unwrap();
    assert_eq!(os, OperatingSystem::Linux);

    let os = OperatingSystem::from_str("gnu").unwrap();
    assert_eq!(os, OperatingSystem::Linux);
}

#[test]
fn dependency_test_deserialize() {
    let d = ManifestDependencyData::from_str("10.0.0").unwrap();
    assert_eq!(
        d,
        ManifestDependencyData {
            version: VersionRange::from_str("10.0.0").unwrap(),
            distribution: Distribution::Shared
        }
    );

    let d = ManifestDependencyData::from_str("10.0.0@static").unwrap();
    assert_eq!(
        d,
        ManifestDependencyData {
            version: VersionRange::from_str("10.0.0").unwrap(),
            distribution: Distribution::Static
        }
    );

    let d = ManifestDependencyData::from_str("10.0.0@shared").unwrap();
    assert_eq!(
        d,
        ManifestDependencyData {
            version: VersionRange::from_str("10.0.0").unwrap(),
            distribution: Distribution::Shared
        }
    );

    let d = ManifestDependencyData::from_str("^10.0.0").unwrap();
    assert_eq!(
        d,
        ManifestDependencyData {
            version: VersionRange::from_str("10.0.0").unwrap(),
            distribution: Distribution::Shared
        }
    );

    let d = ManifestDependencyData::from_str("=10.0.0@shared").unwrap();
    assert_eq!(
        d,
        ManifestDependencyData {
            version: VersionRange::from_str("=10.0.0").unwrap(),
            distribution: Distribution::Shared
        }
    );

    let d = ManifestDependencyData::from_str("=10.0.0@static").unwrap();
    assert_eq!(
        d,
        ManifestDependencyData {
            version: VersionRange::from_str("=10.0.0").unwrap(),
            distribution: Distribution::Static
        }
    );
}

#[test]
fn need_renders_with_distribution() {
    let d = ManifestDependencyData {
        version: VersionRange::from_str("10.0.0").unwrap(),
        distribution: Distribution::Shared,
    };
    assert_eq!(d.to_string(), "^10.0.0@shared");

    let d = ManifestDependencyData {
        version: VersionRange::from_str("=10.0.0").unwrap(),
        distribution: Distribution::Static,
    };
    assert_eq!(d.to_string(), "=10.0.0@static");
}
