use puff::arch::Arch;
use puff::artifactory::Registry;
use puff::cache::Cache;
use puff::config::{Config, RegistryConfig, RegistryData, ToolchainConfig};
use puff::dependency::Dependency;
use puff::distribution::Distribution;
use puff::environment::Environment;
use puff::error::PuffError;
use puff::manifest::{Manifest, ManifestDependencyData, ManifestSectionThis};
use puff::os::OperatingSystem;
use puff::pack::pack_for_cache;
use puff::recipe::{CMakeSection, Recipe, Toolchain, ToolchainSection};
use puff::resolver::{
    deduplicate, resolve_conflicts, BuildCommands, CollectHalt, ManifestTable, Resolver,
    ResolverEntry,
};
use puff::helper_types::PlatformArch;
use puff::toolchain::{CMakeToolchain, ShellToolchain};
use puff::version::{Version, VersionRange};

fn entry(name: &str, version: &str, dist: Distribution, path: &str) -> ResolverEntry {
    ResolverEntry::new(
        Dependency::new(
            name.to_string(),
            VersionRange::from_str(version).unwrap(),
            Arch::X86_64,
            OperatingSystem::Linux,
            dist,
        ),
        false,
        path.to_string(),
    )
}

fn simple_manifest(name: &str, version: &str, needs: Option<Vec<(&str, &str)>>) -> Manifest {
    Manifest {
        this: ManifestSectionThis {
            name: name.to_string(),
            version: VersionRange::from_str(version).unwrap(),
            description: None,
            authors: None,
            license: None,
        },
        needs: needs.map(|ns| {
            ns.into_iter()
                .map(|(n, spec)| (n.to_string(), ManifestDependencyData::from_str(spec).unwrap()))
                .collect()
        }),
        build: None,
    }
}

#[test]
fn deduplication_keeps_the_first_occurrence() {
    let entries = vec![
        entry("fmt", "=1.0.0", Distribution::Shared, "p1"),
        entry("spdlog", "=2.0.0", Distribution::Shared, "p2"),
        entry("fmt", "=1.0.0", Distribution::Shared, "p3"),
    ];
    let out = deduplicate(entries);
    assert_eq!(out.len(), 2);
    assert_eq!(out[0].dependency.name, "fmt");
    assert_eq!(out[0].tar_path, "p1");
    assert_eq!(out[1].dependency.name, "spdlog");
}

#[test]
fn conflict_collapsing_keeps_the_highest_version() {
    let entries = vec![
        entry("fmt", "=1.0.0", Distribution::Shared, "p1"),
        entry("fmt", "=2.0.0", Distribution::Shared, "p2"),
    ];
    let out = resolve_conflicts(entries, false);
    assert_eq!(out.len(), 1);
    assert_eq!(out[0].dependency.version, VersionRange::from_str("=2.0.0").unwrap());

    // under exact-version mode both pinned versions are retained verbatim
    let entries = vec![
        entry("fmt", "=1.0.0", Distribution::Shared, "p1"),
        entry("fmt", "=2.0.0", Distribution::Shared, "p2"),
    ];
    let out = resolve_conflicts(entries, true);
    assert_eq!(out.len(), 2);
}

#[test]
fn conflict_collapsing_leaves_other_groups_alone() {
    let entries = vec![
        entry("fmt", "=2.0.0", Distribution::Shared, "p1"),
        entry("fmt", "=1.0.0", Distribution::Static, "p2"),
        entry("fmt", "=1.5.0", Distribution::Shared, "p3"),
        entry("spdlog", "=1.0.0", Distribution::Shared, "p4"),
    ];
    let out = resolve_conflicts(entries, false);
    assert_eq!(out.len(), 3);
    assert_eq!(out[0].dependency.name, "fmt");
    assert_eq!(out[0].dependency.distribution, Distribution::Shared);
    assert_eq!(out[0].dependency.version, VersionRange::from_str("=2.0.0").unwrap());
    assert_eq!(out[1].dependency.distribution, Distribution::Static);
    assert_eq!(out[2].dependency.name, "spdlog");
}

fn registry_with(names: &[&str]) -> Registry {
    let config = Config {
        registry: RegistryConfig {
            list: vec![RegistryData {
                name: "main".to_string(),
                base_url: "http://remote.example".to_string(),
                pattern: "{name}-{major}.{minor}.{patch}-{arch}-{platform}-{dist}.tar.gz"
                    .to_string(),
                auth: None,
            }],
        },
        toolchain: ToolchainConfig::default(),
    };
    let mut registry = Registry::new(&config).unwrap();
    let mut raw = String::from("{\"results\":[");
    for (i, n) in names.iter().enumerate() {
        if i > 0 {
            raw.push(',');
        }
        raw.push_str(&format!("{{\"name\":\"{}\"}}", n));
    }
    raw.push_str("]}");
    registry.remotes[0].sync_aql(&raw, false).unwrap();
    registry
}

#[test]
fn end_to_end_source_fallback_builds_and_caches() {
    // package a needs b as a shared library; the registry has only b's sources
    let registry = registry_with(&["b-1.0.0-unknown-unknown-sources.tar.gz"]);
    let mut cache = Cache::new("/tmp/store".to_string(), Vec::new());
    let env = Environment { os: OperatingSystem::Linux, arch: Arch::X86_64 };
    let resolver = Resolver::new(env, false);
    let manifest_a = simple_manifest("a", "1.0.0", Some(vec![("b", "^1.0.0@shared")]));
    let manifest_b = simple_manifest("b", "1.0.0", None);
    let mut table = ManifestTable::new();

    // the walk halts on b's archive: it must first be fetched and opened
    let halt = resolver.resolve(&mut cache, &registry, &manifest_a, &table).unwrap_err();
    let (archive_path, download) = match halt {
        CollectHalt::NeedManifest(p, d) => (p, d),
        CollectHalt::Failed(e) => panic!("unexpected failure: {:?}", e),
    };
    assert_eq!(archive_path, "/tmp/store/b-1.0.0-unknown-unknown-sources.tar.gz");
    let req = download.expect("the sources live only on the remote");
    assert_eq!(req.entry.dependency.distribution, Distribution::Sources);

    // the driver downloads the archive, reads its manifest, and retries
    table.insert(archive_path, manifest_b);
    let entries = resolver.resolve(&mut cache, &registry, &manifest_a, &table).unwrap();
    assert_eq!(entries.len(), 1);
    let mut b_entry = entries.into_iter().next().unwrap();
    assert_eq!(b_entry.dependency.name, "b");
    assert_eq!(b_entry.dependency.version, VersionRange::from_str("=1.0.0").unwrap());
    assert_eq!(b_entry.dependency.distribution, Distribution::Shared);
    assert!(b_entry.require_build, "a sources hit must be built");

    // the driver builds b from its recipe and re-admits the binary
    let recipe = Recipe {
        static_toolchain: None,
        shared_toolchain: Some(Toolchain {
            toolchain: ToolchainSection {
                cmake: None,
                shell: Some(vec!["make all".to_string(), "make install".to_string()]),
            },
        }),
    };
    let config = Config {
        registry: RegistryConfig { list: Vec::new() },
        toolchain: ToolchainConfig::default(),
    };
    let built_manifest = simple_manifest("b", "1.0.0", None);
    let plan = resolver.build(&b_entry, &recipe, &config, "/tmp/src", "/tmp/bld").unwrap();
    assert_eq!(plan.effective_distribution, Distribution::Shared);
    match plan.commands {
        BuildCommands::Shell(lines) => {
            assert_eq!(lines, vec![vec!["make", "all"], vec!["make", "install"]]);
        },
        BuildCommands::CMake(_, _) => panic!("the recipe asks for the shell toolchain"),
    }
    let tar_name = pack_for_cache(
        &built_manifest,
        Arch::X86_64,
        OperatingSystem::Linux,
        Distribution::Shared,
    );
    assert_eq!(tar_name, "b-1.0.0-x86_64-linux-shared.tar.gz");
    resolver.finish_build(&mut cache, &mut b_entry, tar_name).unwrap();

    // the build is completed and cached: the entry needs no further build
    assert!(!b_entry.require_build);
    assert_eq!(b_entry.dependency.version, VersionRange::from_str("=1.0.0").unwrap());
    assert_eq!(b_entry.tar_path, "/tmp/store/b-1.0.0-x86_64-linux-shared.tar.gz");
}

#[test]
fn collection_walks_transitive_needs_in_order() {
    // a needs b; b's archive declares a need of c
    let registry = registry_with(&[
        "b-1.0.0-x86_64-linux-shared.tar.gz",
        "c-2.0.0-x86_64-linux-shared.tar.gz",
    ]);
    let mut cache = Cache::new("/tmp/store".to_string(), Vec::new());
    let env = Environment { os: OperatingSystem::Linux, arch: Arch::X86_64 };
    let resolver = Resolver::new(env, false);
    let manifest_a = simple_manifest("a", "1.0.0", Some(vec![("b", "^1.0.0@shared")]));
    let mut table = ManifestTable::new();

    let halt = resolver.resolve(&mut cache, &registry, &manifest_a, &table).unwrap_err();
    let b_path = match halt {
        CollectHalt::NeedManifest(p, _) => p,
        CollectHalt::Failed(e) => panic!("unexpected failure: {:?}", e),
    };
    table.insert(b_path, simple_manifest("b", "1.0.0", Some(vec![("c", "^2.0.0@shared")])));

    let halt = resolver.resolve(&mut cache, &registry, &manifest_a, &table).unwrap_err();
    let c_path = match halt {
        CollectHalt::NeedManifest(p, _) => p,
        CollectHalt::Failed(e) => panic!("unexpected failure: {:?}", e),
    };
    assert_eq!(c_path, "/tmp/store/c-2.0.0-x86_64-linux-shared.tar.gz");
    table.insert(c_path, simple_manifest("c", "2.0.0", None));

    let entries = resolver.resolve(&mut cache, &registry, &manifest_a, &table).unwrap();
    // the subtree comes before its parent
    assert_eq!(entries.len(), 2);
    assert_eq!(entries[0].dependency.name, "c");
    assert_eq!(entries[1].dependency.name, "b");
}

#[test]
fn missing_dependencies_abort_the_walk() {
    let registry = registry_with(&[]);
    let mut cache = Cache::new("/tmp/store".to_string(), Vec::new());
    let env = Environment { os: OperatingSystem::Linux, arch: Arch::X86_64 };
    let resolver = Resolver::new(env, false);
    let manifest = simple_manifest("a", "1.0.0", Some(vec![("b", "^1.0.0@shared")]));
    let table = ManifestTable::new();
    match resolver.resolve(&mut cache, &registry, &manifest, &table).unwrap_err() {
        CollectHalt::Failed(e) => assert_eq!(e, PuffError::DependencyNotFound),
        CollectHalt::NeedManifest(p, _) => panic!("unexpected halt on {}", p),
    }
}

#[test]
fn recipe_sections_are_selected_by_distribution() {
    let recipe = Recipe {
        static_toolchain: Some(Toolchain {
            toolchain: ToolchainSection { cmake: None, shell: Some(vec!["make".to_string()]) },
        }),
        shared_toolchain: None,
    };
    assert!(recipe.extract_toolchain(Distribution::Static).is_ok());
    assert_eq!(
        recipe.extract_toolchain(Distribution::Shared).unwrap_err(),
        PuffError::MissingToolchain
    );
    assert_eq!(
        recipe.extract_toolchain(Distribution::Sources).unwrap_err(),
        PuffError::UnsupportedDistribution
    );
}

#[test]
fn build_falls_back_to_the_other_linkage() {
    // a static build is asked for, but only the shared section exists
    let recipe = Recipe {
        static_toolchain: None,
        shared_toolchain: Some(Toolchain {
            toolchain: ToolchainSection { cmake: None, shell: Some(vec!["make".to_string()]) },
        }),
    };
    let config = Config {
        registry: RegistryConfig { list: Vec::new() },
        toolchain: ToolchainConfig::default(),
    };
    let env = Environment { os: OperatingSystem::Linux, arch: Arch::X86_64 };
    let resolver = Resolver::new(env, false);
    let e = entry("b", "=1.0.0", Distribution::Static, "p");
    let plan = resolver.build(&e, &recipe, &config, "/s", "/b").unwrap();
    assert_eq!(plan.effective_distribution, Distribution::Shared);

    let none = Recipe { static_toolchain: None, shared_toolchain: None };
    assert_eq!(
        resolver.build(&e, &none, &config, "/s", "/b").unwrap_err(),
        PuffError::MissingToolchain
    );

    let srcs = entry("b", "=1.0.0", Distribution::Sources, "p");
    assert_eq!(
        resolver.build(&srcs, &recipe, &config, "/s", "/b").unwrap_err(),
        PuffError::UnsupportedDistribution
    );
}

#[test]
fn cmake_configure_arguments_are_rendered_in_order() {
    let config = Config {
        registry: RegistryConfig { list: Vec::new() },
        toolchain: puff::config::ToolchainConfig {
            cmake: puff::config::CMakeConfig {
                configure_command: "cmake".to_string(),
                configure_additional_definitions: vec![(
                    "CMAKE_TOOLCHAIN_FILE".to_string(),
                    "cross.cmake".to_string(),
                )],
            },
        },
    };
    let tc = CMakeToolchain::new(&config);
    assert_eq!(tc.configure_command, "cmake");
    assert_eq!(tc.configure_additional_arguments, vec!["CMAKE_TOOLCHAIN_FILE=cross.cmake"]);
    let section = CMakeSection {
        generator: Some("Ninja".to_string()),
        definitions: Some(vec![("BUILD_SHARED_LIBS".to_string(), "ON".to_string())]),
    };
    let args = tc.configure_args(&section, "/src", "/bld");
    assert_eq!(
        args,
        vec![
            "-S",
            "/src",
            "-B",
            "/bld",
            "-D",
            "CMAKE_TOOLCHAIN_FILE=cross.cmake",
            "-DCMAKE_PREFIX_PATH=dependencies",
            "-GNinja",
            "-DBUILD_SHARED_LIBS=ON",
        ]
    );
}

#[test]
fn shell_plans_split_each_line() {
    let sh = ShellToolchain::new();
    let plan = sh
        .build_plan(&vec!["./configure --prefix '/opt/my dir'".to_string(), "make -j4".to_string()])
        .unwrap();
    assert_eq!(plan, vec![vec!["./configure", "--prefix", "/opt/my dir"], vec!["make", "-j4"]]);

    assert_eq!(
        sh.build_plan(&vec!["".to_string()]).unwrap_err(),
        PuffError::InvalidShellCommand
    );
    assert_eq!(
        sh.build_plan(&vec!["unterminated 'quote".to_string()]).unwrap_err(),
        PuffError::InvalidShellCommand
    );
}

#[test]
fn environment_overrides_win_over_detection() {
    let env = Environment::new(
        OperatingSystem::Linux,
        Arch::X86_64,
        Some(OperatingSystem::Windows),
        None,
    );
    assert_eq!(env.os, OperatingSystem::Windows);
    assert_eq!(env.arch, Arch::X86_64);
    assert_eq!(env.pretty_print(), "target os:   windows\ntarget arch: x86_64");
}

#[test]
fn version_ordering_is_lexicographic() {
    let a = Version(1, 2, 3);
    let b = Version(1, 3, 0);
    assert!(a.le(&b));
    assert!(!b.le(&a));
    assert!(a.le(&a));
    assert!(Version::lowest().le(&a));
    assert!(a.le(&Version::highest()));
}

#[test]
fn platform_labels_are_stable() {
    assert_eq!(PlatformArch::Windows64.to_short_string(), "win64");
    assert_eq!(PlatformArch::Linux64.to_short_string(), "lnx64");
    assert_eq!(PlatformArch::Any.to_short_string(), "*");
    assert_eq!(PlatformArch::Windows64.to_string(), "windows-x64");
    assert_eq!(puff::helper_types::Distribution::from_name("static-lib"), puff::helper_types::Distribution::Static);
    assert_eq!(puff::helper_types::Distribution::from_name("src"), puff::helper_types::Distribution::Sources);
    assert_eq!(puff::helper_types::Distribution::from_name("???"), puff::helper_types::Distribution::Unknown);
    let v = puff::helper_types::Version::new(1, 2, 3);
    assert!(puff::helper_types::Version::default().lt(&v));
}
