use puff::arch::Arch;
use puff::artifactory::{push_plan, verify_checksum, Artifactory, Entry, Registry};
use puff::cache::Cache;
use puff::config::{Config, RegistryAuth, RegistryConfig, RegistryData, ToolchainConfig};
use puff::dependency::Dependency;
use puff::distribution::Distribution;
use puff::environment::Environment;
use puff::error::PuffError;
use puff::os::OperatingSystem;
use puff::resolver::Resolver;
use puff::version::{Version, VersionRange};

fn one_remote_config() -> Config {
    Config {
        registry: RegistryConfig {
            list: vec![RegistryData {
                name: "main".to_string(),
                base_url: "http://remote.example".to_string(),
                pattern: "{name}/{name}-{major}.{minor}.{patch}-{arch}-{platform}-{dist}.tar.gz"
                    .to_string(),
                auth: Some(RegistryAuth {
                    username: "guest".to_string(),
                    password: "guest".to_string(),
                }),
            }],
        },
        toolchain: ToolchainConfig::default(),
    }
}

fn query(name: &str, range: &str, dist: Distribution) -> Dependency {
    Dependency::new(
        name.to_string(),
        VersionRange::from_str(range).unwrap(),
        Arch::X86_64,
        OperatingSystem::Linux,
        dist,
    )
}

#[test]
fn artifactory_urls_follow_the_configuration() {
    let config = one_remote_config();
    let a = Artifactory::new(&config, "main").unwrap();
    assert_eq!(a.name, "main");
    assert_eq!(
        a.url_format,
        "http://remote.example/main/{name}/{name}-{major}.{minor}.{patch}-{arch}-{platform}-{dist}.tar.gz"
    );
    assert_eq!(
        a.url_api_format,
        "http://remote.example/api/storage/main/{name}/{name}-{major}.{minor}.{patch}-{arch}-{platform}-{dist}.tar.gz"
    );
    assert_eq!(a.url_ping, "http://remote.example/main");
    assert_eq!(a.url_aql, "http://remote.example/api/search/aql");
    assert_eq!(a.username.as_deref(), Some("guest"));

    assert_eq!(Artifactory::new(&config, "absent").unwrap_err(), PuffError::NoSuchRegistry);
}

#[test]
fn sync_aql_decodes_the_listing() {
    let config = one_remote_config();
    let mut registry = Registry::new(&config).unwrap();
    let raw = r#"{"results":[
        {"repo":"main","path":"fmt","name":"fmt-2.0.0-x86_64-linux-shared.tar.gz","type":"file","size":10,"created":"2024"},
        {"repo":"main","path":"fmt","name":"fmt-1.0.0-x86_64-linux-shared.tar.gz","type":"file","size":10,"created":"2023"}
    ]}"#;
    let n = registry.remotes[0].sync_aql(raw, false).unwrap();
    assert_eq!(n, 2);
    assert_eq!(registry.remotes[0].available_packages.len(), 2);
    assert_eq!(registry.remotes[0].available_packages[0].dependency.name, "fmt");
    assert_eq!(
        registry.remotes[0].available_packages[0].url,
        "http://remote.example/main/fmt/fmt-2.0.0-x86_64-linux-shared.tar.gz"
    );

    // the second sync is lazy and keeps the listing
    let n = registry.remotes[0].sync_aql(r#"{"results":[]}"#, true).unwrap();
    assert_eq!(n, 2);
    assert_eq!(registry.remotes[0].available_packages.len(), 2);

    // a malformed answer is a registry failure
    let mut fresh = Registry::new(&config).unwrap();
    assert_eq!(
        fresh.remotes[0].sync_aql("not json", false).unwrap_err(),
        PuffError::RegistryUnreachable
    );

    // a listing with an undecodable artifact name is rejected
    let mut fresh = Registry::new(&config).unwrap();
    let bad = r#"{"results":[{"name":"what is this"}]}"#;
    assert_eq!(fresh.remotes[0].sync_aql(bad, false).unwrap_err(), PuffError::InvalidPackageName);
}

#[test]
fn registry_picks_the_latest_satisfying_version() {
    let config = one_remote_config();
    let mut registry = Registry::new(&config).unwrap();
    let raw = r#"{"results":[
        {"name":"fmt-1.0.0-x86_64-linux-shared.tar.gz"},
        {"name":"fmt-2.1.0-x86_64-linux-shared.tar.gz"},
        {"name":"fmt-2.0.0-x86_64-linux-shared.tar.gz"},
        {"name":"spdlog-9.0.0-x86_64-linux-shared.tar.gz"}
    ]}"#;
    registry.remotes[0].sync_aql(raw, false).unwrap();
    let q = query("fmt", "^1.0.0", Distribution::Shared);
    assert!(registry.contains(&q));
    let (idx, entry) = registry.get(&q, false).unwrap();
    assert_eq!(idx, 0);
    assert_eq!(entry.dependency.version, VersionRange::from_str("=2.1.0").unwrap());

    let missing = query("abseil", "^1.0.0", Distribution::Shared);
    assert!(!registry.contains(&missing));
    assert_eq!(registry.get(&missing, true).unwrap_err(), PuffError::PackageNotFound);
}

#[test]
fn cache_lookup_prefers_the_highest_version() {
    let cache = Cache::new(
        "/tmp/store".to_string(),
        vec![
            "fmt-1.0.0-x86_64-linux-shared.tar.gz".to_string(),
            "fmt-1.9.0-x86_64-linux-shared.tar.gz".to_string(),
            "fmt-1.4.0-x86_64-linux-shared.tar.gz".to_string(),
        ],
    );
    let q = query("fmt", "^1.0.0", Distribution::Shared);
    let best = cache.latest_satisfied(&q, false).unwrap();
    assert_eq!(best.version, VersionRange::from_str("=1.9.0").unwrap());
    let path = cache.get(&q, false).unwrap();
    assert_eq!(path, "/tmp/store/fmt-1.9.0-x86_64-linux-shared.tar.gz");
    assert!(cache.contains(&q, false));

    let miss = query("spdlog", "^1.0.0", Distribution::Shared);
    assert_eq!(cache.get(&miss, false).unwrap_err(), PuffError::CacheMiss);
    assert!(!cache.contains(&miss, true));
}

#[test]
fn cache_falls_back_to_sources_only_when_allowed() {
    let cache = Cache::new(
        "/tmp/store".to_string(),
        vec!["fmt-1.2.0-unknown-unknown-sources.tar.gz".to_string()],
    );
    let q = query("fmt", "^1.0.0", Distribution::Shared);
    assert_eq!(cache.get(&q, false).unwrap_err(), PuffError::CacheMiss);
    let path = cache.get(&q, true).unwrap();
    assert_eq!(path, "/tmp/store/fmt-1.2.0-unknown-unknown-sources.tar.gz");
}

#[test]
fn cache_put_admits_only_canonical_names() {
    let mut cache = Cache::new("/tmp/store".to_string(), Vec::new());
    assert_eq!(
        cache.put("whatever.txt".to_string()).unwrap_err(),
        PuffError::InvalidPackageName
    );
    cache.put("fmt-1.0.0-x86_64-linux-shared.tar.gz".to_string()).unwrap();
    let q = query("fmt", "=1.0.0", Distribution::Shared);
    assert!(cache.contains(&q, false));
}

#[test]
fn cache_size_check_is_a_soft_threshold() {
    assert!(!Cache::check_cache_total_size(512 * 1024 * 1024));
    assert!(Cache::check_cache_total_size(512 * 1024 * 1024 + 1));
}

#[test]
fn get_or_download_fetches_once() {
    let config = one_remote_config();
    let mut registry = Registry::new(&config).unwrap();
    registry.remotes[0]
        .sync_aql(r#"{"results":[{"name":"fmt-1.0.0-x86_64-linux-shared.tar.gz"}]}"#, false)
        .unwrap();
    let mut cache = Cache::new("/tmp/store".to_string(), Vec::new());
    let q = query("fmt", "^1.0.0", Distribution::Shared);

    let first = cache.get_or_download(&q, false, &registry).unwrap();
    let req = first.download.expect("the first call must fetch");
    assert_eq!(req.remote_index, 0);
    assert_eq!(req.entry.url, "http://remote.example/main/fmt/fmt-1.0.0-x86_64-linux-shared.tar.gz");
    assert_eq!(first.archive_path, "/tmp/store/fmt-1.0.0-x86_64-linux-shared.tar.gz");

    let second = cache.get_or_download(&q, false, &registry).unwrap();
    assert!(second.download.is_none(), "the second call must not fetch");
    assert_eq!(second.archive_path, first.archive_path);
}

#[test]
fn tier_priority_prefers_remote_binaries_over_cached_sources() {
    // the dependency is present both as cached sources and as a remote binary
    let config = one_remote_config();
    let mut registry = Registry::new(&config).unwrap();
    registry.remotes[0]
        .sync_aql(r#"{"results":[{"name":"fmt-1.5.0-x86_64-linux-shared.tar.gz"}]}"#, false)
        .unwrap();
    let mut cache = Cache::new(
        "/tmp/store".to_string(),
        vec!["fmt-1.5.0-unknown-unknown-sources.tar.gz".to_string()],
    );
    let resolver = Resolver::new(
        Environment { os: OperatingSystem::Linux, arch: Arch::X86_64 },
        false,
    );
    let q = query("fmt", "^1.0.0", Distribution::Shared);
    let (entry, download) = resolver.try_get(&mut cache, &registry, &q).unwrap();
    let req = download.expect("the remote binary wins, so a fetch is owed");
    assert_eq!(req.entry.dependency.distribution, Distribution::Shared);
    assert!(!entry.require_build, "a binary needs no build");
    assert_eq!(entry.dependency.version, VersionRange::from_str("=1.5.0").unwrap());
    assert_eq!(entry.dependency.distribution, Distribution::Shared);
}

#[test]
fn try_get_reports_what_none_can_satisfy() {
    let config = one_remote_config();
    let registry = Registry::new(&config).unwrap();
    let mut cache = Cache::new("/tmp/store".to_string(), Vec::new());
    let resolver = Resolver::new(
        Environment { os: OperatingSystem::Linux, arch: Arch::X86_64 },
        false,
    );
    let q = query("fmt", "^1.0.0", Distribution::Shared);
    assert_eq!(
        resolver.try_get(&mut cache, &registry, &q).unwrap_err(),
        PuffError::DependencyNotFound
    );
}

#[test]
fn checksums_are_compared_against_the_storage_answer() {
    // the digest of the empty byte string
    let data: Vec<u8> = Vec::new();
    let good = r#"{"checksums":{"md5":"d41d8cd98f00b204e9800998ecf8427e"}}"#;
    assert_eq!(verify_checksum(&data, good, true).unwrap(), true);

    let bad = r#"{"checksums":{"md5":"00000000000000000000000000000000"}}"#;
    assert_eq!(verify_checksum(&data, bad, false).unwrap(), false);
    assert_eq!(verify_checksum(&data, bad, true).unwrap_err(), PuffError::ChecksumMismatch);

    let absent = r#"{"other":1}"#;
    assert_eq!(verify_checksum(&data, absent, false).unwrap_err(), PuffError::RegistryUnreachable);

    let data = b"hello world".to_vec();
    let hello = r#"{"checksums":{"md5":"5eb63bbbe01eeed093cb22bb8f5acdc3"}}"#;
    assert_eq!(verify_checksum(&data, hello, true).unwrap(), true);
}

#[test]
fn push_is_skipped_for_existing_artifacts_unless_forced() {
    assert!(push_plan(false, false));
    assert!(push_plan(false, true));
    assert!(!push_plan(true, false));
    assert!(push_plan(true, true));
}

#[test]
fn registry_entry_urls_are_formatted_once() {
    let dep = Dependency::new(
        "fmt".to_string(),
        VersionRange::from_str("=1.2.3").unwrap(),
        Arch::X86_64,
        OperatingSystem::Linux,
        Distribution::Shared,
    );
    let e = Entry::new(dep, "{name}/{major}.{minor}.{patch}/{arch}-{platform}-{dist}", "api/{name}").unwrap();
    assert_eq!(e.url, "fmt/1.2.3/x86_64-linux-shared");
    assert_eq!(e.api_url, "api/fmt");

    let dep = Dependency::new(
        "fmt".to_string(),
        VersionRange::from_str("=1.2.3").unwrap(),
        Arch::X86_64,
        OperatingSystem::Linux,
        Distribution::Shared,
    );
    assert_eq!(Entry::new(dep, "{nope}", "x").unwrap_err(), PuffError::UrlFormatError);
}

#[test]
fn ping_all_fails_on_any_unreachable_remote() {
    let config = one_remote_config();
    let registry = Registry::new(&config).unwrap();
    assert!(registry.ping_all(&vec![true]).is_ok());
    assert_eq!(registry.ping_all(&vec![false]).unwrap_err(), PuffError::RegistryUnreachable);
}

#[test]
fn cache_ties_resolve_to_the_last_listed_file() {
    // two equally-new artifacts satisfy the relaxed query; the tie-break is
    // pinned to the last listed file, so repeated lookups agree
    let cache = Cache::new(
        "/tmp/store".to_string(),
        vec![
            "fmt-1.0.0-aarch64-linux-shared.tar.gz".to_string(),
            "fmt-1.0.0-loongarch64-linux-shared.tar.gz".to_string(),
        ],
    );
    let q = query("fmt", "^1.0.0", Distribution::Shared);
    let path = cache.get(&q, true).unwrap();
    assert_eq!(path, "/tmp/store/fmt-1.0.0-loongarch64-linux-shared.tar.gz");
    assert_eq!(cache.get(&q, true).unwrap(), path);
}
