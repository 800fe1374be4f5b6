use vstd::prelude::*;

verus! {

/// The application configuration that the acquisition engine reads: the
/// configured remotes and the toolchain settings. Loading and saving it is
/// the surrounding application's business.
#[derive(Debug)]
pub struct Config {
    pub registry: RegistryConfig,
    pub toolchain: ToolchainConfig,
}

/// The configured remote registries, in priority order.
#[derive(Debug)]
pub struct RegistryConfig {
    pub list: Vec<RegistryData>,
}

/// One configured remote: its repository name, base URL, artifact layout
/// pattern, and optional basic-auth credentials.
#[derive(Debug)]
pub struct RegistryData {
    pub name: String,
    pub base_url: String,
    pub pattern: String,
    pub auth: Option<RegistryAuth>,
}

#[derive(Debug)]
pub struct RegistryAuth {
    pub username: String,
    pub password: String,
}

#[derive(Debug)]
pub struct ToolchainConfig {
    pub cmake: CMakeConfig,
}

/// CMake configure-step settings: the binary to run and additional `-D`
/// definitions, kept in declaration order.
#[derive(Debug)]
pub struct CMakeConfig {
    pub configure_command: String,
    pub configure_additional_definitions: Vec<(String, String)>,
}

impl Default for CMakeConfig {
    /// The default configure command is plain `cmake`, with no additional
    /// definitions.
    fn default() -> (r: CMakeConfig)
        ensures
            r.configure_command@ == "cmake"@,
            r.configure_additional_definitions@.len() == 0,
    {
        CMakeConfig {
            configure_command: "cmake".to_owned(),
            configure_additional_definitions: Vec::new(),
        }
    }
}

impl Default for ToolchainConfig {
    fn default() -> (r: ToolchainConfig)
        ensures
            r.cmake.configure_command@ == "cmake"@,
            r.cmake.configure_additional_definitions@.len() == 0,
    {
        ToolchainConfig { cmake: CMakeConfig::default() }
    }
}

impl Default for RegistryConfig {
    fn default() -> (r: RegistryConfig)
        ensures
            r.list@.len() == 0,
    {
        RegistryConfig { list: Vec::new() }
    }
}

impl Default for RegistryData {
    /// An unnamed remote with the canonical artifact layout pattern.
    fn default() -> (r: RegistryData)
        ensures
            r.name@.len() == 0,
            r.base_url@.len() == 0,
            r.pattern@ == "{name}/{name}-{major}.{minor}.{patch}-{arch}-{platform}-{dist}.tar.gz"@,
            r.auth is None,
    {
        RegistryData {
            name: String::new(),
            base_url: String::new(),
            pattern: "{name}/{name}-{major}.{minor}.{patch}-{arch}-{platform}-{dist}.tar.gz".to_owned(),
            auth: None,
        }
    }
}

impl Default for Config {
    fn default() -> (r: Config)
        ensures
            r.registry.list@.len() == 0,
            r.toolchain.cmake.configure_command@ == "cmake"@,
            r.toolchain.cmake.configure_additional_definitions@.len() == 0,
    {
        Config { registry: RegistryConfig::default(), toolchain: ToolchainConfig::default() }
    }
}

} // verus!
