use vstd::prelude::*;

use crate::arch::Arch;
use crate::distribution::Distribution;
use crate::os::OperatingSystem;

verus! {

/// The command line as plain data. Parsing the real process arguments into
/// these values is the surrounding application's business; the library only
/// acts on what was asked for.
#[derive(Debug)]
pub struct Args {
    pub command: Option<Command>,
    pub version: bool,
}

/// The major subcommands.
#[derive(Debug)]
pub enum Command {
    Install(InstallArgs),
    Registry(RegistryCommand),
    Toolchain(ToolchainCommand),
    Pack(PackArgs),
    Publish(PublishArgs),
    Purge(PurgeArgs),
}

/// Adding, removing or listing configured remotes.
#[derive(Debug)]
pub enum RegistryCommand {
    Add(RegistryAddArgs),
    Remove(RegistryRemoveArgs),
    List,
}

#[derive(Debug)]
pub struct RegistryAddArgs {
    pub name: String,
    pub url: String,
    pub pattern: Option<String>,
    pub username: Option<String>,
    pub token: Option<String>,
}

#[derive(Debug)]
pub struct RegistryRemoveArgs {
    pub name: String,
}

/// Toolchain settings subcommands.
#[derive(Debug)]
pub enum ToolchainCommand {
    Cmake(ToolchainCmakeArgs),
}

#[derive(Debug)]
pub struct ToolchainCmakeArgs {
    pub configure_command: Option<String>,
    pub configure_args: Option<Vec<String>>,
}

#[derive(Debug)]
pub struct BuildArgs {
    pub folder: Option<String>,
    pub dist: Distribution,
}

#[derive(Debug)]
pub struct InstallArgs {
    pub folder: Option<String>,
    pub os: Option<OperatingSystem>,
    pub arch: Option<Arch>,
    pub fresh: bool,
    pub exact_version: bool,
}

#[derive(Debug)]
pub struct PackArgs {
    pub folder: Option<String>,
    pub output: Option<String>,
}

#[derive(Debug)]
pub struct PublishArgs {
    pub folder: Option<String>,
    pub dist: Option<Distribution>,
    pub name: String,
    pub arch: Option<Arch>,
    pub os: Option<OperatingSystem>,
    pub force: bool,
}

#[derive(Debug)]
pub struct PurgeArgs {
    pub all: bool,
    pub cache: bool,
    pub config: bool,
}

} // verus!
