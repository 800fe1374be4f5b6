use vstd::prelude::*;

use crate::config::Config;
use crate::distribution::Distribution;
use crate::environment::Environment;
use crate::error::PuffError;

verus! {

/// CMake build settings of one recipe section: an optional generator and
/// `-D` definitions in declaration order.
#[derive(Debug)]
pub struct CMakeSection {
    pub generator: Option<String>,
    pub definitions: Option<Vec<(String, String)>>,
}

/// The instructions of one linkage: exactly one of the toolchains is
/// expected to be present.
#[derive(Debug)]
pub struct ToolchainSection {
    pub cmake: Option<CMakeSection>,
    pub shell: Option<Vec<String>>,
}

/// One linkage's build instructions.
#[derive(Debug)]
pub struct Toolchain {
    pub toolchain: ToolchainSection,
}

/// Per-distribution build instructions of a source package; present only on
/// packages that may need to be built.
#[derive(Debug)]
pub struct Recipe {
    pub static_toolchain: Option<Toolchain>,
    pub shared_toolchain: Option<Toolchain>,
}

impl Recipe {
    /// The toolchain section for a distribution: the section must be
    /// declared, and only the two linkages can be built.
    pub fn extract_toolchain(&self, distribution: Distribution) -> (r: Result<
        &ToolchainSection,
        PuffError,
    >)
        ensures
            distribution == Distribution::Static ==> {
                &&& (r is Ok <==> self.static_toolchain is Some)
                &&& (r matches Ok(t) ==> self.static_toolchain matches Some(tc) && *t
                    == tc.toolchain)
                &&& (r matches Err(e) ==> e == PuffError::MissingToolchain)
            },
            distribution == Distribution::Shared ==> {
                &&& (r is Ok <==> self.shared_toolchain is Some)
                &&& (r matches Ok(t) ==> self.shared_toolchain matches Some(tc) && *t
                    == tc.toolchain)
                &&& (r matches Err(e) ==> e == PuffError::MissingToolchain)
            },
            distribution == Distribution::Sources || distribution == Distribution::Unknown ==> r
                == Result::<&ToolchainSection, PuffError>::Err(PuffError::UnsupportedDistribution),
    {
        match distribution {
            Distribution::Static => match &self.static_toolchain {
                Some(t) => Ok(&t.toolchain),
                None => Err(PuffError::MissingToolchain),
            },
            Distribution::Shared => match &self.shared_toolchain {
                Some(t) => Ok(&t.toolchain),
                None => Err(PuffError::MissingToolchain),
            },
            _ => Err(PuffError::UnsupportedDistribution),
        }
    }
}

/// The build orchestrator's handle: the application configuration and the
/// build target it works against.
#[derive(Debug)]
pub struct Builder {
    pub config: Config,
    pub env: Environment,
}

impl Builder {
    pub fn new(config: Config, env: Environment) -> (r: Builder)
        ensures
            r.env == env,
    {
        Builder { config, env }
    }
}

} // verus!
