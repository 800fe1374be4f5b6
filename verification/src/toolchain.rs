use vstd::prelude::*;
use vstd::string::StringExecFns;

use crate::config::Config;
use crate::error::PuffError;
use crate::recipe::CMakeSection;

verus! {

/// The words of a shell command line, split as a POSIX shell would; a
/// function of the line alone, or nothing where quoting is malformed.
pub uninterp spec fn shell_words_of(s: Seq<char>) -> Option<Seq<Seq<char>>>;

/// Relies on `shlex::split`: the POSIX-shell word split of the line, or
/// nothing when the line's quoting or escapes are erroneous.
#[verifier::external_body]
fn shlex_split(command: &str) -> (r: Option<Vec<String>>)
    ensures
        match (r, shell_words_of(command@)) {
            (Some(v), Some(s)) => v@.len() == s.len() && (forall|i: int|
                0 <= i < s.len() ==> #[trigger] v@[i]@ == s[i]),
            (None, None) => true,
            _ => false,
        },
{
    shlex::split(command)
}

/// The CMake configure invocation: the configure binary and the additional
/// `-D` definitions that the application configuration carries, as
/// `key=value` argument strings.
#[derive(Debug)]
pub struct CMakeToolchain {
    pub configure_command: String,
    pub configure_additional_arguments: Vec<String>,
}

/// The shape of a CMake configure-step argument list: source and build
/// directories, the configured additional definitions, the dependency
/// prefix path, then the recipe's generator and definitions.
pub open spec fn is_cmake_args(
    args: Seq<String>,
    additional: Seq<String>,
    generator: Option<String>,
    definitions: Seq<(String, String)>,
    source_directory: Seq<char>,
    build_directory: Seq<char>,
) -> bool {
    let n_add = additional.len() as int;
    let gen_count: int = if generator is Some {
        1
    } else {
        0
    };
    let base = 5 + 2 * n_add;
    let defbase = base + gen_count;
    &&& args.len() == defbase + definitions.len()
    &&& args[0]@ == "-S"@
    &&& args[1]@ == source_directory
    &&& args[2]@ == "-B"@
    &&& args[3]@ == build_directory
    &&& (forall|i: int|
        0 <= i < n_add ==> (#[trigger] args[4 + 2 * i])@ == "-D"@ && args[4 + 2 * i + 1]@
            == additional[i]@)
    &&& args[4 + 2 * n_add]@ == "-DCMAKE_PREFIX_PATH=dependencies"@
    &&& (generator matches Some(g) ==> args[base]@ == "-G"@ + g@)
    &&& (forall|i: int|
        0 <= i < definitions.len() ==> (#[trigger] args[defbase + i])@ == "-D"@ + definitions[i].0@
            + "="@ + definitions[i].1@)
}

impl CMakeToolchain {
    /// Reads the configure command and additional definitions from the
    /// application configuration, each rendered as `key=value`.
    pub fn new(config: &Config) -> (r: CMakeToolchain)
        ensures
            r.configure_command@ == config.toolchain.cmake.configure_command@,
            r.configure_additional_arguments@.len()
                == config.toolchain.cmake.configure_additional_definitions@.len(),
            forall|i: int|
                0 <= i < r.configure_additional_arguments@.len() ==> (
                #[trigger] r.configure_additional_arguments@[i])@ == (
                #[trigger] config.toolchain.cmake.configure_additional_definitions@[i]).0@ + "="@
                    + config.toolchain.cmake.configure_additional_definitions@[i].1@,
    {
        let defs = &config.toolchain.cmake.configure_additional_definitions;
        let n = defs.len();
        let mut out: Vec<String> = Vec::new();
        let mut i: usize = 0;
        while i < n
            invariant
                0 <= i <= n,
                n == defs@.len(),
                out@.len() == i,
                forall|j: int|
                    0 <= j < i ==> (#[trigger] out@[j])@ == (#[trigger] defs@[j]).0@ + "="@
                        + defs@[j].1@,
            decreases n - i,
        {
            let mut s = defs[i].0.clone();
            s.append("=");
            s.append(defs[i].1.as_str());
            out.push(s);
            i += 1;
        }
        CMakeToolchain {
            configure_command: config.toolchain.cmake.configure_command.clone(),
            configure_additional_arguments: out,
        }
    }

    /// The configure-step argument list for one recipe section.
    pub fn configure_args(
        &self,
        section: &CMakeSection,
        source_directory: &str,
        build_directory: &str,
    ) -> (r: Vec<String>)
        ensures
            is_cmake_args(
                r@,
                self.configure_additional_arguments@,
                section.generator,
                (match section.definitions {
                    Some(d) => d@,
                    None => Seq::empty(),
                }),
                source_directory@,
                build_directory@,
            ),
    {
        let mut args: Vec<String> = Vec::new();
        args.push("-S".to_owned());
        args.push(source_directory.to_owned());
        args.push("-B".to_owned());
        args.push(build_directory.to_owned());
        let n_add = self.configure_additional_arguments.len();
        let mut i: usize = 0;
        while i < n_add
            invariant
                0 <= i <= n_add,
                n_add == self.configure_additional_arguments@.len(),
                args@.len() == 4 + 2 * i,
                args@[0]@ == "-S"@,
                args@[1]@ == source_directory@,
                args@[2]@ == "-B"@,
                args@[3]@ == build_directory@,
                forall|j: int|
                    0 <= j < i ==> (#[trigger] args@[4 + 2 * j])@ == "-D"@ && args@[4 + 2 * j
                        + 1]@ == self.configure_additional_arguments@[j]@,
            decreases n_add - i,
        {
            args.push("-D".to_owned());
            args.push(self.configure_additional_arguments[i].clone());
            proof {
                assert(args@[4 + 2 * i as int]@ == "-D"@);
                assert(args@[4 + 2 * i as int + 1]@
                    == self.configure_additional_arguments@[i as int]@);
            }
            i += 1;
        }
        let ghost a1 = args@;
        args.push("-DCMAKE_PREFIX_PATH=dependencies".to_owned());
        proof {
            assert(forall|j: int| 0 <= j < a1.len() ==> args@[j] == a1[j]);
            assert(args@[4 + 2 * n_add as int]@ == "-DCMAKE_PREFIX_PATH=dependencies"@);
        }
        let ghost a2 = args@;
        match &section.generator {
            None => {},
            Some(g) => {
                let mut s = "-G".to_owned();
                s.append(g.as_str());
                args.push(s);
                proof {
                    assert(forall|j: int| 0 <= j < a2.len() ==> args@[j] == a2[j]);
                    assert(args@[5 + 2 * n_add as int]@ == "-G"@ + g@);
                }
            },
        }
        let ghost pre = args@;
        let ghost defbase = args@.len() as int;
        match &section.definitions {
            None => {},
            Some(defs) => {
                let n_defs = defs.len();
                let mut k: usize = 0;
                while k < n_defs
                    invariant
                        0 <= k <= n_defs,
                        n_defs == defs@.len(),
                        args@.len() == defbase + k,
                        defbase == pre.len(),
                        forall|j: int| 0 <= j < defbase ==> args@[j] == pre[j],
                        forall|j: int|
                            0 <= j < k ==> (#[trigger] args@[defbase + j])@ == "-D"@
                                + defs@[j].0@ + "="@ + defs@[j].1@,
                    decreases n_defs - k,
                {
                    let mut s = "-D".to_owned();
                    s.append(defs[k].0.as_str());
                    s.append("=");
                    s.append(defs[k].1.as_str());
                    args.push(s);
                    proof {
                        assert(args@[defbase + k as int]@ == "-D"@ + defs@[k as int].0@ + "="@
                            + defs@[k as int].1@);
                    }
                    k += 1;
                }
            },
        }
        proof {
            let add = self.configure_additional_arguments@;
            let n_add_i = add.len() as int;
            assert(forall|j: int| 0 <= j < defbase ==> args@[j] == pre[j]);
            assert(forall|j: int| 0 <= j < a2.len() ==> pre[j] == a2[j]);
            assert(args@[0]@ == "-S"@);
            assert(args@[1]@ == source_directory@);
            assert(args@[2]@ == "-B"@);
            assert(args@[3]@ == build_directory@);
            assert(args@[4 + 2 * n_add_i]@ == "-DCMAKE_PREFIX_PATH=dependencies"@);
            assert forall|i2: int| 0 <= i2 < n_add_i implies (#[trigger] args@[4 + 2 * i2])@
                == "-D"@ && args@[4 + 2 * i2 + 1]@ == add[i2]@ by {
                assert(a2[4 + 2 * i2] == a1[4 + 2 * i2]);
                assert(a2[4 + 2 * i2 + 1] == a1[4 + 2 * i2 + 1]);
                assert(args@[4 + 2 * i2] == a2[4 + 2 * i2]);
                assert(args@[4 + 2 * i2 + 1] == a2[4 + 2 * i2 + 1]);
            }
            if section.generator is Some {
                assert(args@[5 + 2 * n_add_i]@ == "-G"@ + (section.generator->0)@);
            }
        }
        args
    }
}

/// Every recipe line splits into at least one word.
pub open spec fn shell_plan_possible(commands: Seq<String>) -> bool {
    forall|k: int|
        0 <= k < commands.len() ==> shell_words_of((#[trigger] commands[k])@) is Some
            && shell_words_of(commands[k]@)->0.len() >= 1
}

/// The split plan matches the recipe lines word for word.
pub open spec fn is_shell_plan(p: Seq<Vec<String>>, commands: Seq<String>) -> bool {
    &&& p.len() == commands.len()
    &&& (forall|k: int|
        0 <= k < p.len() ==> (#[trigger] p[k])@.len() == shell_words_of(commands[k]@)->0.len())
    &&& (forall|k: int, j: int|
        0 <= k < p.len() && 0 <= j < p[k]@.len() ==> (#[trigger] p[k]@[j])@ == shell_words_of(
            commands[k]@,
        )->0[j])
}

/// The shell toolchain: recipe lines are split into words and executed in
/// order inside the source directory; splitting and validation live here,
/// execution is the surrounding application's business.
#[derive(Debug)]
pub struct ShellToolchain;

impl ShellToolchain {
    pub fn new() -> (r: ShellToolchain) {
        ShellToolchain
    }

    /// Splits every recipe line into an argument vector; a line that cannot
    /// be split, or splits into no words at all, is an invalid command.
    pub fn build_plan(&self, commands: &Vec<String>) -> (r: Result<Vec<Vec<String>>, PuffError>)
        ensures
            r is Ok <==> shell_plan_possible(commands@),
            r matches Ok(p) ==> is_shell_plan(p@, commands@),
            r matches Err(e) ==> e == PuffError::InvalidShellCommand,
    {
        let n = commands.len();
        let mut out: Vec<Vec<String>> = Vec::new();
        let mut k: usize = 0;
        while k < n
            invariant
                0 <= k <= n,
                n == commands@.len(),
                out@.len() == k,
                forall|m: int|
                    0 <= m < k ==> shell_words_of((#[trigger] commands@[m])@) is Some
                        && shell_words_of(commands@[m]@)->0.len() >= 1,
                forall|m: int|
                    0 <= m < k ==> (#[trigger] out@[m])@.len() == shell_words_of(
                        commands@[m]@,
                    )->0.len(),
                forall|m: int, j: int|
                    0 <= m < k && 0 <= j < out@[m]@.len() ==> (#[trigger] out@[m]@[j])@
                        == shell_words_of(commands@[m]@)->0[j],
            decreases n - k,
        {
            let words = match shlex_split(commands[k].as_str()) {
                Some(w) => w,
                None => {
                    return Err(PuffError::InvalidShellCommand);
                },
            };
            if words.len() == 0 {
                return Err(PuffError::InvalidShellCommand);
            }
            out.push(words);
            k += 1;
        }
        Ok(out)
    }
}

} // verus!
