//! The workspace configuration, once it has been read.

use vstd::prelude::*;
use crate::job::Job;
use crate::job_id::JobId;
use crate::jobs::{declares, reports, sound, GraphError, Jobs};
use crate::text::{eq_ignore_ascii_case, same_ignoring_ascii_case};
use crate::variables::Variable;

verus! {

/// The kind of system the run takes place on.
#[derive(Debug, Clone, Copy, PartialEq, Eq, Structural)]
pub enum Platform {
    Windows,
    Linux,
    Macos,
    Other,
}

/// The configuration as it is written down.
#[derive(Debug, Clone, PartialEq, Eq)]
pub struct RawConfig {
    /// The jobs, in the order in which they are defined.
    pub jobs: Vec<Job>,
    /// The jobs to run when none is asked for.
    pub default_jobs: Vec<JobId>,
    /// The environment variables to take over, on every platform.
    pub passthrough_env_variables: Vec<String>,
    /// More environment variables to take over on Windows.
    pub passthrough_env_variables_windows: Vec<String>,
    /// More environment variables to take over on Linux.
    pub passthrough_env_variables_linux: Vec<String>,
    /// More environment variables to take over on macOS.
    pub passthrough_env_variables_macos: Vec<String>,
    /// The variables of the workspace.
    pub variables: Vec<Variable>,
}

/// Why a configuration was refused.
#[derive(Debug, Clone, PartialEq, Eq)]
pub enum ConfigError {
    /// The jobs are no job graph.
    Jobs(GraphError),
    /// `job` is to run by default, and there is no job of that name.
    UnknownDefaultJob { job: JobId },
}

impl ConfigError {
    /// The error in words.
    pub open spec fn message_text(&self) -> Seq<char> {
        match self {
            ConfigError::Jobs(error) => error.message_text(),
            ConfigError::UnknownDefaultJob { job } => "default job '"@ + job@
                + "' is not defined in the [jobs] section"@,
        }
    }

    /// The error in words.
    pub fn message(&self) -> (r: String)
        ensures
            r@ == self.message_text(),
    {
        match self {
            ConfigError::Jobs(error) => error.message(),
            ConfigError::UnknownDefaultJob { job } => "default job '".to_owned().concat(
                job.as_str(),
            ).concat("' is not defined in the [jobs] section"),
        }
    }
}

/// The names of the environment variables that `platform` adds to those
/// taken over everywhere.
pub open spec fn platform_names(raw: RawConfig, platform: Platform) -> Seq<String> {
    match platform {
        Platform::Windows => raw.passthrough_env_variables_windows@,
        Platform::Linux => raw.passthrough_env_variables_linux@,
        Platform::Macos => raw.passthrough_env_variables_macos@,
        Platform::Other => Seq::empty(),
    }
}

/// The checked configuration of a workspace.
#[derive(Debug)]
pub struct Config {
    jobs: Jobs,
    passthrough_env_variables: Vec<String>,
    default_jobs: Vec<JobId>,
    variables: Vec<Variable>,
}

impl Config {
    /// The job graph.
    pub closed spec fn graph(&self) -> Jobs {
        self.jobs
    }

    /// The names of the environment variables to take over.
    pub closed spec fn allowed(&self) -> Seq<String> {
        self.passthrough_env_variables@
    }

    /// The jobs to run when none is asked for.
    pub closed spec fn defaults(&self) -> Seq<JobId> {
        self.default_jobs@
    }

    /// The variables of the workspace.
    pub closed spec fn workspace_variables(&self) -> Seq<Variable> {
        self.variables@
    }

    /// What every configuration that [`Config::new`] hands out meets: its
    /// jobs are a graph, and its default jobs are jobs of it.
    pub open spec fn wf(&self) -> bool {
        &&& self.graph().wf()
        &&& forall|k: int|
            0 <= k < self.defaults().len() ==> declares(
                self.graph()@,
                (#[trigger] self.defaults()[k])@,
            )
    }

    /// Checks a configuration for `platform`.
    ///
    /// The jobs have to be sound and every default job has to exist. The
    /// environment variables to take over are those named for every
    /// platform, followed by those named for `platform`.
    pub fn new(raw: RawConfig, platform: Platform) -> (r: Result<Config, ConfigError>)
        ensures
            r is Ok <==> sound(raw.jobs@) && forall|k: int|
                0 <= k < raw.default_jobs@.len() ==> declares(
                    raw.jobs@,
                    (#[trigger] raw.default_jobs@[k])@,
                ),
            match r {
                Ok(config) => {
                    &&& config.wf()
                    &&& config.graph()@ == raw.jobs@
                    &&& config.defaults() == raw.default_jobs@
                    &&& config.workspace_variables() == raw.variables@
                    &&& config.allowed() == raw.passthrough_env_variables@ + platform_names(
                        raw,
                        platform,
                    )
                },
                Err(ConfigError::Jobs(error)) => reports(raw.jobs@, error),
                Err(ConfigError::UnknownDefaultJob { job }) => sound(raw.jobs@) && exists|k: int|
                    {
                        &&& 0 <= k < raw.default_jobs@.len()
                        &&& job@ == (#[trigger] raw.default_jobs@[k])@
                        &&& !declares(raw.jobs@, job@)
                        &&& forall|e: int|
                            0 <= e < k ==> declares(raw.jobs@, (#[trigger] raw.default_jobs@[e])@)
                    },
            },
    {
        let ghost given = raw;
        let RawConfig {
            jobs,
            default_jobs,
            passthrough_env_variables,
            passthrough_env_variables_windows,
            passthrough_env_variables_linux,
            passthrough_env_variables_macos,
            variables,
        } = raw;
        let graph = match Jobs::new(jobs) {
            Ok(graph) => graph,
            Err(error) => {
                return Err(ConfigError::Jobs(error));
            },
        };
        let mut k: usize = 0;
        while k < default_jobs.len()
            invariant
                k <= default_jobs@.len(),
                graph@ == given.jobs@,
                graph.wf(),
                given == raw,
                sound(given.jobs@),
                default_jobs@ == given.default_jobs@,
                forall|e: int|
                    0 <= e < k ==> declares(given.jobs@, (#[trigger] default_jobs@[e])@),
            decreases default_jobs@.len() - k,
        {
            if graph.get_job(&default_jobs[k]).is_none() {
                assert(!declares(given.jobs@, given.default_jobs@[k as int]@));
                return Err(ConfigError::UnknownDefaultJob { job: default_jobs[k].clone() });
            }
            k += 1;
        }
        let more = match platform {
            Platform::Windows => passthrough_env_variables_windows,
            Platform::Linux => passthrough_env_variables_linux,
            Platform::Macos => passthrough_env_variables_macos,
            Platform::Other => Vec::new(),
        };
        let mut allowed = passthrough_env_variables;
        let ghost everywhere = allowed@;
        let mut i: usize = 0;
        while i < more.len()
            invariant
                i <= more@.len(),
                allowed@ == everywhere + more@.take(i as int),
            decreases more@.len() - i,
        {
            allowed.push(more[i].clone());
            assert(more@.take(i + 1) =~= more@.take(i as int).push(more@[i as int]));
            i += 1;
        }
        assert(more@.take(i as int) =~= more@);
        Ok(
            Config {
                jobs: graph,
                passthrough_env_variables: allowed,
                default_jobs,
                variables,
            },
        )
    }

    /// The job graph.
    pub fn jobs(&self) -> (r: &Jobs)
        ensures
            *r == self.graph(),
    {
        &self.jobs
    }

    /// The names of the environment variables to take over.
    pub fn passthrough_env_variables(&self) -> (r: &Vec<String>)
        ensures
            r@ == self.allowed(),
    {
        &self.passthrough_env_variables
    }

    /// The jobs to run when none is asked for.
    pub fn default_jobs(&self) -> (r: &Vec<JobId>)
        ensures
            r@ == self.defaults(),
    {
        &self.default_jobs
    }

    /// The variables of the workspace.
    pub fn variables(&self) -> (r: &[Variable])
        ensures
            r@ == self.workspace_variables(),
    {
        self.variables.as_slice()
    }
}

impl Default for Config {
    fn default() -> (r: Self)
        ensures
            r.wf(),
            r.graph()@.len() == 0,
            r.allowed().len() == 0,
            r.defaults().len() == 0,
            r.workspace_variables().len() == 0,
    {
        Config {
            jobs: Jobs::default(),
            passthrough_env_variables: Vec::new(),
            default_jobs: Vec::new(),
            variables: Vec::new(),
        }
    }
}

/// Whether names of environment variables are compared without regard to
/// the case of letters.
pub open spec fn ignores_case(platform: Platform) -> bool {
    platform == Platform::Windows
}

/// Whether `name` is among the names `allowed`.
pub open spec fn is_allowed(name: Seq<char>, allowed: Seq<String>, platform: Platform) -> bool {
    exists|i: int|
        0 <= i < allowed.len() && if ignores_case(platform) {
            same_ignoring_ascii_case((#[trigger] allowed[i])@, name)
        } else {
            allowed[i]@ == name
        }
}

/// The variables among the first `upto` of `environment` that are taken
/// over: all of them where no name is given, else those whose name is
/// among `allowed`.
pub open spec fn imported(
    environment: Seq<Variable>,
    allowed: Seq<String>,
    platform: Platform,
    upto: int,
) -> Seq<Variable>
    decreases upto,
{
    if upto <= 0 {
        Seq::empty()
    } else {
        let before = imported(environment, allowed, platform, upto - 1);
        let entry = environment[upto - 1];
        if allowed.len() == 0 || is_allowed(entry.name@, allowed, platform) {
            before.push(entry)
        } else {
            before
        }
    }
}

/// Whether `name` is among the names `allowed`.
pub fn check_allowed(name: &String, allowed: &[String], platform: Platform) -> (r: bool)
    ensures
        r == is_allowed(name@, allowed@, platform),
{
    let fold = match platform {
        Platform::Windows => true,
        _ => false,
    };
    let mut i: usize = 0;
    while i < allowed.len()
        invariant
            i <= allowed@.len(),
            fold == ignores_case(platform),
            forall|k: int|
                0 <= k < i ==> !(if fold {
                    same_ignoring_ascii_case((#[trigger] allowed@[k])@, name@)
                } else {
                    allowed@[k]@ == name@
                }),
        decreases allowed@.len() - i,
    {
        let same = if fold {
            eq_ignore_ascii_case(allowed[i].as_str(), name.as_str())
        } else {
            allowed[i] == *name
        };
        if same {
            return true;
        }
        i += 1;
    }
    false
}

/// Filters the process environment: only variables whose name is among
/// `allowed` are taken over, in their order; where no name is given, all of
/// them are. On Windows the case of letters in names is not regarded.
pub fn import_environment(environment: &[Variable], allowed: &[String], platform: Platform) -> (r:
    Vec<Variable>)
    ensures
        r@ == imported(environment@, allowed@, platform, environment@.len() as int),
{
    let mut taken: Vec<Variable> = Vec::new();
    let mut i: usize = 0;
    while i < environment.len()
        invariant
            i <= environment@.len(),
            taken@ == imported(environment@, allowed@, platform, i as int),
        decreases environment@.len() - i,
    {
        let entry = &environment[i];
        if allowed.len() == 0 || check_allowed(&entry.name, allowed, platform) {
            taken.push(entry.clone());
        }
        i += 1;
    }
    taken
}

/// A format a configuration can be written in.
#[derive(Debug, Clone, Copy, PartialEq, Eq, Structural)]
pub enum ConfigFormat {
    Toml,
    Yaml,
    Json,
}

/// The format that a file name extension stands for.
pub open spec fn format_for(extension: Seq<char>) -> Option<ConfigFormat> {
    if extension == "toml"@ {
        Some(ConfigFormat::Toml)
    } else if extension == "yml"@ || extension == "yaml"@ {
        Some(ConfigFormat::Yaml)
    } else if extension == "json"@ {
        Some(ConfigFormat::Json)
    } else {
        None
    }
}

/// The format of a configuration file with the given extension; `None` for
/// an extension that stands for no format.
pub fn format_of(extension: &str) -> (r: Option<ConfigFormat>)
    ensures
        r == format_for(extension@),
{
    let given = extension.to_owned();
    if given == "toml".to_owned() {
        Some(ConfigFormat::Toml)
    } else if given == "yml".to_owned() || given == "yaml".to_owned() {
        Some(ConfigFormat::Yaml)
    } else if given == "json".to_owned() {
        Some(ConfigFormat::Json)
    } else {
        None
    }
}

} // verus!
