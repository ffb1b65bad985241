//! Job orchestration for multi-package workspaces.
//!
//! A workspace defines jobs: ordered steps, each a shell command, with
//! dependencies between jobs, conditions, and variables. This library holds
//! what decides a run:
//!
//! - [`jobs`] is the job graph. Building it checks the jobs; it orders them so
//!   that dependencies come first and collects what a job needs. [`graph`]
//!   has the algorithms, over node indices.
//! - [`expression`] and [`modifier_expression`] are the two condition
//!   languages: expressions over variables, and boolean algebra over the
//!   modifier flags of a package.
//! - [`variables`] layers variables by scope, with the precedence that each
//!   kind of evaluation has.
//! - [`plan`] plans each step of a job, [`job_run`] keeps the state of the job
//!   while the commands are executed, and [`run`] runs jobs on a host;
//!   [`selection`] and [`package`] pick the jobs and packages of a run.
//! - [`job_result`] sums up the outcomes of a run.
//!
//! Nothing here reads files, spawns processes or prints: the caller hands in
//! the configuration, the packages and the environment as plain values, and
//! gets plans and results back.

pub mod args;
pub mod color_modes;
pub mod config;
pub mod expression;
pub mod graph;
pub mod host;
pub mod install_key;
pub mod job;
pub mod job_id;
pub mod job_result;
pub mod job_run;
pub mod jobs;
pub mod list_jobs;
pub mod modifier_expression;
pub mod package;
pub mod package_config;
pub mod plan;
pub mod retention;
pub mod run;
pub mod selection;
pub mod step;
pub mod step_id;
pub mod text;
pub mod tool;
pub mod tool_id;
pub mod variables;
pub mod version;
