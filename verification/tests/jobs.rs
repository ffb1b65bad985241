use cargo_ci::expression::{Conditional, ContinueOnError};
use cargo_ci::job::Job;
use cargo_ci::job_id::JobId;
use cargo_ci::jobs::{find_job, GraphError, Jobs};
use cargo_ci::step::Step;
use cargo_ci::step_id::StepId;
use cargo_ci::tool_id::ToolId;

fn id(name: &str) -> JobId {
    JobId::new(name.to_string())
}

fn job(name: &str, needs: &[&str]) -> Job {
    let mut job = Job::new(id(name), vec![Step::from("true")]);
    job.needs = needs.iter().map(|n| id(n)).collect();
    job
}

fn step_with_id(command: &str, step_id: Option<&str>) -> Step {
    Step::Extended {
        command: command.to_string(),
        name: None,
        id: step_id.map(|s| StepId::new(s.to_string())),
        conditional: Conditional::Bool(true),
        continue_on_error: ContinueOnError::Bool(false),
        per_package: false,
        modifiers: None,
        working_directory: None,
        variables: vec![],
    }
}

fn graph(jobs: Vec<Job>) -> Jobs {
    Jobs::new(jobs).unwrap()
}

fn names(ids: &[&JobId]) -> Vec<String> {
    ids.iter().map(|i| i.as_str().to_string()).collect()
}

fn position(order: &[String], name: &str) -> usize {
    order.iter().position(|n| n == name).unwrap()
}

#[test]
fn identifiers_keep_their_text() {
    assert_eq!(id("build").as_str(), "build");
    assert_eq!(StepId::new("lint".to_string()).as_str(), "lint");
    assert_eq!(ToolId::new("cargo-deny".to_string()).as_str(), "cargo-deny");
    assert_eq!(id("build"), id("build"));
    assert_ne!(id("build"), id("Build"));
    assert_eq!(id("build").clone(), id("build"));
    assert_eq!(JobId::default().as_str(), "");
}

#[test]
fn job_shows_its_name_or_its_id() {
    let mut build = Job::new(id("build"), vec![Step::from("cargo build")]);
    assert_eq!(build.display_name(), "build");
    assert_eq!(build.name(), None);
    build.name = Some("Custom Build Name".to_string());
    assert_eq!(build.display_name(), "Custom Build Name");
    assert_eq!(build.name(), Some("Custom Build Name"));
    assert_eq!(build.steps().len(), 1);
    assert_eq!(build.steps()[0].command(), "cargo build");
    assert!(build.needs().is_empty());
    assert_eq!(build.conditional(), &Conditional::Bool(true));
    assert_eq!(build.continue_on_error(), &ContinueOnError::Bool(false));
    assert!(build.variables().is_empty());
}

#[test]
fn default_graph_is_empty() {
    let jobs = Jobs::default();
    assert!(jobs.is_empty());
    assert!(jobs.topological_sort(&vec![id("a")]).is_empty());
    let config = cargo_ci::config::Config::default();
    assert!(config.jobs().is_empty());
    assert!(config.default_jobs().is_empty());
    assert!(config.passthrough_env_variables().is_empty());
    assert!(config.variables().is_empty());
}

#[test]
fn empty_graph_is_sound() {
    let jobs = graph(vec![]);
    assert!(jobs.is_empty());
    assert_eq!(jobs.len(), 0);
    assert!(jobs.get_job(&id("build")).is_none());
    assert!(jobs.topological_sort(&vec![id("build")]).is_empty());
    assert!(jobs.get_transitive_needs(&id("build")).is_empty());
}

#[test]
fn get_job_finds_by_name() {
    let jobs = graph(vec![job("build", &[]), job("test", &["build"])]);
    assert!(!jobs.is_empty());
    assert_eq!(jobs.len(), 2);
    assert_eq!(jobs.get_job(&id("test")).unwrap().id, id("test"));
    assert!(jobs.get_job(&id("deploy")).is_none());
    assert!(jobs.get_job(&id("TEST")).is_none());
    assert_eq!(jobs.jobs().len(), 2);
    assert_eq!(find_job(jobs.jobs(), &id("test")), Some(1));
    assert_eq!(find_job(jobs.jobs(), &id("nope")), None);
}

#[test]
fn cycle_of_three_is_reported_in_order() {
    let result = Jobs::new(vec![job("a", &["b"]), job("b", &["c"]), job("c", &["a"])]);
    match result {
        Err(GraphError::Cycle { path }) => {
            let path: Vec<&str> = path.iter().map(|i| i.as_str()).collect();
            assert_eq!(path, vec!["a", "b", "c", "a"]);
        }
        other => panic!("expected a cycle, got {:?}", other),
    }
}

#[test]
fn cycle_is_reported_without_the_way_to_it() {
    let result = Jobs::new(vec![
        job("start", &["a"]),
        job("a", &["b"]),
        job("b", &["c"]),
        job("c", &["a"]),
    ]);
    match result {
        Err(GraphError::Cycle { path }) => {
            let path: Vec<&str> = path.iter().map(|i| i.as_str()).collect();
            assert_eq!(path, vec!["a", "b", "c", "a"]);
        }
        other => panic!("expected a cycle, got {:?}", other),
    }
}

#[test]
fn job_that_needs_itself_is_a_cycle() {
    let result = Jobs::new(vec![job("a", &["a"])]);
    assert_eq!(result.unwrap_err(), GraphError::Cycle { path: vec![id("a"), id("a")] });
}

#[test]
fn unknown_need_is_reported() {
    let result = Jobs::new(vec![job("build", &[]), job("test", &["build", "lint", "fmt"])]);
    assert_eq!(
        result.unwrap_err(),
        GraphError::UnknownNeed { job: id("test"), need: id("lint") }
    );
}

#[test]
fn duplicate_step_id_is_reported() {
    let mut lint = job("lint", &[]);
    lint.steps = vec![
        step_with_id("cargo fmt", Some("fmt")),
        step_with_id("cargo clippy", None),
        step_with_id("cargo clippy --all", None),
        step_with_id("cargo fmt --check", Some("fmt")),
    ];
    let result = Jobs::new(vec![job("build", &[]), lint]);
    assert_eq!(
        result.unwrap_err(),
        GraphError::DuplicateStepId { job: id("lint"), step: StepId::new("fmt".to_string()) }
    );
}

#[test]
fn same_step_id_in_two_jobs_is_fine() {
    let mut a = job("a", &[]);
    a.steps = vec![step_with_id("x", Some("one"))];
    let mut b = job("b", &[]);
    b.steps = vec![step_with_id("y", Some("one"))];
    assert!(Jobs::new(vec![a, b]).is_ok());
}

#[test]
fn duplicate_job_is_reported() {
    let result = Jobs::new(vec![job("build", &[]), job("test", &[]), job("build", &[])]);
    assert_eq!(result.unwrap_err(), GraphError::DuplicateJob { job: id("build") });
}

#[test]
fn first_fault_in_job_order_wins() {
    let mut bad_steps = job("first", &[]);
    bad_steps.steps = vec![step_with_id("x", Some("s")), step_with_id("y", Some("s"))];
    let result = Jobs::new(vec![bad_steps, job("second", &["missing"])]);
    assert_eq!(
        result.unwrap_err(),
        GraphError::DuplicateStepId { job: id("first"), step: StepId::new("s".to_string()) }
    );
    let mut both = job("only", &["missing"]);
    both.steps = vec![step_with_id("x", Some("s")), step_with_id("y", Some("s"))];
    assert_eq!(
        Jobs::new(vec![both]).unwrap_err(),
        GraphError::UnknownNeed { job: id("only"), need: id("missing") }
    );
}

#[test]
fn topological_sort_puts_needs_first() {
    let jobs = graph(vec![
        job("deploy", &["test", "docs"]),
        job("test", &["build"]),
        job("docs", &["build"]),
        job("build", &[]),
        job("lint", &[]),
    ]);
    let all = vec![id("deploy"), id("test"), id("docs"), id("build"), id("lint")];
    let order = names(&jobs.topological_sort(&all));
    assert_eq!(order.len(), 5);
    assert!(position(&order, "build") < position(&order, "test"));
    assert!(position(&order, "build") < position(&order, "docs"));
    assert!(position(&order, "test") < position(&order, "deploy"));
    assert!(position(&order, "docs") < position(&order, "deploy"));
    assert_eq!(order, vec!["build", "lint", "test", "docs", "deploy"]);
}

#[test]
fn topological_sort_keeps_to_the_subset() {
    let jobs = graph(vec![
        job("build", &[]),
        job("test", &["build"]),
        job("deploy", &["test"]),
    ]);
    let order = names(&jobs.topological_sort(&vec![id("deploy"), id("build")]));
    assert_eq!(order, vec!["build", "deploy"]);
    let order = names(&jobs.topological_sort(&vec![id("deploy"), id("test")]));
    assert_eq!(order, vec!["test", "deploy"]);
    let order = names(&jobs.topological_sort(&vec![id("test"), id("nope"), id("test")]));
    assert_eq!(order, vec!["test"]);
    assert!(jobs.topological_sort(&vec![]).is_empty());
}

#[test]
fn topological_sort_orders_through_jobs_left_out() {
    let jobs = graph(vec![job("a", &["b"]), job("b", &["c"]), job("c", &[])]);
    let order = names(&jobs.topological_sort(&vec![id("a"), id("c")]));
    assert_eq!(order, vec!["c", "a"]);
    let order = names(&jobs.topological_sort(&vec![id("c"), id("a")]));
    assert_eq!(order, vec!["c", "a"]);
    let order = names(&jobs.topological_sort(&vec![id("a"), id("b"), id("c")]));
    assert_eq!(order, vec!["c", "b", "a"]);

    let jobs = graph(vec![
        job("release", &["package"]),
        job("notify", &[]),
        job("package", &["test", "docs"]),
        job("test", &["build"]),
        job("docs", &["build"]),
        job("build", &[]),
    ]);
    let order = names(&jobs.topological_sort(&vec![id("release"), id("notify"), id("build")]));
    assert_eq!(order, vec!["notify", "build", "release"]);
    let order = names(&jobs.topological_sort(&vec![id("release"), id("docs"), id("test")]));
    assert_eq!(order, vec!["test", "docs", "release"]);
}

#[test]
fn topological_sort_of_a_chain() {
    let jobs = graph(vec![
        job("integration", &["test"]),
        job("test", &["compile"]),
        job("compile", &[]),
    ]);
    let order =
        names(&jobs.topological_sort(&vec![id("integration"), id("test"), id("compile")]));
    assert_eq!(order, vec!["compile", "test", "integration"]);
}

#[test]
fn transitive_needs_are_collected_once() {
    let jobs = graph(vec![
        job("build", &[]),
        job("unit", &["build"]),
        job("integration", &["build"]),
        job("full", &["unit", "integration", "unit"]),
        job("release", &["full", "build"]),
    ]);
    assert!(jobs.get_transitive_needs(&id("build")).is_empty());
    assert_eq!(names(&jobs.get_transitive_needs(&id("unit"))), vec!["build"]);
    assert_eq!(
        names(&jobs.get_transitive_needs(&id("full"))),
        vec!["unit", "integration", "build"]
    );
    assert_eq!(
        names(&jobs.get_transitive_needs(&id("release"))),
        vec!["full", "build", "unit", "integration"]
    );
    assert!(jobs.get_transitive_needs(&id("nope")).is_empty());
}

#[test]
fn transitive_needs_of_needs_add_nothing() {
    let jobs = graph(vec![
        job("a", &["b", "c"]),
        job("b", &["d"]),
        job("c", &["d", "e"]),
        job("d", &[]),
        job("e", &[]),
    ]);
    let first = names(&jobs.get_transitive_needs(&id("a")));
    let again = names(&jobs.get_transitive_needs(&id("a")));
    assert_eq!(first, again);
    for need in &first {
        for inner in names(&jobs.get_transitive_needs(&id(need))) {
            assert!(first.contains(&inner));
        }
    }
    let mut sorted = first.clone();
    sorted.sort();
    sorted.dedup();
    assert_eq!(sorted.len(), first.len());
}

#[test]
fn test_validate_empty_job_fails() {
    let job = Job::new(id("test_job"), vec![]);
    let result = job.validate();
    assert!(result.is_err());
    assert!(result.unwrap_err().message().contains("no steps"));
}

#[test]
fn test_validate_with_steps_succeeds() {
    let job = Job::new(id("test_job"), vec![Step::from("cargo build")]);
    assert!(job.validate().is_ok());
}

#[test]
fn test_steps_returns_all_steps() {
    let job = Job::new(id("test_job"), vec![Step::from("cargo build"), Step::from("cargo test")]);
    let steps = job.steps();
    assert_eq!(steps.len(), 2);
    assert_eq!(steps[0].command(), "cargo build");
    assert_eq!(steps[1].command(), "cargo test");
}

#[test]
fn test_display_name_uses_custom_name() {
    let mut job = Job::new(id("build"), vec![Step::from("cargo build")]);
    job.name = Some("Custom Build Name".to_string());
    assert_eq!(job.display_name(), "Custom Build Name");
}

#[test]
fn test_display_name_fallback_to_id() {
    let job = Job::new(id("build"), vec![Step::from("cargo build")]);
    assert_eq!(job.display_name(), "build");
}

#[test]
fn job_without_steps_says_so() {
    let job = Job::new(id("empty"), vec![]);
    assert_eq!(job.validate().unwrap_err().message(), "Job 'empty' has no steps defined");
}
