use cargo_ci::args::RunArgs;
use cargo_ci::config::{Config, Platform, RawConfig};
use cargo_ci::expression::{Conditional, ContinueOnError, Expression, ExpressionError};
use cargo_ci::host::{ExecutionResult, Host};
use cargo_ci::job::Job;
use cargo_ci::job_id::JobId;
use cargo_ci::job_result::{
    format_job, print_summary, summarize, summary_lines, JobResult, Summary,
};
use cargo_ci::modifier_expression::ParseError;
use cargo_ci::package::{find_package, select_packages, Package, PackageError};
use cargo_ci::package_config::PackageConfig;
use cargo_ci::job_run::{Action, Finished, JobRun, Status};
use cargo_ci::plan::{
    check_job_condition, check_participation, clone_variables, command_variables,
    eligible_packages, make_dispatch, plan_step, select_for_step, Cause, Dispatch, RunError,
    Settings, Stage, Target,
};
use cargo_ci::run::{
    after_job, announcement, execute_plan, run_job, run_jobs, tolerates_failure, Verdict,
};
use cargo_ci::selection::{select_jobs, SelectError};
use cargo_ci::step::Step;
use cargo_ci::variables::Variable;

fn var(name: &str, value: &str) -> Variable {
    Variable::new(name.to_string(), value.to_string())
}

fn vars(pairs: &[(&str, &str)]) -> Vec<Variable> {
    pairs.iter().map(|(n, v)| var(n, v)).collect()
}

fn settings() -> Settings {
    Settings {
        environment: vec![],
        workspace_variables: vec![],
        command_line: vec![],
        workspace_root: "/ws".to_string(),
        dry_run: false,
        keep_going: false,
    }
}

fn package(name: &str) -> Package {
    Package {
        name: name.to_string(),
        root: format!("/ws/{}", name),
        manifest_path: format!("/ws/{}/Cargo.toml", name),
        config: PackageConfig::default(),
        variables: vec![],
        member: true,
        default_member: true,
    }
}

fn step(command: &str) -> Step {
    Step::Extended {
        command: command.to_string(),
        name: None,
        id: None,
        conditional: Conditional::Bool(true),
        continue_on_error: ContinueOnError::Bool(false),
        per_package: false,
        modifiers: None,
        working_directory: None,
        variables: vec![],
    }
}

fn tolerant(command: &str) -> Step {
    match step(command) {
        Step::Extended {
            command,
            name,
            id,
            conditional,
            per_package,
            modifiers,
            working_directory,
            variables,
            ..
        } => Step::Extended {
            command,
            name,
            id,
            conditional,
            continue_on_error: ContinueOnError::Bool(true),
            per_package,
            modifiers,
            working_directory,
            variables,
        },
        other => other,
    }
}

fn per_package(command: &str) -> Step {
    match step(command) {
        Step::Extended {
            command,
            name,
            id,
            conditional,
            continue_on_error,
            modifiers,
            working_directory,
            variables,
            ..
        } => Step::Extended {
            command,
            name,
            id,
            conditional,
            continue_on_error,
            per_package: true,
            modifiers,
            working_directory,
            variables,
        },
        other => other,
    }
}

fn when(command: &str, condition: &str) -> Step {
    match step(command) {
        Step::Extended {
            command,
            name,
            id,
            continue_on_error,
            per_package,
            modifiers,
            working_directory,
            variables,
            ..
        } => Step::Extended {
            command,
            name,
            id,
            conditional: Conditional::Expression(Expression::new(condition).unwrap()),
            continue_on_error,
            per_package,
            modifiers,
            working_directory,
            variables,
        },
        other => other,
    }
}

fn with_modifiers(command: &str, expression: &str) -> Step {
    match step(command) {
        Step::Extended {
            command,
            name,
            id,
            conditional,
            continue_on_error,
            per_package,
            working_directory,
            variables,
            ..
        } => Step::Extended {
            command,
            name,
            id,
            conditional,
            continue_on_error,
            per_package,
            modifiers: Some(expression.to_string()),
            working_directory,
            variables,
        },
        other => other,
    }
}

fn job(name: &str, steps: Vec<Step>) -> Job {
    Job::new(JobId::new(name.to_string()), steps)
}

fn needing(name: &str, needs: &[&str]) -> Job {
    let mut job = job(name, vec![Step::from("true")]);
    job.needs = needs.iter().map(|n| JobId::new(n.to_string())).collect();
    job
}

/// Runs a job to its end; `fails` names the commands that fail. Returns the
/// state at the end and the commands that were executed, with their
/// directories.
fn drive(
    settings: &Settings,
    job: &Job,
    packages: &[Package],
    fails: &[&str],
    reversed: bool,
) -> (JobRun, Vec<(String, String)>, Vec<String>) {
    assert!(JobRun::has_room(job, packages));
    let mut run = JobRun::start(settings, job, packages);
    let mut executed = vec![];
    let mut planned = vec![];
    loop {
        match run.next(settings, job, packages) {
            Action::Execute(plan) => {
                let mut finished: Vec<Finished> = plan
                    .into_iter()
                    .map(|dispatch| {
                        executed.push((dispatch.command.clone(), dispatch.working_directory.clone()));
                        let result = if fails.contains(&dispatch.command.as_str()) {
                            ExecutionResult::failure(Some(1))
                        } else {
                            ExecutionResult::success()
                        };
                        Finished { dispatch, result }
                    })
                    .collect();
                if reversed {
                    finished.reverse();
                }
                run.record(&finished);
            }
            Action::Planned(plan) => {
                for dispatch in plan {
                    planned.push(dispatch.command);
                }
            }
            Action::Finished => break,
        }
    }
    (run, executed, planned)
}

fn commands(executed: &[(String, String)]) -> Vec<&str> {
    executed.iter().map(|(c, _)| c.as_str()).collect()
}

#[test]
fn execution_result_success() {
    let ok = ExecutionResult::success();
    assert!(ok.success);
    assert_eq!(ok.exit_code, Some(0));
    let failed = ExecutionResult::failure(Some(3));
    assert!(!failed.success);
    assert_eq!(failed.exit_code, Some(3));
    assert_eq!(ExecutionResult::failure(None).exit_code, None);
}

#[test]
fn steps_run_once_at_the_workspace_root() {
    let build = job("build", vec![step("cargo build"), step("cargo test")]);
    let packages = vec![package("a"), package("b")];
    let (run, executed, planned) = drive(&settings(), &build, &packages, &[], false);
    assert_eq!(run.status, Status::Completed);
    assert_eq!(
        executed,
        vec![
            ("cargo build".to_string(), "/ws".to_string()),
            ("cargo test".to_string(), "/ws".to_string())
        ]
    );
    assert!(planned.is_empty());
    assert_eq!(run.steps, 2);
    assert_eq!(run.failures, 0);
    assert_eq!(run.error, None);
    let result = run.finish("build".to_string(), packages.len(), false);
    assert_eq!(result, JobResult::new("build".to_string(), 2, 2, 0, false));
}

#[test]
fn per_package_steps_run_in_each_package() {
    let build = job("build", vec![per_package("cargo build"), step("cargo doc")]);
    let packages = vec![package("a"), package("b"), package("c")];
    let (run, executed, _) = drive(&settings(), &build, &packages, &[], false);
    assert_eq!(run.status, Status::Completed);
    assert_eq!(
        executed,
        vec![
            ("cargo build".to_string(), "/ws/a".to_string()),
            ("cargo build".to_string(), "/ws/b".to_string()),
            ("cargo build".to_string(), "/ws/c".to_string()),
            ("cargo doc".to_string(), "/ws".to_string())
        ]
    );
    assert_eq!(run.steps, 4);
}

#[test]
fn failure_with_continue_on_error_goes_on() {
    let job = job("ci", vec![tolerant("first"), step("second")]);
    let packages = vec![package("a")];
    let (run, executed, _) = drive(&settings(), &job, &packages, &["first"], false);
    assert_eq!(commands(&executed), vec!["first", "second"]);
    assert_eq!(run.status, Status::Completed);
    assert_eq!(run.failures, 1);
    assert_eq!(run.steps, 2);
}

#[test]
fn failure_without_continue_on_error_ends_the_job() {
    let job = job("ci", vec![step("first"), step("second")]);
    let packages = vec![package("a")];
    let (run, executed, _) = drive(&settings(), &job, &packages, &["first"], false);
    assert_eq!(commands(&executed), vec!["first"]);
    assert_eq!(run.status, Status::Failed);
    assert_eq!(run.failures, 1);
    assert_eq!(run.steps, 1);
    assert_eq!(run.error, None);
    assert_eq!(after_job(run.status, false), Verdict::Abort);
    assert_eq!(after_job(run.status, true), Verdict::Proceed);
}

#[test]
fn failed_job_stays_failed() {
    let job = job("ci", vec![step("first"), step("second")]);
    let packages = vec![package("a")];
    let (mut run, _, _) = drive(&settings(), &job, &packages, &["first"], false);
    let before = run.clone();
    assert_eq!(run.next(&settings(), &job, &packages), Action::Finished);
    assert_eq!(run, before);
}

#[test]
fn dry_run_plans_and_executes_nothing() {
    let job = job("ci", vec![step("one"), step("two"), step("three")]);
    let packages = vec![package("a"), package("b")];
    let mut dry = settings();
    dry.dry_run = true;
    let (run, executed, planned) = drive(&dry, &job, &packages, &["one", "two", "three"], false);
    assert!(executed.is_empty());
    assert_eq!(planned, vec!["one", "two", "three"]);
    assert_eq!(run.status, Status::Completed);
    assert_eq!(run.steps, 3);
    assert_eq!(run.failures, 0);
    let result = run.finish("ci".to_string(), packages.len(), true);
    assert_eq!(result, JobResult::new("ci".to_string(), 2, 3, 0, true));
}

#[test]
fn dry_run_still_evaluates_conditions() {
    let job = job("ci", vec![step("one"), when("two", "missing == \"x\""), step("three")]);
    let packages = vec![package("a"), package("b")];
    let mut dry = settings();
    dry.dry_run = true;
    let (run, executed, planned) = drive(&dry, &job, &packages, &[], false);
    assert!(executed.is_empty());
    assert_eq!(planned, vec!["one"]);
    assert_eq!(run.status, Status::Failed);
    assert_eq!(run.failures, 1);
    match run.error {
        Some(RunError {
            stage: Stage::StepCondition,
            step: Some(1),
            package: Some(0),
            cause: Cause::Expression(ExpressionError::Evaluation { .. }),
        }) => {}
        other => panic!("expected a condition error, got {:?}", other),
    }
}

#[test]
fn order_of_reports_does_not_matter() {
    let job = job(
        "ci",
        vec![per_package("build"), {
            let mut s = per_package("test");
            if let Step::Extended { continue_on_error, .. } = &mut s {
                *continue_on_error = ContinueOnError::Expression(
                    Expression::new("lenient == \"yes\"").unwrap(),
                );
            }
            s
        }, step("publish")],
    );
    let mut a = package("a");
    a.variables = vars(&[("lenient", "yes")]);
    let mut b = package("b");
    b.variables = vars(&[("lenient", "no")]);
    let mut c = package("c");
    c.variables = vars(&[("lenient", "yes")]);
    let packages = vec![a, b, c];
    let (forward, executed, _) = drive(&settings(), &job, &packages, &["test"], false);
    let (backward, _, _) = drive(&settings(), &job, &packages, &["test"], true);
    assert_eq!(forward, backward);
    assert_eq!(forward.status, Status::Failed);
    assert_eq!(forward.steps, 6);
    assert_eq!(forward.failures, 3);
    assert_eq!(commands(&executed), vec!["build", "build", "build", "test", "test", "test"]);
}

#[test]
fn job_condition_selects_packages() {
    let mut job = job("ci", vec![step("build"), per_package("test")]);
    job.conditional = Conditional::Expression(Expression::new("kind == \"lib\"").unwrap());
    let mut a = package("a");
    a.variables = vars(&[("kind", "lib")]);
    let mut b = package("b");
    b.variables = vars(&[("kind", "bin")]);
    let packages = vec![a, b];
    assert_eq!(eligible_packages(&settings(), &job, &packages), Ok(vec![true, false]));
    assert_eq!(check_job_condition(&settings(), &job, &packages, Some(1)), Ok(false));
    let (run, executed, _) = drive(&settings(), &job, &packages, &[], false);
    assert_eq!(run.status, Status::Completed);
    assert_eq!(
        executed,
        vec![
            ("build".to_string(), "/ws/a".to_string()),
            ("test".to_string(), "/ws/a".to_string())
        ]
    );
}

#[test]
fn job_whose_condition_holds_nowhere_is_skipped() {
    let mut job = job("ci", vec![step("build")]);
    job.conditional = Conditional::Bool(false);
    let packages = vec![package("a"), package("b")];
    let (run, executed, _) = drive(&settings(), &job, &packages, &[], false);
    assert_eq!(run.status, Status::Skipped);
    assert!(executed.is_empty());
    assert_eq!(run.steps, 0);
    assert_eq!(run.failures, 0);
    assert_eq!(after_job(run.status, false), Verdict::Proceed);
    let (run, executed, _) = drive(&settings(), &job, &[], &[], false);
    assert_eq!(run.status, Status::Skipped);
    assert!(executed.is_empty());
}

#[test]
fn job_without_packages_runs_at_the_root() {
    let job = job("ci", vec![step("build"), per_package("test")]);
    let (run, executed, _) = drive(&settings(), &job, &[], &[], false);
    assert_eq!(run.status, Status::Completed);
    assert_eq!(executed, vec![("build".to_string(), "/ws".to_string())]);
    assert_eq!(run.steps, 1);
}

#[test]
fn job_condition_error_fails_the_job() {
    let mut job = job("ci", vec![step("build")]);
    job.conditional = Conditional::Expression(Expression::new("kind == \"lib\"").unwrap());
    let mut a = package("a");
    a.variables = vars(&[("kind", "lib")]);
    let packages = vec![a, package("b")];
    let (run, executed, _) = drive(&settings(), &job, &packages, &[], false);
    assert!(executed.is_empty());
    assert_eq!(run.status, Status::Failed);
    assert_eq!(run.failures, 1);
    match &run.error {
        Some(RunError { stage: Stage::JobCondition, step: None, package: Some(1), .. }) => {}
        other => panic!("expected a job condition error, got {:?}", other),
    }
    assert!(eligible_packages(&settings(), &job, &packages).is_err());
}

#[test]
fn step_condition_and_modifiers_select_packages() {
    let mut a = package("a");
    a.config = PackageConfig { modifiers: Some(vec!["nightly".to_string()]) };
    a.variables = vars(&[("os", "linux")]);
    let mut b = package("b");
    b.variables = vars(&[("os", "linux")]);
    let mut c = package("c");
    c.config = PackageConfig { modifiers: Some(vec!["nightly".to_string(), "slow".to_string()]) };
    c.variables = vars(&[("os", "windows")]);
    let packages = vec![a, b, c];
    let job = job(
        "ci",
        vec![
            with_modifiers("nightly-build", "nightly & !slow"),
            when("linux-only", "os == \"linux\""),
            with_modifiers("none", "never"),
            with_modifiers("all", "!never"),
        ],
    );
    let all = vec![true, true, true];
    assert_eq!(select_for_step(&settings(), &job, 0, &packages, &all), Ok(vec![0]));
    assert_eq!(select_for_step(&settings(), &job, 1, &packages, &all), Ok(vec![0, 1]));
    assert_eq!(select_for_step(&settings(), &job, 2, &packages, &all), Ok(vec![]));
    assert_eq!(select_for_step(&settings(), &job, 3, &packages, &all), Ok(vec![0, 1, 2]));
    assert_eq!(
        select_for_step(&settings(), &job, 3, &packages, &[false, true, false]),
        Ok(vec![1])
    );
    assert_eq!(check_participation(&settings(), &job, 0, &packages, 2), Ok(false));
    assert_eq!(check_participation(&settings(), &job, 1, &packages, 2), Ok(false));
    let (run, executed, _) = drive(&settings(), &job, &packages, &[], false);
    assert_eq!(run.status, Status::Completed);
    assert_eq!(
        executed,
        vec![
            ("nightly-build".to_string(), "/ws/a".to_string()),
            ("linux-only".to_string(), "/ws/a".to_string()),
            ("linux-only".to_string(), "/ws/b".to_string()),
            ("all".to_string(), "/ws".to_string())
        ]
    );
    assert_eq!(run.steps, 4);
}

#[test]
fn malformed_modifiers_are_an_error() {
    let job = job("ci", vec![with_modifiers("build", "nightly &")]);
    let packages = vec![package("a")];
    assert_eq!(
        plan_step(&settings(), &job, 0, &packages, &[true]),
        Err(RunError {
            stage: Stage::StepModifiers,
            step: Some(0),
            package: Some(0),
            cause: Cause::Modifiers(ParseError::UnexpectedEnd),
        })
    );
    let (run, executed, _) = drive(&settings(), &job, &packages, &[], false);
    assert!(executed.is_empty());
    assert_eq!(run.status, Status::Failed);
    assert_eq!(run.failures, 1);
}

#[test]
fn continue_on_error_is_evaluated_before_anything_runs() {
    let mut broken = step("build");
    if let Step::Extended { continue_on_error, .. } = &mut broken {
        *continue_on_error =
            ContinueOnError::Expression(Expression::new("undefined == \"x\"").unwrap());
    }
    let job = job("ci", vec![broken]);
    let packages = vec![package("a")];
    let (run, executed, _) = drive(&settings(), &job, &packages, &[], false);
    assert!(executed.is_empty());
    assert_eq!(run.status, Status::Failed);
    match &run.error {
        Some(RunError { stage: Stage::StepContinueOnError, step: Some(0), package: None, .. }) => {}
        other => panic!("expected a continue-on-error error, got {:?}", other),
    }
}

#[test]
fn dispatch_carries_directory_and_variables() {
    let mut s = settings();
    s.environment = vars(&[("PATH", "/bin"), ("X", "env")]);
    s.workspace_variables = vars(&[("X", "ws"), ("Y", "ws")]);
    s.command_line = vars(&[("Z", "cli")]);
    let mut build = per_package("cargo build");
    if let Step::Extended { variables, working_directory, .. } = &mut build {
        *variables = vars(&[("Y", "step"), ("Z", "step"), ("W", "step")]);
        *working_directory = Some("/elsewhere".to_string());
    }
    let mut job = job("ci", vec![build, step("cargo doc")]);
    job.variables = vars(&[("X", "job")]);
    let mut a = package("a");
    a.variables = vars(&[("W", "pkg")]);
    let packages = vec![a];
    let dispatch =
        make_dispatch(&s, &job, 0, &packages, Target::Package(0)).unwrap();
    assert_eq!(
        dispatch,
        Dispatch {
            step: 0,
            target: Target::Package(0),
            command: "cargo build".to_string(),
            working_directory: "/elsewhere".to_string(),
            identity: vars(&[("CI_JOB", "ci"), ("CI_PACKAGE_NAME", "a")]),
            environment: vars(&[
                ("PATH", "/bin"),
                ("X", "job"),
                ("Y", "step"),
                ("Z", "cli"),
                ("W", "pkg")
            ]),
            continue_on_error: false,
        }
    );
    let dispatch = make_dispatch(&s, &job, 1, &packages, Target::Workspace).unwrap();
    assert_eq!(dispatch.working_directory, "/ws");
    assert_eq!(dispatch.identity, vars(&[("CI_JOB", "ci")]));
    assert_eq!(
        command_variables(&dispatch),
        vars(&[("CI_JOB", "ci"), ("PATH", "/bin"), ("X", "job"), ("Y", "ws"), ("Z", "cli")])
    );
    assert_eq!(
        dispatch.environment,
        vars(&[("PATH", "/bin"), ("X", "job"), ("Y", "ws"), ("Z", "cli")])
    );
    let dispatch = make_dispatch(&s, &job, 1, &packages, Target::Package(0)).unwrap();
    assert_eq!(dispatch.working_directory, "/ws/a");
    assert_eq!(
        dispatch.environment,
        vars(&[("PATH", "/bin"), ("X", "job"), ("Y", "ws"), ("Z", "cli")])
    );
}

#[test]
fn job_tolerance_is_its_own_or_keep_going() {
    let mut strict = job("ci", vec![step("build")]);
    assert_eq!(tolerates_failure(&settings(), &strict), Ok(false));
    let mut going = settings();
    going.keep_going = true;
    assert_eq!(tolerates_failure(&going, &strict), Ok(true));
    strict.continue_on_error = ContinueOnError::Bool(true);
    assert_eq!(tolerates_failure(&settings(), &strict), Ok(true));
    strict.continue_on_error =
        ContinueOnError::Expression(Expression::new("mode == \"lenient\"").unwrap());
    going.command_line = vars(&[("mode", "strict")]);
    going.workspace_variables = vars(&[("mode", "lenient")]);
    assert_eq!(tolerates_failure(&going, &strict), Ok(true));
    going.keep_going = false;
    assert_eq!(tolerates_failure(&going, &strict), Ok(false));
    going.keep_going = true;
    going.command_line = vec![];
    going.workspace_variables = vec![];
    match tolerates_failure(&going, &strict) {
        Err(RunError { stage: Stage::JobContinueOnError, step: None, package: None, .. }) => {}
        other => panic!("expected an error, got {:?}", other),
    }
}

#[test]
fn after_job_decides_about_the_run() {
    assert_eq!(after_job(Status::Completed, false), Verdict::Proceed);
    assert_eq!(after_job(Status::Skipped, false), Verdict::Proceed);
    assert_eq!(after_job(Status::Running, false), Verdict::Proceed);
    assert_eq!(after_job(Status::Failed, true), Verdict::Proceed);
    assert_eq!(after_job(Status::Failed, false), Verdict::Abort);
}

#[test]
fn summary_of_two_jobs_one_failed() {
    for reversed in [false, true] {
        let packages = vec![package("p"), package("q")];
        let mut going = settings();
        going.keep_going = true;
        let a = job("A", vec![per_package("flaky"), step("after")]);
        let b = job("B", vec![per_package("solid")]);
        let mut q_only = going.clone();
        q_only.command_line = vec![];
        let (run_a, _, _) = drive(&going, &a, &packages[..1], &["flaky"], reversed);
        let (run_b, _, _) = drive(&going, &b, &packages, &[], reversed);
        assert_eq!(run_a.status, Status::Failed);
        assert_eq!(after_job(run_a.status, tolerates_failure(&going, &a).unwrap()), Verdict::Proceed);
        let results = vec![
            run_a.finish("A".to_string(), 1, false),
            run_b.finish("B".to_string(), 2, false),
        ];
        assert_eq!(results[0].failures, 1);
        assert_eq!(results[1].failures, 0);
        assert!(!results[0].is_ok());
        assert!(results[1].is_ok());
        let summary = summarize(&results).unwrap();
        assert!(!summary.success);
        assert_eq!(summary.total_failures, 1);
        assert_eq!(summary.total_jobs, 2);
        assert_eq!(summary.total_packages, 3);
        assert_eq!(summary.total_steps, results[0].steps + results[1].steps);
        assert_eq!(summary.total_steps, 1 + 2);
    }
}

#[test]
fn summary_adds_up() {
    assert_eq!(
        summarize(&[]),
        Some(Summary {
            total_jobs: 0,
            total_packages: 0,
            total_steps: 0,
            total_failures: 0,
            success: true
        })
    );
    let results = vec![
        JobResult::new("build".to_string(), 3, 2, 0, false),
        JobResult::new("test".to_string(), 3, 5, 0, false),
        JobResult::new("lint".to_string(), 1, 4, 0, true),
    ];
    assert_eq!(
        summarize(&results),
        Some(Summary {
            total_jobs: 3,
            total_packages: 7,
            total_steps: 2 + 5 + 4,
            total_failures: 0,
            success: true
        })
    );
    let results = vec![
        JobResult::new("a".to_string(), 1, 1, 2, false),
        JobResult::new("b".to_string(), 1, 1, 3, false),
    ];
    let summary = summarize(&results).unwrap();
    assert_eq!(summary.total_failures, 5);
    assert!(!summary.success);
    let large = vec![JobResult::new("a".to_string(), usize::MAX, 2, 0, false)];
    assert_eq!(summarize(&large).unwrap().total_steps, 2);
    let huge = vec![
        JobResult::new("a".to_string(), usize::MAX, 2, 0, false),
        JobResult::new("b".to_string(), 1, 2, 0, false),
    ];
    assert_eq!(summarize(&huge), None);
    let huge = vec![
        JobResult::new("a".to_string(), 1, usize::MAX, 0, false),
        JobResult::new("b".to_string(), 1, 1, 0, false),
    ];
    assert_eq!(summarize(&huge), None);
    let huge = vec![
        JobResult::new("a".to_string(), 1, 1, usize::MAX, false),
        JobResult::new("b".to_string(), 1, 1, 1, false),
    ];
    assert_eq!(summarize(&huge), None);
}

#[test]
fn packages_are_selected_by_name_or_by_default() {
    let mut packages = vec![package("a"), package("b"), package("dep"), package("c")];
    packages[1].default_member = false;
    packages[2].member = false;
    packages[2].default_member = false;
    assert_eq!(select_packages(&[], &packages), Ok(vec![0, 3]));
    assert_eq!(
        select_packages(&["c".to_string(), "b".to_string(), "c".to_string()], &packages),
        Ok(vec![3, 1, 3])
    );
    assert_eq!(
        select_packages(&["a".to_string(), "dep".to_string(), "zzz".to_string()], &packages),
        Err(PackageError::NotAMember { name: "dep".to_string() })
    );
    assert_eq!(
        select_packages(&["zzz".to_string()], &packages),
        Err(PackageError::NotAMember { name: "zzz".to_string() })
    );
    assert_eq!(select_packages(&[], &[]), Ok(vec![]));
    assert_eq!(find_package(&packages, &"dep".to_string()), Some(2));
    assert_eq!(find_package(&packages, &"A".to_string()), None);
}

fn config(jobs: Vec<Job>, defaults: &[&str]) -> Config {
    Config::new(
        RawConfig {
            jobs,
            default_jobs: defaults.iter().map(|n| JobId::new(n.to_string())).collect(),
            passthrough_env_variables: vec![],
            passthrough_env_variables_windows: vec![],
            passthrough_env_variables_linux: vec![],
            passthrough_env_variables_macos: vec![],
            variables: vars(&[("profile", "release")]),
        },
        Platform::Linux,
    )
    .unwrap()
}

fn asked(names: &[&str]) -> RunArgs {
    let mut args = RunArgs::default();
    args.jobs = names.iter().map(|n| n.to_string()).collect();
    args
}

fn selected(args: &RunArgs, cfg: &Config) -> Vec<String> {
    select_jobs(args, cfg).unwrap().iter().map(|id| id.as_str().to_string()).collect()
}

#[test]
fn jobs_are_selected_with_their_needs() {
    let cfg = config(
        vec![
            needing("deploy", &["test"]),
            needing("test", &["build"]),
            needing("build", &[]),
            needing("lint", &[]),
        ],
        &[],
    );
    assert_eq!(selected(&asked(&["deploy"]), &cfg), vec!["build", "test", "deploy"]);
    assert_eq!(selected(&asked(&["test"]), &cfg), vec!["build", "test"]);
    assert_eq!(selected(&asked(&["lint", "test", "lint"]), &cfg), vec!["build", "lint", "test"]);
    assert_eq!(selected(&asked(&[]), &cfg), vec!["build", "lint", "test", "deploy"]);
    assert_eq!(
        select_jobs(&asked(&["deploy", "nope", "test", "neither"]), &cfg),
        Err(SelectError::UnknownJobs { names: vec!["nope".to_string(), "neither".to_string()] })
    );
}

#[test]
fn default_jobs_are_taken_when_none_is_named() {
    let cfg = config(
        vec![needing("build", &[]), needing("test", &["build"]), needing("lint", &[])],
        &["test"],
    );
    assert_eq!(selected(&asked(&[]), &cfg), vec!["build", "test"]);
    assert_eq!(selected(&asked(&["lint"]), &cfg), vec!["lint"]);
}

#[test]
fn no_jobs_defined_is_an_error() {
    let cfg = config(vec![], &[]);
    assert_eq!(select_jobs(&asked(&[]), &cfg), Err(SelectError::NoJobsDefined));
    assert_eq!(select_jobs(&asked(&["build"]), &cfg), Err(SelectError::NoJobsDefined));
}

#[test]
fn settings_are_taken_from_arguments_and_configuration() {
    let cfg = config(vec![needing("build", &[])], &[]);
    let mut args = RunArgs::default();
    args.dry_run = true;
    args.keep_going = true;
    args.variable = vars(&[("X", "3")]);
    let s = Settings::new(&args, &cfg, vars(&[("X", "1")]), "/ws".to_string());
    assert_eq!(
        s,
        Settings {
            environment: vars(&[("X", "1")]),
            workspace_variables: vars(&[("profile", "release")]),
            command_line: vars(&[("X", "3")]),
            workspace_root: "/ws".to_string(),
            dry_run: true,
            keep_going: true,
        }
    );
    assert_eq!(clone_variables(&vars(&[("a", "b")])), vars(&[("a", "b")]));
}

#[test]
fn room_is_checked_before_a_job_starts() {
    let job = job("ci", vec![step("a"), step("b")]);
    assert!(JobRun::has_room(&job, &[]));
    assert!(JobRun::has_room(&job, &[package("a")]));
}

/// A host that executes nothing: it records what it is asked for and lets
/// the commands named in `fails` fail, and those named in `broken` not run
/// at all.
struct FakeHost {
    fails: Vec<String>,
    broken: Vec<String>,
    commands: std::cell::RefCell<Vec<(String, String, Vec<Variable>)>>,
    stdout: std::cell::RefCell<Vec<String>>,
    stderr: std::cell::RefCell<Vec<String>>,
}

fn fake_host(fails: &[&str], broken: &[&str]) -> FakeHost {
    FakeHost {
        fails: fails.iter().map(|c| c.to_string()).collect(),
        broken: broken.iter().map(|c| c.to_string()).collect(),
        commands: std::cell::RefCell::new(vec![]),
        stdout: std::cell::RefCell::new(vec![]),
        stderr: std::cell::RefCell::new(vec![]),
    }
}

impl Host for FakeHost {
    fn execute(
        &self,
        cmdline: &str,
        working_dir: &str,
        env_vars: &[Variable],
    ) -> Result<ExecutionResult, String> {
        self.commands.borrow_mut().push((
            cmdline.to_string(),
            working_dir.to_string(),
            env_vars.to_vec(),
        ));
        if self.broken.iter().any(|c| c == cmdline) {
            Err(format!("cannot run {cmdline}"))
        } else if self.fails.iter().any(|c| c == cmdline) {
            Ok(ExecutionResult::failure(Some(2)))
        } else {
            Ok(ExecutionResult::success())
        }
    }

    fn println(&self, message: &str) {
        self.stdout.borrow_mut().push(message.to_string());
    }

    fn eprintln(&self, message: &str) {
        self.stderr.borrow_mut().push(message.to_string());
    }
}

fn ran(host: &FakeHost) -> Vec<String> {
    host.commands.borrow().iter().map(|(c, _, _)| c.clone()).collect()
}

#[test]
fn host_runs_the_steps_in_order() {
    let mut s = settings();
    s.command_line = vars(&[("X", "3")]);
    let job = job("ci", vec![per_package("build"), step("test")]);
    let packages = vec![package("a"), package("b")];
    let host = fake_host(&[], &[]);
    let run = run_job(&host, &s, &job, &packages);
    assert_eq!(run.status, Status::Completed);
    assert_eq!(run.steps, 3);
    assert_eq!(run.failures, 0);
    assert_eq!(
        *host.commands.borrow(),
        vec![
            (
                "build".to_string(),
                "/ws/a".to_string(),
                vars(&[("CI_JOB", "ci"), ("CI_PACKAGE_NAME", "a"), ("X", "3")])
            ),
            (
                "build".to_string(),
                "/ws/b".to_string(),
                vars(&[("CI_JOB", "ci"), ("CI_PACKAGE_NAME", "b"), ("X", "3")])
            ),
            ("test".to_string(), "/ws".to_string(), vars(&[("CI_JOB", "ci"), ("X", "3")])),
        ]
    );
    assert_eq!(
        *host.stdout.borrow(),
        vec!["[ci] build (a)", "[ci] build (b)", "[ci] test"]
    );
    assert!(host.stderr.borrow().is_empty());
}

#[test]
fn host_failure_with_continue_on_error_executes_the_next_step() {
    let job = job("ci", vec![tolerant("first"), step("second")]);
    let host = fake_host(&["first"], &[]);
    let run = run_job(&host, &settings(), &job, &[package("a")]);
    assert_eq!(ran(&host), vec!["first", "second"]);
    assert_eq!(run.status, Status::Completed);
    assert_eq!(run.failures, 1);
}

#[test]
fn host_failure_without_continue_on_error_never_executes_the_next_step() {
    let job = job("ci", vec![step("first"), step("second")]);
    let host = fake_host(&["first"], &[]);
    let run = run_job(&host, &settings(), &job, &[package("a")]);
    assert_eq!(ran(&host), vec!["first"]);
    assert_eq!(run.status, Status::Failed);
    assert_eq!(run.failures, 1);
    assert_eq!(run.steps, 1);
}

#[test]
fn command_that_cannot_be_run_counts_as_failed() {
    let job = job("ci", vec![per_package("first"), step("second")]);
    let host = fake_host(&[], &["first"]);
    let run = run_job(&host, &settings(), &job, &[package("a"), package("b")]);
    assert_eq!(ran(&host), vec!["first", "first"]);
    assert_eq!(run.status, Status::Failed);
    assert_eq!(run.failures, 2);
    assert_eq!(run.steps, 2);
    assert_eq!(*host.stderr.borrow(), vec!["cannot run first", "cannot run first"]);
}

#[test]
fn host_is_not_called_in_a_dry_run() {
    let job = job("ci", vec![step("one"), step("two"), step("three")]);
    let packages = vec![package("a"), package("b")];
    let mut dry = settings();
    dry.dry_run = true;
    let host = fake_host(&["one"], &["two"]);
    let run = run_job(&host, &dry, &job, &packages);
    assert!(host.commands.borrow().is_empty());
    assert_eq!(run.status, Status::Completed);
    assert_eq!(run.steps, 3);
    assert_eq!(run.failures, 0);
    assert_eq!(*host.stdout.borrow(), vec!["[ci] one", "[ci] two", "[ci] three"]);
    let result = run.finish("ci".to_string(), packages.len(), true);
    assert_eq!(result, JobResult::new("ci".to_string(), 2, 3, 0, true));
}

#[test]
fn dry_run_raises_condition_errors_without_calling_the_host() {
    let job = job("ci", vec![step("one"), when("two", "missing == \"x\""), step("three")]);
    let mut dry = settings();
    dry.dry_run = true;
    let host = fake_host(&[], &[]);
    let run = run_job(&host, &dry, &job, &[package("a"), package("b")]);
    assert!(host.commands.borrow().is_empty());
    assert_eq!(run.status, Status::Failed);
    assert_eq!(run.failures, 1);
    assert!(run.error.is_some());
}

#[test]
fn two_jobs_one_failure_make_a_failed_run() {
    let mut going = settings();
    going.keep_going = true;
    let packages = vec![package("p")];
    let a = job("A", vec![step("flaky"), step("after")]);
    let b = job("B", vec![step("solid")]);
    let host = fake_host(&["flaky"], &[]);
    let mut results = vec![];
    for job in [&a, &b] {
        let tolerated = tolerates_failure(&going, job).unwrap();
        let run = run_job(&host, &going, job, &packages);
        results.push(run.finish(job.display_name().to_string(), packages.len(), false));
        assert_eq!(after_job(run.status, tolerated), Verdict::Proceed);
    }
    assert_eq!(ran(&host), vec!["flaky", "solid"]);
    assert_eq!(results[0].failures, 1);
    assert_eq!(results[1].failures, 0);
    let summary = summarize(&results).unwrap();
    assert!(!summary.success);
    assert_eq!(summary.total_failures, 1);
}

#[test]
fn plan_is_executed_in_its_order() {
    let job = job("ci", vec![per_package("build")]);
    let packages = vec![package("a"), package("b"), package("c")];
    let plan = plan_step(&settings(), &job, 0, &packages, &[true, true, true]).unwrap();
    assert_eq!(announcement(&job, &plan[1], &packages), "[ci] build (b)");
    let host = fake_host(&["build"], &[]);
    let finished = execute_plan(&host, &job, &packages, plan.clone());
    assert_eq!(finished.len(), 3);
    for (done, planned) in finished.iter().zip(plan.iter()) {
        assert_eq!(&done.dispatch, planned);
        assert_eq!(done.result, ExecutionResult::failure(Some(2)));
    }
    assert_eq!(
        host.commands.borrow().iter().map(|(_, d, _)| d.clone()).collect::<Vec<_>>(),
        vec!["/ws/a", "/ws/b", "/ws/c"]
    );
}

#[test]
fn summary_is_printed_line_by_line() {
    let results = vec![
        JobResult::new("build".to_string(), 2, 3, 0, false),
        JobResult::new("a-job-with-a-long-name".to_string(), 10, 12, 1, false),
        JobResult::new("dry".to_string(), 1, 0, 0, true),
    ];
    let host = fake_host(&[], &[]);
    let summary = print_summary(&results, &host).unwrap();
    assert_eq!(summary, summarize(&results).unwrap());
    assert_eq!(
        *host.stdout.borrow(),
        vec![
            "\nSummary:",
            "  Job build           status=OK packages=2 steps=3 failures=0 mode=run",
            "  Job a-job-with-a-long-name status=FAIL packages=10 steps=12 failures=1 mode=run",
            "  Job dry             status=OK packages=1 steps=0 failures=0 mode=dry-run",
            "  Total jobs=3 packages=13 steps=15 failures=1",
            "Overall: FAILURE",
        ]
    );
    assert_eq!(
        format_job(&results[0]),
        format!(
            "  Job {:<15} status=OK packages={} steps={} failures={} mode=run",
            "build", 2, 3, 0
        )
    );
    assert_eq!(
        summary_lines(&[], &summarize(&[]).unwrap()),
        vec!["\nSummary:", "  Total jobs=0 packages=0 steps=0 failures=0", "Overall: SUCCESS"]
    );
    let quiet = fake_host(&[], &[]);
    assert_eq!(
        print_summary(
            &[
                JobResult::new("a".to_string(), usize::MAX, 2, 0, false),
                JobResult::new("b".to_string(), 1, 1, 0, false),
            ],
            &quiet
        ),
        None
    );
    assert_eq!(
        *quiet.stdout.borrow(),
        vec![
            "\nSummary:".to_string(),
            format!(
                "  Job a               status=OK packages={} steps=2 failures=0 mode=run",
                usize::MAX
            ),
            "  Job b               status=OK packages=1 steps=1 failures=0 mode=run".to_string(),
        ]
    );
}

#[test]
fn run_goes_on_after_a_tolerated_failure() {
    let mut a = job("A", vec![step("flaky"), step("after")]);
    a.continue_on_error = ContinueOnError::Bool(true);
    let b = job("B", vec![step("solid")]);
    let packages = vec![package("p")];
    let host = fake_host(&["flaky"], &[]);
    let report = run_jobs(&host, &settings(), &[&a, &b], &packages);
    assert_eq!(ran(&host), vec!["flaky", "solid"]);
    assert_eq!(report.stopped_at, None);
    assert_eq!(report.error, None);
    assert_eq!(report.statuses, vec![Status::Failed, Status::Completed]);
    assert_eq!(
        report.results,
        vec![
            JobResult::new("A".to_string(), 1, 1, 1, false),
            JobResult::new("B".to_string(), 1, 1, 0, false),
        ]
    );
    let summary = report.summary.unwrap();
    assert!(!summary.success);
    assert_eq!(summary.total_failures, 1);
    assert!(!report.success());
    assert_eq!(
        *host.stdout.borrow(),
        vec![
            "== Job: A ==",
            "[A] flaky",
            "== Job: B ==",
            "[B] solid",
            "\nSummary:",
            "  Job A               status=FAIL packages=1 steps=1 failures=1 mode=run",
            "  Job B               status=OK packages=1 steps=1 failures=0 mode=run",
            "  Total jobs=2 packages=2 steps=2 failures=1",
            "Overall: FAILURE",
        ]
    );
    assert_eq!(*host.stderr.borrow(), vec!["Job 'A' failed but continuing"]);
}

#[test]
fn run_ends_with_a_failure_that_is_not_tolerated() {
    let a = job("A", vec![step("flaky"), step("after")]);
    let b = job("B", vec![step("solid")]);
    let packages = vec![package("p")];
    let host = fake_host(&["flaky"], &[]);
    let report = run_jobs(&host, &settings(), &[&a, &b], &packages);
    assert_eq!(ran(&host), vec!["flaky"]);
    assert_eq!(report.stopped_at, Some(0));
    assert_eq!(report.error, None);
    assert_eq!(report.statuses, vec![Status::Failed]);
    assert_eq!(report.results, vec![JobResult::new("A".to_string(), 1, 1, 1, false)]);
    assert!(!report.success());
    assert_eq!(host.stdout.borrow().last().unwrap(), "Overall: FAILURE");

    let mut going = settings();
    going.keep_going = true;
    let host = fake_host(&["flaky"], &[]);
    let report = run_jobs(&host, &going, &[&a, &b], &packages);
    assert_eq!(ran(&host), vec!["flaky", "solid"]);
    assert_eq!(report.stopped_at, None);
    assert_eq!(report.results.len(), 2);
    assert_eq!(report.statuses, vec![Status::Failed, Status::Completed]);
}

#[test]
fn run_stops_at_the_first_job_that_fails_without_tolerance() {
    let a = job("A", vec![tolerant("flaky"), step("after")]);
    let b = job("B", vec![step("broken"), step("never")]);
    let c = job("C", vec![step("later")]);
    let packages = vec![package("p")];
    let host = fake_host(&["flaky", "broken"], &[]);
    let report = run_jobs(&host, &settings(), &[&a, &b, &c], &packages);
    assert_eq!(ran(&host), vec!["flaky", "after", "broken"]);
    assert_eq!(report.statuses, vec![Status::Completed, Status::Failed]);
    assert_eq!(report.stopped_at, Some(1));
    assert_eq!(
        report.results,
        vec![
            JobResult::new("A".to_string(), 1, 2, 1, false),
            JobResult::new("B".to_string(), 1, 1, 1, false),
        ]
    );
    assert!(!report.success());
}

#[test]
fn dry_run_stops_at_a_job_that_cannot_be_planned() {
    let a = job("A", vec![step("first")]);
    let b = job("B", vec![step("second"), when("third", "1 + 1")]);
    let c = job("C", vec![step("fourth")]);
    let packages = vec![package("p")];
    let mut dry = settings();
    dry.dry_run = true;
    let host = fake_host(&[], &[]);
    let report = run_jobs(&host, &dry, &[&a, &b, &c], &packages);
    assert!(host.commands.borrow().is_empty());
    assert_eq!(report.statuses, vec![Status::Completed, Status::Failed]);
    assert_eq!(report.stopped_at, Some(1));
    assert_eq!(report.results[1], JobResult::new("B".to_string(), 1, 1, 1, true));
    match &report.error {
        Some(RunError { stage: Stage::StepCondition, step: Some(1), package: Some(0), .. }) => {}
        other => panic!("expected the error of the step, got {:?}", other),
    }
    let summary = report.summary.unwrap();
    assert_eq!(summary.total_jobs, 2);
    assert_eq!(summary.total_steps, 2);
    assert_eq!(summary.total_failures, 1);
    assert!(!summary.success);

    dry.keep_going = true;
    let host = fake_host(&[], &[]);
    let report = run_jobs(&host, &dry, &[&a, &b, &c], &packages);
    assert!(host.commands.borrow().is_empty());
    assert_eq!(report.statuses, vec![Status::Completed, Status::Failed, Status::Completed]);
    assert_eq!(report.stopped_at, None);
}

#[test]
fn conditions_with_the_power_operator_are_evaluated() {
    let mut squared = job("sq", vec![when("build", "2 ^ 2 > 3.5"), when("never", "2 ^ 2 < 3.5")]);
    squared.conditional = Conditional::Expression(Expression::new("name == \"a^b\"").unwrap());
    let mut packages = vec![package("p"), package("q")];
    packages[0].variables = vars(&[("name", "a^b")]);
    packages[1].variables = vars(&[("name", "ab")]);
    let host = fake_host(&[], &[]);
    let run = run_job(&host, &settings(), &squared, &packages);
    assert_eq!(ran(&host), vec!["build"]);
    assert_eq!(run.status, Status::Completed);
    assert_eq!(run.eligible, vec![true, false]);
    assert_eq!(run.steps, 1);
    assert_eq!(run.failures, 0);
}

#[test]
fn host_is_not_called_for_a_skipped_job() {
    let mut skipped = job("S", vec![step("never"), step("ever")]);
    skipped.conditional = Conditional::Expression(Expression::new("os == \"none\"").unwrap());
    let mut packages = vec![package("p"), package("q")];
    packages[0].variables = vars(&[("os", "linux")]);
    packages[1].variables = vars(&[("os", "macos")]);
    let host = fake_host(&[], &[]);
    let run = run_job(&host, &settings(), &skipped, &packages);
    assert!(host.commands.borrow().is_empty());
    assert_eq!(run.status, Status::Skipped);
    assert_eq!(run.failures, 0);
    assert_eq!(run.steps, 0);
    assert_eq!(run.error, None);

    let mut broken = job("B", vec![step("never")]);
    broken.conditional = Conditional::Expression(Expression::new("1 + 1").unwrap());
    let host = fake_host(&[], &[]);
    let run = run_job(&host, &settings(), &broken, &packages);
    assert!(host.commands.borrow().is_empty());
    assert_eq!(run.status, Status::Failed);
    assert_eq!(run.failures, 1);
    assert_eq!(run.steps, 0);
    assert!(run.error.is_some());
}

#[test]
fn run_ends_on_an_error_in_the_tolerance_of_a_job() {
    let a = job("A", vec![step("first")]);
    let mut b = job("B", vec![step("second")]);
    b.continue_on_error =
        ContinueOnError::Expression(Expression::new("undefined == \"x\"").unwrap());
    let c = job("C", vec![step("third")]);
    let packages = vec![package("p")];
    let host = fake_host(&[], &[]);
    let report = run_jobs(&host, &settings(), &[&a, &b, &c], &packages);
    assert_eq!(ran(&host), vec!["first"]);
    assert_eq!(report.stopped_at, Some(1));
    assert_eq!(report.results, vec![JobResult::new("A".to_string(), 1, 1, 0, false)]);
    match &report.error {
        Some(RunError { stage: Stage::JobContinueOnError, step: None, package: None, .. }) => {}
        other => panic!("expected an error, got {:?}", other),
    }
    assert!(!report.success());
    assert_eq!(host.stdout.borrow().last().unwrap(), "Overall: SUCCESS");
}

#[test]
fn run_without_failures_succeeds() {
    let a = job("A", vec![step("first")]);
    let mut skipped = job("S", vec![step("never")]);
    skipped.conditional = Conditional::Bool(false);
    let packages = vec![package("p"), package("q")];
    let host = fake_host(&[], &[]);
    let report = run_jobs(&host, &settings(), &[&a, &skipped], &packages);
    assert_eq!(ran(&host), vec!["first"]);
    assert!(report.success());
    assert_eq!(report.statuses, vec![Status::Completed, Status::Skipped]);
    assert_eq!(
        report.results,
        vec![
            JobResult::new("A".to_string(), 2, 1, 0, false),
            JobResult::new("S".to_string(), 2, 0, 0, false),
        ]
    );
    let mut dry = settings();
    dry.dry_run = true;
    let host = fake_host(&[], &[]);
    let report = run_jobs(&host, &dry, &[&a, &skipped], &packages);
    assert!(host.commands.borrow().is_empty());
    assert!(report.success());
    assert_eq!(report.results[0], JobResult::new("A".to_string(), 2, 1, 0, true));
    assert!(run_jobs(&host, &dry, &[], &packages).success());
}

#[test]
fn run_errors_name_their_place() {
    let mut a = package("a");
    a.variables = vars(&[("kind", "lib")]);
    let packages = vec![a, package("b")];
    let mut named = when("cargo test", "kind == \"lib\"");
    if let Step::Extended { name, .. } = &mut named {
        *name = Some("Tests".to_string());
    }
    let mut job = job("ci", vec![step("build"), named]);
    job.name = Some("Continuous".to_string());
    let error = plan_step(&settings(), &job, 1, &packages, &[true, true]).unwrap_err();
    let message = error.message(&job, &packages);
    assert!(message.starts_with(
        "unable to evaluate the condition of the step (job 'Continuous', step 'Tests', package 'b'): Failed to evaluate expression: kind == \"lib\": "
    ));
    let error = RunError {
        stage: Stage::StepModifiers,
        step: Some(0),
        package: None,
        cause: Cause::Modifiers(ParseError::UnexpectedEnd),
    };
    assert_eq!(
        error.message(&job, &packages),
        "unable to evaluate the modifiers of the step (job 'Continuous', step 'build'): Unexpected end of expression"
    );
    let gated =
        Job::new(JobId::new("ci".to_string()), vec![with_modifiers("cargo bench", "nightly &")]);
    let error = plan_step(&settings(), &gated, 0, &packages, &[true, true]).unwrap_err();
    assert_eq!(error.stage, Stage::StepModifiers);
    assert_eq!(
        error.message(&gated, &packages),
        "unable to evaluate the modifiers of the step (job 'ci', step 'cargo bench', package 'a'): Failed to evaluate modifiers expression 'nightly &': Unexpected end of expression"
    );
    let error = RunError {
        stage: Stage::JobContinueOnError,
        step: Some(7),
        package: Some(9),
        cause: Cause::Modifiers(ParseError::TrailingToken { position: 3 }),
    };
    assert_eq!(
        error.message(&job, &packages),
        "unable to evaluate the continue_on_error of the job (job 'Continuous'): Unexpected token at position 3"
    );
    assert_eq!(Stage::JobCondition.name(), "condition of the job");
    assert_eq!(Stage::StepContinueOnError.name(), "continue_on_error of the step");
}
