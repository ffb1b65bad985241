use cargo_ci::expression::{Conditional, ContinueOnError};
use cargo_ci::package_config::PackageConfig;
use cargo_ci::step::Step;
use cargo_ci::step_id::StepId;
use cargo_ci::variables::Variable;

fn extended(command: &str) -> Step {
    Step::Extended {
        command: command.to_string(),
        name: None,
        id: None,
        conditional: Conditional::Bool(true),
        continue_on_error: ContinueOnError::Bool(false),
        per_package: false,
        modifiers: None,
        working_directory: None,
        variables: vec![],
    }
}

fn with_name(step: Step, new_name: &str) -> Step {
    match step {
        Step::Extended {
            command,
            id,
            conditional,
            continue_on_error,
            per_package,
            modifiers,
            working_directory,
            variables,
            ..
        } => Step::Extended {
            command,
            name: Some(new_name.to_string()),
            id,
            conditional,
            continue_on_error,
            per_package,
            modifiers,
            working_directory,
            variables,
        },
        simple => simple,
    }
}

fn with_continue_on_error(step: Step, value: bool) -> Step {
    match step {
        Step::Extended {
            command,
            name,
            id,
            conditional,
            per_package,
            modifiers,
            working_directory,
            variables,
            ..
        } => Step::Extended {
            command,
            name,
            id,
            conditional,
            continue_on_error: ContinueOnError::Bool(value),
            per_package,
            modifiers,
            working_directory,
            variables,
        },
        simple => simple,
    }
}

fn with_working_directory(step: Step, directory: &str) -> Step {
    match step {
        Step::Extended {
            command,
            name,
            id,
            conditional,
            continue_on_error,
            per_package,
            modifiers,
            variables,
            ..
        } => Step::Extended {
            command,
            name,
            id,
            conditional,
            continue_on_error,
            per_package,
            modifiers,
            working_directory: Some(directory.to_string()),
            variables,
        },
        simple => simple,
    }
}

#[test]
fn test_command_simple_form() {
    let cmd = Step::Simple("cargo build".to_string());
    assert_eq!(cmd.command(), "cargo build");
    assert_eq!(cmd.display_name(), "cargo build");
}

#[test]
fn test_command_extended_form_with_name() {
    let cmd = with_name(extended("cargo build --release"), "Build Release");
    assert_eq!(cmd.command(), "cargo build --release");
    assert_eq!(cmd.display_name(), "Build Release");
}

#[test]
fn test_command_extended_form_without_name() {
    let cmd = extended("cargo build");
    assert_eq!(cmd.command(), "cargo build");
    assert_eq!(cmd.display_name(), "cargo build");
}

#[test]
fn test_command_from_string() {
    let cmd = Step::from("cargo test".to_string());
    assert_eq!(cmd.command(), "cargo test");
    assert_eq!(cmd.display_name(), "cargo test");
}

#[test]
fn test_command_from_str() {
    let cmd = Step::from("cargo clippy");
    assert_eq!(cmd.command(), "cargo clippy");
    assert_eq!(cmd.display_name(), "cargo clippy");
}

#[test]
fn test_command_equality() {
    let cmd1 = Step::Simple("cargo build".to_string());
    let cmd2 = Step::Simple("cargo build".to_string());
    let cmd3 = Step::Simple("cargo test".to_string());

    assert_eq!(cmd1, cmd2);
    assert_ne!(cmd1, cmd3);
}

#[test]
fn test_command_clone() {
    let cmd1 = with_name(extended("cargo build"), "Build");
    let cmd2 = cmd1.clone();

    assert_eq!(cmd1, cmd2);
    assert_eq!(cmd1.command(), cmd2.command());
    assert_eq!(cmd1.display_name(), cmd2.display_name());
}

#[test]
fn test_continue_on_error_simple() {
    let cmd = Step::Simple("cargo build".to_string());
    assert_eq!(cmd.continue_on_error(), &ContinueOnError::Bool(false));
}

#[test]
fn test_continue_on_error_extended_false() {
    let cmd = extended("cargo build");
    assert_eq!(cmd.continue_on_error(), &ContinueOnError::Bool(false));
}

#[test]
fn test_continue_on_error_extended_true() {
    let cmd = with_continue_on_error(extended("cargo build"), true);
    assert_eq!(cmd.continue_on_error(), &ContinueOnError::Bool(true));
}

#[test]
fn test_working_directory_simple() {
    let cmd = Step::Simple("cargo build".to_string());
    assert_eq!(cmd.working_directory(), None);
}

#[test]
fn test_working_directory_extended_none() {
    let cmd = extended("cargo build");
    assert_eq!(cmd.working_directory(), None);
}

#[test]
fn test_working_directory_extended_some() {
    let cmd = with_working_directory(extended("cargo build"), "./subdir");
    assert_eq!(cmd.working_directory(), Some("./subdir"));
}

#[test]
fn test_default_project() {
    let project = PackageConfig::default();
    assert!(project.modifiers.is_none());
}

#[test]
fn test_project_with_modifiers() {
    let project = PackageConfig {
        modifiers: Some(vec!["nightly".to_string(), "experimental".to_string()]),
    };
    assert_eq!(project.modifiers().unwrap(), &["nightly", "experimental"]);
}

#[test]
fn package_without_modifiers_declares_none() {
    let project = PackageConfig::default();
    assert!(project.declared().is_empty());
    let project = PackageConfig { modifiers: Some(vec!["nightly".to_string()]) };
    assert_eq!(project.declared(), &["nightly".to_string()]);
}

#[test]
fn bare_command_has_the_defaults() {
    let step = Step::Simple("make".to_string());
    assert_eq!(step.name(), "make");
    assert_eq!(step.id(), None);
    assert_eq!(step.conditional(), &Conditional::Bool(true));
    assert_eq!(step.continue_on_error(), &ContinueOnError::Bool(false));
    assert!(!step.per_package());
    assert_eq!(step.modifiers_expr(), None);
    assert_eq!(step.working_directory(), None);
    assert!(step.variables().is_empty());
}

#[test]
fn extended_step_hands_out_its_fields() {
    let step = Step::Extended {
        command: "cargo test".to_string(),
        name: Some("Run tests".to_string()),
        id: Some(StepId::new("tests".to_string())),
        conditional: Conditional::Bool(false),
        continue_on_error: ContinueOnError::Bool(true),
        per_package: true,
        modifiers: Some("nightly & !windows".to_string()),
        working_directory: Some("./test-dir".to_string()),
        variables: vec![Variable::new("RUST_LOG".to_string(), "debug".to_string())],
    };
    assert_eq!(step.command(), "cargo test");
    assert_eq!(step.name(), "Run tests");
    assert_eq!(step.display_name(), "Run tests");
    assert_eq!(step.id().map(|id| id.as_str()), Some("tests"));
    assert_eq!(step.conditional(), &Conditional::Bool(false));
    assert_eq!(step.continue_on_error(), &ContinueOnError::Bool(true));
    assert!(step.per_package());
    assert_eq!(step.modifiers_expr(), Some("nightly & !windows"));
    assert_eq!(step.working_directory(), Some("./test-dir"));
    assert_eq!(
        step.variables(),
        &[Variable::new("RUST_LOG".to_string(), "debug".to_string())]
    );
}
