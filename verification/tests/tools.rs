use cargo_ci::config::{Config, Platform, RawConfig};
use cargo_ci::expression::{Conditional, ContinueOnError};
use cargo_ci::install_key::{
    join_from, split_whitespace, strip_parentheses, InstallKey, InstallKeyError,
};
use cargo_ci::job::Job;
use cargo_ci::job_id::JobId;
use cargo_ci::list_jobs::{list_jobs, ListJobArgs};
use cargo_ci::step::Step;
use cargo_ci::step_id::StepId;
use cargo_ci::tool::{install_arguments, Tool};
use cargo_ci::tool_id::ToolId;
use semver::Version;

fn strings(items: &[&str]) -> Vec<String> {
    items.iter().map(|s| s.to_string()).collect()
}

#[test]
fn text_is_split_at_white_space() {
    assert_eq!(split_whitespace("a b  c"), strings(&["a", "b", "c"]));
    assert_eq!(split_whitespace("  lead and trail \t\n"), strings(&["lead", "and", "trail"]));
    assert_eq!(split_whitespace(""), Vec::<String>::new());
    assert_eq!(split_whitespace(" \t "), Vec::<String>::new());
    assert_eq!(split_whitespace("one"), strings(&["one"]));
    assert_eq!(
        split_whitespace("a\u{a0}b\u{2003}c\u{3000}d\u{85}e\u{200b}f"),
        strings(&["a", "b", "c", "d", "e\u{200b}f"])
    );
    for text in ["a b  c", " x\u{1680}y\u{2028}z\u{2029}w\u{202f}v\u{205f}u ", "\u{b}\u{c}q\r"] {
        let expected: Vec<String> = text.split_whitespace().map(|w| w.to_string()).collect();
        assert_eq!(split_whitespace(text), expected);
    }
}

#[test]
fn words_are_joined_with_blanks() {
    let parts = strings(&["a", "b", "c", "d"]);
    assert_eq!(join_from(&parts, 0), "a b c d");
    assert_eq!(join_from(&parts, 2), "c d");
    assert_eq!(join_from(&parts, 3), "d");
    assert_eq!(join_from(&parts, 4), "");
}

#[test]
fn parentheses_are_taken_off() {
    assert_eq!(strip_parentheses("(registry+https://example.org)".to_string()), "registry+https://example.org");
    assert_eq!(strip_parentheses("()".to_string()), "");
    assert_eq!(strip_parentheses("(".to_string()), "(");
    assert_eq!(strip_parentheses(")".to_string()), ")");
    assert_eq!(strip_parentheses("(open".to_string()), "(open");
    assert_eq!(strip_parentheses("closed)".to_string()), "closed)");
    assert_eq!(strip_parentheses("plain".to_string()), "plain");
    assert_eq!(strip_parentheses("".to_string()), "");
}

#[test]
fn install_key_is_parsed() {
    let key = InstallKey::parse(
        "cargo-deny 0.14.3 (registry+https://github.com/rust-lang/crates.io-index)",
    )
    .unwrap();
    assert_eq!(key.name(), "cargo-deny");
    assert_eq!(key.version(), &Version::new(0, 14, 3));
    assert_eq!(key.source(), Some("registry+https://github.com/rust-lang/crates.io-index"));

    let key = InstallKey::parse("tool 1.2.3-beta.1+build5").unwrap();
    assert_eq!(key.name(), "tool");
    assert_eq!(key.version(), &Version::parse("1.2.3-beta.1+build5").unwrap());
    assert_eq!(key.source(), None);

    let key = InstallKey::parse("  tool   1.0.0   (path+file:///my  dir)  ").unwrap();
    assert_eq!(key.source(), Some("path+file:///my dir"));
    let key = InstallKey::parse("tool 1.0.0 git+https://example.org/x#abc").unwrap();
    assert_eq!(key.source(), Some("git+https://example.org/x#abc"));
    assert_eq!(key.clone(), key);
}

#[test]
fn install_key_errors() {
    assert_eq!(InstallKey::parse(""), Err(InstallKeyError::MissingName));
    assert_eq!(InstallKey::parse("   "), Err(InstallKeyError::MissingName));
    assert_eq!(InstallKey::parse("tool"), Err(InstallKeyError::MissingVersion));
    assert_eq!(
        InstallKey::parse("tool one.two"),
        Err(InstallKeyError::InvalidVersion { version: "one.two".to_string() })
    );
    assert_eq!(
        InstallKey::parse("tool 1.0 (source)"),
        Err(InstallKeyError::InvalidVersion { version: "1.0".to_string() })
    );
    assert_eq!(
        InstallKey::parse("tool 1.0.01"),
        Err(InstallKeyError::InvalidVersion { version: "1.0.01".to_string() })
    );
}

#[test]
fn install_arguments_for_a_bare_version() {
    let tool = Tool::Simple(Version::new(1, 2, 3));
    assert_eq!(
        install_arguments(&ToolId::new("cargo-deny".to_string()), &tool),
        strings(&["install", "cargo-deny", "--version", "1.2.3"])
    );
    assert_eq!(tool.version(), &Version::new(1, 2, 3));
    assert_eq!(tool.index(), None);
    assert_eq!(tool.registry(), None);
    assert_eq!(tool.git(), None);
    assert_eq!(tool.branch(), None);
    assert_eq!(tool.tag(), None);
    assert_eq!(tool.rev(), None);
    assert_eq!(tool.path(), None);
    assert_eq!(tool.root(), None);
}

#[test]
fn install_arguments_with_options() {
    let tool = Tool::Extended {
        version: Version::parse("0.9.0-rc.1").unwrap(),
        index: Some("idx".to_string()),
        registry: None,
        git: Some("https://example.org/tool.git".to_string()),
        branch: Some("main".to_string()),
        tag: None,
        rev: Some("abc123".to_string()),
        path: None,
        root: Some("/opt/tools".to_string()),
    };
    assert_eq!(
        install_arguments(&ToolId::new("tool".to_string()), &tool),
        strings(&[
            "install",
            "tool",
            "--version",
            "0.9.0-rc.1",
            "--index",
            "idx",
            "--git",
            "https://example.org/tool.git",
            "--branch",
            "main",
            "--rev",
            "abc123",
            "--root",
            "/opt/tools"
        ])
    );
    assert_eq!(tool.git(), Some(&"https://example.org/tool.git".to_string()));
    assert_eq!(tool.root(), Some(&"/opt/tools".to_string()));
    let all = Tool::Extended {
        version: Version::new(2, 0, 0),
        index: Some("i".to_string()),
        registry: Some("r".to_string()),
        git: Some("g".to_string()),
        branch: Some("b".to_string()),
        tag: Some("t".to_string()),
        rev: Some("v".to_string()),
        path: Some("p".to_string()),
        root: Some("o".to_string()),
    };
    assert_eq!(
        install_arguments(&ToolId::new("x".to_string()), &all),
        strings(&[
            "install", "x", "--version", "2.0.0", "--index", "i", "--registry", "r", "--git",
            "g", "--branch", "b", "--tag", "t", "--rev", "v", "--path", "p", "--root", "o"
        ])
    );
    assert_eq!(all.registry(), Some(&"r".to_string()));
    assert_eq!(all.tag(), Some(&"t".to_string()));
    assert_eq!(all.path(), Some(&"p".to_string()));
    assert_eq!(all.index(), Some(&"i".to_string()));
    assert_eq!(all.branch(), Some(&"b".to_string()));
    assert_eq!(all.rev(), Some(&"v".to_string()));
}

fn named_step(command: &str, name: Option<&str>, id: Option<&str>) -> Step {
    Step::Extended {
        command: command.to_string(),
        name: name.map(|n| n.to_string()),
        id: id.map(|i| StepId::new(i.to_string())),
        conditional: Conditional::Bool(true),
        continue_on_error: ContinueOnError::Bool(false),
        per_package: false,
        modifiers: None,
        working_directory: None,
        variables: vec![],
    }
}

fn config(jobs: Vec<Job>) -> Config {
    Config::new(
        RawConfig {
            jobs,
            default_jobs: vec![],
            passthrough_env_variables: vec![],
            passthrough_env_variables_windows: vec![],
            passthrough_env_variables_linux: vec![],
            passthrough_env_variables_macos: vec![],
            variables: vec![],
        },
        Platform::Other,
    )
    .unwrap()
}

#[test]
fn jobs_are_listed() {
    let build = Job::new(
        JobId::new("build".to_string()),
        vec![Step::from("cargo build"), named_step("cargo doc", Some("Docs"), None)],
    );
    let lint = Job::new(
        JobId::new("lint".to_string()),
        vec![named_step("cargo fmt", Some("Format"), Some("fmt"))],
    );
    let cfg = config(vec![build, lint]);
    assert_eq!(list_jobs(&ListJobArgs { show_steps: false }, &cfg), strings(&["build", "lint"]));
    assert_eq!(
        list_jobs(&ListJobArgs { show_steps: true }, &cfg),
        strings(&["build", "  cargo build", "  Docs", "lint", "  fmt"])
    );
    let empty = config(vec![]);
    assert_eq!(
        list_jobs(&ListJobArgs { show_steps: true }, &empty),
        strings(&["No jobs defined in the workspace configuration."])
    );
}

#[test]
fn oldest_log_files_are_given_up() {
    use_retention(&[50, 10, 40, 20, 30], 2, &[1, 3, 4]);
    use_retention(&[50, 10, 40, 20, 30], 5, &[]);
    use_retention(&[50, 10, 40, 20, 30], 9, &[]);
    use_retention(&[50, 10, 40, 20, 30], 0, &[1, 3, 4, 2, 0]);
    use_retention(&[], 3, &[]);
    use_retention(&[7], 0, &[0]);
    let removed = cargo_ci::retention::files_to_remove(&[5, 5, 5, 5], 1);
    assert_eq!(removed.len(), 3);
    let mut distinct = removed.clone();
    distinct.sort();
    distinct.dedup();
    assert_eq!(distinct.len(), 3);
}

fn use_retention(modified: &[u128], keep: usize, expected: &[usize]) {
    assert_eq!(cargo_ci::retention::files_to_remove(modified, keep), expected.to_vec());
}

#[test]
fn errors_say_what_is_wrong() {
    use_messages();
}

fn use_messages() {
    let id = |name: &str| JobId::new(name.to_string());
    assert_eq!(
        cargo_ci::jobs::GraphError::Cycle { path: vec![id("a"), id("b"), id("c"), id("a")] }
            .message(),
        "circular dependency detected: a -> b -> c -> a"
    );
    assert_eq!(
        cargo_ci::jobs::GraphError::UnknownNeed { job: id("test"), need: id("lint") }.message(),
        "job 'test' needs job 'lint', but there is no 'lint' job"
    );
    assert_eq!(
        cargo_ci::jobs::GraphError::DuplicateStepId {
            job: id("lint"),
            step: StepId::new("fmt".to_string())
        }
        .message(),
        "duplicate step id 'fmt' found in job 'lint'"
    );
    assert_eq!(
        cargo_ci::jobs::GraphError::DuplicateJob { job: id("build") }.message(),
        "job 'build' is defined twice"
    );
    assert_eq!(
        cargo_ci::config::ConfigError::UnknownDefaultJob { job: id("deploy") }.message(),
        "default job 'deploy' is not defined in the [jobs] section"
    );
    assert_eq!(
        cargo_ci::config::ConfigError::Jobs(cargo_ci::jobs::GraphError::DuplicateJob {
            job: id("x")
        })
        .message(),
        "job 'x' is defined twice"
    );
    assert_eq!(
        cargo_ci::selection::SelectError::NoJobsDefined.message(),
        "no jobs are defined in configuration"
    );
    assert_eq!(
        cargo_ci::selection::SelectError::UnknownJobs { names: strings(&["a", "b"]) }.message(),
        "invalid jobs specified: a, b"
    );
    assert_eq!(
        cargo_ci::package::PackageError::NotAMember { name: "core".to_string() }.message(),
        "package 'core' is not a member of the workspace"
    );
    assert_eq!(
        cargo_ci::args::KeyValueError::NoEquals { text: "KEY".to_string() }.message(),
        "invalid KEY=value: no '=' found in `KEY`"
    );
    assert_eq!(InstallKeyError::MissingName.message(), "Missing package name in install key");
    assert_eq!(InstallKeyError::MissingVersion.message(), "Missing version in install key");
    assert_eq!(
        InstallKeyError::InvalidVersion { version: "1.x".to_string() }.message(),
        "invalid version '1.x' in install key"
    );
    use_parse_messages();
}

fn use_parse_messages() {
    let none: Vec<String> = vec![];
    let message = |text: &str| cargo_ci::modifier_expression::evaluate(text, &none).unwrap_err().message();
    assert_eq!(message(""), "Unexpected end of expression");
    assert_eq!(message("a & | b"), "Expected identifier or '(' at token 2");
    assert_eq!(message("(a b"), "Missing closing parenthesis at token 2");
    assert_eq!(message("a b c d e f g h i j k l"), "Unexpected token at position 1");
    assert_eq!(message("abcdefghijkl?"), "Unexpected character at position 12");
    let not_boolean = cargo_ci::expression::Expression::new("1 + 2").unwrap().evaluate(&vec![]);
    assert_eq!(
        not_boolean.unwrap_err().message(),
        "expression did not evaluate to a boolean, got an integer: 1 + 2"
    );
    let syntax = cargo_ci::expression::Expression::new("(a == ").unwrap_err().message();
    assert!(syntax.starts_with("Failed to parse expression: (a == : "));
    assert!(syntax.len() > "Failed to parse expression: (a == : ".len());
    let failed = cargo_ci::expression::Expression::new("a == \"x\"").unwrap().evaluate(&vec![]);
    let failed = failed.unwrap_err().message();
    assert!(failed.starts_with("Failed to evaluate expression: a == \"x\": "));
    assert!(failed.len() > "Failed to evaluate expression: a == \"x\": ".len());
}
