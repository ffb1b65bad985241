use cargo_ci::args::{parse_key_val, KeyValueError, RunArgs};
use cargo_ci::color_modes::ColorModes;
use cargo_ci::config::{
    check_allowed, format_of, import_environment, Config, ConfigError, ConfigFormat, Platform,
    RawConfig,
};
use cargo_ci::expression::{
    as_boolean, Conditional, ContinueOnError, Evaluated, Expression, ExpressionError,
};
use cargo_ci::job::Job;
use cargo_ci::job_id::JobId;
use cargo_ci::jobs::GraphError;
use cargo_ci::step::Step;
use cargo_ci::text::{
    chars_of, decimal, eq_ignore_ascii_case, find_char, pad_right, to_lower,
};
use cargo_ci::variables::{
    assemble, find_last, flatten, lookup, precedence_of, Purpose, Scope, Sources, Variable,
};

fn var(name: &str, value: &str) -> Variable {
    Variable::new(name.to_string(), value.to_string())
}

fn vars(pairs: &[(&str, &str)]) -> Vec<Variable> {
    pairs.iter().map(|(n, v)| var(n, v)).collect()
}

fn strings(names: &[&str]) -> Vec<String> {
    names.iter().map(|n| n.to_string()).collect()
}

fn raw(jobs: Vec<Job>) -> RawConfig {
    RawConfig {
        jobs,
        default_jobs: vec![],
        passthrough_env_variables: vec![],
        passthrough_env_variables_windows: vec![],
        passthrough_env_variables_linux: vec![],
        passthrough_env_variables_macos: vec![],
        variables: vec![],
    }
}

fn job(name: &str, needs: &[&str]) -> Job {
    let mut job = Job::new(JobId::new(name.to_string()), vec![Step::from("true")]);
    job.needs = needs.iter().map(|n| JobId::new(n.to_string())).collect();
    job
}

#[test]
fn precedence_table() {
    assert_eq!(
        precedence_of(Purpose::JobCondition),
        vec![Scope::Environment, Scope::Workspace, Scope::Package, Scope::CommandLine]
    );
    assert_eq!(
        precedence_of(Purpose::JobContinueOnError),
        vec![Scope::Environment, Scope::Workspace, Scope::CommandLine]
    );
    assert_eq!(
        precedence_of(Purpose::StepCondition),
        vec![Scope::Environment, Scope::Workspace, Scope::Job, Scope::Package, Scope::CommandLine]
    );
    assert_eq!(
        precedence_of(Purpose::StepContinueOnError { per_package: true }),
        vec![Scope::Environment, Scope::Workspace, Scope::Job, Scope::Package, Scope::CommandLine]
    );
    assert_eq!(
        precedence_of(Purpose::StepContinueOnError { per_package: false }),
        vec![Scope::Environment, Scope::Workspace, Scope::Job, Scope::CommandLine]
    );
    assert_eq!(
        precedence_of(Purpose::StepExecution { per_package: true }),
        vec![Scope::Environment, Scope::Workspace, Scope::Job, Scope::Step, Scope::Package, Scope::CommandLine]
    );
    assert_eq!(
        precedence_of(Purpose::StepExecution { per_package: false }),
        vec![Scope::Environment, Scope::Workspace, Scope::Job, Scope::Step, Scope::CommandLine]
    );
}

#[test]
fn command_line_overrides_workspace_overrides_environment() {
    let environment = vars(&[("X", "1")]);
    let workspace = vars(&[("X", "2")]);
    let command_line = vars(&[("X", "3")]);
    let none: Vec<Variable> = vec![];
    let sources = Sources {
        environment: &environment,
        workspace: &workspace,
        job: &none,
        step: &none,
        package: &none,
        command_line: &command_line,
    };
    let chained = assemble(Purpose::StepCondition, &sources);
    assert_eq!(chained, vars(&[("X", "1"), ("X", "2"), ("X", "3")]));
    assert_eq!(lookup(&chained, &"X".to_string()), Some(&"3".to_string()));
    assert_eq!(flatten(&chained), vars(&[("X", "3")]));
    let condition = Conditional::Expression(Expression::new("X == \"3\"").unwrap());
    assert_eq!(condition.evaluate(&chained), Ok(true));
    let condition = Conditional::Expression(Expression::new("X == \"2\"").unwrap());
    assert_eq!(condition.evaluate(&chained), Ok(false));
}

#[test]
fn each_scope_overrides_the_broader_ones() {
    let environment = vars(&[("A", "env"), ("B", "env"), ("C", "env"), ("D", "env"), ("E", "env")]);
    let workspace = vars(&[("B", "ws"), ("C", "ws"), ("D", "ws"), ("E", "ws"), ("F", "ws")]);
    let job = vars(&[("C", "job"), ("D", "job"), ("E", "job"), ("F", "job")]);
    let step = vars(&[("D", "step"), ("E", "step"), ("F", "step")]);
    let package = vars(&[("E", "pkg"), ("F", "pkg")]);
    let command_line = vars(&[("F", "cli")]);
    let sources = Sources {
        environment: &environment,
        workspace: &workspace,
        job: &job,
        step: &step,
        package: &package,
        command_line: &command_line,
    };
    let per_package = flatten(&assemble(Purpose::StepExecution { per_package: true }, &sources));
    assert_eq!(
        per_package,
        vars(&[("A", "env"), ("B", "ws"), ("C", "job"), ("D", "step"), ("E", "pkg"), ("F", "cli")])
    );
    let once = flatten(&assemble(Purpose::StepExecution { per_package: false }, &sources));
    assert_eq!(
        once,
        vars(&[("A", "env"), ("B", "ws"), ("C", "job"), ("D", "step"), ("E", "step"), ("F", "cli")])
    );
    let job_condition = flatten(&assemble(Purpose::JobCondition, &sources));
    assert_eq!(
        job_condition,
        vars(&[("A", "env"), ("B", "ws"), ("C", "ws"), ("D", "ws"), ("E", "pkg"), ("F", "cli")])
    );
    let job_continue = flatten(&assemble(Purpose::JobContinueOnError, &sources));
    assert_eq!(
        job_continue,
        vars(&[("A", "env"), ("B", "ws"), ("C", "ws"), ("D", "ws"), ("E", "ws"), ("F", "cli")])
    );
    let step_condition = flatten(&assemble(Purpose::StepCondition, &sources));
    assert_eq!(
        step_condition,
        vars(&[("A", "env"), ("B", "ws"), ("C", "job"), ("D", "job"), ("E", "pkg"), ("F", "cli")])
    );
    assert_eq!(sources.get(Scope::Step), &step[..]);
}

#[test]
fn later_entries_override_earlier_ones() {
    let list = vars(&[("A", "1"), ("B", "2"), ("A", "3"), ("C", "4"), ("B", "5")]);
    assert_eq!(find_last(&list, &"A".to_string()), Some(2));
    assert_eq!(find_last(&list, &"B".to_string()), Some(4));
    assert_eq!(find_last(&list, &"Z".to_string()), None);
    assert_eq!(lookup(&list, &"A".to_string()), Some(&"3".to_string()));
    assert_eq!(lookup(&list, &"Z".to_string()), None);
    assert_eq!(lookup(&list, &"a".to_string()), None);
    assert_eq!(flatten(&list), vars(&[("A", "3"), ("B", "5"), ("C", "4")]));
    assert_eq!(flatten(&[]), vec![]);
}

#[test]
fn expression_syntax_is_checked_when_built() {
    assert!(Expression::new("a == \"b\" && c != \"d\"").is_ok());
    assert_eq!(Expression::new("true").unwrap().text(), "true");
    match Expression::new("(a == ") {
        Err(ExpressionError::Syntax { expression, .. }) => assert_eq!(expression, "(a == "),
        other => panic!("expected a syntax error, got {:?}", other),
    }
    assert!(matches!(Expression::new("a ==== b)"), Err(ExpressionError::Syntax { .. })));
}

#[test]
fn expression_is_evaluated_over_the_variables() {
    let profile = Expression::new("profile == \"release\"").unwrap();
    assert_eq!(profile.evaluate(&vars(&[("profile", "release")])), Ok(true));
    assert_eq!(profile.evaluate(&vars(&[("profile", "debug")])), Ok(false));
    assert_eq!(
        profile.evaluate(&vars(&[("profile", "release"), ("profile", "debug")])),
        Ok(false)
    );
    let both = Expression::new("os != \"windows\" && profile == \"release\"").unwrap();
    assert_eq!(both.evaluate(&vars(&[("os", "linux"), ("profile", "release")])), Ok(true));
    assert_eq!(both.evaluate(&vars(&[("os", "windows"), ("profile", "release")])), Ok(false));
    assert_eq!(Expression::new("1 + 1 == 2").unwrap().evaluate(&[].to_vec()), Ok(true));
}

#[test]
fn expression_has_to_come_to_a_boolean() {
    let text = Expression::new("profile").unwrap();
    assert_eq!(
        text.evaluate(&vars(&[("profile", "release")])),
        Err(ExpressionError::NotBoolean {
            expression: "profile".to_string(),
            got: Evaluated::Text
        })
    );
    assert_eq!(
        Expression::new("1 + 2").unwrap().evaluate(&vec![]),
        Err(ExpressionError::NotBoolean { expression: "1 + 2".to_string(), got: Evaluated::Int })
    );
    assert_eq!(
        Expression::new("1.5 * 2").unwrap().evaluate(&vec![]),
        Err(ExpressionError::NotBoolean {
            expression: "1.5 * 2".to_string(),
            got: Evaluated::Float
        })
    );
    assert_eq!(
        Expression::new("(1, 2)").unwrap().evaluate(&vec![]),
        Err(ExpressionError::NotBoolean {
            expression: "(1, 2)".to_string(),
            got: Evaluated::Tuple
        })
    );
    assert_eq!(
        Expression::new("").unwrap().evaluate(&vec![]),
        Err(ExpressionError::NotBoolean { expression: "".to_string(), got: Evaluated::Empty })
    );
    match text.evaluate(&vec![]) {
        Err(ExpressionError::Evaluation { expression, .. }) => assert_eq!(expression, "profile"),
        other => panic!("expected an evaluation error, got {:?}", other),
    }
}

#[test]
fn only_a_boolean_value_is_a_verdict() {
    assert_eq!(as_boolean(Evaluated::Boolean(true), "x"), Ok(true));
    assert_eq!(as_boolean(Evaluated::Boolean(false), "x"), Ok(false));
    for other in [
        Evaluated::Text,
        Evaluated::Float,
        Evaluated::Int,
        Evaluated::Tuple,
        Evaluated::Empty,
    ] {
        assert_eq!(
            as_boolean(other, "x"),
            Err(ExpressionError::NotBoolean { expression: "x".to_string(), got: other })
        );
    }
}

#[test]
fn conditions_default_to_run_and_stop() {
    assert_eq!(Conditional::default(), Conditional::Bool(true));
    assert_eq!(ContinueOnError::default(), ContinueOnError::Bool(false));
    assert_eq!(Conditional::Bool(false).evaluate(&vec![]), Ok(false));
    assert_eq!(Conditional::default().evaluate(&vars(&[("a", "b")])), Ok(true));
    assert_eq!(ContinueOnError::default().evaluate(&vec![]), Ok(false));
    assert_eq!(ContinueOnError::Bool(true).evaluate(&vec![]), Ok(true));
    let lenient = ContinueOnError::Expression(Expression::new("mode == \"lenient\"").unwrap());
    assert_eq!(lenient.evaluate(&vars(&[("mode", "lenient")])), Ok(true));
    assert_eq!(lenient.evaluate(&vars(&[("mode", "strict")])), Ok(false));
    assert!(lenient.evaluate(&vec![]).is_err());
}

#[test]
fn key_value_is_split_at_the_first_equals() {
    assert_eq!(parse_key_val("KEY=value"), Ok(var("KEY", "value")));
    assert_eq!(parse_key_val("KEY=a=b"), Ok(var("KEY", "a=b")));
    assert_eq!(parse_key_val("KEY="), Ok(var("KEY", "")));
    assert_eq!(parse_key_val("=value"), Ok(var("", "value")));
    assert_eq!(parse_key_val("k\u{e9}y=v\u{e4}l"), Ok(var("k\u{e9}y", "v\u{e4}l")));
    assert_eq!(
        parse_key_val("no equals"),
        Err(KeyValueError::NoEquals { text: "no equals".to_string() })
    );
    assert_eq!(parse_key_val(""), Err(KeyValueError::NoEquals { text: "".to_string() }));
}

#[test]
fn run_args_hand_out_their_variables() {
    let mut args = RunArgs::default();
    assert!(args.variables().is_empty());
    assert_eq!(args.log_file_retention_count, 0);
    assert!(args.jobs.is_empty() && args.package.is_empty() && args.log_file.is_none());
    assert_eq!(args.color, ColorModes::Auto);
    assert!(!args.dry_run && !args.keep_going && !args.sequential);
    args.variable = vars(&[("A", "1"), ("B", "2")]);
    assert_eq!(args.variables(), &vars(&[("A", "1"), ("B", "2")])[..]);
}

#[test]
fn color_follows_the_mode() {
    assert_eq!(ColorModes::default(), ColorModes::Auto);
    assert!(ColorModes::Always.use_color(false));
    assert!(!ColorModes::Never.use_color(true));
    assert!(ColorModes::Auto.use_color(true));
    assert!(!ColorModes::Auto.use_color(false));
}

#[test]
fn text_helpers() {
    assert_eq!(chars_of("a\u{e9}b"), vec!['a', '\u{e9}', 'b']);
    assert_eq!(chars_of(""), Vec::<char>::new());
    assert_eq!(to_lower('A'), 'a');
    assert_eq!(to_lower('Z'), 'z');
    assert_eq!(to_lower('a'), 'a');
    assert_eq!(to_lower('['), '[');
    assert_eq!(to_lower('@'), '@');
    assert_eq!(to_lower('\u{c9}'), '\u{c9}');
    assert!(eq_ignore_ascii_case("Path", "PATH"));
    assert!(eq_ignore_ascii_case("", ""));
    assert!(!eq_ignore_ascii_case("Path", "PATHS"));
    assert!(!eq_ignore_ascii_case("Path", "Bath"));
    assert!(!eq_ignore_ascii_case("\u{e9}", "\u{c9}"));
    assert_eq!(decimal(0), "0");
    assert_eq!(decimal(7), "7");
    assert_eq!(decimal(10), "10");
    assert_eq!(decimal(1234567890), "1234567890");
    assert_eq!(decimal(usize::MAX), usize::MAX.to_string());
    assert_eq!(pad_right("ab", 5), "ab   ");
    assert_eq!(pad_right("abcde", 5), "abcde");
    assert_eq!(pad_right("abcdef", 5), "abcdef");
    assert_eq!(pad_right("", 0), "");
    assert_eq!(pad_right("\u{e9}t\u{e9}", 5), "\u{e9}t\u{e9}  ");
    assert_eq!(find_char(&chars_of("a=b=c"), '='), Some(1));
    assert_eq!(find_char(&chars_of("abc"), '='), None);
}

#[test]
fn environment_is_filtered_by_the_allow_list() {
    let environment = vars(&[("PATH", "/bin"), ("Home", "/root"), ("SECRET", "x"), ("path", "p")]);
    let allowed = strings(&["PATH", "HOME"]);
    assert_eq!(
        import_environment(&environment, &allowed, Platform::Linux),
        vars(&[("PATH", "/bin")])
    );
    assert_eq!(
        import_environment(&environment, &allowed, Platform::Macos),
        vars(&[("PATH", "/bin")])
    );
    assert_eq!(
        import_environment(&environment, &allowed, Platform::Windows),
        vars(&[("PATH", "/bin"), ("Home", "/root"), ("path", "p")])
    );
    assert_eq!(import_environment(&environment, &[], Platform::Linux), environment);
    assert_eq!(import_environment(&environment, &[], Platform::Windows), environment);
    assert_eq!(import_environment(&[], &allowed, Platform::Other), vec![]);
    assert!(check_allowed(&"home".to_string(), &allowed, Platform::Windows));
    assert!(!check_allowed(&"home".to_string(), &allowed, Platform::Other));
    assert!(!check_allowed(&"HOME".to_string(), &[], Platform::Windows));
}

#[test]
fn configuration_is_checked() {
    let mut given = raw(vec![job("build", &[]), job("test", &["build"])]);
    given.default_jobs = vec![JobId::new("test".to_string())];
    given.passthrough_env_variables = strings(&["PATH"]);
    given.passthrough_env_variables_windows = strings(&["USERPROFILE"]);
    given.passthrough_env_variables_linux = strings(&["HOME", "DISPLAY"]);
    given.passthrough_env_variables_macos = strings(&["HOME"]);
    given.variables = vars(&[("profile", "release")]);

    let config = Config::new(given.clone(), Platform::Linux).unwrap();
    assert_eq!(config.jobs().len(), 2);
    assert_eq!(config.default_jobs(), &vec![JobId::new("test".to_string())]);
    assert_eq!(config.variables(), &vars(&[("profile", "release")])[..]);
    assert_eq!(config.passthrough_env_variables(), &strings(&["PATH", "HOME", "DISPLAY"]));

    let config = Config::new(given.clone(), Platform::Windows).unwrap();
    assert_eq!(config.passthrough_env_variables(), &strings(&["PATH", "USERPROFILE"]));
    let config = Config::new(given.clone(), Platform::Macos).unwrap();
    assert_eq!(config.passthrough_env_variables(), &strings(&["PATH", "HOME"]));
    let config = Config::new(given.clone(), Platform::Other).unwrap();
    assert_eq!(config.passthrough_env_variables(), &strings(&["PATH"]));
}

#[test]
fn configuration_errors() {
    let mut given = raw(vec![job("build", &[]), job("test", &["build"])]);
    given.default_jobs = vec![
        JobId::new("build".to_string()),
        JobId::new("deploy".to_string()),
        JobId::new("other".to_string()),
    ];
    assert_eq!(
        Config::new(given, Platform::Linux).unwrap_err(),
        ConfigError::UnknownDefaultJob { job: JobId::new("deploy".to_string()) }
    );
    let mut given = raw(vec![job("build", &["test"]), job("test", &["build"])]);
    given.default_jobs = vec![JobId::new("deploy".to_string())];
    assert_eq!(
        Config::new(given, Platform::Linux).unwrap_err(),
        ConfigError::Jobs(GraphError::Cycle {
            path: vec![
                JobId::new("build".to_string()),
                JobId::new("test".to_string()),
                JobId::new("build".to_string())
            ]
        })
    );
}

#[test]
fn configuration_formats() {
    assert_eq!(format_of("toml"), Some(ConfigFormat::Toml));
    assert_eq!(format_of("yml"), Some(ConfigFormat::Yaml));
    assert_eq!(format_of("yaml"), Some(ConfigFormat::Yaml));
    assert_eq!(format_of("json"), Some(ConfigFormat::Json));
    assert_eq!(format_of("TOML"), None);
    assert_eq!(format_of("ini"), None);
    assert_eq!(format_of(""), None);
}

#[test]
fn power_operator_is_evaluated() {
    let literal = Expression::new("name == \"a^b\"").unwrap();
    assert_eq!(literal.text(), "name == \"a^b\"");
    assert_eq!(literal.evaluate(&vars(&[("name", "a^b")])), Ok(true));
    assert_eq!(literal.evaluate(&vars(&[("name", "ab")])), Ok(false));
    let power = Expression::new("2 ^ 3 > 7.5 && 2 ^ 3 < 8.5").unwrap();
    assert_eq!(power.evaluate(&vec![]), Ok(true));
    match Expression::new("2 ^ 3").unwrap().evaluate(&vec![]) {
        Err(ExpressionError::NotBoolean { expression, got }) => {
            assert_eq!(expression, "2 ^ 3");
            assert_eq!(got, Evaluated::Float);
        }
        other => panic!("expected a value that is no boolean, got {:?}", other),
    }
    match Expression::new("name ^ 2 == 4").unwrap().evaluate(&vars(&[("name", "two")])) {
        Err(ExpressionError::Evaluation { expression, .. }) => {
            assert_eq!(expression, "name ^ 2 == 4")
        }
        other => panic!("expected an evaluation error, got {:?}", other),
    }
    assert!(matches!(Expression::new("(x ^"), Err(ExpressionError::Syntax { .. })));
    assert_eq!(
        Conditional::Expression(Expression::new("4 ^ 0.5 > 1.5").unwrap()).evaluate(&vec![]),
        Ok(true)
    );
}

#[test]
fn built_in_functions_are_switched_off() {
    let uses_function = Expression::new("len(name) == 3").unwrap();
    match uses_function.evaluate(&vars(&[("name", "abc")])) {
        Err(ExpressionError::Evaluation { expression, .. }) => {
            assert_eq!(expression, "len(name) == 3")
        }
        other => panic!("expected an evaluation error, got {:?}", other),
    }
    let slices = Expression::new("str::substring(name, 1) == \"x\"").unwrap();
    assert!(matches!(
        slices.evaluate(&vars(&[("name", "\u{e9}")])),
        Err(ExpressionError::Evaluation { .. })
    ));
    let operators = Expression::new("name + \"!\" == \"abc!\" && 7 % 4 == 3").unwrap();
    assert_eq!(operators.evaluate(&vars(&[("name", "abc")])), Ok(true));
    let overflow = Expression::new("9223372036854775807 + 1 == 0").unwrap();
    assert!(matches!(overflow.evaluate(&vec![]), Err(ExpressionError::Evaluation { .. })));
}
