use just_tap::format::choose_format;
use just_tap::format::OutputFormat;
use just_tap::plan::TaskGraph;
use just_tap::run::ExecOutcome;
use just_tap::run::Runner;

fn graph_of(tasks: &[(&str, &[&str])]) -> TaskGraph {
    let names: Vec<String> = tasks.iter().map(|t| t.0.to_string()).collect();
    let deps: Vec<Vec<usize>> = tasks
        .iter()
        .map(|t| {
            t.1.iter()
                .map(|d| names.iter().position(|x| x == d).unwrap())
                .collect()
        })
        .collect();
    TaskGraph { names, deps }
}

fn run_tap(
    tasks: &[(&str, &[&str])],
    requested: &[&str],
    outcome: impl Fn(&str) -> ExecOutcome,
) -> (String, bool) {
    let g = graph_of(tasks);
    let req: Vec<usize> = requested
        .iter()
        .map(|r| g.names.iter().position(|x| x == r).unwrap())
        .collect();
    let (mut runner, mut out) = Runner::new(g, &req);
    while !runner.done() {
        if runner.must_skip() {
            runner.skip_current();
        } else {
            let t = runner.current_task();
            let name = runner.graph.names[t].clone();
            runner.begin_current();
            out.push_str(&runner.finish_current(outcome(&name)));
        }
    }
    let ok = runner.success();
    (out, ok)
}

fn echo(text: &str) -> ExecOutcome {
    ExecOutcome::Completed {
        exit_code: Some(0),
        message: None,
        output: format!("{text}\n"),
    }
}

fn exit_with(name: &str, code: i32) -> ExecOutcome {
    ExecOutcome::Completed {
        exit_code: Some(code),
        message: Some(format!("Recipe `{name}` failed with exit code {code}")),
        output: String::new(),
    }
}

fn silent_ok() -> ExecOutcome {
    ExecOutcome::Completed {
        exit_code: Some(0),
        message: None,
        output: String::new(),
    }
}

#[test]
fn single_passing_recipe() {
    let (out, ok) = run_tap(&[("build", &[])], &["build"], |_| echo("hello"));
    assert_eq!(
        out,
        "TAP version 14\n1..1\nok 1 - build\n  ---\n  output: |\n    hello\n  ...\n"
    );
    assert!(ok);
}

#[test]
fn single_failing_recipe() {
    let (out, ok) = run_tap(&[("test", &[])], &["test"], |n| exit_with(n, 1));
    assert_eq!(
        out,
        "TAP version 14\n1..1\nnot ok 1 - test\n  ---\n  message: \"Recipe `test` failed with exit code 1\"\n  severity: fail\n  exitcode: 1\n  ...\n"
    );
    assert!(!ok);
}

#[test]
fn multiple_recipes_all_pass() {
    let (out, ok) = run_tap(
        &[("build", &[]), ("lint", &[])],
        &["build", "lint"],
        |n| match n {
            "build" => echo("building"),
            _ => echo("linting"),
        },
    );
    assert_eq!(
        out,
        "TAP version 14\n1..2\nok 1 - build\n  ---\n  output: |\n    building\n  ...\nok 2 - lint\n  ---\n  output: |\n    linting\n  ...\n"
    );
    assert!(ok);
}

#[test]
fn mixed_results_continues_past_failure() {
    let (out, ok) = run_tap(
        &[("build", &[]), ("test", &[]), ("lint", &[])],
        &["build", "test", "lint"],
        |n| match n {
            "build" => echo("building"),
            "test" => exit_with("test", 1),
            _ => echo("linting"),
        },
    );
    assert_eq!(
        out,
        "TAP version 14\n1..3\nok 1 - build\n  ---\n  output: |\n    building\n  ...\nnot ok 2 - test\n  ---\n  message: \"Recipe `test` failed with exit code 1\"\n  severity: fail\n  exitcode: 1\n  ...\nok 3 - lint\n  ---\n  output: |\n    linting\n  ...\n"
    );
    assert!(!ok);
}

#[test]
fn tap_captures_recipe_output() {
    let (out, ok) = run_tap(&[("build", &[])], &["build"], |_| echo("captured-output"));
    assert_eq!(
        out,
        "TAP version 14\n1..1\nok 1 - build\n  ---\n  output: |\n    captured-output\n  ...\n"
    );
    assert!(ok);
}

#[test]
fn tap_with_env_var() {
    let format = choose_format(false, Some(String::from("true")));
    assert_eq!(format, OutputFormat::Tap);
    let (out, ok) = run_tap(&[("build", &[])], &["build"], |_| echo("hello"));
    assert_eq!(
        out,
        "TAP version 14\n1..1\nok 1 - build\n  ---\n  output: |\n    hello\n  ...\n"
    );
    assert!(ok);
}

#[test]
fn tap_expands_dependencies() {
    let (out, ok) = run_tap(
        &[("compile", &[]), ("build", &["compile"])],
        &["build"],
        |n| match n {
            "compile" => echo("compiling"),
            _ => echo("building"),
        },
    );
    assert_eq!(
        out,
        "TAP version 14\n1..2\nok 1 - compile\n  ---\n  output: |\n    compiling\n  ...\nok 2 - build\n  ---\n  output: |\n    building\n  ...\n"
    );
    assert!(ok);
}

#[test]
fn tap_expands_deep_dependencies() {
    let (out, ok) = run_tap(
        &[
            ("compile", &[]),
            ("build", &["compile"]),
            ("test", &["build"]),
        ],
        &["test"],
        |n| match n {
            "compile" => echo("compiling"),
            "build" => echo("building"),
            _ => echo("testing"),
        },
    );
    assert_eq!(
        out,
        "TAP version 14\n1..3\nok 1 - compile\n  ---\n  output: |\n    compiling\n  ...\nok 2 - build\n  ---\n  output: |\n    building\n  ...\nok 3 - test\n  ---\n  output: |\n    testing\n  ...\n"
    );
    assert!(ok);
}

#[test]
fn tap_failing_dependency() {
    let (out, ok) = run_tap(
        &[("compile", &[]), ("build", &["compile"])],
        &["build"],
        |n| match n {
            "compile" => exit_with("compile", 1),
            _ => echo("building"),
        },
    );
    assert_eq!(
        out,
        "TAP version 14\n1..2\nnot ok 1 - compile\n  ---\n  message: \"Recipe `compile` failed with exit code 1\"\n  severity: fail\n  exitcode: 1\n  ...\n"
    );
    assert!(!ok);
}

#[test]
fn tap_quiet_recipe_output_captured() {
    let (out, ok) = run_tap(&[("build", &[])], &["build"], |_| echo("quiet-output"));
    assert_eq!(
        out,
        "TAP version 14\n1..1\nok 1 - build\n  ---\n  output: |\n    quiet-output\n  ...\n"
    );
    assert!(ok);
}

#[test]
fn tap_no_output_no_yaml_block() {
    let (out, ok) = run_tap(&[("build", &[])], &["build"], |_| silent_ok());
    assert_eq!(out, "TAP version 14\n1..1\nok 1 - build\n");
    assert!(ok);
}

#[test]
fn tap_shared_dependency_runs_once() {
    let (out, ok) = run_tap(
        &[
            ("compile", &[]),
            ("build", &["compile"]),
            ("test", &["compile"]),
        ],
        &["build", "test"],
        |n| match n {
            "compile" => echo("compiling"),
            "build" => echo("building"),
            _ => echo("testing"),
        },
    );
    assert_eq!(
        out,
        "TAP version 14\n1..3\nok 1 - compile\n  ---\n  output: |\n    compiling\n  ...\nok 2 - build\n  ---\n  output: |\n    building\n  ...\nok 3 - test\n  ---\n  output: |\n    testing\n  ...\n"
    );
    assert!(ok);
}

#[test]
fn spawn_error_reports_failure_without_exit_code() {
    let (out, ok) = run_tap(&[("broken", &[])], &["broken"], |_| {
        ExecOutcome::SpawnFailed {
            message: String::from("could not start interpreter"),
        }
    });
    assert_eq!(
        out,
        "TAP version 14\n1..1\nnot ok 1 - broken\n  ---\n  message: \"could not start interpreter\"\n  severity: fail\n  ...\n"
    );
    assert!(!ok);
}

#[test]
fn independent_tasks_unaffected_by_failure() {
    // failure isolation: only the dependent of the failure is skipped
    let (out, ok) = run_tap(
        &[
            ("compile", &[]),
            ("build", &["compile"]),
            ("lint", &[]),
        ],
        &["build", "lint"],
        |n| match n {
            "compile" => exit_with("compile", 2),
            _ => echo("linting"),
        },
    );
    assert_eq!(
        out,
        "TAP version 14\n1..3\nnot ok 1 - compile\n  ---\n  message: \"Recipe `compile` failed with exit code 2\"\n  severity: fail\n  exitcode: 2\n  ...\nok 2 - lint\n  ---\n  output: |\n    linting\n  ...\n"
    );
    assert!(!ok);
}

#[test]
fn diamond_dependency_executes_once_before_dependents() {
    let (out, ok) = run_tap(
        &[
            ("base", &[]),
            ("left", &["base"]),
            ("right", &["base"]),
            ("top", &["left", "right"]),
        ],
        &["top"],
        |_| silent_ok(),
    );
    assert_eq!(
        out,
        "TAP version 14\n1..4\nok 1 - base\nok 2 - left\nok 3 - right\nok 4 - top\n"
    );
    assert!(ok);
}

#[test]
fn plain_format_chosen_without_flag_or_env() {
    assert_eq!(choose_format(false, None), OutputFormat::Default);
    assert_eq!(
        choose_format(false, Some(String::from("no"))),
        OutputFormat::Default
    );
    assert_eq!(choose_format(true, None), OutputFormat::Tap);
    assert_eq!(
        choose_format(false, Some(String::from("1"))),
        OutputFormat::Tap
    );
}
