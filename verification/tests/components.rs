use just_tap::plan::build_plan;
use just_tap::plan::TaskGraph;
use just_tap::run::ExecOutcome;
use just_tap::run::Runner;
use just_tap::tools::agent_permission;
use just_tap::tools::build_run_args;
use just_tap::tools::dump_result;
use just_tap::tools::evaluated_values;
use just_tap::tools::get_agent_permission;
use just_tap::tools::lookup_value;
use just_tap::tools::parse_evaluated_line;
use just_tap::tools::partition_recipes;
use just_tap::tools::show_result;
use just_tap::tools::split_into_lines;
use just_tap::tools::JustOutput;
use just_tap::tools::RecipeMeta;

#[test]
fn plan_is_deduplicated_and_ordered() {
    // diamond: top depends on left and right, both depend on base
    let g = TaskGraph {
        names: vec![
            String::from("base"),
            String::from("left"),
            String::from("right"),
            String::from("top"),
        ],
        deps: vec![vec![], vec![0], vec![0], vec![1, 2]],
    };
    let plan = build_plan(&g, &vec![3]);
    assert_eq!(plan, vec![0, 1, 2, 3]);
}

#[test]
fn plan_keeps_requested_order_for_independent_tasks() {
    let g = TaskGraph {
        names: vec![String::from("a"), String::from("b"), String::from("c")],
        deps: vec![vec![], vec![], vec![]],
    };
    let plan = build_plan(&g, &vec![2, 0, 1]);
    assert_eq!(plan, vec![2, 0, 1]);
}

#[test]
fn plan_of_repeated_request_lists_task_once() {
    let g = TaskGraph {
        names: vec![String::from("a"), String::from("b")],
        deps: vec![vec![], vec![0]],
    };
    let plan = build_plan(&g, &vec![1, 0, 1]);
    assert_eq!(plan, vec![0, 1]);
}

#[test]
fn empty_request_emits_empty_plan() {
    let g = TaskGraph {
        names: vec![String::from("a")],
        deps: vec![vec![]],
    };
    let (runner, out) = Runner::new(g, &vec![]);
    assert_eq!(out, "TAP version 14\n1..0\n");
    assert!(runner.done());
    assert!(runner.success());
}

#[test]
fn skipped_task_consumes_no_number() {
    // c depends on b depends on a; a fails, so b and c are skipped
    let g = TaskGraph {
        names: vec![String::from("a"), String::from("b"), String::from("c")],
        deps: vec![vec![], vec![0], vec![1]],
    };
    let (mut runner, mut out) = Runner::new(g, &vec![2]);
    while !runner.done() {
        if runner.must_skip() {
            runner.skip_current();
        } else {
            runner.begin_current();
            out.push_str(&runner.finish_current(ExecOutcome::Completed {
                exit_code: Some(3),
                message: None,
                output: String::new(),
            }));
        }
    }
    assert_eq!(
        out,
        "TAP version 14\n1..3\nnot ok 1 - a\n  ---\n  severity: fail\n  exitcode: 3\n  ...\n"
    );
    assert_eq!(runner.writer.counter, 1);
    assert_eq!(runner.writer.failures, 1);
    assert!(!runner.success());
}

#[test]
fn permission_defaults_to_per_request() {
    assert_eq!(agent_permission(&vec![]), "per-request");
    assert_eq!(agent_permission(&vec![None, None]), "per-request");
    assert_eq!(get_agent_permission(None), "per-request");
}

#[test]
fn permission_takes_first_agents_attribute() {
    let attrs = vec![
        None,
        Some(String::from("always-allowed")),
        Some(String::from("never-allowed")),
    ];
    assert_eq!(agent_permission(&attrs), "always-allowed");
    assert_eq!(get_agent_permission(Some(&attrs)), "always-allowed");
}

#[test]
fn recipes_partitioned_by_permission() {
    let metas = vec![
        RecipeMeta {
            name: String::from("deploy"),
            agents: vec![Some(String::from("never-allowed"))],
        },
        RecipeMeta {
            name: String::from("build"),
            agents: vec![Some(String::from("always-allowed"))],
        },
        RecipeMeta {
            name: String::from("test"),
            agents: vec![],
        },
        RecipeMeta {
            name: String::from("lint"),
            agents: vec![None, Some(String::from("always-allowed"))],
        },
    ];
    let (carte, bureau) = partition_recipes(&metas);
    assert_eq!(carte, vec![1, 3]);
    assert_eq!(bureau, vec![2]);
}

#[test]
fn evaluated_line_parsed_into_name_and_value() {
    let parsed = parse_evaluated_line("  version := \"1.2.3\"");
    assert_eq!(
        parsed,
        Some((String::from("version"), String::from("1.2.3")))
    );
    assert_eq!(parse_evaluated_line("no separator here"), None);
    // the first separator splits; later ones belong to the value
    assert_eq!(
        parse_evaluated_line("a := b := c"),
        Some((String::from("a"), String::from("b := c")))
    );
}

#[test]
fn evaluated_output_collected_in_order() {
    let stdout = "alpha := \"1\"\nskip me\nbeta := \"two words\"\r\n";
    let lines = split_into_lines(stdout);
    assert_eq!(lines, vec!["alpha := \"1\"", "skip me", "beta := \"two words\""]);
    let pairs = evaluated_values(stdout);
    assert_eq!(
        pairs,
        vec![
            (String::from("alpha"), String::from("1")),
            (String::from("beta"), String::from("two words")),
        ]
    );
    assert_eq!(
        lookup_value(&pairs, &String::from("beta")),
        Some(String::from("two words"))
    );
    assert_eq!(lookup_value(&pairs, &String::from("gamma")), None);
}

#[test]
fn lookup_takes_last_match() {
    // a duplicated name behaves like a map filled in listing order
    let pairs = vec![
        (String::from("x"), String::from("first")),
        (String::from("x"), String::from("second")),
    ];
    assert_eq!(
        lookup_value(&pairs, &String::from("x")),
        Some(String::from("second"))
    );
}

#[test]
fn run_arguments_assembled_in_order() {
    let args = build_run_args(
        &String::from("deploy"),
        &vec![String::from("prod"), String::from("eu")],
        &vec![
            (String::from("region"), String::from("west")),
            (String::from("level"), String::from("2")),
        ],
        true,
    );
    assert_eq!(
        args,
        vec!["--dry-run", "region=west", "level=2", "deploy", "prod", "eu"]
    );
    let plain = build_run_args(&String::from("build"), &vec![], &vec![], false);
    assert_eq!(plain, vec!["build"]);
}

#[test]
fn failed_invocations_shape_error_results() {
    let bad = JustOutput {
        stdout: String::new(),
        stderr: String::from("no justfile found"),
        success: false,
    };
    assert_eq!(
        dump_result(bad),
        Err(String::from("just --dump failed: no justfile found"))
    );
    let good = JustOutput {
        stdout: String::from("recipe source"),
        stderr: String::new(),
        success: true,
    };
    assert_eq!(show_result(good), Ok(String::from("recipe source")));
}
