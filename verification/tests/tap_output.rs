use just_tap::tap::has_yaml_block;
use just_tap::tap::write_plan;
use just_tap::tap::write_test_point;
use just_tap::tap::write_version;
use just_tap::tap::TapTestResult;
use just_tap::tap::TapWriter;

#[test]
fn version_line() {
    let mut buf = String::new();
    write_version(&mut buf);
    assert_eq!(buf, "TAP version 14\n");
}

#[test]
fn plan_line() {
    let mut buf = String::new();
    write_plan(&mut buf, 3);
    assert_eq!(buf, "1..3\n");
}

#[test]
fn passing_test_point() {
    let mut buf = String::new();
    let result = TapTestResult {
        number: 1,
        name: String::from("build"),
        ok: true,
        error_message: None,
        exit_code: None,
        output: None,
    };
    write_test_point(&mut buf, &result);
    assert_eq!(buf, "ok 1 - build\n");
}

#[test]
fn passing_test_point_with_output() {
    let mut buf = String::new();
    let result = TapTestResult {
        number: 1,
        name: String::from("build"),
        ok: true,
        error_message: None,
        exit_code: None,
        output: Some(String::from("building\n")),
    };
    write_test_point(&mut buf, &result);
    assert_eq!(buf, "ok 1 - build\n  ---\n  output: |\n    building\n  ...\n");
}

#[test]
fn failing_test_point() {
    let mut buf = String::new();
    let result = TapTestResult {
        number: 2,
        name: String::from("test"),
        ok: false,
        error_message: Some(String::from("Recipe `test` failed on line 5 with exit code 1")),
        exit_code: Some(1),
        output: None,
    };
    write_test_point(&mut buf, &result);
    assert_eq!(
        buf,
        "not ok 2 - test\n  ---\n  message: \"Recipe `test` failed on line 5 with exit code 1\"\n  severity: fail\n  exitcode: 1\n  ...\n"
    );
}

#[test]
fn failing_test_point_with_output() {
    let mut buf = String::new();
    let result = TapTestResult {
        number: 2,
        name: String::from("test"),
        ok: false,
        error_message: Some(String::from("Recipe `test` failed on line 5 with exit code 1")),
        exit_code: Some(1),
        output: Some(String::from("running tests\nfailed assertion")),
    };
    write_test_point(&mut buf, &result);
    assert!(buf.contains("output: |"));
    assert!(buf.contains("    running tests"));
    assert!(buf.contains("    failed assertion"));
}

#[test]
fn output_strips_carriage_returns() {
    let mut buf = String::new();
    let result = TapTestResult {
        number: 1,
        name: String::from("build"),
        ok: true,
        error_message: None,
        exit_code: None,
        output: Some(String::from("progress\rwarning: done\nline two\r\n")),
    };
    write_test_point(&mut buf, &result);
    assert!(
        buf.contains("    warning: done\n"),
        "\\r-overwritten prefix should be stripped: {buf:?}"
    );
    assert!(
        buf.contains("    line two\n"),
        "trailing \\r should be stripped: {buf:?}"
    );
    assert!(!buf.contains('\r'), "no carriage returns in output: {buf:?}");
}

#[test]
fn colored_output_preserves_indentation() {
    let mut buf = String::new();
    let result = TapTestResult {
        number: 1,
        name: String::from("build"),
        ok: true,
        error_message: None,
        exit_code: None,
        output: Some(String::from(
            "\x1b[32m  indented green\x1b[0m\r\n\x1b[31mred line\x1b[0m\r\n",
        )),
    };
    write_test_point(&mut buf, &result);
    assert!(
        buf.contains("    \x1b[32m  indented green\x1b[0m\n"),
        "colored indented output should be preserved: {buf:?}"
    );
    assert!(
        buf.contains("    \x1b[31mred line\x1b[0m\n"),
        "colored output should be preserved: {buf:?}"
    );
    assert!(!buf.contains('\r'), "no carriage returns in output: {buf:?}");
}

#[test]
fn failing_test_point_no_exit_code() {
    let mut buf = String::new();
    let result = TapTestResult {
        number: 1,
        name: String::from("broken"),
        ok: false,
        error_message: Some(String::from("Recipe `broken` failed for an unknown reason")),
        exit_code: None,
        output: None,
    };
    write_test_point(&mut buf, &result);
    assert!(buf.contains("not ok 1 - broken"));
    assert!(buf.contains("severity: fail"));
    assert!(!buf.contains("exitcode"));
}

#[test]
fn writer_counters_start_at_zero() {
    let w = TapWriter::new();
    assert_eq!(w.counter, 0);
    assert_eq!(w.failures, 0);
}

#[test]
fn yaml_block_rule() {
    let passing_quiet = TapTestResult {
        number: 1,
        name: String::from("a"),
        ok: true,
        error_message: None,
        exit_code: None,
        output: None,
    };
    assert!(!has_yaml_block(&passing_quiet));
    let passing_with_output = TapTestResult {
        output: Some(String::from("x")),
        ..passing_quiet
    };
    assert!(has_yaml_block(&passing_with_output));
    let failing_quiet = TapTestResult {
        number: 1,
        name: String::from("a"),
        ok: false,
        error_message: None,
        exit_code: None,
        output: None,
    };
    assert!(has_yaml_block(&failing_quiet));
}

#[test]
fn passing_empty_output_gets_bare_line() {
    let mut buf = String::new();
    let result = TapTestResult {
        number: 1,
        name: String::from("build"),
        ok: true,
        error_message: None,
        exit_code: None,
        output: Some(String::new()),
    };
    write_test_point(&mut buf, &result);
    assert_eq!(buf, "ok 1 - build\n");
    assert!(!has_yaml_block(&result));
}

#[test]
fn failing_empty_output_block_has_no_output_field() {
    let mut buf = String::new();
    let result = TapTestResult {
        number: 2,
        name: String::from("test"),
        ok: false,
        error_message: None,
        exit_code: Some(1),
        output: Some(String::new()),
    };
    write_test_point(&mut buf, &result);
    assert_eq!(buf, "not ok 2 - test\n  ---\n  severity: fail\n  exitcode: 1\n  ...\n");
}

#[test]
fn negative_exit_code_rendered_with_sign() {
    let mut buf = String::new();
    let result = TapTestResult {
        number: 7,
        name: String::from("odd"),
        ok: false,
        error_message: None,
        exit_code: Some(-13),
        output: None,
    };
    write_test_point(&mut buf, &result);
    assert_eq!(buf, "not ok 7 - odd\n  ---\n  severity: fail\n  exitcode: -13\n  ...\n");
}

#[test]
fn single_line_output_quoted_form() {
    let mut buf = String::new();
    let result = TapTestResult {
        number: 1,
        name: String::from("build"),
        ok: true,
        error_message: None,
        exit_code: None,
        output: Some(String::from("no newline here")),
    };
    write_test_point(&mut buf, &result);
    assert_eq!(buf, "ok 1 - build\n  ---\n  output: \"no newline here\"\n  ...\n");
}
