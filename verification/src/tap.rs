//! TAP version 14 serialization.
//!
//! Every function appends to a caller-supplied `String` buffer and its
//! contract states the appended text exactly, character for character, via
//! the spec functions below.  The buffer is flushed to the output device
//! by the caller, so each test point can be observed as soon as its task
//! completes.

use vstd::prelude::*;
use vstd::string::StrSliceExecFns;
use vstd::string::StringExecFns;

use crate::text::after_cr_start;
use crate::text::after_last_cr;
use crate::text::append_i32;
use crate::text::append_u64;
use crate::text::contains_char;
use crate::text::dec_digits;
use crate::text::dec_int;
use crate::text::find_newline;
use crate::text::strip_trailing_cr;

verus! {

/// One emitted test point: a 1-based number, the task's name, its
/// pass/fail status, and the diagnostic fields captured from the run.
pub struct TapTestResult {
    pub number: usize,
    pub name: String,
    pub ok: bool,
    pub error_message: Option<String>,
    pub exit_code: Option<i32>,
    pub output: Option<String>,
}

/// Counters threaded through a run: test points emitted so far and how
/// many of them failed.
pub struct TapWriter {
    pub counter: usize,
    pub failures: usize,
}

impl TapWriter {
    pub fn new() -> (w: TapWriter)
        ensures
            w.counter == 0,
            w.failures == 0,
    {
        TapWriter { counter: 0, failures: 0 }
    }
}

/// TAP version line, exactly as it must appear on the wire.
pub open spec fn version_text() -> Seq<char> {
    "TAP version 14\n"@
}

/// TAP plan line for a plan of `count` tasks.
pub open spec fn plan_text(count: int) -> Seq<char> {
    "1.."@ + dec_digits(count) + "\n"@
}

/// One folded line of a diagnostic block: four spaces of indentation,
/// then only the text after the line's last carriage return.
pub open spec fn rendered_line(line: Seq<char>) -> Seq<char> {
    "    "@ + after_last_cr(line) + "\n"@
}

/// The folded literal body for a multi-line value, reading `rest` with
/// `cur` as the partial line already consumed.  Lines are split at `'\n'`,
/// a line terminator of `"\r\n"` counts as one terminator, and a final
/// line without terminator is kept; an empty final segment is dropped.
pub open spec fn block_body_from(rest: Seq<char>, cur: Seq<char>) -> Seq<char>
    decreases rest.len(),
{
    if rest.len() == 0 {
        if cur.len() == 0 {
            Seq::empty()
        } else {
            rendered_line(cur)
        }
    } else if rest[0] == '\n' {
        rendered_line(strip_trailing_cr(cur)) + block_body_from(rest.skip(1), Seq::empty())
    } else {
        block_body_from(rest.skip(1), cur.push(rest[0]))
    }
}

/// The folded literal body for a multi-line value.
pub open spec fn block_body(value: Seq<char>) -> Seq<char> {
    block_body_from(value, Seq::empty())
}

/// One field of a diagnostic block.  A value with an embedded newline is
/// folded as a block literal; any other value is quoted on one line.  In
/// both forms each line keeps only the text after its last `'\r'`.
pub open spec fn yaml_field_text(key: Seq<char>, value: Seq<char>) -> Seq<char> {
    if contains_char(value, '\n') {
        "  "@ + key + ": |\n"@ + block_body(value)
    } else {
        "  "@ + key + ": \""@ + after_last_cr(value) + "\"\n"@
    }
}

/// The test point carries captured output that is not empty.
pub open spec fn has_output(r: TapTestResult) -> bool {
    match r.output {
        Some(o) => o@.len() > 0,
        None => false,
    }
}

/// Whether a test point carries a diagnostic block: every failure does,
/// and so does any point whose captured output is non-empty.  A passing
/// point with no output — captured or otherwise — gets the bare status
/// line only.
pub open spec fn spec_has_yaml_block(r: TapTestResult) -> bool {
    !r.ok || has_output(r)
}

/// The status line of a test point.
pub open spec fn point_line_text(r: TapTestResult) -> Seq<char> {
    (if r.ok {
        "ok"@
    } else {
        "not ok"@
    }) + " "@ + dec_digits(r.number as int) + " - "@ + r.name@ + "\n"@
}

pub open spec fn message_text(r: TapTestResult) -> Seq<char> {
    match r.error_message {
        Some(m) => yaml_field_text("message"@, m@),
        None => Seq::empty(),
    }
}

pub open spec fn severity_text(r: TapTestResult) -> Seq<char> {
    if !r.ok {
        "  severity: fail\n"@
    } else {
        Seq::empty()
    }
}

pub open spec fn exitcode_text(r: TapTestResult) -> Seq<char> {
    match r.exit_code {
        Some(c) => "  exitcode: "@ + dec_int(c as int) + "\n"@,
        None => Seq::empty(),
    }
}

pub open spec fn output_text(r: TapTestResult) -> Seq<char> {
    match r.output {
        Some(o) => if o@.len() > 0 {
            yaml_field_text("output"@, o@)
        } else {
            Seq::empty()
        },
        None => Seq::empty(),
    }
}

/// The diagnostic block of a test point, fields in their fixed order:
/// message, severity, exitcode, output.
pub open spec fn block_text(r: TapTestResult) -> Seq<char> {
    "  ---\n"@ + message_text(r) + severity_text(r) + exitcode_text(r) + output_text(r)
        + "  ...\n"@
}

/// The full serialization of one test point.
pub open spec fn test_point_text(r: TapTestResult) -> Seq<char> {
    point_line_text(r) + if spec_has_yaml_block(r) {
        block_text(r)
    } else {
        Seq::empty()
    }
}

/// Emits the TAP version line.
pub fn write_version(out: &mut String)
    ensures
        final(out)@ == old(out)@ + version_text(),
{
    out.append("TAP version 14\n");
}

/// Emits the plan line `1..count`.
pub fn write_plan(out: &mut String, count: usize)
    ensures
        final(out)@ == old(out)@ + plan_text(count as int),
{
    out.append("1..");
    append_u64(out, count as u64);
    out.append("\n");
    proof {
        assert(final(out)@ =~= old(out)@ + plan_text(count as int));
    }
}

proof fn lemma_block_line(rest: Seq<char>, cur: Seq<char>, i: int)
    requires
        0 <= i < rest.len(),
        rest[i] == '\n',
        forall|j: int| 0 <= j < i ==> rest[j] != '\n',
    ensures
        block_body_from(rest, cur) == rendered_line(strip_trailing_cr(cur + rest.take(i)))
            + block_body_from(rest.skip(i + 1), Seq::empty()),
    decreases i,
{
    if i == 0 {
        assert(cur + rest.take(0) =~= cur);
        assert(rest.skip(1) =~= rest.skip(i + 1));
    } else {
        lemma_block_line(rest.skip(1), cur.push(rest[0]), i - 1);
        assert(cur.push(rest[0]) + rest.skip(1).take(i - 1) =~= cur + rest.take(i));
        assert(rest.skip(1).skip(i) =~= rest.skip(i + 1));
    }
}

proof fn lemma_block_tail(rest: Seq<char>, cur: Seq<char>)
    requires
        forall|j: int| 0 <= j < rest.len() ==> rest[j] != '\n',
    ensures
        block_body_from(rest, cur) == if cur.len() + rest.len() == 0 {
            Seq::<char>::empty()
        } else {
            rendered_line(cur + rest)
        },
    decreases rest.len(),
{
    if rest.len() == 0 {
        assert(cur + rest =~= cur);
    } else {
        lemma_block_tail(rest.skip(1), cur.push(rest[0]));
        assert(cur.push(rest[0]) + rest.skip(1) =~= cur + rest);
    }
}

/// Emits one diagnostic field, applying the carriage-return discipline to
/// every line of the value.
pub fn write_yaml_field(out: &mut String, key: &str, value: &str)
    ensures
        final(out)@ == old(out)@ + yaml_field_text(key@, value@),
{
    let n = value.unicode_len();
    let nl = find_newline(value, 0, n);
    if nl < n {
        proof {
            assert(contains_char(value@, '\n'));
        }
        out.append("  ");
        out.append(key);
        out.append(": |\n");
        let ghost header = old(out)@ + "  "@ + key@ + ": |\n"@;
        proof {
            assert(out@ =~= header);
            assert(value@.skip(0) =~= value@);
        }
        let mut start: usize = 0;
        while start < n
            invariant
                start <= n,
                n as nat == value@.len(),
                out@ + block_body_from(value@.skip(start as int), Seq::empty()) == header
                    + block_body(value@),
            decreases n - start,
        {
            let ghost pre = out@;
            let ghost tail = value@.skip(start as int);
            let j = find_newline(value, start, n);
            if j < n {
                let end = if j > start && value.get_char(j - 1) == '\r' {
                    j - 1
                } else {
                    j
                };
                let cut = after_cr_start(value, start, end);
                out.append("    ");
                out.append(value.substring_char(cut, end));
                out.append("\n");
                proof {
                    lemma_block_line(tail, Seq::empty(), j - start);
                    assert(Seq::<char>::empty() + tail.take(j - start) =~= value@.subrange(
                        start as int,
                        j as int,
                    ));
                    assert(strip_trailing_cr(value@.subrange(start as int, j as int))
                        =~= value@.subrange(start as int, end as int));
                    assert(tail.skip(j - start + 1) =~= value@.skip(j + 1));
                    assert(out@ =~= pre + rendered_line(
                        strip_trailing_cr(value@.subrange(start as int, j as int)),
                    ));
                    assert(out@ + block_body_from(value@.skip(j + 1), Seq::empty()) =~= header
                        + block_body(value@));
                }
                start = j + 1;
            } else {
                let cut = after_cr_start(value, start, n);
                out.append("    ");
                out.append(value.substring_char(cut, n));
                out.append("\n");
                proof {
                    lemma_block_tail(tail, Seq::empty());
                    assert(Seq::<char>::empty() + tail =~= value@.subrange(
                        start as int,
                        n as int,
                    ));
                    assert(out@ =~= pre + rendered_line(value@.subrange(start as int, n as int)));
                    assert(value@.skip(n as int) =~= Seq::<char>::empty());
                    assert(out@ + block_body_from(value@.skip(n as int), Seq::empty()) =~= header
                        + block_body(value@));
                }
                start = n;
            }
        }
        proof {
            assert(value@.skip(n as int) =~= Seq::<char>::empty());
            assert(final(out)@ =~= old(out)@ + yaml_field_text(key@, value@));
        }
    } else {
        proof {
            assert(!contains_char(value@, '\n'));
        }
        let cut = after_cr_start(value, 0, n);
        out.append("  ");
        out.append(key);
        out.append(": \"");
        out.append(value.substring_char(cut, n));
        out.append("\"\n");
        proof {
            assert(value@.subrange(0, n as int) =~= value@);
            assert(final(out)@ =~= old(out)@ + yaml_field_text(key@, value@));
        }
    }
}

/// Whether the test point gets a diagnostic block after its status line.
pub fn has_yaml_block(result: &TapTestResult) -> (b: bool)
    ensures
        b == spec_has_yaml_block(*result),
{
    if !result.ok {
        return true;
    }
    match &result.output {
        Some(o) => !o.as_str().is_empty(),
        None => false,
    }
}

/// Emits one test point: the status line, then, when the point failed or
/// carries output, its diagnostic block.
#[verifier::rlimit(60)]
pub fn write_test_point(out: &mut String, result: &TapTestResult)
    ensures
        final(out)@ == old(out)@ + test_point_text(*result),
{
    if result.ok {
        out.append("ok");
    } else {
        out.append("not ok");
    }
    out.append(" ");
    append_u64(out, result.number as u64);
    out.append(" - ");
    out.append(result.name.as_str());
    out.append("\n");
    proof {
        assert(out@ =~= old(out)@ + point_line_text(*result));
    }
    let ghost lined = out@;
    if has_yaml_block(result) {
        out.append("  ---\n");
        if let Some(message) = &result.error_message {
            write_yaml_field(out, "message", message.as_str());
        }
        proof {
            assert(out@ =~= lined + "  ---\n"@ + message_text(*result));
        }
        let ghost with_message = out@;
        if !result.ok {
            out.append("  severity: fail\n");
        }
        proof {
            assert(out@ =~= with_message + severity_text(*result));
        }
        let ghost with_severity = out@;
        if let Some(code) = &result.exit_code {
            out.append("  exitcode: ");
            append_i32(out, *code);
            out.append("\n");
        }
        proof {
            assert(out@ =~= with_severity + exitcode_text(*result));
        }
        let ghost with_code = out@;
        if let Some(output) = &result.output {
            if !output.as_str().is_empty() {
                write_yaml_field(out, "output", output.as_str());
            }
        }
        proof {
            assert(out@ =~= with_code + output_text(*result));
        }
        out.append("  ...\n");
        proof {
            assert(final(out)@ =~= old(out)@ + test_point_text(*result));
        }
    }
}

} // verus!
