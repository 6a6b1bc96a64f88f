use silk_engine::util::backtrace::{caller_at, callers_from_trace, callers_path};

const TRACE: &str = "   0: std::backtrace::Backtrace::force_capture\n             at /rustc/abc/library/std/src/backtrace.rs:312:9\n   1: silk_engine::util::print::backtrace_callers\n             at ./src/util/print.rs:307:25\n   2: silk_engine::main\n             at .\\src\\main.rs:10:5\n   3: core::ops::function::FnOnce::call_once\n             at /rustc/abc/library/core/src/ops/function.rs:250:5\n";

fn strings(v: &[&str]) -> Vec<String> {
    v.iter().map(|s| s.to_string()).collect()
}

#[test]
fn callers_keep_crate_frames_outermost_first_without_the_innermost() {
    assert_eq!(callers_from_trace(TRACE), strings(&["src/main.rs:10:5"]));
}

#[test]
fn callers_of_a_trace_without_crate_frames_are_one_empty_caller() {
    assert_eq!(callers_from_trace(""), strings(&[""]));
    assert_eq!(callers_from_trace("   0: main\n             at /rustc/x/src/a.rs:1:1\n"), strings(&[""]));
}

#[test]
fn callers_merge_repeats_in_a_row() {
    let t = "  at ./src/c.rs:3:3\r\n  at ./src/a.rs:1:1\r\n  at ./src/a.rs:1:1\n  at ./src/b.rs:2:2";
    assert_eq!(callers_from_trace(t), strings(&["src/b.rs:2:2", "src/a.rs:1:1"]));
}

#[test]
fn callers_of_lines_without_leading_space_run_together() {
    let t = "at ./src/a.rs:1:1\nat ./src/b.rs:2:2\n";
    assert_eq!(callers_from_trace(t), strings(&[""]));
}

#[test]
fn call_path_and_caller_up() {
    let c = strings(&["a", "b", "c"]);
    assert_eq!(callers_path(&c, 0), "a > b");
    assert_eq!(callers_path(&c, 1), "a");
    assert_eq!(callers_path(&c, 2), "");
    assert_eq!(caller_at(&c, 0), "b");
    assert_eq!(caller_at(&c, 1), "a");
    assert_eq!(caller_at(&c, 5), "a");
}

#[test]
fn backtrace_callers_are_never_empty() {
    assert!(!silk_engine::util::print::backtrace_callers().is_empty());
    let _ = silk_engine::print::backtrace(0);
    let _ = silk_engine::print::backtrace_last(0);
}
