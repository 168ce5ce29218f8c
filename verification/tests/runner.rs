use plugin_js::runner::{
    failure_detail_from_json, try_read_runner_result, Detection, RunAction, RunEvent, RunState,
    RunnerJsonResult, RunnerTestFileResult, TestFailure, WaitOutcome, RESULT_POLL_INTERVAL_MS,
    RUNNER_TIMEOUT_SECS,
};

const PATH: &str = "/sandbox/packages/a/.heph-js-test-result.json";

fn polled(content: Option<&str>) -> RunEvent {
    RunEvent::Polled { content: content.map(|s| s.to_string()) }
}

fn exited(code: i32) -> RunEvent {
    RunEvent::Reaped {
        outcome: WaitOutcome::Exited { success: code == 0, status: format!("exit status: {code}") },
    }
}

fn stopped() -> RunEvent {
    RunEvent::Reaped { outcome: WaitOutcome::Failed { error: "killed".to_string() } }
}

fn finish(run: &RunState, last: Option<&str>) -> Result<(), TestFailure> {
    run.finish(last, "vitest", false, false, "out", "err")
}

#[test]
fn run_ends_promptly_once_the_result_file_appears_even_if_the_process_then_hangs() {
    let mut run = RunState::new(PATH);
    assert_eq!(run.step(polled(None)), RunAction::Wait);
    assert_eq!(run.step(polled(Some("{\"succ"))), RunAction::Wait);
    assert_eq!(run.step(polled(Some("{\"success\":true}\n"))), RunAction::StopProcess);
    assert_eq!(run.step(stopped()), RunAction::DrainBriefly);
    assert_eq!(run.step(RunEvent::Drained), RunAction::Finish);
    finish(&run, None).unwrap();
}

#[test]
fn run_ends_promptly_when_a_backgrounded_descendant_still_holds_the_pipe_open() {
    let mut run = RunState::new(PATH);
    assert_eq!(run.step(exited(0)), RunAction::DrainBriefly);
    assert_eq!(run.step(polled(None)), RunAction::Wait);
    assert_eq!(run.step(RunEvent::DrainTimedOut), RunAction::Finish);
    finish(&run, Some("{\"success\":true}\n")).unwrap();
}

#[test]
fn run_reports_the_json_failure_message_even_though_the_process_then_hangs() {
    let mut run = RunState::new(PATH);
    let report =
        "{\"success\":false,\"testResults\":[{\"message\":\"AssertionError: expected 1 to be 2\"}]}\n";
    assert_eq!(run.step(polled(Some(report))), RunAction::StopProcess);
    run.step(stopped());
    let msg = run.finish(None, "vitest", false, true, "", "").unwrap_err().message;
    assert_eq!(msg, "js_test failed:\nAssertionError: expected 1 to be 2");
    assert!(!msg.contains("did not exit within"), "{msg}");
}

#[test]
fn run_reports_a_malformed_result_file_diagnosably_rather_than_hanging() {
    let mut run = RunState::new(PATH);
    let action = run.step(polled(Some("{\"unexpected\":\"shape\"}\n")));
    assert_eq!(action, RunAction::StopProcess);
    run.step(stopped());
    let msg = finish(&run, Some("{\"success\":true}")).unwrap_err().message;
    assert!(msg.contains("expected shape"), "{msg}");
    assert!(msg.contains(PATH), "{msg}");
    assert!(msg.contains("{\"unexpected\":\"shape\"}"), "{msg}");
}

#[test]
fn run_uses_the_json_verdict_over_a_contradicting_zero_exit_code() {
    let mut run = RunState::new(PATH);
    run.step(RunEvent::Drained);
    assert_eq!(run.step(exited(0)), RunAction::Finish);
    let report = "{\"success\":false,\"testResults\":[{\"message\":\"boom\"}]}\n";
    let msg = finish(&run, Some(report)).unwrap_err().message;
    assert!(msg.contains("boom"), "{msg}");
}

#[test]
fn run_uses_the_json_verdict_over_a_contradicting_nonzero_exit_code() {
    let mut run = RunState::new(PATH);
    run.step(RunEvent::Drained);
    assert_eq!(run.step(exited(1)), RunAction::Finish);
    finish(&run, Some("{\"success\":true}\n")).unwrap();
}

#[test]
fn without_a_report_the_exit_decides() {
    let mut run = RunState::new(PATH);
    run.step(exited(0));
    finish(&run, None).unwrap();

    let mut run = RunState::new(PATH);
    run.step(exited(1));
    let msg = finish(&run, None).unwrap_err().message;
    assert_eq!(msg, "js_test failed (exit status: 1):\nstdout:\nout\nstderr:\nerr");
}

#[test]
fn a_stream_that_broke_is_not_passed_over() {
    let mut run = RunState::new(PATH);
    assert_eq!(run.step(RunEvent::ReadFailed { error: "broken".to_string() }), RunAction::Wait);
    assert_eq!(run.step(exited(0)), RunAction::Finish);
    let msg = finish(&run, None).unwrap_err().message;
    assert_eq!(msg, "reading output from test runner (vitest) while it was running: broken");
}

#[test]
fn a_run_whose_time_is_up_is_stopped_and_says_so() {
    assert_eq!(RUNNER_TIMEOUT_SECS, 1200);
    assert_eq!(RESULT_POLL_INTERVAL_MS, 100);
    let mut run = RunState::new(PATH);
    assert_eq!(run.step(RunEvent::StopAsked), RunAction::StopProcess);
    run.step(stopped());
    let msg = run.finish(None, "vitest", false, true, "", "stuck").unwrap_err().message;
    assert!(msg.contains("(vitest) did not exit within 1200s"), "{msg}");
    assert!(msg.ends_with("stderr:\nstuck"), "{msg}");
    let msg = run.finish(None, "vitest", true, true, "", "stuck").unwrap_err().message;
    assert_eq!(msg, "wait for test runner (vitest): killed");
}

#[test]
fn a_broken_wait_is_told() {
    let mut run = RunState::new(PATH);
    run.step(RunEvent::Reaped { outcome: WaitOutcome::Panicked { error: "oops".to_string() } });
    let msg = finish(&run, None).unwrap_err().message;
    assert_eq!(msg, "test runner's wait task panicked: oops");
}

#[test]
fn the_first_report_stays() {
    let mut run = RunState::new(PATH);
    run.step(polled(Some("{\"success\":true}")));
    run.step(polled(Some("{\"success\":false}")));
    run.step(exited(1));
    finish(&run, Some("{\"success\":false}")).unwrap();
}

#[test]
fn a_report_has_a_flag_and_may_have_results() {
    let read = |text: &str| try_read_runner_result(PATH, Some(text));
    assert!(try_read_runner_result(PATH, None).is_none());
    assert!(read("").is_none());
    assert!(read("{\"success\":tr").is_none());
    for text in [
        "{}",
        "3",
        "{\"success\":1}",
        "{\"success\":true,\"testResults\":null}",
        "{\"success\":true,\"testResults\":[3]}",
        "{\"success\":true,\"testResults\":[{\"message\":null}]}",
    ] {
        assert!(matches!(read(text), Some(Detection::Malformed(_))), "{text}");
    }
    match read("{\"success\":true,\"testResults\":[{},{\"message\":\"m\",\"name\":3}]}") {
        Some(Detection::Report(r)) => {
            assert!(r.success);
            assert_eq!(r.test_results.len(), 2);
            assert_eq!(r.test_results[0].message, "");
            assert_eq!(r.test_results[1].message, "m");
        }
        other => panic!("{other:?}"),
    }
}

#[test]
fn a_failure_tells_the_messages_and_what_was_written_besides() {
    let report = |messages: &[&str]| RunnerJsonResult {
        success: false,
        test_results: messages
            .iter()
            .map(|m| RunnerTestFileResult { message: m.to_string() })
            .collect(),
    };
    assert_eq!(failure_detail_from_json(&report(&[" a \n", "", "b"]), " ", "\n"), "a\n\nb");
    assert_eq!(
        failure_detail_from_json(&report(&["a"]), "", "warned"),
        "a\n\n--- raw stdout/stderr ---\nstderr:\nwarned"
    );
    assert_eq!(failure_detail_from_json(&report(&["  "]), "o", ""), "stdout:\no");
    assert_eq!(
        failure_detail_from_json(&report(&[]), "", ""),
        "<no output on stdout or stderr>"
    );
}
