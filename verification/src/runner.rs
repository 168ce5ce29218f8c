//! A run of the test runner: when it is over, and how it went.
//!
//! The runner writes a report once its tests are done. The report ends the run, whether the
//! process exits or not, and its verdict counts over the exit status.
use crate::json::{field, json_document, lemma_trees, parse_json, tree, trees, Json, JsonTree};
use crate::output::{head_and_tail_lines, head_tail_lines, test_detail, test_failure_detail};
use crate::text::{decimal, digits, opt_text, space_trimmed, to_chars, trim};
use vstd::prelude::*;

verus! {

/// How long to wait between two looks at the report, in milliseconds.
pub const RESULT_POLL_INTERVAL_MS: u64 = 100;

/// How long the runner may take when it neither exits nor writes a report, in seconds.
pub const RUNNER_TIMEOUT_SECS: usize = 1200;

/// What the report says of one test file.
#[derive(Debug)]
pub struct RunnerTestFileResult {
    pub message: String,
}

/// The report of the runner.
#[derive(Debug)]
pub struct RunnerJsonResult {
    pub success: bool,
    pub test_results: Vec<RunnerTestFileResult>,
}

/// A report as mathematical values.
pub struct ReportView {
    pub success: bool,
    pub messages: Seq<Seq<char>>,
}

/// The messages of the test files.
pub open spec fn messages_of(v: Seq<RunnerTestFileResult>) -> Seq<Seq<char>> {
    v.map_values(|r: RunnerTestFileResult| r.message@)
}

impl View for RunnerJsonResult {
    type V = ReportView;

    open spec fn view(&self) -> ReportView {
        ReportView { success: self.success, messages: messages_of(self.test_results@) }
    }
}

/// The message of a test file: a text, empty when it is left out.
pub open spec fn file_message(t: JsonTree) -> Option<Seq<char>> {
    match t {
        JsonTree::Object(_) => match field(t, "message"@) {
            None => Some(Seq::empty()),
            Some(JsonTree::Str(s)) => Some(s),
            Some(_) => None,
        },
        _ => None,
    }
}

/// The messages of some test files, if each has the shape of one.
pub open spec fn file_messages(items: Seq<JsonTree>) -> Option<Seq<Seq<char>>>
    decreases items.len(),
{
    if items.len() == 0 {
        Some(Seq::empty())
    } else {
        match (file_messages(items.drop_last()), file_message(items.last())) {
            (Some(before), Some(s)) => Some(before.push(s)),
            _ => None,
        }
    }
}

/// The report that a document holds, if it has the shape of one: a flag `success`, and a list
/// `testResults` unless it is left out.
pub open spec fn report_in(t: JsonTree) -> Option<ReportView> {
    match field(t, "success"@) {
        Some(JsonTree::Bool(success)) => match field(t, "testResults"@) {
            None => Some(ReportView { success, messages: Seq::empty() }),
            Some(JsonTree::Array(items)) => match file_messages(items) {
                Some(messages) => Some(ReportView { success, messages }),
                None => None,
            },
            Some(_) => None,
        },
        _ => None,
    }
}

/// What was found where the report goes.
#[derive(Debug)]
pub enum Detection {
    /// The report.
    Report(RunnerJsonResult),
    /// A document that is no report, and what is said of it.
    Malformed(String),
}

/// What was found, as mathematical values.
pub enum DetectionView {
    Report(ReportView),
    Malformed(Seq<char>),
}

impl View for Detection {
    type V = DetectionView;

    open spec fn view(&self) -> DetectionView {
        match self {
            Detection::Report(r) => DetectionView::Report(r@),
            Detection::Malformed(s) => DetectionView::Malformed(s@),
        }
    }
}

/// An optional finding as mathematical values.
pub open spec fn opt_detection(d: Option<Detection>) -> Option<DetectionView> {
    match d {
        Some(x) => Some(x@),
        None => None,
    }
}

/// What is said of a document that is no report.
pub open spec fn malformed_text(path: Seq<char>, content: Seq<char>) -> Seq<char> {
    "runner wrote "@ + path
        + " but its content didn't have the expected shape (missing/invalid `success`), got: "@
        + head_tail_lines(content, 20)
}

/// What the file at `path` tells, given what it holds. A file that is not there or is not JSON
/// yet tells nothing: the runner may still be writing it.
pub open spec fn detected(path: Seq<char>, content: Option<Seq<char>>) -> Option<DetectionView> {
    match content {
        None => None,
        Some(text) => match json_document(text) {
            None => None,
            Some(t) => match report_in(t) {
                Some(r) => Some(DetectionView::Report(r)),
                None => Some(DetectionView::Malformed(malformed_text(path, text))),
            },
        },
    }
}

fn read_messages(items: &Vec<Json>) -> (r: Option<Vec<RunnerTestFileResult>>)
    ensures
        match r {
            Some(v) => file_messages(trees(items@)) == Some(messages_of(v@)),
            None => file_messages(trees(items@)) is None,
        },
{
    let ghost all = trees(items@);
    proof {
        lemma_trees(items@);
    }
    let mut out: Vec<RunnerTestFileResult> = Vec::new();
    let mut i: usize = 0;
    proof {
        assert(messages_of(out@) =~= Seq::<Seq<char>>::empty());
        assert(all.take(0).len() == 0);
    }
    while i < items.len()
        invariant
            i <= items.len(),
            all == trees(items@),
            all.len() == items@.len(),
            forall|k: int| 0 <= k < items@.len() ==> #[trigger] all[k] == tree(items@[k]),
            file_messages(all.take(i as int)) == Some(messages_of(out@)),
        decreases items.len() - i,
    {
        let ghost before = messages_of(out@);
        proof {
            assert(all.take(i + 1).drop_last() =~= all.take(i as int));
            assert(all.take(i + 1).last() == tree(items@[i as int]));
        }
        let message = match &items[i] {
            Json::Object(_) => match items[i].get("message") {
                None => {
                    let none = String::new();
                    assert(none@ =~= Seq::<char>::empty());
                    Some(none)
                },
                Some(Json::Str(s)) => Some(s.clone()),
                Some(_) => None,
            },
            _ => None,
        };
        match message {
            Some(message) => {
                let ghost x = message@;
                out.push(RunnerTestFileResult { message });
                assert(messages_of(out@) =~= before.push(x));
            },
            None => {
                proof {
                    lemma_messages_fail(all, i as int + 1);
                }
                return None;
            },
        }
        i = i + 1;
    }
    assert(all.take(i as int) =~= all);
    Some(out)
}

proof fn lemma_messages_fail(items: Seq<JsonTree>, k: int)
    requires
        0 <= k <= items.len(),
        file_messages(items.take(k)) is None,
    ensures
        file_messages(items) is None,
    decreases items.len() - k,
{
    if k == items.len() {
        assert(items.take(k) =~= items);
    } else {
        assert(items.take(k + 1).drop_last() =~= items.take(k));
        lemma_messages_fail(items, k + 1);
    }
}

fn read_report(j: &Json) -> (r: Option<RunnerJsonResult>)
    ensures
        match r {
            Some(v) => report_in(tree(*j)) == Some(v@),
            None => report_in(tree(*j)) is None,
        },
{
    let success = match j.get("success") {
        Some(Json::Bool(b)) => *b,
        _ => {
            return None;
        },
    };
    match j.get("testResults") {
        None => {
            let none: Vec<RunnerTestFileResult> = Vec::new();
            assert(messages_of(none@) =~= Seq::<Seq<char>>::empty());
            Some(RunnerJsonResult { success, test_results: none })
        },
        Some(Json::Array(items)) => match read_messages(items) {
            Some(test_results) => Some(RunnerJsonResult { success, test_results }),
            None => None,
        },
        Some(_) => None,
    }
}

/// Looks once at what the file at `path` holds, if it can be read: nothing to tell yet, the
/// report, or a document that is none.
pub fn try_read_runner_result(path: &str, content: Option<&str>) -> (r: Option<Detection>)
    ensures
        opt_detection(r) == detected(
            path@,
            match content {
                Some(s) => Some(s@),
                None => None,
            },
        ),
{
    let text = match content {
        Some(text) => text,
        None => {
            return None;
        },
    };
    match parse_json(text) {
        Err(_) => None,
        Ok(j) => match read_report(&j) {
            Some(report) => Some(Detection::Report(report)),
            None => {
                let mut message = "runner wrote ".to_owned();
                message.append(path);
                message.append(
                    " but its content didn't have the expected shape (missing/invalid `success`), got: ",
                );
                message.append(head_and_tail_lines(text, 20).as_str());
                Some(Detection::Malformed(message))
            },
        },
    }
}

/// The messages that say something, an empty line between them.
pub open spec fn structured_text(messages: Seq<Seq<char>>) -> Seq<char>
    decreases messages.len(),
{
    if messages.len() == 0 {
        Seq::empty()
    } else {
        let before = structured_text(messages.drop_last());
        let m = space_trimmed(messages.last());
        if m.len() == 0 {
            before
        } else if before.len() == 0 {
            m
        } else {
            before + "\n\n"@ + m
        }
    }
}

/// What is said of a report of failure: what it says of the test files, and what the runner
/// wrote besides.
pub open spec fn report_text(r: ReportView, stdout: Seq<char>, stderr: Seq<char>) -> Seq<char> {
    let structured = structured_text(r.messages);
    if structured.len() == 0 {
        test_detail(stdout, stderr)
    } else if space_trimmed(stdout).len() == 0 && space_trimmed(stderr).len() == 0 {
        structured
    } else {
        structured + "\n\n--- raw stdout/stderr ---\n"@ + test_detail(stdout, stderr)
    }
}

/// What is said of a report of failure.
pub fn failure_detail_from_json(result: &RunnerJsonResult, stdout: &str, stderr: &str) -> (r:
    String)
    ensures
        r@ == report_text(result@, stdout@, stderr@),
{
    let list = &result.test_results;
    let ghost all = messages_of(list@);
    let mut structured = String::new();
    let mut i: usize = 0;
    assert(structured@ =~= structured_text(all.take(0)));
    while i < list.len()
        invariant
            i <= list.len(),
            all == messages_of(list@),
            structured@ == structured_text(all.take(i as int)),
        decreases list.len() - i,
    {
        proof {
            assert(all.take(i + 1).drop_last() =~= all.take(i as int));
            assert(all.take(i + 1).last() == list@[i as int].message@);
        }
        let m = trim(list[i].message.as_str());
        if to_chars(m.as_str()).len() > 0 {
            if to_chars(structured.as_str()).len() > 0 {
                structured.append("\n\n");
                structured.append(m.as_str());
            } else {
                structured = m;
            }
        }
        i = i + 1;
    }
    assert(all.take(i as int) =~= all);
    if to_chars(structured.as_str()).len() == 0 {
        return test_failure_detail(stdout, stderr);
    }
    if to_chars(trim(stdout).as_str()).len() == 0 && to_chars(trim(stderr).as_str()).len() == 0 {
        return structured;
    }
    structured.append("\n\n--- raw stdout/stderr ---\n");
    structured.append(test_failure_detail(stdout, stderr).as_str());
    structured
}

/// How the runner's process ended.
#[derive(Debug)]
pub enum WaitOutcome {
    /// It exited.
    Exited { success: bool, status: String },
    /// It could not be waited for, or was stopped.
    Failed { error: String },
    /// The task that waited for it broke down.
    Panicked { error: String },
}

/// How the runner's process ended, as mathematical values.
pub enum WaitView {
    Exited(bool, Seq<char>),
    Failed(Seq<char>),
    Panicked(Seq<char>),
}

impl View for WaitOutcome {
    type V = WaitView;

    open spec fn view(&self) -> WaitView {
        match self {
            WaitOutcome::Exited { success, status } => WaitView::Exited(*success, status@),
            WaitOutcome::Failed { error } => WaitView::Failed(error@),
            WaitOutcome::Panicked { error } => WaitView::Panicked(error@),
        }
    }
}

/// Something that happens during a run.
#[derive(Debug)]
pub enum RunEvent {
    /// It was looked for the report: what the file holds, if it can be read.
    Polled { content: Option<String> },
    /// Both streams of the process came to their end.
    Drained,
    /// A stream could not be read on.
    ReadFailed { error: String },
    /// The process ended.
    Reaped { outcome: WaitOutcome },
    /// The streams did not come to their end in time after the process ended.
    DrainTimedOut,
    /// The run was cancelled, or its time is up.
    StopAsked,
}

/// An event as mathematical values.
pub enum EventView {
    Polled(Option<Seq<char>>),
    Drained,
    ReadFailed(Seq<char>),
    Reaped(WaitView),
    DrainTimedOut,
    StopAsked,
}

impl View for RunEvent {
    type V = EventView;

    open spec fn view(&self) -> EventView {
        match self {
            RunEvent::Polled { content } => EventView::Polled(opt_text(*content)),
            RunEvent::Drained => EventView::Drained,
            RunEvent::ReadFailed { error } => EventView::ReadFailed(error@),
            RunEvent::Reaped { outcome } => EventView::Reaped(outcome@),
            RunEvent::DrainTimedOut => EventView::DrainTimedOut,
            RunEvent::StopAsked => EventView::StopAsked,
        }
    }
}

/// What to do after an event.
#[derive(Debug, Clone, Copy, PartialEq, Eq, Structural)]
pub enum RunAction {
    /// Wait for the next event.
    Wait,
    /// Stop the process.
    StopProcess,
    /// Read the streams on, but only for so long.
    DrainBriefly,
    /// Look for the report once more and give the verdict.
    Finish,
}

/// A run of the test runner under way.
#[derive(Debug)]
pub struct RunState {
    /// Where the report goes.
    result_path: String,
    detection: Option<Detection>,
    drained: bool,
    read_error: Option<String>,
    outcome: Option<WaitOutcome>,
}

/// A run under way, as mathematical values.
#[verifier::ext_equal]
pub struct RunView {
    pub result_path: Seq<char>,
    pub detection: Option<DetectionView>,
    pub drained: bool,
    pub read_error: Option<Seq<char>>,
    pub outcome: Option<WaitView>,
}

impl View for RunState {
    type V = RunView;

    closed spec fn view(&self) -> RunView {
        RunView {
            result_path: self.result_path@,
            detection: opt_detection(self.detection),
            drained: self.drained,
            read_error: opt_text(self.read_error),
            outcome: match self.outcome {
                Some(o) => Some(o@),
                None => None,
            },
        }
    }
}

/// A run that has just started.
pub open spec fn run_start(result_path: Seq<char>) -> RunView {
    RunView { result_path, detection: None, drained: false, read_error: None, outcome: None }
}

/// What a run comes to with an event. The first thing found in place of the report stays; so
/// does the first end of the process.
pub open spec fn run_after(s: RunView, e: EventView) -> RunView {
    match e {
        EventView::Polled(content) => if s.detection is Some {
            s
        } else {
            RunView { detection: detected(s.result_path, content), ..s }
        },
        EventView::Drained => RunView { drained: true, ..s },
        EventView::ReadFailed(error) => RunView { drained: true, read_error: Some(error), ..s },
        EventView::Reaped(o) => if s.outcome is Some {
            s
        } else {
            RunView { outcome: Some(o), ..s }
        },
        EventView::DrainTimedOut => s,
        EventView::StopAsked => s,
    }
}

/// What to do after an event, given what the run came to with it. The process is stopped as
/// soon as there is something in place of the report; the run is over once the process has
/// ended and its streams have, or have had their time.
pub open spec fn run_action(t: RunView, e: EventView) -> RunAction {
    if t.outcome is None {
        match e {
            EventView::Polled(_) => if t.detection is Some {
                RunAction::StopProcess
            } else {
                RunAction::Wait
            },
            EventView::StopAsked => RunAction::StopProcess,
            _ => RunAction::Wait,
        }
    } else if t.drained || e is DrainTimedOut {
        RunAction::Finish
    } else if e is Reaped {
        RunAction::DrainBriefly
    } else {
        RunAction::Wait
    }
}

/// Why a test target fails.
#[derive(Debug)]
pub struct TestFailure {
    pub message: String,
}

/// What is said when the runner's time is up.
pub open spec fn timeout_text(bin: Seq<char>, stdout: Seq<char>, stderr: Seq<char>) -> Seq<char> {
    "js_test: test runner ("@ + bin + ") did not exit within "@ + digits(
        RUNNER_TIMEOUT_SECS as nat,
    ) + "s and produced no usable result: this is a known vitest/jest failure mode (a failed dependency-optimizer scan can leave a background service alive after the test run itself finished); fix whatever the runner's own diagnostics reported before this point, or disable its dependency optimizer:\n"@
        + test_detail(stdout, stderr)
}

/// The verdict on a run: nothing when the test passed, else what is said of it. Something in
/// place of the report decides alone; without it the exit of the process does.
pub open spec fn verdict(
    s: RunView,
    last: Option<Seq<char>>,
    bin: Seq<char>,
    cancelled: bool,
    time_is_up: bool,
    stdout: Seq<char>,
    stderr: Seq<char>,
) -> Option<Seq<char>> {
    let found = match s.detection {
        Some(d) => Some(d),
        None => detected(s.result_path, last),
    };
    match found {
        Some(DetectionView::Report(r)) => if r.success {
            None
        } else {
            Some("js_test failed:\n"@ + report_text(r, stdout, stderr))
        },
        Some(DetectionView::Malformed(m)) => Some("js_test: "@ + m),
        None => match s.outcome {
            Some(WaitView::Exited(success, status)) => match s.read_error {
                Some(e) => Some(
                    "reading output from test runner ("@ + bin + ") while it was running: "@ + e,
                ),
                None => if success {
                    None
                } else {
                    Some("js_test failed ("@ + status + "):\n"@ + test_detail(stdout, stderr))
                },
            },
            Some(WaitView::Failed(e)) => if !cancelled && time_is_up {
                Some(timeout_text(bin, stdout, stderr))
            } else {
                Some("wait for test runner ("@ + bin + "): "@ + e)
            },
            Some(WaitView::Panicked(e)) => Some("test runner's wait task panicked: "@ + e),
            None => Some("js_test: test runner ("@ + bin + ") is still running"@),
        },
    }
}

impl RunState {
    /// A run that has just started, and whose report goes to `result_path`.
    pub fn new(result_path: &str) -> (r: RunState)
        ensures
            r@ == run_start(result_path@),
    {
        RunState {
            result_path: result_path.to_owned(),
            detection: None,
            drained: false,
            read_error: None,
            outcome: None,
        }
    }

    /// Takes an event in and tells what to do.
    pub fn step(&mut self, event: RunEvent) -> (r: RunAction)
        ensures
            final(self)@ == run_after(old(self)@, event@),
            r == run_action(final(self)@, event@),
    {
        let mut polled = false;
        let mut stop = false;
        let mut reaped = false;
        let mut timed_out = false;
        match event {
            RunEvent::Polled { content } => {
                polled = true;
                if self.detection.is_none() {
                    let text = match &content {
                        Some(s) => Some(s.as_str()),
                        None => None,
                    };
                    self.detection = try_read_runner_result(self.result_path.as_str(), text);
                }
            },
            RunEvent::Drained => {
                self.drained = true;
            },
            RunEvent::ReadFailed { error } => {
                self.drained = true;
                self.read_error = Some(error);
            },
            RunEvent::Reaped { outcome } => {
                reaped = true;
                if self.outcome.is_none() {
                    self.outcome = Some(outcome);
                }
            },
            RunEvent::DrainTimedOut => {
                timed_out = true;
            },
            RunEvent::StopAsked => {
                stop = true;
            },
        }
        if self.outcome.is_none() {
            if stop || polled && self.detection.is_some() {
                RunAction::StopProcess
            } else {
                RunAction::Wait
            }
        } else if self.drained || timed_out {
            RunAction::Finish
        } else if reaped {
            RunAction::DrainBriefly
        } else {
            RunAction::Wait
        }
    }

    /// Gives the verdict on a run that is over, after one last look at where the report goes.
    pub fn finish(
        &self,
        last: Option<&str>,
        runner_bin: &str,
        cancelled: bool,
        time_is_up: bool,
        stdout: &str,
        stderr: &str,
    ) -> (r: Result<(), TestFailure>)
        ensures
            ({
                let v = verdict(
                    self@,
                    match last {
                        Some(s) => Some(s@),
                        None => None,
                    },
                    runner_bin@,
                    cancelled,
                    time_is_up,
                    stdout@,
                    stderr@,
                );
                match r {
                    Ok(_) => v is None,
                    Err(e) => v == Some(e.message@),
                }
            }),
    {
        let again = try_read_runner_result(self.result_path.as_str(), last);
        let found = match &self.detection {
            Some(d) => Some(d),
            None => match &again {
                Some(d) => Some(d),
                None => None,
            },
        };
        match found {
            Some(Detection::Report(report)) => {
                if report.success {
                    return Ok(());
                }
                let mut message = "js_test failed:\n".to_owned();
                message.append(failure_detail_from_json(report, stdout, stderr).as_str());
                return Err(TestFailure { message });
            },
            Some(Detection::Malformed(m)) => {
                let mut message = "js_test: ".to_owned();
                message.append(m.as_str());
                return Err(TestFailure { message });
            },
            None => {},
        }
        match &self.outcome {
            Some(WaitOutcome::Exited { success, status }) => {
                match &self.read_error {
                    Some(e) => {
                        let mut message = "reading output from test runner (".to_owned();
                        message.append(runner_bin);
                        message.append(") while it was running: ");
                        message.append(e.as_str());
                        return Err(TestFailure { message });
                    },
                    None => {},
                }
                if *success {
                    return Ok(());
                }
                let mut message = "js_test failed (".to_owned();
                message.append(status.as_str());
                message.append("):\n");
                message.append(test_failure_detail(stdout, stderr).as_str());
                Err(TestFailure { message })
            },
            Some(WaitOutcome::Failed { error }) => {
                if !cancelled && time_is_up {
                    let mut message = "js_test: test runner (".to_owned();
                    message.append(runner_bin);
                    message.append(") did not exit within ");
                    message.append(decimal(RUNNER_TIMEOUT_SECS).as_str());
                    message.append(
                        "s and produced no usable result: this is a known vitest/jest failure mode (a failed dependency-optimizer scan can leave a background service alive after the test run itself finished); fix whatever the runner's own diagnostics reported before this point, or disable its dependency optimizer:\n",
                    );
                    message.append(test_failure_detail(stdout, stderr).as_str());
                    return Err(TestFailure { message });
                }
                let mut message = "wait for test runner (".to_owned();
                message.append(runner_bin);
                message.append("): ");
                message.append(error.as_str());
                Err(TestFailure { message })
            },
            Some(WaitOutcome::Panicked { error }) => {
                let mut message = "test runner's wait task panicked: ".to_owned();
                message.append(error.as_str());
                Err(TestFailure { message })
            },
            None => {
                let mut message = "js_test: test runner (".to_owned();
                message.append(runner_bin);
                message.append(") is still running");
                Err(TestFailure { message })
            },
        }
    }
}

/// What a run comes to with some events.
pub open spec fn run_after_all(s: RunView, events: Seq<EventView>) -> RunView
    decreases events.len(),
{
    if events.len() == 0 {
        s
    } else {
        run_after(run_after_all(s, events.drop_last()), events.last())
    }
}

/// Once a report is found it decides: whatever happens after, and however the process ends, the
/// verdict is the report's.
pub proof fn a_found_report_decides(
    s: RunView,
    events: Seq<EventView>,
    r: ReportView,
    last: Option<Seq<char>>,
    bin: Seq<char>,
    cancelled: bool,
    time_is_up: bool,
    stdout: Seq<char>,
    stderr: Seq<char>,
)
    requires
        s.detection == Some(DetectionView::Report(r)),
    ensures
        verdict(
            run_after_all(s, events),
            last,
            bin,
            cancelled,
            time_is_up,
            stdout,
            stderr,
        ) is None <==> r.success,
{
    lemma_detection_stays(s, events);
}

proof fn lemma_detection_stays(s: RunView, events: Seq<EventView>)
    requires
        s.detection is Some,
    ensures
        run_after_all(s, events).detection == s.detection,
    decreases events.len(),
{
    if events.len() > 0 {
        lemma_detection_stays(s, events.drop_last());
    }
}

/// A report in place at the last look decides like one found before.
pub proof fn a_late_report_decides(
    s: RunView,
    text: Seq<char>,
    bin: Seq<char>,
    cancelled: bool,
    time_is_up: bool,
    stdout: Seq<char>,
    stderr: Seq<char>,
)
    requires
        s.detection is None,
        json_document(text) is Some,
        report_in(json_document(text)->0) is Some,
    ensures
        verdict(s, Some(text), bin, cancelled, time_is_up, stdout, stderr) is None
            <==> report_in(json_document(text)->0)->0.success,
{
}

/// Without anything in place of the report, a process that exits well passes and one that does
/// not fails.
pub proof fn the_exit_decides_without_a_report(
    s: RunView,
    success: bool,
    status: Seq<char>,
    bin: Seq<char>,
    cancelled: bool,
    time_is_up: bool,
    stdout: Seq<char>,
    stderr: Seq<char>,
)
    requires
        s.detection is None,
        s.read_error is None,
        s.outcome == Some(WaitView::Exited(success, status)),
    ensures
        verdict(s, None, bin, cancelled, time_is_up, stdout, stderr) is None <==> success,
{
}

/// A document that is no report never passes, whatever the process does.
pub proof fn a_malformed_report_never_passes(
    s: RunView,
    events: Seq<EventView>,
    m: Seq<char>,
    last: Option<Seq<char>>,
    bin: Seq<char>,
    cancelled: bool,
    time_is_up: bool,
    stdout: Seq<char>,
    stderr: Seq<char>,
)
    requires
        s.detection == Some(DetectionView::Malformed(m)),
    ensures
        verdict(
            run_after_all(s, events),
            last,
            bin,
            cancelled,
            time_is_up,
            stdout,
            stderr,
        ) == Some("js_test: "@ + m),
{
    lemma_detection_stays(s, events);
}

/// A run ends: once the process has ended, the end of its streams, or the end of the time that
/// they are given, finishes it.
pub proof fn a_reaped_run_can_finish(s: RunView, e: EventView)
    requires
        s.outcome is Some,
        e is Drained || e is ReadFailed || e is DrainTimedOut,
    ensures
        run_action(run_after(s, e), e) == RunAction::Finish,
{
}

} // verus!
