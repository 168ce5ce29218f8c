//! What a run of a tool tells, and when a run of the test runner ends.
use crate::driver::tool_failure_text;
use crate::json::{field, json_document, JsonTree};
use crate::output::{
    bundle_detail, head_tail_lines, lint_detail, streams_text, tail_lines, test_detail, tsc_detail,
};
use crate::runner::{
    detected, file_message, file_messages, malformed_text, report_in, report_text, run_action,
    run_after, run_after_all, structured_text, verdict, DetectionView, EventView, ReportView, RunAction,
    RunView, WaitView,
};
use crate::text::{digits, joined, space_trimmed, split_on};
use crate::text_laws::{
    joined_pieces_split_back, lemma_joined_front, lemma_stands_between, lemma_stands_deeper,
    pieces_join_back, stands_in,
};
use vstd::prelude::*;

verus! {

proof fn lemma_joined_parts(a: Seq<Seq<char>>, b: Seq<Seq<char>>, sep: Seq<char>)
    requires
        a.len() > 0,
        b.len() > 0,
    ensures
        joined(a + b, sep) == joined(a, sep) + sep + joined(b, sep),
    decreases a.len(),
{
    if a.len() == 1 {
        assert(a =~= seq![a[0]]);
        lemma_joined_front(a[0], b, sep);
    } else {
        let rest = a.drop_first();
        assert(a =~= seq![a[0]] + rest);
        assert(a + b =~= seq![a[0]] + (rest + b));
        lemma_joined_front(a[0], rest + b, sep);
        lemma_joined_front(a[0], rest, sep);
        lemma_joined_parts(rest, b, sep);
        assert(joined(a + b, sep) =~= joined(a, sep) + sep + joined(b, sep));
    }
}

proof fn lemma_digits_one_line(n: nat)
    ensures
        !digits(n).contains('\n'),
    decreases n,
{
    if n >= 10 {
        lemma_digits_one_line(n / 10);
        assert forall|i: int| 0 <= i < digits(n).len() implies digits(n)[i] != '\n' by {
            if i < digits(n / 10).len() {
                assert(digits(n)[i] == digits(n / 10)[i]);
                assert(digits(n / 10).contains(digits(n / 10)[i]));
            }
        }
    }
}

/// The lines of a text.
pub open spec fn lines_of(s: Seq<char>) -> Seq<Seq<char>> {
    split_on(s, '\n')
}

/// The end of a text is its last lines, as many as are asked for, or the text itself where it
/// has no more.
pub proof fn the_end_of_a_text_is_its_last_lines(s: Seq<char>, n: nat)
    requires
        n > 0,
    ensures
        lines_of(s).len() <= n ==> tail_lines(s, n) == s,
        lines_of(s).len() > n ==> lines_of(tail_lines(s, n)) == lines_of(s).skip(
            lines_of(s).len() - n,
        ),
{
    reveal_strlit("\n");
    assert("\n"@ =~= seq!['\n']);
    let lines = lines_of(s);
    pieces_join_back(s, '\n');
    if lines.len() > n {
        let last = lines.skip(lines.len() - n);
        assert forall|i: int| 0 <= i < last.len() implies !(#[trigger] last[i]).contains('\n') by {
            assert(last[i] == lines[i + lines.len() - n]);
        }
        joined_pieces_split_back(last, '\n');
    }
}

/// The two ends of a text are its first and its last lines, as many together as are asked for,
/// with one line between them that counts the others; or the text itself where it has no more.
pub proof fn the_ends_of_a_text_are_its_outer_lines(s: Seq<char>, n: nat) -> (middle: Seq<char>)
    requires
        n >= 2,
    ensures
        lines_of(s).len() <= n ==> head_tail_lines(s, n) == s,
        lines_of(s).len() > n ==> lines_of(head_tail_lines(s, n)) == lines_of(s).take(
            (n / 2) as int,
        ).push(middle) + lines_of(s).skip(lines_of(s).len() - (n - n / 2)),
        lines_of(s).len() > n ==> stands_in(digits((lines_of(s).len() - n) as nat), middle),
{
    reveal_strlit("\n");
    reveal_strlit("\n... ");
    reveal_strlit(" lines omitted ...\n");
    reveal_strlit("... ");
    reveal_strlit(" lines omitted ...");
    assert("\n"@ =~= seq!['\n']);
    let sep = seq!['\n'];
    let lines = lines_of(s);
    let count = digits((lines.len() - n) as nat);
    let middle = "... "@ + count + " lines omitted ..."@;
    pieces_join_back(s, '\n');
    if lines.len() > n {
        let a = lines.take((n / 2) as int);
        let b = lines.skip(lines.len() - (n - n / 2));
        let all = a.push(middle) + b;
        lemma_digits_one_line((lines.len() - n) as nat);
        assert(!middle.contains('\n')) by {
            assert forall|i: int| 0 <= i < middle.len() implies middle[i] != '\n' by {
                if i < 4 {
                    assert(middle[i] == "... "@[i]);
                } else if i < 4 + count.len() {
                    assert(middle[i] == count[i - 4]);
                    assert(count.contains(count[i - 4]));
                } else {
                    assert(middle[i] == " lines omitted ..."@[i - 4 - count.len()]);
                }
            }
        }
        assert forall|i: int| 0 <= i < all.len() implies !(#[trigger] all[i]).contains('\n') by {
            if i < a.len() {
                assert(all[i] == lines[i]);
            } else if i > a.len() {
                let k = i - a.len() - 1 + lines.len() - (n - n / 2);
                assert(all[i] == lines[k]);
            }
        }
        joined_pieces_split_back(all, '\n');
        lemma_joined_parts(a, seq![middle] + b, sep);
        lemma_joined_front(middle, b, sep);
        assert(all =~= a + (seq![middle] + b));
        assert("\n... "@ =~= sep + "... "@);
        assert(" lines omitted ...\n"@ =~= " lines omitted ..."@ + sep);
        assert(joined(all, sep) =~= head_tail_lines(s, n));
        lemma_stands_between("... "@, count, " lines omitted ..."@);
    }
    middle
}

proof fn lemma_streams(out: Seq<char>, err: Seq<char>)
    ensures
        stands_in(out, streams_text(out, err)),
        stands_in(err, streams_text(out, err)),
{
    let t = streams_text(out, err);
    let a = "stdout:\n"@;
    let b = "stderr:\n"@;
    let none = Seq::<char>::empty();
    reveal_strlit("stdout:\n");
    reveal_strlit("stderr:\n");
    if out.len() == 0 {
        assert(t =~= none + out + t);
        lemma_stands_between(none, out, t);
    } else if err.len() == 0 {
        assert(t =~= a + out + none);
        lemma_stands_between(a, out, none);
    } else {
        assert(t =~= a + out + ("\n"@ + b + err));
        lemma_stands_between(a, out, "\n"@ + b + err);
    }
    if err.len() == 0 {
        assert(t =~= none + err + t);
        lemma_stands_between(none, err, t);
    } else if out.len() == 0 {
        assert(t =~= b + err + none);
        lemma_stands_between(b, err, none);
    } else {
        assert(t =~= (a + out + "\n"@ + b) + err + none);
        lemma_stands_between(a + out + "\n"@ + b, err, none);
    }
}

/// What a failed type check, lint, bundle or test printed is told whole where it is not too
/// long, but for the white space around it, on either stream.
pub proof fn short_output_is_told_whole(stdout: Seq<char>, stderr: Seq<char>)
    ensures
        lines_of(space_trimmed(stdout)).len() <= 40 ==> stands_in(
            space_trimmed(stdout),
            tsc_detail(stdout, stderr),
        ),
        lines_of(space_trimmed(stderr)).len() <= 40 ==> stands_in(
            space_trimmed(stderr),
            tsc_detail(stdout, stderr),
        ),
        lines_of(space_trimmed(stdout)).len() <= 60 ==> stands_in(
            space_trimmed(stdout),
            lint_detail(stdout, stderr),
        ),
        lines_of(space_trimmed(stderr)).len() <= 40 ==> stands_in(
            space_trimmed(stderr),
            lint_detail(stdout, stderr),
        ),
        lines_of(space_trimmed(stdout)).len() <= 60 ==> stands_in(
            space_trimmed(stdout),
            bundle_detail(stdout, stderr),
        ),
        lines_of(space_trimmed(stderr)).len() <= 60 ==> stands_in(
            space_trimmed(stderr),
            bundle_detail(stdout, stderr),
        ),
        lines_of(space_trimmed(stdout)).len() <= 60 ==> stands_in(
            space_trimmed(stdout),
            test_detail(stdout, stderr),
        ),
        lines_of(space_trimmed(stderr)).len() <= 60 ==> stands_in(
            space_trimmed(stderr),
            test_detail(stdout, stderr),
        ),
{
    let o = space_trimmed(stdout);
    let e = space_trimmed(stderr);
    lemma_streams(head_tail_lines(o, 40), head_tail_lines(e, 40));
    lemma_streams(tail_lines(o, 60), tail_lines(e, 40));
    lemma_streams(tail_lines(o, 60), tail_lines(e, 60));
    lemma_streams(head_tail_lines(o, 60), head_tail_lines(e, 60));
}

/// The failure of a tool tells how it exited and what was made of its output.
pub proof fn a_failed_tool_tells_its_output(name: Seq<char>, status: Seq<char>, detail: Seq<char>)
    ensures
        stands_in(name, tool_failure_text(name, status, detail)),
        stands_in(status, tool_failure_text(name, status, detail)),
        stands_in(detail, tool_failure_text(name, status, detail)),
{
    let t = tool_failure_text(name, status, detail);
    let none = Seq::<char>::empty();
    assert(t =~= none + name + (" failed ("@ + status + "):\n"@ + detail));
    lemma_stands_between(none, name, " failed ("@ + status + "):\n"@ + detail);
    assert(t =~= (name + " failed ("@) + status + ("):\n"@ + detail));
    lemma_stands_between(name + " failed ("@, status, "):\n"@ + detail);
    assert(t =~= (name + " failed ("@ + status + "):\n"@) + detail + none);
    lemma_stands_between(name + " failed ("@ + status + "):\n"@, detail, none);
}

proof fn lemma_file_messages(items: Seq<JsonTree>)
    requires
        forall|i: int| 0 <= i < items.len() ==> file_message(#[trigger] items[i]) is Some,
    ensures
        file_messages(items) matches Some(v) && v.len() == items.len() && forall|i: int|
            0 <= i < items.len() ==> file_message(#[trigger] items[i]) == Some(v[i]),
    decreases items.len(),
{
    if items.len() > 0 {
        let rest = items.drop_last();
        assert forall|i: int| 0 <= i < rest.len() implies file_message(
            #[trigger] rest[i],
        ) is Some by {
            assert(rest[i] == items[i]);
        }
        lemma_file_messages(rest);
        assert(file_message(items[items.len() - 1]) is Some);
        let v = file_messages(items)->0;
        assert forall|i: int| 0 <= i < items.len() implies file_message(#[trigger] items[i])
            == Some(v[i]) by {
            if i < rest.len() {
                assert(rest[i] == items[i]);
            }
        }
    }
}

/// A report that says how it went, and what each of its files has to say, is read as it stands.
pub proof fn a_report_is_read_as_it_stands(
    t: JsonTree,
    success: bool,
    items: Seq<JsonTree>,
    messages: Seq<Seq<char>>,
)
    requires
        field(t, "success"@) == Some(JsonTree::Bool(success)),
        field(t, "testResults"@) == Some(JsonTree::Array(items)),
        messages.len() == items.len(),
        forall|i: int|
            0 <= i < items.len() ==> field(#[trigger] items[i], "message"@) == Some(
                JsonTree::Str(messages[i]),
            ),
    ensures
        report_in(t) == Some(ReportView { success, messages }),
{
    assert forall|i: int| 0 <= i < items.len() implies file_message(#[trigger] items[i]) == Some(
        messages[i],
    ) by {
        assert(field(items[i], "message"@) is Some);
    }
    lemma_file_messages(items);
    let v = file_messages(items)->0;
    assert forall|i: int| 0 <= i < items.len() implies v[i] == messages[i] by {
        assert(file_message(items[i]) == Some(messages[i]));
    }
    assert(v =~= messages);
}

/// A report without files is read all the same; one that does not say how it went is none.
pub proof fn a_report_says_how_it_went(t: JsonTree, success: bool)
    ensures
        field(t, "success"@) == Some(JsonTree::Bool(success)) && field(t, "testResults"@) is None
            ==> report_in(t) == Some(ReportView { success, messages: Seq::empty() }),
        report_in(t) is Some ==> field(t, "success"@) == Some(
            JsonTree::Bool(report_in(t)->0.success),
        ),
{
}

proof fn lemma_structured(messages: Seq<Seq<char>>, i: int)
    requires
        0 <= i < messages.len(),
    ensures
        stands_in(space_trimmed(messages[i]), structured_text(messages)),
    decreases messages.len(),
{
    let before = structured_text(messages.drop_last());
    let m = space_trimmed(messages.last());
    let t = structured_text(messages);
    let none = Seq::<char>::empty();
    if i < messages.len() - 1 {
        lemma_structured(messages.drop_last(), i);
        let part = space_trimmed(messages[i]);
        if m.len() == 0 {
        } else if before.len() == 0 {
            assert(part.len() == 0);
            assert(t =~= none + part + t);
            lemma_stands_between(none, part, t);
        } else {
            assert(t =~= none + before + ("\n\n"@ + m));
            lemma_stands_deeper(part, before, none, "\n\n"@ + m);
        }
    } else if m.len() == 0 {
        assert(t =~= none + m + t);
        lemma_stands_between(none, m, t);
    } else if before.len() == 0 {
        assert(t =~= none + m + none);
        lemma_stands_between(none, m, none);
    } else {
        assert(t =~= (before + "\n\n"@) + m + none);
        lemma_stands_between(before + "\n\n"@, m, none);
    }
}

/// A failed report tells the message of every file, and what the runner printed besides.
pub proof fn a_failed_report_tells_every_message(
    r: ReportView,
    stdout: Seq<char>,
    stderr: Seq<char>,
    i: int,
)
    requires
        0 <= i < r.messages.len(),
    ensures
        stands_in(space_trimmed(r.messages[i]), report_text(r, stdout, stderr)),
        space_trimmed(stdout).len() > 0 || space_trimmed(stderr).len() > 0 ==> stands_in(
            test_detail(stdout, stderr),
            report_text(r, stdout, stderr),
        ),
{
    let part = space_trimmed(r.messages[i]);
    let s = structured_text(r.messages);
    let t = report_text(r, stdout, stderr);
    let d = test_detail(stdout, stderr);
    let rule = "\n\n--- raw stdout/stderr ---\n"@;
    let none = Seq::<char>::empty();
    lemma_structured(r.messages, i);
    if s.len() == 0 {
        assert(part.len() == 0);
        assert(t =~= none + part + t);
        lemma_stands_between(none, part, t);
        assert(t =~= none + d + none);
        lemma_stands_between(none, d, none);
    } else if space_trimmed(stdout).len() == 0 && space_trimmed(stderr).len() == 0 {
    } else {
        assert(t =~= none + s + (rule + d));
        lemma_stands_deeper(part, s, none, rule + d);
        assert(t =~= (s + rule) + d + none);
        lemma_stands_between(s + rule, d, none);
    }
}

/// The first poll that finds a report ends the run: the process is stopped, and what was found
/// is what counts, whatever is polled later.
pub proof fn a_report_stops_the_process(s: RunView, text: Seq<char>, events: Seq<EventView>)
    requires
        s.detection is None,
        s.outcome is None,
        detected(s.result_path, Some(text)) is Some,
    ensures
        ({
            let e = EventView::Polled(Some(text));
            let t = run_after(s, e);
            &&& run_action(t, e) == RunAction::StopProcess
            &&& run_after_all(t, events).detection == detected(s.result_path, Some(text))
        }),
    decreases events.len(),
{
    if events.len() > 0 {
        a_report_stops_the_process(s, text, events.drop_last());
    }
}

/// A run is over only when the process is gone, and one that is asked to stop is stopped.
pub proof fn a_run_ends_when_the_process_is_gone(s: RunView, e: EventView)
    ensures
        run_action(s, e) == RunAction::Finish ==> s.outcome is Some,
        s.outcome is None && e is StopAsked ==> run_action(s, e) == RunAction::StopProcess,
        run_action(s, e) == RunAction::StopProcess ==> s.outcome is None && (s.detection is Some
            || e is StopAsked),
{
}

/// When the process is gone the run waits for the rest of its output, a little while, unless it
/// has it already.
pub proof fn the_rest_of_the_output_is_waited_for(s: RunView, o: WaitView)
    requires
        s.outcome is None,
    ensures
        ({
            let e = EventView::Reaped(o);
            let t = run_after(s, e);
            &&& t.outcome == Some(o)
            &&& s.drained ==> run_action(t, e) == RunAction::Finish
            &&& !s.drained ==> run_action(t, e) == RunAction::DrainBriefly
            &&& !s.drained ==> run_action(
                run_after(t, EventView::Drained),
                EventView::Drained,
            ) == RunAction::Finish
        }),
{
}

/// What an event tells is never lost again.
pub proof fn a_run_forgets_nothing(s: RunView, e: EventView)
    ensures
        run_after(s, e).result_path == s.result_path,
        s.detection is Some ==> run_after(s, e).detection == s.detection,
        s.outcome is Some ==> run_after(s, e).outcome == s.outcome,
        s.drained ==> run_after(s, e).drained,
        s.read_error is Some ==> run_after(s, e).read_error is Some,
        e is Drained || e is ReadFailed ==> run_after(s, e).drained,
        e matches EventView::ReadFailed(error) ==> run_after(s, e).read_error == Some(error),
{
}

/// Without a report, a run passes only if the process exited well and its output could be read.
pub proof fn a_run_passes_for_a_reason(
    s: RunView,
    last: Option<Seq<char>>,
    bin: Seq<char>,
    cancelled: bool,
    time_is_up: bool,
    stdout: Seq<char>,
    stderr: Seq<char>,
)
    requires
        verdict(s, last, bin, cancelled, time_is_up, stdout, stderr) is None,
    ensures
        ({
            ||| s.detection matches Some(DetectionView::Report(r)) && r.success
            ||| s.detection is None && (detected(s.result_path, last) matches Some(
                DetectionView::Report(r),
            ) && r.success)
            ||| s.detection is None && detected(s.result_path, last) is None && s.read_error is None
                && (s.outcome matches Some(WaitView::Exited(success, _)) && success)
        }),
{
}

/// A failed run tells what its report tells, or what the runner printed.
pub proof fn a_failed_run_tells_why(
    s: RunView,
    bin: Seq<char>,
    cancelled: bool,
    time_is_up: bool,
    stdout: Seq<char>,
    stderr: Seq<char>,
    r: ReportView,
    status: Seq<char>,
)
    ensures
        s.detection == Some(DetectionView::Report(r)) && !r.success ==> stands_in(
            report_text(r, stdout, stderr),
            verdict(s, None, bin, cancelled, time_is_up, stdout, stderr)->0,
        ),
        s.detection is None && s.read_error is None && s.outcome == Some(
            WaitView::Exited(false, status),
        ) ==> stands_in(
            test_detail(stdout, stderr),
            verdict(s, None, bin, cancelled, time_is_up, stdout, stderr)->0,
        ) && stands_in(
            status,
            verdict(s, None, bin, cancelled, time_is_up, stdout, stderr)->0,
        ),
{
    let none = Seq::<char>::empty();
    let v = verdict(s, None, bin, cancelled, time_is_up, stdout, stderr)->0;
    let d = test_detail(stdout, stderr);
    if s.detection == Some(DetectionView::Report(r)) && !r.success {
        let t = report_text(r, stdout, stderr);
        assert(v =~= "js_test failed:\n"@ + t + none);
        lemma_stands_between("js_test failed:\n"@, t, none);
    }
    if s.detection is None && s.read_error is None && s.outcome == Some(
        WaitView::Exited(false, status),
    ) {
        assert(v =~= ("js_test failed ("@ + status + "):\n"@) + d + none);
        lemma_stands_between("js_test failed ("@ + status + "):\n"@, d, none);
        assert(v =~= "js_test failed ("@ + status + ("):\n"@ + d));
        lemma_stands_between("js_test failed ("@, status, "):\n"@ + d);
    }
}

/// A report that cannot be understood is told with its place; what is no JSON yet is no report.
pub proof fn what_is_no_report_is_told(path: Seq<char>, text: Seq<char>, t: JsonTree)
    ensures
        detected(path, None) is None,
        json_document(text) is None ==> detected(path, Some(text)) is None,
        json_document(text) == Some(t) && report_in(t) is None ==> (detected(
            path,
            Some(text),
        ) matches Some(DetectionView::Malformed(m)) && stands_in(path, m)),
        json_document(text) == Some(t) && report_in(t) is Some ==> detected(path, Some(text))
            == Some(DetectionView::Report(report_in(t)->0)),
{
    if json_document(text) == Some(t) && report_in(t) is None {
        let m = malformed_text(path, text);
        let before = "runner wrote "@;
        let after = m.skip((before.len() + path.len()) as int);
        assert(m =~= before + path + after);
        lemma_stands_between(before, path, after);
    }
}

} // verus!
