//! What a failed tool run has to say for itself.
use crate::text::{decimal, digits, join, joined, space_trimmed, split, split_on, texts, to_chars, trim};
use vstd::prelude::*;

verus! {

/// The last `n` lines of a text.
pub open spec fn tail_lines(s: Seq<char>, n: nat) -> Seq<char> {
    let lines = split_on(s, '\n');
    if lines.len() <= n {
        s
    } else {
        joined(lines.skip(lines.len() - n), "\n"@)
    }
}

/// A text with the lines in its middle left out, so that `n` lines stay, and a line that tells
/// how many were left out.
pub open spec fn head_tail_lines(s: Seq<char>, n: nat) -> Seq<char> {
    let lines = split_on(s, '\n');
    if lines.len() <= n {
        s
    } else {
        joined(lines.take((n / 2) as int), "\n"@) + "\n... "@ + digits((lines.len() - n) as nat)
            + " lines omitted ...\n"@ + joined(lines.skip(lines.len() - (n - n / 2)), "\n"@)
    }
}

/// The strings from `lo` up to `hi`.
fn part(list: &Vec<String>, lo: usize, hi: usize) -> (r: Vec<String>)
    requires
        lo <= hi <= list.len(),
    ensures
        texts(r@) == texts(list@).subrange(lo as int, hi as int),
{
    let ghost all = texts(list@);
    let mut out: Vec<String> = Vec::new();
    let mut i: usize = lo;
    assert(texts(out@) =~= all.subrange(lo as int, lo as int));
    while i < hi
        invariant
            lo <= i <= hi <= list.len(),
            all == texts(list@),
            texts(out@) == all.subrange(lo as int, i as int),
        decreases hi - i,
    {
        let ghost before = texts(out@);
        out.push(list[i].clone());
        proof {
            assert(all[i as int] == list@[i as int]@);
            assert(texts(out@) =~= before.push(all[i as int]));
            assert(all.subrange(lo as int, i + 1) =~= all.subrange(lo as int, i as int).push(
                all[i as int],
            ));
        }
        i = i + 1;
    }
    out
}

/// The last `n` lines of a text.
pub fn last_n_lines(s: &str, n: usize) -> (r: String)
    ensures
        r@ == tail_lines(s@, n as nat),
{
    let lines = split(s, '\n');
    let ghost all = texts(lines@);
    assert(all.len() == lines@.len());
    if lines.len() <= n {
        return s.to_owned();
    }
    let lo = lines.len() - n;
    let kept = part(&lines, lo, lines.len());
    assert(texts(kept@) =~= all.skip(lo as int));
    join(&kept, "\n")
}

/// A text with the lines in its middle left out, so that `n` lines stay.
pub fn head_and_tail_lines(s: &str, n: usize) -> (r: String)
    ensures
        r@ == head_tail_lines(s@, n as nat),
{
    let lines = split(s, '\n');
    let ghost all = texts(lines@);
    assert(all.len() == lines@.len());
    if lines.len() <= n {
        return s.to_owned();
    }
    let head = part(&lines, 0, n / 2);
    let lo = lines.len() - (n - n / 2);
    let tail = part(&lines, lo, lines.len());
    proof {
        assert(texts(head@) =~= all.take((n / 2) as int));
        assert(texts(tail@) =~= all.skip(lo as int));
    }
    let mut out = join(&head, "\n");
    out.append("\n... ");
    out.append(decimal(lines.len() - n).as_str());
    out.append(" lines omitted ...\n");
    out.append(join(&tail, "\n").as_str());
    out
}

/// What a tool wrote to its two streams, each under its name; a note when it wrote nothing.
pub open spec fn streams_text(out: Seq<char>, err: Seq<char>) -> Seq<char> {
    let a = if out.len() > 0 {
        "stdout:\n"@ + out
    } else {
        Seq::empty()
    };
    let b = if err.len() > 0 {
        "stderr:\n"@ + err
    } else {
        Seq::empty()
    };
    if a.len() == 0 && b.len() == 0 {
        "<no output on stdout or stderr>"@
    } else if a.len() > 0 && b.len() > 0 {
        a + "\n"@ + b
    } else {
        a + b
    }
}

fn both_streams(out: &str, err: &str) -> (r: String)
    ensures
        r@ == streams_text(out@, err@),
{
    let has_out = to_chars(out).len() > 0;
    let has_err = to_chars(err).len() > 0;
    proof {
        reveal_strlit("stdout:\n");
        reveal_strlit("stderr:\n");
    }
    if !has_out && !has_err {
        return "<no output on stdout or stderr>".to_owned();
    }
    let mut detail = String::new();
    if has_out {
        detail.append("stdout:\n");
        detail.append(out);
    }
    if has_err {
        if has_out {
            detail.append("\n");
        }
        detail.append("stderr:\n");
        detail.append(err);
    }
    assert(detail@ =~= streams_text(out@, err@));
    detail
}

/// What a failed run of the type checker says.
pub open spec fn tsc_detail(stdout: Seq<char>, stderr: Seq<char>) -> Seq<char> {
    streams_text(
        head_tail_lines(space_trimmed(stdout), 40),
        head_tail_lines(space_trimmed(stderr), 40),
    )
}

/// What a failed run of the type checker says.
pub fn tsc_failure_detail(stdout: &str, stderr: &str) -> (r: String)
    ensures
        r@ == tsc_detail(stdout@, stderr@),
{
    let a = head_and_tail_lines(trim(stdout).as_str(), 40);
    let b = head_and_tail_lines(trim(stderr).as_str(), 40);
    both_streams(a.as_str(), b.as_str())
}

/// What a failed run of the linter says.
pub open spec fn lint_detail(stdout: Seq<char>, stderr: Seq<char>) -> Seq<char> {
    streams_text(tail_lines(space_trimmed(stdout), 60), tail_lines(space_trimmed(stderr), 40))
}

/// What a failed run of the linter says.
pub fn lint_failure_detail(stdout: &str, stderr: &str) -> (r: String)
    ensures
        r@ == lint_detail(stdout@, stderr@),
{
    let a = last_n_lines(trim(stdout).as_str(), 60);
    let b = last_n_lines(trim(stderr).as_str(), 40);
    both_streams(a.as_str(), b.as_str())
}

/// What a failed run of the bundler says.
pub open spec fn bundle_detail(stdout: Seq<char>, stderr: Seq<char>) -> Seq<char> {
    streams_text(tail_lines(space_trimmed(stdout), 60), tail_lines(space_trimmed(stderr), 60))
}

/// What a failed run of the bundler says.
pub fn bundle_failure_detail(stdout: &str, stderr: &str) -> (r: String)
    ensures
        r@ == bundle_detail(stdout@, stderr@),
{
    let a = last_n_lines(trim(stdout).as_str(), 60);
    let b = last_n_lines(trim(stderr).as_str(), 60);
    both_streams(a.as_str(), b.as_str())
}

/// What a failed run of the test runner says.
pub open spec fn test_detail(stdout: Seq<char>, stderr: Seq<char>) -> Seq<char> {
    streams_text(
        head_tail_lines(space_trimmed(stdout), 60),
        head_tail_lines(space_trimmed(stderr), 60),
    )
}

/// What a failed run of the test runner says.
pub fn test_failure_detail(stdout: &str, stderr: &str) -> (r: String)
    ensures
        r@ == test_detail(stdout@, stderr@),
{
    let a = head_and_tail_lines(trim(stdout).as_str(), 60);
    let b = head_and_tail_lines(trim(stderr).as_str(), 60);
    both_streams(a.as_str(), b.as_str())
}

/// What a failed tool has to say is never blank.
pub proof fn a_failure_is_never_blank(stdout: Seq<char>, stderr: Seq<char>)
    ensures
        streams_text(stdout, stderr).len() > 0,
{
    reveal_strlit("<no output on stdout or stderr>");
}

} // verus!
