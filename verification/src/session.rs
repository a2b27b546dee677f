//! Decisions of the interactive sessions with remote applications: which output lines
//! are worth showing, when a command has completed, when a non-blocking SSH call is
//! retried, and what a closed session's status is.
use vstd::prelude::*;
use crate::text::{contains_seq, is_first_occurrence_from, occurs_at, split_by};

verus! {

/// The marker the runner sends to provoke a fresh prompt.
pub open spec fn marker() -> Seq<char> {
    seq!['#', '#', '#']
}

pub open spec fn crlf() -> Seq<char> {
    seq!['\r', '\n']
}

/// An output line is shown unless it is empty, the bare prompt, or carries the marker.
pub open spec fn keep_line(line: Seq<char>, prompt: Seq<char>) -> bool {
    &&& line.len() > 0
    &&& line != prompt
    &&& !contains_seq(line, prompt + marker())
    &&& !contains_seq(line, marker())
}

/// The shown lines, each followed by a newline.
pub open spec fn shown_lines(lines: Seq<Seq<char>>, prompt: Seq<char>) -> Seq<char>
    decreases lines.len(),
{
    if lines.len() == 0 {
        Seq::empty()
    } else {
        (if keep_line(lines[0], prompt) {
            lines[0] + seq!['\n']
        } else {
            Seq::<char>::empty()
        }) + shown_lines(lines.skip(1), prompt)
    }
}

/// What of an application's output is shown: its `\r\n`-separated lines that are
/// neither empty, nor the prompt, nor carry the `###` marker.
pub open spec fn shown_output(output: Seq<char>, prompt: Seq<char>) -> Seq<char> {
    shown_lines(split_by(output, crlf()), prompt)
}

proof fn lemma_split_first(s: Seq<char>, sep: Seq<char>, k: int)
    requires
        sep.len() > 0,
        is_first_occurrence_from(s, sep, 0, k),
    ensures
        split_by(s, sep) == seq![s.take(k)] + split_by(s.skip(k + sep.len()), sep),
    decreases k,
{
    if k == 0 {
        assert(s.subrange(0, sep.len() as int) == s.take(sep.len() as int));
        assert(s.take(0) =~= Seq::<char>::empty());
    } else {
        assert(!occurs_at(s, sep, 0));
        assert(s.len() > 0);
        if s.len() >= sep.len() && s.take(sep.len() as int) == sep {
            assert(s.subrange(0, sep.len() as int) == s.take(sep.len() as int));
        }
        let t = s.skip(1);
        assert forall|j: int| 0 <= j < k - 1 implies !occurs_at(t, sep, j) by {
            if occurs_at(t, sep, j) {
                assert(t.subrange(j, j + sep.len()) =~= s.subrange(j + 1, j + 1 + sep.len()));
                assert(occurs_at(s, sep, j + 1));
            }
        }
        assert(t.subrange(k - 1, k - 1 + sep.len()) =~= s.subrange(k, k + sep.len()));
        lemma_split_first(t, sep, k - 1);
        assert(t.skip(k - 1 + sep.len()) =~= s.skip(k + sep.len()));
        assert(seq![s[0]] + t.take(k - 1) =~= s.take(k));
    }
}

proof fn lemma_split_none(s: Seq<char>, sep: Seq<char>)
    requires
        sep.len() > 0,
        forall|j: int| 0 <= j ==> !occurs_at(s, sep, j),
    ensures
        split_by(s, sep) == seq![s],
    decreases s.len(),
{
    if s.len() > 0 {
        if s.len() >= sep.len() && s.take(sep.len() as int) == sep {
            assert(s.subrange(0, sep.len() as int) == s.take(sep.len() as int));
            assert(occurs_at(s, sep, 0));
        }
        let t = s.skip(1);
        assert forall|j: int| 0 <= j implies !occurs_at(t, sep, j) by {
            if occurs_at(t, sep, j) {
                assert(t.subrange(j, j + sep.len()) =~= s.subrange(j + 1, j + 1 + sep.len()));
                assert(occurs_at(s, sep, j + 1));
            }
        }
        lemma_split_none(t, sep);
        assert(seq![s[0]] + t =~= s);
    }
}

/// Whether an output line is shown.
fn keep_line_exec(line: &Vec<char>, prompt: &Vec<char>, prompt_marker: &Vec<char>, mark: &Vec<char>) -> (r:
    bool)
    requires
        prompt_marker@ == prompt@ + marker(),
        mark@ == marker(),
    ensures
        r == keep_line(line@, prompt@),
{
    line.len() > 0 && !crate::text::chars_eq(line, prompt) && !crate::text::contains_chars(
        line,
        prompt_marker,
    ) && !crate::text::contains_chars(line, mark)
}

/// The part of an application's output that is shown (see `shown_output`).
pub fn filter_output(output: &str, prompt: &str) -> (r: String)
    ensures
        r@ == shown_output(output@, prompt@),
{
    let ov = crate::text::chars_of(output);
    let pv = crate::text::chars_of(prompt);
    let mark = vec!['#', '#', '#'];
    let sep = vec!['\r', '\n'];
    let mut pm = pv.clone();
    crate::text::extend_chars(&mut pm, &mark);
    assert(mark@ =~= marker());
    assert(sep@ =~= crlf());
    assert(pv@ == prompt@);
    let mut shown: Vec<char> = Vec::new();
    let mut pos: usize = 0;
    assert(ov@.skip(0) =~= ov@);
    loop
        invariant
            pos <= ov.len(),
            ov@ == output@,
            pv@ == prompt@,
            pm@ == prompt@ + marker(),
            mark@ == marker(),
            sep@ == crlf(),
            shown_output(output@, prompt@) == shown@ + shown_lines(
                split_by(ov@.skip(pos as int), crlf()),
                prompt@,
            ),
        decreases ov.len() - pos,
    {
        let ghost rest = ov@.skip(pos as int);
        match crate::text::find_from(&ov, &sep, pos) {
            Some(k) => {
                proof {
                    assert(is_first_occurrence_from(rest, crlf(), 0, k - pos)) by {
                        assert(rest.subrange(k - pos, k - pos + 2) =~= ov@.subrange(
                            k as int,
                            k + 2,
                        ));
                        assert forall|j: int| 0 <= j < k - pos implies !occurs_at(
                            rest,
                            crlf(),
                            j,
                        ) by {
                            if occurs_at(rest, crlf(), j) {
                                assert(rest.subrange(j, j + 2) =~= ov@.subrange(
                                    pos + j,
                                    pos + j + 2,
                                ));
                                assert(occurs_at(ov@, sep@, pos + j));
                            }
                        }
                    }
                    lemma_split_first(rest, crlf(), k - pos);
                    assert(rest.skip(k - pos + 2) =~= ov@.skip(k + 2));
                }
                let mut line: Vec<char> = Vec::new();
                crate::xregex::extend_range(&mut line, &ov, pos, k);
                assert(line@ =~= rest.take(k - pos));
                let ghost lines = split_by(rest, crlf());
                assert(lines[0] == line@);
                assert(lines.skip(1) =~= split_by(ov@.skip(k + 2), crlf()));
                if keep_line_exec(&line, &pv, &pm, &mark) {
                    crate::text::extend_chars(&mut shown, &line);
                    shown.push('\n');
                }
                assert(shown_output(output@, prompt@) == shown@ + shown_lines(
                    split_by(ov@.skip(k + 2), crlf()),
                    prompt@,
                )) by {
                    assert((line@ + seq!['\n']) =~= line@ + seq!['\n']);
                }
                pos = k + 2;
            },
            None => {
                proof {
                    assert forall|j: int| 0 <= j implies !occurs_at(rest, crlf(), j) by {
                        if occurs_at(rest, crlf(), j) {
                            assert(rest.subrange(j, j + 2) =~= ov@.subrange(pos + j, pos + j + 2));
                            assert(occurs_at(ov@, sep@, pos + j));
                        }
                    }
                    lemma_split_none(rest, crlf());
                }
                let mut line: Vec<char> = Vec::new();
                crate::text::extend_from(&mut line, &ov, pos);
                let ghost lines = split_by(rest, crlf());
                assert(lines[0] == line@);
                assert(lines.skip(1).len() == 0);
                assert(shown_lines(lines.skip(1), prompt@) == Seq::<char>::empty());
                let ghost before = shown@;
                if keep_line_exec(&line, &pv, &pm, &mark) {
                    crate::text::extend_chars(&mut shown, &line);
                    shown.push('\n');
                    assert(shown@ =~= before + (line@ + seq!['\n']) + Seq::<char>::empty());
                } else {
                    assert(shown@ =~= before + Seq::<char>::empty() + Seq::<char>::empty());
                }
                return crate::text::string_of(&shown);
            },
        }
    }
}

/// What to do while waiting for a command to complete.
#[derive(PartialEq, Eq, Structural, Clone, Copy, Debug)]
pub enum WaitAction {
    /// The prompt is back: the command has completed.
    Complete,
    /// Send the `###` marker to provoke a fresh prompt, then wait.
    Resend,
    /// Wait and read again.
    Wait,
}

/// The prompt at the end of a line: the prompt followed by `$`.
pub open spec fn prompt_at_line_end(prompt: Seq<char>) -> Seq<char> {
    prompt + seq!['$']
}

/// One round of waiting for a command: given what was just read (`chunk`), all output
/// collected so far (`collected`) and how many rounds missed the prompt. The command
/// has completed when the prompt ends a line of the collected output; a non-empty
/// chunk without the prompt is a miss, and every other miss resends the marker.
/// `None` when the prompt does not make a usable pattern.
pub open spec fn completion_spec(miss_count: int, chunk: Seq<char>, collected: Seq<char>, prompt: Seq<
    char,
>) -> Option<(WaitAction, int)> {
    let delim = prompt_at_line_end(prompt);
    if chunk.len() == 0 {
        Some((WaitAction::Wait, miss_count))
    } else if !crate::matching::match_runnable(delim) {
        None
    } else if crate::matching::match_spec(collected, delim) {
        Some((WaitAction::Complete, miss_count))
    } else if !contains_seq(chunk, delim) {
        if (miss_count + 1) % 2 != 0 {
            Some((WaitAction::Resend, miss_count + 1))
        } else {
            Some((WaitAction::Wait, miss_count + 1))
        }
    } else {
        Some((WaitAction::Wait, miss_count))
    }
}

/// One round of waiting for a command (see `completion_spec`).
pub fn completion_step(miss_count: i32, chunk: &str, collected: &str, prompt: &str) -> (r: Option<
    (WaitAction, i32),
>)
    requires
        0 <= miss_count < i32::MAX,
    ensures
        match r {
            None => completion_spec(miss_count as int, chunk@, collected@, prompt@) is None,
            Some((a, m)) => completion_spec(miss_count as int, chunk@, collected@, prompt@) == Some(
                (a, m as int),
            ),
        },
{
    if chunk.is_empty() {
        return Some((WaitAction::Wait, miss_count));
    }
    let delim = crate::text::concat(prompt, "$");
    proof {
        reveal_strlit("$");
        assert(delim@ =~= prompt_at_line_end(prompt@));
    }
    match crate::matching::check_match_output(collected, delim.as_str()) {
        None => None,
        Some(true) => Some((WaitAction::Complete, miss_count)),
        Some(false) => {
            if !crate::text::str_contains(chunk, delim.as_str()) {
                let m = miss_count + 1;
                if m % 2 != 0 {
                    Some((WaitAction::Resend, m))
                } else {
                    Some((WaitAction::Wait, m))
                }
            } else {
                Some((WaitAction::Wait, miss_count))
            }
        },
    }
}

/// The kind of an I/O error, as far as the sessions distinguish them.
#[derive(PartialEq, Eq, Structural, Clone, Copy, Debug)]
pub enum IoErrorKind {
    WouldBlock,
    TimedOut,
    NotFound,
    AlreadyExists,
    Other,
}

/// A non-blocking call that would block is tried again; any other error ends it.
pub fn continue_after_error(kind: IoErrorKind) -> (r: bool)
    ensures
        r == (kind == IoErrorKind::WouldBlock),
{
    match kind {
        IoErrorKind::WouldBlock => true,
        _ => false,
    }
}

/// An `ssh2::ErrorCode`: a libssh2 session code or an SFTP code.
#[derive(PartialEq, Eq, Structural, Clone, Copy, Debug)]
pub enum SshErrorCode {
    Session(i32),
    Sftp(i32),
}

/// The I/O kind that `ssh2` gives an error of this code when it turns it into an
/// `io::Error`: `-37` (`LIBSSH2_ERROR_EAGAIN`) would block, `-9` timed out, SFTP `2`
/// and `10` were not found, SFTP `11` already exists, anything else is other.
pub open spec fn ssh_io_kind(code: SshErrorCode) -> IoErrorKind {
    match code {
        SshErrorCode::Session(c) => if c == -37 {
            IoErrorKind::WouldBlock
        } else if c == -9 {
            IoErrorKind::TimedOut
        } else {
            IoErrorKind::Other
        },
        SshErrorCode::Sftp(c) => if c == 2 || c == 10 {
            IoErrorKind::NotFound
        } else if c == 11 {
            IoErrorKind::AlreadyExists
        } else {
            IoErrorKind::Other
        },
    }
}

/// The I/O kind of an `ssh2` error code (see `ssh_io_kind`).
pub fn ssh_error_kind(code: SshErrorCode) -> (r: IoErrorKind)
    ensures
        r == ssh_io_kind(code),
{
    match code {
        SshErrorCode::Session(c) => if c == -37 {
            IoErrorKind::WouldBlock
        } else if c == -9 {
            IoErrorKind::TimedOut
        } else {
            IoErrorKind::Other
        },
        SshErrorCode::Sftp(c) => if c == 2 || c == 10 {
            IoErrorKind::NotFound
        } else if c == 11 {
            IoErrorKind::AlreadyExists
        } else {
            IoErrorKind::Other
        },
    }
}

/// What a non-blocking SSH call leads to.
pub enum NbStep<T> {
    /// It succeeded with this value.
    Done(T),
    /// It would block: call it again.
    Retry,
    /// It failed: give up.
    GiveUp,
}

/// One attempt of a non-blocking SSH call: its value on success, another attempt when
/// the error means it would block, giving up on any other error.
pub fn ssh2_nb<T>(attempt: Result<T, SshErrorCode>) -> (r: NbStep<T>)
    ensures
        match attempt {
            Ok(v) => r == NbStep::Done(v),
            Err(code) => if ssh_io_kind(code) == IoErrorKind::WouldBlock {
                r is Retry
            } else {
                r is GiveUp
            },
        },
{
    match attempt {
        Ok(v) => NbStep::Done(v),
        Err(code) => if continue_after_error(ssh_error_kind(code)) {
            NbStep::Retry
        } else {
            NbStep::GiveUp
        },
    }
}

/// What one read from a remote command's channel gave.
pub enum ReadEvent {
    /// These characters arrived.
    Data(String),
    /// Nothing more will arrive.
    End,
    /// The read failed with an error of this kind.
    Failed(IoErrorKind),
}

/// One read while running a remote command: arrived characters are added to the
/// collected output and reading goes on; an error that means the read would block is
/// read again; the end of the output, or any other error, ends reading. Returns
/// whether to read again.
pub fn rsh_exec(output: &mut String, event: ReadEvent) -> (more: bool)
    ensures
        match event {
            ReadEvent::Data(s) => more && final(output)@ == old(output)@ + s@,
            ReadEvent::End => !more && final(output)@ == old(output)@,
            ReadEvent::Failed(k) => more == (k == IoErrorKind::WouldBlock) && final(output)@
                == old(output)@,
        },
{
    match event {
        ReadEvent::Data(s) => {
            output.append(s.as_str());
            true
        },
        ReadEvent::End => false,
        ReadEvent::Failed(k) => continue_after_error(k),
    }
}

/// The status of a session that ended with a read error: the OS error number, or 255
/// when there is none.
pub fn read_error_status(raw_os_error: Option<i32>) -> (r: i32)
    ensures
        r == match raw_os_error {
            Some(e) => e,
            None => 255,
        },
{
    match raw_os_error {
        Some(e) => e,
        None => 255,
    }
}

/// The status of a session that closed: a non-zero exit status as it is, otherwise
/// 255 when a signal ended the command and 0 when none did.
pub fn disconnect_status(exit_status: i32, exit_signal: &Option<String>) -> (r: i32)
    ensures
        r == (if exit_status != 0 {
            exit_status
        } else if exit_signal is Some {
            255
        } else {
            0
        }),
{
    if exit_status != 0 {
        exit_status
    } else if exit_signal.is_some() {
        255
    } else {
        0
    }
}

/// Two texts without the marker, the first ending with a newline, make a text without
/// the marker.
proof fn lemma_no_marker_concat(a: Seq<char>, b: Seq<char>)
    requires
        a.len() > 0,
        a.last() == '\n',
        !contains_seq(a, marker()),
        !contains_seq(b, marker()),
    ensures
        !contains_seq(a + b, marker()),
{
    let m = marker();
    assert forall|i: int| !occurs_at(a + b, m, i) by {
        if occurs_at(a + b, m, i) {
            let s = a + b;
            if i + 3 <= a.len() {
                assert(a.subrange(i, i + 3) =~= s.subrange(i, i + 3));
                assert(occurs_at(a, m, i));
            } else if i >= a.len() {
                assert(b.subrange(i - a.len(), i - a.len() + 3) =~= s.subrange(i, i + 3));
                assert(occurs_at(b, m, i - a.len()));
            } else {
                let k = a.len() - 1 - i;
                assert(0 <= k < 3);
                assert(s.subrange(i, i + 3)[k] == s[a.len() - 1]);
                assert(s[a.len() - 1] == '\n');
                assert(m[k] == '#');
            }
        }
    }
}

proof fn lemma_shown_lines_no_marker(lines: Seq<Seq<char>>, prompt: Seq<char>)
    ensures
        !contains_seq(shown_lines(lines, prompt), marker()),
    decreases lines.len(),
{
    if lines.len() > 0 {
        lemma_shown_lines_no_marker(lines.skip(1), prompt);
        let rest = shown_lines(lines.skip(1), prompt);
        if keep_line(lines[0], prompt) {
            let a = lines[0] + seq!['\n'];
            assert(!contains_seq(a, marker())) by {
                assert forall|i: int| !occurs_at(a, marker(), i) by {
                    if occurs_at(a, marker(), i) {
                        if i + 3 <= lines[0].len() {
                            assert(lines[0].subrange(i, i + 3) =~= a.subrange(i, i + 3));
                            assert(occurs_at(lines[0], marker(), i));
                        } else {
                            assert(a.subrange(i, i + 3)[a.len() - 1 - i] == a[a.len() - 1]);
                        }
                    }
                }
            }
            lemma_no_marker_concat(a, rest);
        } else {
            assert(Seq::<char>::empty() + rest =~= rest);
        }
    } else {
        assert forall|i: int| !occurs_at(Seq::<char>::empty(), marker(), i) by {}
    }
}

/// What the runner shows of an application's output never contains the `###` marker it
/// sends to provoke a prompt.
pub proof fn law_shown_output_hides_marker(output: Seq<char>, prompt: Seq<char>)
    ensures
        !contains_seq(shown_output(output, prompt), marker()),
{
    lemma_shown_lines_no_marker(split_by(output, crlf()), prompt);
}

} // verus!
