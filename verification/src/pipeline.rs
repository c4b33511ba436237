//! The selection pipeline: on commit, the chosen value goes to the
//! clipboard helper and a timestamped record line goes to the history
//! store. The two effects are attempted in that order, both always, and
//! their outcomes are reported independently.

use vstd::prelude::*;
use vstd::string::{StrSliceExecFns, StringSliceAdditionalSpecFns};
use crate::errors::{ClipboardError, HistoryError};
use crate::numbers::push_byte;
use crate::record::{encode_record, spec_record_bytes};
use crate::timestamp::Timestamp;

verus! {

/// Relies on chrono's `Local::now` with its `Datelike`/`Timelike` and
/// fixed-offset accessors: the field ranges stated here are the ones chrono
/// documents (month 1 to 12, day 1 to 31, hour to 23, minute and second to
/// 59, nanosecond to 1,999,999,999 across a leap second, and an offset
/// strictly within one day of UTC). Nothing more can be promised of a
/// clock reading.
#[verifier::external_body]
pub(crate) fn now_local() -> (r: Timestamp)
    ensures
        r.wf(),
{
    let t = chrono::Local::now();
    Timestamp {
        year: chrono::Datelike::year(&t),
        month: chrono::Datelike::month(&t),
        day: chrono::Datelike::day(&t),
        hour: chrono::Timelike::hour(&t),
        minute: chrono::Timelike::minute(&t),
        second: chrono::Timelike::second(&t),
        nanosecond: chrono::Timelike::nanosecond(&t),
        offset_seconds: t.offset().local_minus_utc(),
    }
}

/// What a commit hands to the outside world: the clipboard payload and the
/// history line.
pub struct CommitPlan {
    /// The chosen value's bytes exactly, with no newline added, for the
    /// clipboard helper's input stream.
    pub clipboard: Vec<u8>,
    /// The serialized record with its trailing newline, for the history
    /// file.
    pub history_line: Vec<u8>,
}

/// Builds the commit plan for the chosen value as of the given moment.
pub fn commit_plan(pw: &str, ts: &Timestamp) -> (r: CommitPlan)
    requires
        ts.wf(),
    ensures
        r.clipboard@ == pw.spec_bytes(),
        r.history_line@ == spec_record_bytes(pw.spec_bytes(), *ts) + seq![10u8],
{
    let clipboard = pw.as_bytes_vec();
    let mut history_line = encode_record(pw.as_bytes(), ts);
    push_byte(&mut history_line, 10);
    CommitPlan { clipboard, history_line }
}

/// Commits the chosen value: stamps it with the current local time and
/// builds the plan for the two side effects. The clipboard payload is the
/// value's bytes exactly; the history line is the record of that value and
/// a well-formed timestamp read from the clock at the call.
pub fn choose_pw(pw: &str) -> (r: CommitPlan)
    ensures
        r.clipboard@ == pw.spec_bytes(),
        exists|ts: Timestamp|
            #[trigger] ts.wf() && r.history_line@ == spec_record_bytes(pw.spec_bytes(), ts)
                + seq![10u8],
{
    let ts = now_local();
    let r = commit_plan(pw, &ts);
    proof {
        assert(ts.wf() && r.history_line@ == spec_record_bytes(pw.spec_bytes(), ts)
            + seq![10u8]);
    }
    r
}

/// One step of the history append path.
#[derive(Debug)]
pub enum HistoryAction {
    /// Create the history directory if it is absent.
    EnsureDir,
    /// Restrict the directory to owner-only access.
    SetOwnerOnly,
    /// Open the history file for append, creating it if absent.
    OpenAppend,
    /// Append the record line and flush.
    AppendLine(Vec<u8>),
}

/// The steps of one history append, in order: the directory is ensured and
/// hardened to owner-only access on every run, not only when first created,
/// then the line is appended.
pub fn history_actions(line: Vec<u8>) -> (r: Vec<HistoryAction>)
    ensures
        r@.len() == 4,
        r@[0] is EnsureDir,
        r@[1] is SetOwnerOnly,
        r@[2] is OpenAppend,
        (r@[3] matches HistoryAction::AppendLine(l) && l@ == line@),
{
    let mut v: Vec<HistoryAction> = Vec::new();
    v.push(HistoryAction::EnsureDir);
    v.push(HistoryAction::SetOwnerOnly);
    v.push(HistoryAction::OpenAppend);
    v.push(HistoryAction::AppendLine(line));
    v
}

/// The step after the clipboard attempt: whatever its outcome — spawn
/// failure, write failure or success — the history append is attempted
/// next, with the same line. Nothing is rolled back and nothing skipped.
pub fn after_clipboard(history_line: Vec<u8>, _clipboard: &Result<(), ClipboardError>) -> (r: Vec<
    HistoryAction,
>)
    ensures
        r@.len() == 4,
        r@[0] is EnsureDir,
        r@[1] is SetOwnerOnly,
        r@[2] is OpenAppend,
        (r@[3] matches HistoryAction::AppendLine(l) && l@ == history_line@),
{
    history_actions(history_line)
}

/// The error reported for the history step that failed.
pub fn history_error_of(a: &HistoryAction) -> (r: HistoryError)
    ensures
        a is EnsureDir ==> r == HistoryError::DirCreateFailed,
        a is SetOwnerOnly ==> r == HistoryError::PermissionFailed,
        a is OpenAppend ==> r == HistoryError::FileOpenFailed,
        a is AppendLine ==> r == HistoryError::WriteFailed,
{
    match a {
        HistoryAction::EnsureDir => HistoryError::DirCreateFailed,
        HistoryAction::SetOwnerOnly => HistoryError::PermissionFailed,
        HistoryAction::OpenAppend => HistoryError::FileOpenFailed,
        HistoryAction::AppendLine(_) => HistoryError::WriteFailed,
    }
}

/// The two outcomes of a commit, surfaced distinctly: a failure of one
/// effect neither hides nor undoes the other.
pub struct CommitOutcome {
    /// Outcome of the clipboard write, attempted first.
    pub clipboard: Result<(), ClipboardError>,
    /// Outcome of the history append, attempted whatever the clipboard did.
    pub history: Result<(), HistoryError>,
}

/// Reports both outcomes, each preserved exactly as it happened.
pub fn report_outcome(clipboard: Result<(), ClipboardError>, history: Result<(), HistoryError>)
    -> (r: CommitOutcome)
    ensures
        r.clipboard == clipboard,
        r.history == history,
{
    CommitOutcome { clipboard, history }
}

/// A model of the history directory: whether it exists, and its permission
/// mode bits.
pub struct DirState {
    /// The directory exists.
    pub exists: bool,
    /// Its permission bits.
    pub mode: u32,
}

/// What one append step does to the directory model: creation makes the
/// directory exist, hardening sets owner-only permissions, the file steps
/// leave it alone.
pub open spec fn apply_action(d: DirState, a: HistoryAction) -> DirState {
    match a {
        HistoryAction::EnsureDir => DirState { exists: true, ..d },
        HistoryAction::SetOwnerOnly => DirState { mode: 0o700, ..d },
        _ => d,
    }
}

/// One whole append run over the model.
pub open spec fn apply_run(d: DirState, actions: Seq<HistoryAction>) -> DirState
    decreases actions.len(),
{
    if actions.len() == 0 {
        d
    } else {
        apply_run(apply_action(d, actions[0]), actions.skip(1))
    }
}

/// `n` append runs over the model.
pub open spec fn apply_runs(d: DirState, actions: Seq<HistoryAction>, n: nat) -> DirState
    decreases n,
{
    if n == 0 {
        d
    } else {
        apply_runs(apply_run(d, actions), actions, (n - 1) as nat)
    }
}

/// Directory hardening is idempotent: however many times the append path
/// runs, starting from whatever state the directory was in, it ends
/// existing with owner-only permissions — the hardening stands in every
/// run, so no run can leave it behind.
pub proof fn lemma_hardening_idempotent(d: DirState, actions: Seq<HistoryAction>, n: nat)
    requires
        n >= 1,
        actions.len() == 4,
        actions[0] is EnsureDir,
        actions[1] is SetOwnerOnly,
        actions[2] is OpenAppend,
        actions[3] is AppendLine,
    ensures
        apply_runs(d, actions, n).exists,
        apply_runs(d, actions, n).mode == 0o700,
    decreases n,
{
    let d1 = apply_action(d, actions[0]);
    let t1 = actions.skip(1);
    assert(t1.len() == 3 && t1[0] == actions[1] && t1[1] == actions[2] && t1[2] == actions[3]);
    let d2 = apply_action(d1, t1[0]);
    let t2 = t1.skip(1);
    assert(t2.len() == 2 && t2[0] == actions[2] && t2[1] == actions[3]);
    let d3 = apply_action(d2, t2[0]);
    let t3 = t2.skip(1);
    assert(t3.len() == 1 && t3[0] == actions[3]);
    let d4 = apply_action(d3, t3[0]);
    let t4 = t3.skip(1);
    assert(t4.len() == 0);
    assert(apply_run(d, actions) == apply_run(d1, t1));
    assert(apply_run(d1, t1) == apply_run(d2, t2));
    assert(apply_run(d2, t2) == apply_run(d3, t3));
    assert(apply_run(d3, t3) == apply_run(d4, t4));
    assert(apply_run(d4, t4) == d4);
    assert(d4.exists && d4.mode == 0o700);
    if n == 1 {
        assert(apply_runs(d, actions, 1) == apply_runs(apply_run(d, actions), actions, 0));
    } else {
        lemma_hardening_idempotent(apply_run(d, actions), actions, (n - 1) as nat);
    }
}

} // verus!
