//! The interactive selection state machine: key classification, wraparound
//! cursor movement, the `{Running, Committed, Cancelled}` picker states, and
//! the laws that tie a whole run of key presses to the final selection.

use vstd::prelude::*;
use vstd::arithmetic::div_mod::{
    lemma_add_mod_noop_right, lemma_fundamental_div_mod_converse_mod, lemma_mod_self_0,
    lemma_small_mod,
};
use crate::errors::PickerError;

verus! {

/// What a single key press means to the picker.
#[derive(Clone, Copy, Debug, PartialEq, Eq, Structural)]
pub enum KeyAction {
    /// `q`: leave the picker without selecting.
    Quit,
    /// Up arrow or `k`: move the cursor one row up, wrapping.
    MoveUp,
    /// Down arrow or `j`: move the cursor one row down, wrapping.
    MoveDown,
    /// Enter, CR or LF: commit the candidate under the cursor.
    Commit,
    /// Any other key: no effect.
    Ignore,
}

/// The keyboard mapping: `q` quits, up-arrow/`k` move up, down-arrow/`j`
/// move down, Enter/LF/CR commit, everything else is ignored. Key codes are
/// the terminal's decoded values: printable keys as their character codes,
/// arrows and Enter as the decoded function-key codes.
pub open spec fn action_of_key(code: i32) -> KeyAction {
    if code == 113 {
        KeyAction::Quit
    } else if code == 259 || code == 107 {
        KeyAction::MoveUp
    } else if code == 258 || code == 106 {
        KeyAction::MoveDown
    } else if code == 343 || code == 10 || code == 13 {
        KeyAction::Commit
    } else {
        KeyAction::Ignore
    }
}

/// Maps a decoded key code to its picker action.
pub fn classify_key(code: i32) -> (r: KeyAction)
    ensures
        r == action_of_key(code),
{
    if code == 113 {
        KeyAction::Quit
    } else if code == 259 || code == 107 {
        KeyAction::MoveUp
    } else if code == 258 || code == 106 {
        KeyAction::MoveDown
    } else if code == 343 || code == 10 || code == 13 {
        KeyAction::Commit
    } else {
        KeyAction::Ignore
    }
}

/// Cursor position after one step down: `(pos + 1) mod n`.
pub open spec fn wrap_down(pos: int, n: int) -> int {
    (pos + 1) % n
}

/// Cursor position after one step up: `(pos - 1) mod n` with the mathematical
/// (never negative) modulo.
pub open spec fn wrap_up(pos: int, n: int) -> int {
    (pos - 1) % n
}

/// One step down with wraparound.
pub fn move_down(pos: usize, n: usize) -> (r: usize)
    requires
        1 <= n,
        pos < n,
    ensures
        r == wrap_down(pos as int, n as int),
        r < n,
{
    if pos + 1 == n {
        proof {
            lemma_mod_self_0(n as int);
        }
        0
    } else {
        proof {
            lemma_small_mod((pos + 1) as nat, n as nat);
        }
        pos + 1
    }
}

/// One step up with wraparound.
pub fn move_up(pos: usize, n: usize) -> (r: usize)
    requires
        1 <= n,
        pos < n,
    ensures
        r == wrap_up(pos as int, n as int),
        r < n,
{
    if pos == 0 {
        proof {
            lemma_fundamental_div_mod_converse_mod(-1, n as int, -1, n as int - 1);
        }
        n - 1
    } else {
        proof {
            lemma_small_mod((pos - 1) as nat, n as nat);
        }
        pos - 1
    }
}

/// The three states of the picker.
#[derive(Clone, Copy, Debug, PartialEq, Eq, Structural)]
pub enum PickerStatus {
    /// Waiting for the next key.
    Running,
    /// The candidate under the cursor was committed; the loop exits.
    Committed,
    /// The user quit; the loop exits with nothing selected.
    Cancelled,
}

/// The picker over `n` candidates: a cursor kept within `[0, n)` and the
/// current state. `n` never changes once the picker is created.
#[derive(Clone, Copy, Debug)]
pub struct Picker {
    /// Number of candidates; at least 1.
    pub n: usize,
    /// Current cursor position, always in `[0, n)`.
    pub cursor: usize,
    /// Current state of the selection loop.
    pub status: PickerStatus,
}

/// The picker transition table, as one step on the whole picker value.
pub open spec fn spec_step(p: Picker, a: KeyAction) -> Picker {
    match a {
        KeyAction::Quit => Picker { status: PickerStatus::Cancelled, ..p },
        KeyAction::MoveUp => Picker {
            cursor: wrap_up(p.cursor as int, p.n as int) as usize,
            ..p
        },
        KeyAction::MoveDown => Picker {
            cursor: wrap_down(p.cursor as int, p.n as int) as usize,
            ..p
        },
        KeyAction::Commit => Picker { status: PickerStatus::Committed, ..p },
        KeyAction::Ignore => p,
    }
}

impl Picker {
    /// The picker's invariant: at least one candidate, cursor in range.
    pub open spec fn wf(self) -> bool {
        1 <= self.n && self.cursor < self.n
    }

    /// Creates the picker for `n` candidates, cursor at 0. An empty candidate
    /// set is rejected before any interaction can begin, so the wraparound
    /// arithmetic never divides by zero.
    pub fn new(n: usize) -> (r: Result<Picker, PickerError>)
        ensures
            r is Ok <==> n >= 1,
            n == 0 ==> r == Err::<Picker, PickerError>(PickerError::EmptyCandidateSet),
            n >= 1 ==> r == Ok::<Picker, PickerError>(
                Picker { n, cursor: 0, status: PickerStatus::Running },
            ),
            r is Ok ==> r.unwrap().wf(),
    {
        if n == 0 {
            Err(PickerError::EmptyCandidateSet)
        } else {
            Ok(Picker { n, cursor: 0, status: PickerStatus::Running })
        }
    }

    /// Feeds one key to the running picker and takes the corresponding step
    /// of the transition table.
    pub fn handle_key(&mut self, code: i32)
        requires
            old(self).wf(),
            old(self).status is Running,
        ensures
            *final(self) == spec_step(*old(self), action_of_key(code)),
            final(self).wf(),
            final(self).n == old(self).n,
    {
        match classify_key(code) {
            KeyAction::Quit => {
                self.status = PickerStatus::Cancelled;
            },
            KeyAction::MoveUp => {
                self.cursor = move_up(self.cursor, self.n);
            },
            KeyAction::MoveDown => {
                self.cursor = move_down(self.cursor, self.n);
            },
            KeyAction::Commit => {
                self.status = PickerStatus::Committed;
            },
            KeyAction::Ignore => {},
        }
    }
}

/// The whole interactive loop as a function of the key sequence: keys are
/// consumed in order until one of them leaves the `Running` state; keys after
/// that point are never read.
pub open spec fn run_picker(p: Picker, keys: Seq<i32>) -> Picker
    decreases keys.len(),
{
    if keys.len() == 0 || !(p.status is Running) {
        p
    } else {
        run_picker(spec_step(p, action_of_key(keys[0])), keys.skip(1))
    }
}

/// A key that keeps the picker running: navigation or an ignored key.
pub open spec fn is_nav_key(code: i32) -> bool {
    action_of_key(code) is MoveUp || action_of_key(code) is MoveDown || action_of_key(code)
        is Ignore
}

/// The signed cursor displacement a single key asks for.
pub open spec fn key_delta(code: i32) -> int {
    match action_of_key(code) {
        KeyAction::MoveDown => 1,
        KeyAction::MoveUp => -1,
        _ => 0,
    }
}

/// The net signed displacement of a key sequence.
pub open spec fn net_displacement(keys: Seq<i32>) -> int
    decreases keys.len(),
{
    if keys.len() == 0 {
        0
    } else {
        key_delta(keys[0]) + net_displacement(keys.skip(1))
    }
}

/// For all n >= 1 and any sequence of navigation keys, the cursor after the
/// sequence equals the start position plus the net signed displacement,
/// modulo n — so it is always within `[0, n)` — and the picker keeps running.
pub proof fn lemma_cursor_net_displacement(p: Picker, keys: Seq<i32>)
    requires
        p.wf(),
        p.status is Running,
        forall|i: int| 0 <= i < keys.len() ==> is_nav_key(#[trigger] keys[i]),
    ensures
        ({
            let q = run_picker(p, keys);
            &&& q.status is Running
            &&& q.n == p.n
            &&& q.cursor == (p.cursor + net_displacement(keys)) % (p.n as int)
            &&& q.cursor < p.n
        }),
    decreases keys.len(),
{
    let n = p.n as int;
    if keys.len() == 0 {
        lemma_small_mod(p.cursor as nat, p.n as nat);
    } else {
        let k = keys[0];
        let p1 = spec_step(p, action_of_key(k));
        assert(is_nav_key(k));
        match action_of_key(k) {
            KeyAction::MoveUp => {
                lemma_fundamental_div_mod_converse_mod(
                    p.cursor - 1,
                    n,
                    if p.cursor == 0 { -1 } else { 0 },
                    if p.cursor == 0 { n - 1 } else { p.cursor - 1 },
                );
            },
            KeyAction::MoveDown => {
                if p.cursor + 1 == n {
                    lemma_mod_self_0(n);
                } else {
                    lemma_small_mod((p.cursor + 1) as nat, p.n as nat);
                }
            },
            _ => {
                lemma_small_mod(p.cursor as nat, p.n as nat);
            },
        }
        assert(p1.wf() && p1.status is Running && p1.n == p.n);
        assert(p1.cursor == (p.cursor + key_delta(k)) % n);
        lemma_cursor_net_displacement(p1, keys.skip(1));
        let rest = net_displacement(keys.skip(1));
        assert(run_picker(p, keys) == run_picker(p1, keys.skip(1)));
        // ((c + d) % n + rest) % n == (c + d + rest) % n
        lemma_add_mod_noop_right(rest, p.cursor + key_delta(k), n);
        lemma_small_mod(run_picker(p1, keys.skip(1)).cursor as nat, p.n as nat);
        assert(net_displacement(keys) == key_delta(k) + rest);
    }
}

/// What the session hands to the Selection Pipeline once the picker has
/// stopped: the candidate under the cursor if the run committed, nothing if
/// it was cancelled.
pub open spec fn spec_selection(candidates: Seq<Seq<char>>, p: Picker) -> Option<Seq<char>> {
    if p.status is Committed {
        Some(candidates[p.cursor as int])
    } else {
        None
    }
}

/// Reads the selection out of a terminated picker: the committed candidate,
/// or nothing when the run was cancelled. Only a `Some` result may reach the
/// Selection Pipeline.
pub fn selection_of(candidates: &Vec<String>, p: &Picker) -> (r: Option<String>)
    requires
        p.wf(),
        p.n == candidates.len(),
        !(p.status is Running),
    ensures
        r matches Some(s) ==> spec_selection(candidates.deep_view(), *p) == Some(s@),
        r is Some <==> p.status is Committed,
        p.status is Cancelled ==> r is None,
        p.status is Committed ==> (r matches Some(s) && s@ == candidates[p.cursor as int]@),
{
    match p.status {
        PickerStatus::Committed => Some(candidates[p.cursor].clone()),
        _ => None,
    }
}

/// Appending one key to a run: if the run still stands in `Running`, the new
/// key takes one more step; otherwise it is never read.
pub proof fn lemma_run_push(p: Picker, keys: Seq<i32>, k: i32)
    ensures
        run_picker(p, keys.push(k)) == (if run_picker(p, keys).status is Running {
            spec_step(run_picker(p, keys), action_of_key(k))
        } else {
            run_picker(p, keys)
        }),
    decreases keys.len(),
{
    if !(p.status is Running) {
    } else if keys.len() == 0 {
        let q = spec_step(p, action_of_key(k));
        assert(keys.push(k)[0] == k);
        assert(keys.push(k).skip(1) =~= Seq::<i32>::empty());
        assert(run_picker(p, keys.push(k)) == run_picker(q, Seq::<i32>::empty()));
        assert(run_picker(q, Seq::<i32>::empty()) == q);
    } else {
        let q = spec_step(p, action_of_key(keys[0]));
        assert(keys.push(k)[0] == keys[0]);
        assert(keys.push(k).skip(1) =~= keys.skip(1).push(k));
        assert(run_picker(p, keys.push(k)) == run_picker(q, keys.skip(1).push(k)));
        assert(run_picker(p, keys) == run_picker(q, keys.skip(1)));
        lemma_run_push(q, keys.skip(1), k);
    }
}

/// Quitting never invokes the Selection Pipeline: after any sequence of
/// navigation keys, at whatever cursor position that reaches, a quit key ends
/// the run `Cancelled` and the selection is nothing.
pub proof fn lemma_quit_selects_nothing(
    candidates: Seq<Seq<char>>,
    p: Picker,
    keys: Seq<i32>,
    quit_key: i32,
)
    requires
        p.wf(),
        p.status is Running,
        forall|i: int| 0 <= i < keys.len() ==> is_nav_key(#[trigger] keys[i]),
        action_of_key(quit_key) is Quit,
    ensures
        run_picker(p, keys.push(quit_key)).status is Cancelled,
        spec_selection(candidates, run_picker(p, keys.push(quit_key))) is None,
{
    lemma_cursor_net_displacement(p, keys);
    lemma_run_push(p, keys, quit_key);
}

/// Committing invokes the pipeline with exactly the candidate under the
/// cursor: after any sequence of navigation keys, a commit key ends the run
/// `Committed` at the position the navigation reached, and the selection is
/// exactly `candidates[that position]`.
pub proof fn lemma_commit_selects_cursor(
    candidates: Seq<Seq<char>>,
    p: Picker,
    keys: Seq<i32>,
    commit_key: i32,
)
    requires
        p.wf(),
        p.status is Running,
        forall|i: int| 0 <= i < keys.len() ==> is_nav_key(#[trigger] keys[i]),
        action_of_key(commit_key) is Commit,
    ensures
        ({
            let pos = (p.cursor + net_displacement(keys)) % (p.n as int);
            let q = run_picker(p, keys.push(commit_key));
            &&& q.status is Committed
            &&& q.cursor == pos
            &&& spec_selection(candidates, q) == Some(candidates[pos])
        }),
{
    lemma_cursor_net_displacement(p, keys);
    lemma_run_push(p, keys, commit_key);
}

/// The 3-character cursor marker drawn at the left edge of row `row`: the
/// arrow when the cursor stands on that row, blank otherwise. Exactly one
/// row carries the arrow.
pub fn marker_for_row(row: usize, cursor: usize) -> (r: &'static str)
    ensures
        row == cursor ==> r@ == "==>"@,
        row != cursor ==> r@ == "   "@,
{
    if row == cursor {
        "==>"
    } else {
        "   "
    }
}

} // verus!
