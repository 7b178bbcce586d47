use std::collections::HashMap;

use vstd::prelude::*;

use crate::events::{latest_map, lemma_no_records_no_panes, EventRecord, LatestEvents};
use crate::tmux::{PaneInfo, WindowInfo};

verus! {

/// Activity of the assistant hosted in one terminal window.
#[derive(Debug, Clone, Copy, PartialEq, Eq, Structural)]
pub enum WindowState {
    /// No hook event has been observed for the window's pane.
    Fresh,
    /// The assistant is producing output.
    Working,
    /// The assistant waits for the user to answer a question.
    Asking,
    /// The assistant finished and waits for the next message.
    Idle,
    /// The assistant exited and a shell prompt occupies the pane.
    Done,
}

/// The classification a state tag stands for; unknown tags are `Fresh`.
pub open spec fn state_of_tag(tag: Seq<char>) -> WindowState {
    if tag == "working"@ {
        WindowState::Working
    } else if tag == "asking"@ {
        WindowState::Asking
    } else if tag == "idle"@ {
        WindowState::Idle
    } else {
        WindowState::Fresh
    }
}

/// Whether two strings hold the same characters.
pub fn same_text(a: &str, b: &str) -> (r: bool)
    ensures
        r == (a@ == b@),
{
    let x = a.to_owned();
    let y = b.to_owned();
    x == y
}

/// Translates an event state tag into a window state.
pub fn state_from_str(s: &str) -> (r: WindowState)
    ensures
        r == state_of_tag(s@),
{
    if same_text(s, "working") {
        WindowState::Working
    } else if same_text(s, "asking") {
        WindowState::Asking
    } else if same_text(s, "idle") {
        WindowState::Idle
    } else {
        WindowState::Fresh
    }
}

/// The last pane that `panes` lists for window `idx`.
pub open spec fn pane_of(panes: Seq<PaneInfo>, idx: u32) -> Option<PaneInfo>
    decreases panes.len(),
{
    if panes.len() == 0 {
        None
    } else if panes.last().window_index == idx {
        Some(panes.last())
    } else {
        pane_of(panes.drop_last(), idx)
    }
}

/// Whether `cmd` names an interactive shell.
pub open spec fn is_shell(cmd: Seq<char>) -> bool {
    cmd == "zsh"@ || cmd == "bash"@ || cmd == "fish"@
}

/// The state of window `idx`. A window whose pane runs a shell is `Done`
/// whatever the events say; a window with no listed pane counts as running
/// a shell. Otherwise the pane's newest event decides, and `Fresh` stands
/// where there is none.
pub open spec fn classify(panes: Seq<PaneInfo>, events: Map<Seq<char>, Seq<char>>, idx: u32) -> WindowState {
    match pane_of(panes, idx) {
        None => WindowState::Done,
        Some(p) => if is_shell(p.command@) {
            WindowState::Done
        } else if events.contains_key(p.pane_id@) {
            state_of_tag(events[p.pane_id@])
        } else {
            WindowState::Fresh
        },
    }
}

/// Without event records the reduced map is empty, and every window whose
/// pane runs something other than a shell is `Fresh`.
pub proof fn lemma_no_logs_all_fresh(panes: Seq<PaneInfo>, idx: u32)
    requires
        pane_of(panes, idx) matches Some(p) && !is_shell(p.command@),
    ensures
        latest_map(Seq::<EventRecord>::empty()) == Map::<Seq<char>, Seq<char>>::empty(),
        classify(panes, latest_map(Seq::<EventRecord>::empty()), idx) == WindowState::Fresh,
{
    lemma_no_records_no_panes();
}

/// A window whose pane runs a shell is `Done`, whatever the events say of
/// its pane.
pub proof fn lemma_shell_wins(panes: Seq<PaneInfo>, events: Map<Seq<char>, Seq<char>>, idx: u32)
    requires
        pane_of(panes, idx) matches Some(p) && is_shell(p.command@),
    ensures
        classify(panes, events, idx) == WindowState::Done,
{
}

/// Whether `cmd` is one of the recognised shells.
pub fn is_shell_command(cmd: &str) -> (r: bool)
    ensures
        r == is_shell(cmd@),
{
    same_text(cmd, "zsh") || same_text(cmd, "bash") || same_text(cmd, "fish")
}

/// Index in `panes` of the last pane listed for window `idx`.
fn find_pane(panes: &Vec<PaneInfo>, idx: u32) -> (r: Option<usize>)
    ensures
        match r {
            Some(x) => x < panes@.len() && pane_of(panes@, idx) == Some(panes@[x as int]),
            None => pane_of(panes@, idx) is None,
        },
{
    let mut k: usize = panes.len();
    proof {
        assert(panes@.take(k as int) =~= panes@);
    }
    while k > 0
        invariant
            k <= panes@.len(),
            pane_of(panes@, idx) == pane_of(panes@.take(k as int), idx),
        decreases k,
    {
        let ghost t = panes@.take(k as int);
        proof {
            assert(t.drop_last() =~= panes@.take(k - 1));
        }
        if panes[k - 1].window_index == idx {
            return Some(k - 1);
        }
        k = k - 1;
    }
    None
}

/// Classifies the assistant windows of a session.
pub struct StateDetector;

impl StateDetector {
    pub fn new() -> (r: StateDetector) {
        StateDetector
    }

    /// The state of each window in `windows`, keyed by window index, from the
    /// session's pane snapshot and the reduced event map.
    pub fn detect(&mut self, windows: &Vec<WindowInfo>, panes: &Vec<PaneInfo>, events: &LatestEvents) -> (r: HashMap<u32, WindowState>)
        ensures
            *final(self) == *old(self),
            forall|k: u32| #[trigger] r@.contains_key(k) <==> exists|w: int| 0 <= w < windows@.len() && windows@[w].index == k,
            forall|k: u32| #[trigger] r@.contains_key(k) ==> r@[k] == classify(panes@, events@, k),
    {
        broadcast use vstd::std_specs::hash::group_hash_axioms;
        let mut states: HashMap<u32, WindowState> = HashMap::new();
        let mut w: usize = 0;
        while w < windows.len()
            invariant
                w <= windows@.len(),
                forall|k: u32| #[trigger] states@.contains_key(k) <==> exists|v: int| 0 <= v < w && windows@[v].index == k,
                forall|k: u32| #[trigger] states@.contains_key(k) ==> states@[k] == classify(panes@, events@, k),
            decreases windows@.len() - w,
        {
            let idx = windows[w].index;
            let state = match find_pane(panes, idx) {
                None => WindowState::Done,
                Some(x) => {
                    let pane = &panes[x];
                    if is_shell_command(pane.command.as_str()) {
                        WindowState::Done
                    } else {
                        match events.get(pane.pane_id.as_str()) {
                            Some(tag) => state_from_str(tag.as_str()),
                            None => WindowState::Fresh,
                        }
                    }
                },
            };
            states.insert(idx, state);
            proof {
                assert forall|k: u32| #[trigger] states@.contains_key(k) <==> exists|v: int| 0 <= v < w + 1 && windows@[v].index == k by {
                    if k == idx {
                        assert(windows@[w as int].index == k);
                    }
                }
            }
            w = w + 1;
        }
        states
    }
}

} // verus!
