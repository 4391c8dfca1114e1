//! Keeping the index live as files change: the decisions of the watcher.
//! A rebuild that fails (a file caught mid-save) is skipped and the previous
//! index kept; filesystem events that only touch opaque directories do not
//! trigger a rebuild.

use vstd::prelude::*;

use crate::walk::{is_opaque, is_opaque_name};
use crate::{error_message, Result};

verus! {

/// Outcome of a tolerant rebuild.
#[derive(Debug, PartialEq, Eq)]
pub enum RebuildOutcome {
    /// Index rebuilt; holds the card count.
    Updated(usize),
    /// Rebuild skipped after a transient error; the prior index is intact.
    Skipped(String),
}

/// The outcome of a rebuild attempt: its card count, or the message of its
/// error.
pub fn rebuild_outcome(result: Result<usize>) -> (o: RebuildOutcome)
    ensures
        match result {
            Ok(n) => o == RebuildOutcome::Updated(n),
            Err(e) => o matches RebuildOutcome::Skipped(m) && m@ == error_message(e),
        },
{
    match result {
        Ok(n) => RebuildOutcome::Updated(n),
        Err(e) => RebuildOutcome::Skipped(e.message()),
    }
}

/// Whether a path (given by its components) lies outside every opaque directory.
pub open spec fn path_outside_opaque(components: Seq<String>) -> bool {
    forall|j: int| 0 <= j < components.len() ==> !is_opaque_name(#[trigger] components[j]@)
}

/// Whether a watcher event matters: an error always does (it triggers a
/// harmless rebuild rather than being dropped); otherwise some touched path
/// must lie outside every opaque directory.
pub open spec fn event_relevant(is_error: bool, paths: Seq<Vec<String>>) -> bool {
    is_error || exists|i: int| 0 <= i < paths.len() && path_outside_opaque((#[trigger] paths[i])@)
}

fn outside_opaque(components: &Vec<String>) -> (r: bool)
    ensures
        r == path_outside_opaque(components@),
{
    let mut j: usize = 0;
    while j < components.len()
        invariant
            j <= components.len(),
            forall|k: int| 0 <= k < j ==> !is_opaque_name(#[trigger] components@[k]@),
        decreases components.len() - j,
    {
        if is_opaque(components[j].as_str()) {
            return false;
        }
        j = j + 1;
    }
    true
}

/// Whether a watcher event (an error, or the component lists of the paths it
/// touched) should trigger a rebuild.
pub fn event_is_relevant(is_error: bool, paths: &Vec<Vec<String>>) -> (r: bool)
    ensures
        r == event_relevant(is_error, paths@),
{
    if is_error {
        return true;
    }
    let mut i: usize = 0;
    while i < paths.len()
        invariant
            i <= paths.len(),
            forall|k: int| 0 <= k < i ==> !path_outside_opaque((#[trigger] paths@[k])@),
        decreases paths.len() - i,
    {
        if outside_opaque(&paths[i]) {
            return true;
        }
        i = i + 1;
    }
    false
}

/// Where the watch loop is: waiting for the next event (checking the stop
/// flag between polls), or letting a burst of events settle before a rebuild.
#[derive(Debug, Clone, Copy, PartialEq, Eq, Structural)]
pub enum WatchPhase {
    Idle,
    Settling,
}

/// What the last wait on the event channel produced.
#[derive(Debug, Clone, Copy, PartialEq, Eq, Structural)]
pub enum WatchInput {
    /// An event arrived; whether it is relevant (see [`event_is_relevant`]).
    Event { relevant: bool },
    /// The wait timed out with no event.
    TimedOut,
    /// The channel closed: no event will come again.
    Disconnected,
    /// The stop flag was found set (it is read before each poll).
    StopRequested,
}

/// What the watch loop does next.
#[derive(Debug, Clone, Copy, PartialEq, Eq, Structural)]
pub enum WatchAction {
    /// Read the stop flag; if it is set, report `StopRequested`, else wait
    /// for an event up to the poll interval.
    Poll,
    /// Wait for a further event up to the debounce interval.
    Drain,
    /// Rebuild the index (tolerating failure), then poll.
    Rebuild,
    /// Leave the loop.
    Exit,
}

/// The watch loop's transition: from the phase and what the last wait
/// produced, the next phase and action.
pub open spec fn watch_transition(phase: WatchPhase, input: WatchInput) -> (WatchPhase, WatchAction) {
    match phase {
        WatchPhase::Idle => match input {
            WatchInput::Event { relevant } => if relevant {
                (WatchPhase::Settling, WatchAction::Drain)
            } else {
                (WatchPhase::Idle, WatchAction::Poll)
            },
            WatchInput::TimedOut => (WatchPhase::Idle, WatchAction::Poll),
            WatchInput::Disconnected => (WatchPhase::Idle, WatchAction::Exit),
            WatchInput::StopRequested => (WatchPhase::Idle, WatchAction::Exit),
        },
        WatchPhase::Settling => match input {
            WatchInput::Event { .. } => (WatchPhase::Settling, WatchAction::Drain),
            _ => (WatchPhase::Idle, WatchAction::Rebuild),
        },
    }
}

/// One step of the watch loop: an irrelevant event or a timeout while idle
/// keeps polling; a relevant event starts a burst, which is drained until a
/// wait ends without an event, and then the index is rebuilt; a closed
/// channel or a stop request while idle ends the loop.
pub fn watch_step(phase: WatchPhase, input: WatchInput) -> (next: (WatchPhase, WatchAction))
    ensures
        next == watch_transition(phase, input),
{
    match phase {
        WatchPhase::Idle => match input {
            WatchInput::Event { relevant } => if relevant {
                (WatchPhase::Settling, WatchAction::Drain)
            } else {
                (WatchPhase::Idle, WatchAction::Poll)
            },
            WatchInput::TimedOut => (WatchPhase::Idle, WatchAction::Poll),
            WatchInput::Disconnected => (WatchPhase::Idle, WatchAction::Exit),
            WatchInput::StopRequested => (WatchPhase::Idle, WatchAction::Exit),
        },
        WatchPhase::Settling => match input {
            WatchInput::Event { .. } => (WatchPhase::Settling, WatchAction::Drain),
            _ => (WatchPhase::Idle, WatchAction::Rebuild),
        },
    }
}

/// The phases and actions of a run of the watch loop from `phase` over the
/// inputs `inputs`.
pub open spec fn watch_run(phase: WatchPhase, inputs: Seq<WatchInput>) -> Seq<(WatchPhase, WatchAction)>
    decreases inputs.len(),
{
    if inputs.len() == 0 {
        Seq::empty()
    } else {
        let step = watch_transition(phase, inputs[0]);
        seq![step] + watch_run(step.0, inputs.drop_first())
    }
}

/// A rebuild happens only at the end of a burst: the step that rebuilds
/// comes from the settling phase on a wait that produced no event, and the
/// settling phase is entered only by a relevant event. Irrelevant events
/// never leave the idle phase; a stop request while idle ends the loop,
/// and only it or a closed channel does.
pub proof fn lemma_rebuild_only_after_relevant_burst(phase: WatchPhase, input: WatchInput)
    ensures
        watch_transition(phase, input).1 == WatchAction::Rebuild ==> phase == WatchPhase::Settling
            && !(input is Event),
        (phase == WatchPhase::Idle && watch_transition(phase, input).0 == WatchPhase::Settling)
            ==> input == (WatchInput::Event { relevant: true }),
        input == (WatchInput::Event { relevant: false }) && phase == WatchPhase::Idle
            ==> watch_transition(phase, input) == (WatchPhase::Idle, WatchAction::Poll),
        watch_transition(phase, input).1 == WatchAction::Exit ==> phase == WatchPhase::Idle && (input
            == WatchInput::Disconnected || input == WatchInput::StopRequested),
        phase == WatchPhase::Idle && input == WatchInput::StopRequested ==> watch_transition(phase, input)
            == (WatchPhase::Idle, WatchAction::Exit),
{
}

/// Over any run from the idle phase in which no event is relevant, the loop
/// never rebuilds and stays idle.
pub proof fn lemma_irrelevant_run_never_rebuilds(inputs: Seq<WatchInput>)
    requires
        forall|i: int| 0 <= i < inputs.len() ==> !(#[trigger] inputs[i] == (WatchInput::Event { relevant: true })),
    ensures
        forall|i: int| 0 <= i < inputs.len() ==> (#[trigger] watch_run(WatchPhase::Idle, inputs)[i]).0
            == WatchPhase::Idle && watch_run(WatchPhase::Idle, inputs)[i].1 != WatchAction::Rebuild,
        watch_run(WatchPhase::Idle, inputs).len() == inputs.len(),
    decreases inputs.len(),
{
    if inputs.len() > 0 {
        let rest = inputs.drop_first();
        assert forall|i: int| 0 <= i < rest.len() implies !(#[trigger] rest[i] == (WatchInput::Event { relevant: true })) by {
            assert(rest[i] == inputs[i + 1]);
        }
        lemma_irrelevant_run_never_rebuilds(rest);
        let r = watch_run(WatchPhase::Idle, inputs);
        assert(inputs[0] != (WatchInput::Event { relevant: true }));
        assert forall|i: int| 0 <= i < inputs.len() implies (#[trigger] r[i]).0 == WatchPhase::Idle
            && r[i].1 != WatchAction::Rebuild by {
            if i > 0 {
                assert(r[i] == watch_run(WatchPhase::Idle, rest)[i - 1]);
            }
        }
    }
}

} // verus!

verus! {

/// A path lies outside every opaque directory exactly when none of its
/// components names one.
pub proof fn lemma_path_outside_opaque(c: Seq<String>)
    ensures
        path_outside_opaque(c) <==> forall|j: int| 0 <= j < c.len() ==> !is_opaque_name(#[trigger] c[j]@),
{
}

/// Which watcher events trigger a rebuild: every error does; an event
/// with some touched path outside every opaque directory does; an event all
/// of whose paths lie inside an opaque directory (churn in `.git`, `.beads`
/// and the like) does not.
pub proof fn lemma_event_relevance(is_error: bool, paths: Seq<Vec<String>>)
    ensures
        is_error ==> event_relevant(is_error, paths),
        forall|i: int|
            0 <= i < paths.len() && path_outside_opaque(#[trigger] paths[i]@) ==> event_relevant(
                is_error,
                paths,
            ),
        !is_error && (forall|i: int| 0 <= i < paths.len() ==> !path_outside_opaque(#[trigger] paths[i]@))
            ==> !event_relevant(is_error, paths),
{
}

} // verus!

