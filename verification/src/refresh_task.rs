//! The task that refreshes a cache at a fixed interval.

use vstd::prelude::*;

verus! {

/// What the refresh task does next.
#[derive(Clone, Copy, PartialEq, Eq, Structural, Debug)]
pub enum RefreshStep {
    /// Wait for the first tick, which comes at once.
    SkipTick,
    /// Wait for a tick.
    AwaitTick,
    /// Get a connection to the database.
    Connect,
    /// Refresh the cache through the connection.
    Refresh,
}

/// What a step came to.
#[derive(Clone, Copy, PartialEq, Eq, Structural, Debug)]
pub enum StepOutcome {
    Done,
    Failed,
}

impl RefreshStep {
    /// What comes after this step. The task never ends: a failure is reported and the next
    /// tick brings another try.
    pub open spec fn after(self, outcome: StepOutcome) -> RefreshStep {
        match self {
            RefreshStep::SkipTick => RefreshStep::AwaitTick,
            RefreshStep::AwaitTick => RefreshStep::Connect,
            RefreshStep::Connect => if outcome is Done {
                RefreshStep::Refresh
            } else {
                RefreshStep::AwaitTick
            },
            RefreshStep::Refresh => RefreshStep::AwaitTick,
        }
    }

    /// What is reported when the step fails.
    pub open spec fn complaint(self) -> Option<Seq<char>> {
        match self {
            RefreshStep::Connect => Some("Token cache refresh could not get a connection"@),
            RefreshStep::Refresh => Some("Token cache refresh failed"@),
            _ => None,
        }
    }

    /// Where the task starts: the cache was just loaded, so the first tick is skipped.
    pub fn first() -> (step: RefreshStep)
        ensures
            step == RefreshStep::SkipTick,
    {
        RefreshStep::SkipTick
    }

    /// What comes after this step.
    pub fn next(self, outcome: StepOutcome) -> (step: RefreshStep)
        ensures
            step == self.after(outcome),
    {
        match self {
            RefreshStep::SkipTick => RefreshStep::AwaitTick,
            RefreshStep::AwaitTick => RefreshStep::Connect,
            RefreshStep::Connect => match outcome {
                StepOutcome::Done => RefreshStep::Refresh,
                StepOutcome::Failed => RefreshStep::AwaitTick,
            },
            RefreshStep::Refresh => RefreshStep::AwaitTick,
        }
    }

    /// What is reported when the step fails; waiting for a tick does not.
    pub fn failure_message(&self) -> (message: Option<&'static str>)
        ensures
            match message {
                Some(text) => self.complaint() == Some(text@),
                None => self.complaint() is None,
            },
    {
        match self {
            RefreshStep::Connect => Some("Token cache refresh could not get a connection"),
            RefreshStep::Refresh => Some("Token cache refresh failed"),
            _ => None,
        }
    }
}

/// The step at which the task stands once its steps came to `outcomes`.
pub open spec fn step_after(outcomes: Seq<StepOutcome>) -> RefreshStep
    decreases outcomes.len(),
{
    if outcomes.len() == 0 {
        RefreshStep::SkipTick
    } else {
        step_after(outcomes.drop_last()).after(outcomes.last())
    }
}

/// No connection is asked for, and nothing is refreshed, before the second tick.
pub proof fn law_first_tick_is_skipped(outcomes: Seq<StepOutcome>)
    requires
        outcomes.len() < 2,
    ensures
        step_after(outcomes) is SkipTick || step_after(outcomes) is AwaitTick,
{
    reveal_with_fuel(step_after, 3);
}

/// The cache is refreshed only after a tick came and a connection was had.
pub proof fn law_refresh_follows_tick_and_connection(outcomes: Seq<StepOutcome>)
    ensures
        step_after(outcomes) is Refresh ==> {
            let n = outcomes.len() as int;
            &&& n >= 2
            &&& outcomes[n - 1] is Done
            &&& step_after(outcomes.take(n - 1)) is Connect
            &&& step_after(outcomes.take(n - 2)) is AwaitTick
        },
    decreases outcomes.len(),
{
    let n = outcomes.len() as int;
    if n >= 1 {
        assert(outcomes.take(n - 1) =~= outcomes.drop_last());
    }
    if n >= 2 {
        assert(outcomes.take(n - 2) =~= outcomes.drop_last().drop_last());
    }
    reveal_with_fuel(step_after, 3);
}

/// After a failed try the task waits, and the next tick brings another try.
pub proof fn law_failure_is_retried_at_the_next_tick(step: RefreshStep, tick: StepOutcome)
    requires
        step is Connect || step is Refresh,
    ensures
        step.after(StepOutcome::Failed) is AwaitTick,
        step.after(StepOutcome::Failed).after(tick) is Connect,
{
}

/// A round of the task: the tick that is waited for is followed by a try to connect, a connection
/// by a refresh, and a refresh, whatever it came to, by waiting again. The tick that is skipped is
/// followed by waiting for the next one. A failure to connect or to refresh is reported, and each
/// in its own words.
pub proof fn law_a_round(outcome: StepOutcome)
    ensures
        RefreshStep::SkipTick.after(outcome) == RefreshStep::AwaitTick,
        RefreshStep::AwaitTick.after(outcome) == RefreshStep::Connect,
        RefreshStep::Connect.after(StepOutcome::Done) == RefreshStep::Refresh,
        RefreshStep::Connect.after(StepOutcome::Failed) == RefreshStep::AwaitTick,
        RefreshStep::Refresh.after(outcome) == RefreshStep::AwaitTick,
        RefreshStep::Connect.complaint() == Some("Token cache refresh could not get a connection"@),
        RefreshStep::Refresh.complaint() == Some("Token cache refresh failed"@),
        RefreshStep::SkipTick.complaint() is None,
        RefreshStep::AwaitTick.complaint() is None,
{
}

/// As long as nothing fails, the steps come in turn: a tick is waited for, a connection is had,
/// the cache is refreshed.
pub proof fn law_every_tick_but_the_first_brings_a_refresh(outcomes: Seq<StepOutcome>)
    requires
        forall|i: int| #![trigger outcomes[i]] 0 <= i < outcomes.len() ==> outcomes[i] is Done,
    ensures
        outcomes.len() == 0 ==> step_after(outcomes) is SkipTick,
        outcomes.len() > 0 && outcomes.len() % 3 == 1 ==> step_after(outcomes) is AwaitTick,
        outcomes.len() > 0 && outcomes.len() % 3 == 2 ==> step_after(outcomes) is Connect,
        outcomes.len() > 0 && outcomes.len() % 3 == 0 ==> step_after(outcomes) is Refresh,
    decreases outcomes.len(),
{
    if outcomes.len() > 0 {
        let fewer = outcomes.drop_last();
        assert forall|i: int| #![trigger fewer[i]] 0 <= i < fewer.len() implies fewer[i] is Done by {
            assert(fewer[i] == outcomes[i]);
        }
        law_every_tick_but_the_first_brings_a_refresh(fewer);
        assert(outcomes[outcomes.len() - 1] is Done);
    }
}

} // verus!
