use vstd::prelude::*;

verus! {

/// How the process leaves: at once, or after draining and handing its
/// listeners on.
#[derive(Clone, Copy, Debug, PartialEq, Eq, Structural)]
pub enum ShutdownType {
    Immediate,
    Graceful,
}

/// The termination signals the coordinator acts on.
#[derive(Clone, Copy, Debug, PartialEq, Eq, Structural)]
pub enum SignalKind {
    Interrupt,
    Terminate,
    Quit,
}

#[derive(Clone, Copy, Debug, PartialEq, Eq, Structural)]
pub enum ShutdownState {
    Running,
    Draining,
    HandingOff,
    Terminated,
}

/// What the surrounding runtime reports to the coordinator.
#[derive(Clone, Copy, Debug, PartialEq, Eq, Structural)]
pub enum ShutdownEvent {
    Signal(SignalKind),
    /// The drain interval has passed.
    DrainElapsed,
    /// The handoff send has ended, whether it succeeded or not.
    HandoffFinished,
}

/// What the coordinator asks the runtime to do next.
#[derive(Clone, Copy, Debug, PartialEq, Eq, Structural)]
pub enum ShutdownAction {
    Nothing,
    /// Wait this many seconds, then report `DrainElapsed`.
    StartDrain(u64),
    /// Send the listener registry to the next generation, then report
    /// `HandoffFinished`.
    SendHandoff,
    /// End the process with this status.
    Exit(i32),
}

/// Seconds that a graceful shutdown waits before handing off.
pub const DRAIN_SECONDS: u64 = 5;

pub open spec fn shutdown_type_of(k: SignalKind) -> ShutdownType {
    match k {
        SignalKind::Interrupt => ShutdownType::Immediate,
        SignalKind::Terminate => ShutdownType::Graceful,
        SignalKind::Quit => ShutdownType::Graceful,
    }
}

/// Interrupt asks for an immediate exit; terminate and quit for a graceful
/// one.
pub fn shutdown_type(kind: SignalKind) -> (r: ShutdownType)
    ensures
        r == shutdown_type_of(kind),
{
    match kind {
        SignalKind::Interrupt => ShutdownType::Immediate,
        SignalKind::Terminate => ShutdownType::Graceful,
        SignalKind::Quit => ShutdownType::Graceful,
    }
}

/// One transition: the next state and the action to perform. The first
/// signal decides; later ones are ignored.
pub open spec fn step_spec(s: ShutdownState, supported: bool, ev: ShutdownEvent) -> (ShutdownState, ShutdownAction) {
    match (s, ev) {
        (ShutdownState::Running, ShutdownEvent::Signal(k)) => match shutdown_type_of(k) {
            ShutdownType::Immediate => (ShutdownState::Terminated, ShutdownAction::Exit(0)),
            ShutdownType::Graceful => (ShutdownState::Draining, ShutdownAction::StartDrain(DRAIN_SECONDS)),
        },
        (ShutdownState::Draining, ShutdownEvent::DrainElapsed) => if supported {
            (ShutdownState::HandingOff, ShutdownAction::SendHandoff)
        } else {
            (ShutdownState::Terminated, ShutdownAction::Exit(0))
        },
        (ShutdownState::HandingOff, ShutdownEvent::HandoffFinished) => (
            ShutdownState::Terminated,
            ShutdownAction::Exit(0),
        ),
        _ => (s, ShutdownAction::Nothing),
    }
}

/// The actions produced by feeding `events` in order from state `s`.
pub open spec fn run(s: ShutdownState, supported: bool, events: Seq<ShutdownEvent>) -> Seq<ShutdownAction>
    decreases events.len(),
{
    if events.len() == 0 {
        Seq::empty()
    } else {
        let (next, a) = step_spec(s, supported, events[0]);
        seq![a] + run(next, supported, events.drop_first())
    }
}

/// Decides, from the signals and timers that the runtime reports, when to
/// drain, when to hand the listeners off and when to exit.
pub struct ShutdownCoordinator {
    pub state: ShutdownState,
    /// Whether this platform can pass listening sockets to another process.
    pub handoff_supported: bool,
}

impl ShutdownCoordinator {
    pub fn new(handoff_supported: bool) -> (r: Self)
        ensures
            r.state == ShutdownState::Running,
            r.handoff_supported == handoff_supported,
    {
        ShutdownCoordinator { state: ShutdownState::Running, handoff_supported }
    }

    /// Takes one event and returns the action it calls for.
    pub fn step(&mut self, ev: ShutdownEvent) -> (a: ShutdownAction)
        ensures
            (final(self).state, a) == step_spec(old(self).state, old(self).handoff_supported, ev),
            final(self).handoff_supported == old(self).handoff_supported,
    {
        let (next, a) = match (self.state, ev) {
            (ShutdownState::Running, ShutdownEvent::Signal(k)) => match shutdown_type(k) {
                ShutdownType::Immediate => (ShutdownState::Terminated, ShutdownAction::Exit(0)),
                ShutdownType::Graceful => (ShutdownState::Draining, ShutdownAction::StartDrain(DRAIN_SECONDS)),
            },
            (ShutdownState::Draining, ShutdownEvent::DrainElapsed) => if self.handoff_supported {
                (ShutdownState::HandingOff, ShutdownAction::SendHandoff)
            } else {
                (ShutdownState::Terminated, ShutdownAction::Exit(0))
            },
            (ShutdownState::HandingOff, ShutdownEvent::HandoffFinished) => (
                ShutdownState::Terminated,
                ShutdownAction::Exit(0),
            ),
            (s, _) => (s, ShutdownAction::Nothing),
        };
        self.state = next;
        a
    }
}

proof fn lemma_terminated_is_quiet(supported: bool, events: Seq<ShutdownEvent>)
    ensures
        run(ShutdownState::Terminated, supported, events).len() == events.len(),
        forall|i: int| 0 <= i < events.len() ==> #[trigger] run(ShutdownState::Terminated, supported, events)[i]
            == ShutdownAction::Nothing,
    decreases events.len(),
{
    if events.len() > 0 {
        lemma_terminated_is_quiet(supported, events.drop_first());
        let r = run(ShutdownState::Terminated, supported, events);
        assert forall|i: int| 0 <= i < events.len() implies #[trigger] r[i] == ShutdownAction::Nothing by {
            if i > 0 {
                assert(r[i] == run(ShutdownState::Terminated, supported, events.drop_first())[i - 1]);
            }
        }
    }
}

/// After an interrupt the process exits at once with status 0, and nothing
/// that follows starts a drain or a handoff.
pub proof fn lemma_interrupt_exits_at_once(supported: bool, events: Seq<ShutdownEvent>)
    requires
        events.len() > 0,
        events[0] == ShutdownEvent::Signal(SignalKind::Interrupt),
    ensures
        run(ShutdownState::Running, supported, events).len() == events.len(),
        run(ShutdownState::Running, supported, events)[0] == ShutdownAction::Exit(0),
        forall|i: int| 1 <= i < events.len() ==> #[trigger] run(ShutdownState::Running, supported, events)[i]
            == ShutdownAction::Nothing,
{
    let rest = events.drop_first();
    lemma_terminated_is_quiet(supported, rest);
    let r = run(ShutdownState::Running, supported, events);
    assert forall|i: int| 1 <= i < events.len() implies #[trigger] r[i] == ShutdownAction::Nothing by {
        assert(r[i] == run(ShutdownState::Terminated, supported, rest)[i - 1]);
    }
}

proof fn lemma_draining_waits(supported: bool, events: Seq<ShutdownEvent>)
    ensures
        run(ShutdownState::Draining, supported, events).len() == events.len(),
        forall|i: int| 0 <= i < events.len() && (#[trigger] run(ShutdownState::Draining, supported, events)[i]) is Exit
            ==> exists|j: int| 0 <= j <= i && events[j] == ShutdownEvent::DrainElapsed,
    decreases events.len(),
{
    if events.len() > 0 {
        let rest = events.drop_first();
        let r = run(ShutdownState::Draining, supported, events);
        let (next, a) = step_spec(ShutdownState::Draining, supported, events[0]);
        if events[0] == ShutdownEvent::DrainElapsed {
            assert(run(next, supported, rest).len() == rest.len()) by {
                lemma_run_len(next, supported, rest);
            }
            assert forall|i: int| 0 <= i < events.len() && (#[trigger] r[i]) is Exit implies exists|j: int|
                0 <= j <= i && events[j] == ShutdownEvent::DrainElapsed by {
                assert(events[0] == ShutdownEvent::DrainElapsed);
            }
        } else {
            assert(next == ShutdownState::Draining);
            lemma_draining_waits(supported, rest);
            assert forall|i: int| 0 <= i < events.len() && (#[trigger] r[i]) is Exit implies exists|j: int|
                0 <= j <= i && events[j] == ShutdownEvent::DrainElapsed by {
                if i > 0 {
                    assert(r[i] == run(ShutdownState::Draining, supported, rest)[i - 1]);
                    let j = choose|j: int| 0 <= j <= i - 1 && rest[j] == ShutdownEvent::DrainElapsed;
                    assert(events[j + 1] == rest[j]);
                }
            }
        }
    }
}

proof fn lemma_run_len(s: ShutdownState, supported: bool, events: Seq<ShutdownEvent>)
    ensures
        run(s, supported, events).len() == events.len(),
    decreases events.len(),
{
    if events.len() > 0 {
        let (next, a) = step_spec(s, supported, events[0]);
        lemma_run_len(next, supported, events.drop_first());
    }
}

/// A terminate or quit signal first starts the drain interval, and no exit
/// comes before the runtime reports that the interval has passed.
pub proof fn lemma_graceful_waits_for_drain(kind: SignalKind, supported: bool, events: Seq<ShutdownEvent>)
    requires
        kind != SignalKind::Interrupt,
        events.len() > 0,
        events[0] == ShutdownEvent::Signal(kind),
    ensures
        run(ShutdownState::Running, supported, events)[0] == ShutdownAction::StartDrain(DRAIN_SECONDS),
        forall|i: int| 0 <= i < events.len() && (#[trigger] run(ShutdownState::Running, supported, events)[i]) is Exit
            ==> exists|j: int| 0 < j <= i && events[j] == ShutdownEvent::DrainElapsed,
{
    let rest = events.drop_first();
    lemma_draining_waits(supported, rest);
    let r = run(ShutdownState::Running, supported, events);
    assert forall|i: int| 0 <= i < events.len() && (#[trigger] r[i]) is Exit implies exists|j: int|
        0 < j <= i && events[j] == ShutdownEvent::DrainElapsed by {
        if i > 0 {
            assert(r[i] == run(ShutdownState::Draining, supported, rest)[i - 1]);
            let j = choose|j: int| 0 <= j <= i - 1 && rest[j] == ShutdownEvent::DrainElapsed;
            assert(events[j + 1] == rest[j]);
        }
    }
}

} // verus!
