//! One client's streaming session, as a machine that is told what happened
//! and answers with what to do next. The machine never waits and never
//! writes: its owner does both and reports back.

use crate::fanout::{listed, polled, released, Broadcaster, Delivery, Inbox};
use vstd::prelude::*;

verus! {

/// Where a session stands.
#[derive(Clone, Copy, Debug, PartialEq, Eq, Structural)]
pub enum Phase {
    /// Events are passed on as they come.
    Streaming,
    /// The server is shutting down: what still waits is passed on, then the session closes.
    Draining,
    /// The session is over and its subscription released.
    Closed,
}

/// What the session's owner reports.
#[derive(Debug, PartialEq, Eq)]
pub enum Input<E> {
    /// The broadcaster handed this over.
    Item(Delivery<E>),
    /// The last write went through.
    Written,
    /// Something was published while the session waited.
    Published,
    /// The last write failed.
    WriteFailed,
    /// The client closed the connection.
    PeerClosed,
    /// The server began to shut down.
    Shutdown,
    /// The grace period of the shutdown is over.
    GraceExpired,
}

/// What the session's owner is to do.
#[derive(Debug, PartialEq, Eq)]
pub enum Action<E> {
    /// Serialise the event and write its frame.
    Write(E),
    /// Tell the client that this many events were dropped.
    WriteGap(u64),
    /// Ask the broadcaster for the next item.
    Poll,
    /// Wait until something is published or the connection ends.
    Wait,
    /// Release the subscription and close the connection.
    Release,
    /// Nothing: the session is over.
    Ignore,
}

/// The session's rule: the phase and the action that follow `input` in `phase`.
///
/// A closed session stays closed. A failed write, a closed connection, a lost
/// subscription and the end of the grace period each close the session at
/// once, with no second attempt. An item is written in either open phase. An
/// empty inbox makes a streaming session wait and ends a draining one.
pub open spec fn transition<E>(phase: Phase, input: Input<E>) -> (Phase, Action<E>) {
    if phase == Phase::Closed {
        (Phase::Closed, Action::Ignore)
    } else {
        match input {
            Input::Item(Delivery::Event(e)) => (phase, Action::Write(e)),
            Input::Item(Delivery::Gap(n)) => (phase, Action::WriteGap(n)),
            Input::Item(Delivery::Empty) => if phase == Phase::Draining {
                (Phase::Closed, Action::Release)
            } else {
                (Phase::Streaming, Action::Wait)
            },
            Input::Item(Delivery::Closed) => (Phase::Closed, Action::Release),
            Input::Written => (phase, Action::Poll),
            Input::Published => (phase, Action::Poll),
            Input::WriteFailed => (Phase::Closed, Action::Release),
            Input::PeerClosed => (Phase::Closed, Action::Release),
            Input::Shutdown => (Phase::Draining, Action::Poll),
            Input::GraceExpired => (Phase::Closed, Action::Release),
        }
    }
}

/// Whether `input` ends a session that is still open, whatever its phase.
pub open spec fn is_fatal<E>(input: Input<E>) -> bool {
    input == Input::<E>::WriteFailed || input == Input::<E>::PeerClosed || input == Input::<
        E,
    >::GraceExpired || input == Input::<E>::Item(Delivery::Closed)
}

/// A session that is over stays over and asks for nothing more.
pub proof fn lemma_closed_is_final<E>(input: Input<E>)
    ensures
        transition(Phase::Closed, input) == (Phase::Closed, Action::<E>::Ignore),
{
}

/// A fault ends the session at once and releases its subscription: no write is tried again.
pub proof fn lemma_fault_closes<E>(phase: Phase, input: Input<E>)
    requires
        phase != Phase::Closed,
        is_fatal(input),
    ensures
        transition(phase, input) == (Phase::Closed, Action::<E>::Release),
{
}

/// The subscription is released exactly once: by the step that closes the session.
pub proof fn lemma_release_once<E>(phase: Phase, input: Input<E>)
    ensures
        (transition(phase, input).1 == Action::<E>::Release) <==> (phase != Phase::Closed
            && transition(phase, input).0 == Phase::Closed),
{
}

/// After a shutdown a session is never streaming again, and the end of the
/// grace period closes it whatever it was doing.
pub proof fn lemma_shutdown_is_bounded<E>(phase: Phase, inputs: Seq<Input<E>>)
    requires
        phase != Phase::Streaming,
    ensures
        run(phase, inputs) != Phase::Streaming,
        transition(run(phase, inputs), Input::<E>::GraceExpired).0 == Phase::Closed,
    decreases inputs.len(),
{
    if inputs.len() > 0 {
        lemma_shutdown_is_bounded(phase, inputs.drop_last());
    }
}

/// The phase reached from `phase` by the inputs of `inputs` in order.
pub open spec fn run<E>(phase: Phase, inputs: Seq<Input<E>>) -> Phase
    decreases inputs.len(),
{
    if inputs.len() == 0 {
        phase
    } else {
        transition(run(phase, inputs.drop_last()), inputs.last()).0
    }
}

/// One report taken against the registry: the session's rule, with a `Poll`
/// answered at once from the inbox of handle `h` and a `Release` carried out
/// on the registry. Gives the phase, the action left for the owner and the
/// registry that follow.
pub open spec fn advanced<E>(phase: Phase, reg: Seq<Inbox<E>>, h: u64, input: Input<E>) -> (
    Phase,
    Action<E>,
    Seq<Inbox<E>>,
) {
    let first = transition(phase, input);
    let asked = polled(reg, h);
    let (p, a, r) = if first.1 == Action::<E>::Poll {
        let second = transition(first.0, Input::Item(asked.0));
        (second.0, second.1, asked.1)
    } else {
        (first.0, first.1, reg)
    };
    if a == Action::<E>::Release {
        (p, a, released(r, h))
    } else {
        (p, a, r)
    }
}

/// The owner is never left with a `Poll`, a `Release` comes with the closed
/// phase, and the registry never grows and is touched only where the session
/// polled or released.
pub proof fn lemma_advanced<E>(phase: Phase, reg: Seq<Inbox<E>>, h: u64, input: Input<E>)
    ensures
        advanced(phase, reg, h, input).1 != Action::<E>::Poll,
        advanced(phase, reg, h, input).1 == Action::<E>::Release ==> advanced(
            phase,
            reg,
            h,
            input,
        ).0 == Phase::Closed,
        advanced(phase, reg, h, input).2.len() <= reg.len(),
        transition(phase, input).1 != Action::<E>::Poll && transition(phase, input).1
            != Action::<E>::Release ==> advanced(phase, reg, h, input).2 == reg,
{
}

/// A streaming session bound to one subscription.
pub struct Session {
    handle: u64,
    phase: Phase,
}

impl Session {
    /// The handle of the session's subscription.
    pub closed spec fn subscription(&self) -> u64 {
        self.handle
    }

    /// Where the session stands.
    pub closed spec fn state(&self) -> Phase {
        self.phase
    }

    /// A session that streams the subscription of `handle`.
    pub fn new(handle: u64) -> (s: Session)
        ensures
            s.subscription() == handle,
            s.state() == Phase::Streaming,
    {
        Session { handle, phase: Phase::Streaming }
    }

    pub fn handle(&self) -> (h: u64)
        ensures
            h == self.subscription(),
    {
        self.handle
    }

    pub fn phase(&self) -> (p: Phase)
        ensures
            p == self.state(),
    {
        self.phase
    }

    pub fn is_closed(&self) -> (r: bool)
        ensures
            r == (self.state() == Phase::Closed),
    {
        self.phase == Phase::Closed
    }

    /// Takes one report and answers with the next action, as `transition` rules.
    pub fn step<E>(&mut self, input: Input<E>) -> (action: Action<E>)
        ensures
            final(self).subscription() == old(self).subscription(),
            (final(self).state(), action) == transition(old(self).state(), input),
    {
        if self.phase == Phase::Closed {
            return Action::Ignore;
        }
        match input {
            Input::Item(Delivery::Event(e)) => Action::Write(e),
            Input::Item(Delivery::Gap(n)) => Action::WriteGap(n),
            Input::Item(Delivery::Empty) => {
                if self.phase == Phase::Draining {
                    self.phase = Phase::Closed;
                    Action::Release
                } else {
                    Action::Wait
                }
            },
            Input::Written => Action::Poll,
            Input::Published => Action::Poll,
            Input::Shutdown => {
                self.phase = Phase::Draining;
                Action::Poll
            },
            Input::Item(Delivery::Closed)
            | Input::WriteFailed
            | Input::PeerClosed
            | Input::GraceExpired => {
                self.phase = Phase::Closed;
                Action::Release
            },
        }
    }

    /// Takes one report and carries out what needs no waiting: a `Poll` is
    /// answered from the session's inbox at once, and a `Release` ends the
    /// subscription. What is returned is left for the owner to do: a write, a
    /// wait, or closing the connection.
    pub fn advance<E>(&mut self, hub: &mut Broadcaster<E>, input: Input<E>) -> (action: Action<E>)
        requires
            old(hub).wf(),
        ensures
            final(hub).wf(),
            final(hub).depth() == old(hub).depth(),
            final(hub).issued() == old(hub).issued(),
            final(self).subscription() == old(self).subscription(),
            (final(self).state(), action, final(hub).registry()) == advanced(
                old(self).state(),
                old(hub).registry(),
                old(self).subscription(),
                input,
            ),
            action == Action::<E>::Release ==> !listed(
                final(hub).registry(),
                old(self).subscription(),
            ),
    {
        let first = self.step(input);
        let action = match first {
            Action::Poll => {
                let item = hub.recv(self.handle);
                self.step(Input::Item(item))
            },
            other => other,
        };
        match action {
            Action::Release => {
                let _ = hub.unsubscribe(self.handle);
                Action::Release
            },
            other => other,
        }
    }
}

} // verus!
