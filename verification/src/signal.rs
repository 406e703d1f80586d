//! Stop-signal broadcaster and listener state machine.
//!
//! A broadcaster hands out one listener per task and supports a two-phase
//! shutdown protocol: firing the signal asks every task holding a listener to
//! stop, and discarding a listener confirms that its task has fully exited.
//! The broadcaster itself counts as resolved exactly when no live listener
//! remains.
//!
//! This module verifies the protocol state: the fired flag and the
//! live-listener counter, and every transition on them. A driving layer
//! implements the corresponding awaitables (a listener resolving on fire, the
//! broadcaster resolving on an empty counter) by polling these decisions and
//! handling wake-ups.
//!
//! The fired flag is sticky logical state: here a listener polled after the
//! fire sees the signal, whenever it was minted. Guaranteed delivery by the
//! runtime primitive, though, holds only for listeners minted before the
//! fire; minting one after it is a race the primitive does not resolve.

use vstd::prelude::*;

verus! {

/// Abstract state of one stop broadcaster: whether the one-time stop signal
/// has been fired, and how many issued listeners have not yet been discarded.
pub ghost struct SignalState {
    pub fired: bool,
    pub live: nat,
}

/// The broadcaster is resolved ("everything that ever held a listener has
/// fully exited") exactly when no listener is live.
pub open spec fn resolved(s: SignalState) -> bool {
    s.live == 0
}

/// State of a freshly created broadcaster.
pub open spec fn initial_signal() -> SignalState {
    SignalState { fired: false, live: 0 }
}

/// Effect of minting one listener.
pub open spec fn minted(s: SignalState) -> SignalState {
    SignalState { fired: s.fired, live: s.live + 1 }
}

/// Effect of firing the stop signal.
pub open spec fn emitted(s: SignalState) -> SignalState {
    SignalState { fired: true, live: s.live }
}

/// Effect of discarding one live listener.
pub open spec fn dropped(s: SignalState) -> SignalState
    recommends
        s.live > 0,
{
    SignalState { fired: s.fired, live: (s.live - 1) as nat }
}

/// Effect of discarding `n` live listeners, one after the other.
pub open spec fn dropped_n(s: SignalState, n: nat) -> SignalState
    recommends
        n <= s.live,
    decreases n,
{
    if n == 0 {
        s
    } else {
        dropped_n(dropped(s), (n - 1) as nat)
    }
}

/// Broadcaster of a one-time stop signal to a set of per-task listeners.
pub struct StopBroadcaster {
    fired: bool,
    live: u32,
}

/// A task's handle to its group's stop signal. The owning task learns that a
/// stop was requested by polling it against its broadcaster, and confirms
/// its own exit by handing it back to the broadcaster.
///
/// Only a broadcaster can mint one, so every listener stands for one unit of
/// its broadcaster's live count.
pub struct StopListener {
    _mint: (),
}

impl View for StopBroadcaster {
    type V = SignalState;

    closed spec fn view(&self) -> SignalState {
        SignalState { fired: self.fired, live: self.live as nat }
    }
}

impl StopBroadcaster {
    /// A fresh broadcaster: signal not fired, no listeners issued.
    pub fn new() -> (s: Self)
        ensures
            s@ == initial_signal(),
    {
        StopBroadcaster { fired: false, live: 0 }
    }

    /// Mint one listener, registering it as live.
    pub fn listener(&mut self) -> (l: StopListener)
        requires
            old(self)@.live < u32::MAX,
        ensures
            final(self)@ == minted(old(self)@),
    {
        self.live = self.live + 1;
        StopListener { _mint: () }
    }

    /// Fire the stop signal: a one-time logical event that every listener
    /// minted before the fire observes.
    pub fn emit(&mut self)
        ensures
            final(self)@ == emitted(old(self)@),
    {
        self.fired = true;
    }

    /// Number of live listeners.
    pub fn len(&self) -> (n: u32)
        ensures
            n == self@.live,
    {
        self.live
    }

    /// The broadcaster's own awaitable condition: every task that ever held
    /// one of its listeners has fully exited.
    pub fn is_resolved(&self) -> (r: bool)
        ensures
            r == resolved(self@),
    {
        self.live == 0
    }

    /// The listener's awaitable condition: the stop signal has been fired,
    /// so the owning task should shut itself down.
    pub fn poll_listener(&self, _l: &StopListener) -> (r: bool)
        ensures
            r == self@.fired,
    {
        self.fired
    }

    /// Take back a listener: the owning task has fully exited, so the live
    /// count goes down by one. A live listener exists, so the count is
    /// positive.
    pub fn drop_listener(&mut self, _listener: StopListener)
        requires
            old(self)@.live > 0,
        ensures
            final(self)@ == dropped(old(self)@),
    {
        self.live = self.live - 1;
    }
}

/// Discarding listeners never revokes a fired signal and lowers the live
/// count by exactly the number discarded.
pub proof fn lemma_dropped_n(s: SignalState, n: nat)
    requires
        n <= s.live,
    ensures
        dropped_n(s, n).fired == s.fired,
        dropped_n(s, n).live == s.live - n,
    decreases n,
{
    if n > 0 {
        lemma_dropped_n(dropped(s), (n - 1) as nat);
    }
}

/// The stop protocol resolves exactly when every listener is gone: with `n`
/// live listeners, firing the signal and then discarding `d` of them leaves
/// the broadcaster resolved if and only if `d == n`; in particular a
/// broadcaster whose listeners were all discarded is resolved, one with any
/// listener still live is not, and a fresh broadcaster with no listeners and
/// no fire is resolved immediately.
pub proof fn lemma_stop_protocol(s: SignalState, d: nat)
    requires
        d <= s.live,
    ensures
        resolved(dropped_n(emitted(s), d)) <==> d == s.live,
        resolved(initial_signal()),
{
    lemma_dropped_n(emitted(s), d);
}

} // verus!
