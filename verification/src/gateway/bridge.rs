//! The connection to the bridge: what is sent on it, and when it is tried again.
use vstd::arithmetic::power2::{
    lemma2_to64, lemma_pow2_strictly_increases, lemma_pow2_unfold, pow2,
};
use vstd::prelude::*;

verus! {

/// How long the node waits at most before it connects again, in seconds.
pub const MAX_BACKOFF_SECS: u64 = 64;

/// How long to wait before the next attempt.
#[derive(Debug)]
pub struct Backoff {
    timeout: u64,
}

impl View for Backoff {
    type V = nat;

    /// The next wait, in seconds.
    closed spec fn view(&self) -> nat {
        self.timeout as nat
    }
}

/// The wait that follows a wait: twice as long, up to the limit.
pub open spec fn next_wait(wait: nat) -> nat {
    if 2 * wait <= MAX_BACKOFF_SECS {
        2 * wait
    } else {
        MAX_BACKOFF_SECS as nat
    }
}

/// The wait after `n` others.
pub open spec fn nth_wait(n: nat) -> nat
    decreases n,
{
    if n == 0 {
        1
    } else {
        next_wait(nth_wait((n - 1) as nat))
    }
}

impl Backoff {
    #[verifier::type_invariant]
    spec fn inv(self) -> bool {
        self.timeout <= MAX_BACKOFF_SECS
    }

    /// Starts with a wait of one second.
    pub fn new() -> (backoff: Backoff)
        ensures
            backoff@ == 1,
    {
        Backoff { timeout: 1 }
    }

    /// The number of seconds to wait now; the next wait is longer.
    pub fn run(&mut self) -> (wait: u64)
        ensures
            wait == old(self)@,
            final(self)@ == next_wait(old(self)@),
            old(self)@ <= 32 ==> final(self)@ == 2 * old(self)@,
            old(self)@ > 32 ==> final(self)@ == 64,
    {
        proof {
            use_type_invariant(&*self);
        }
        let wait = self.timeout;
        let doubled = wait * 2;
        self.timeout = if doubled > MAX_BACKOFF_SECS {
            MAX_BACKOFF_SECS
        } else {
            doubled
        };
        wait
    }
}

/// What the bridge connection is doing.
#[derive(Debug)]
pub enum BridgeState {
    /// It is being established.
    Connecting,
    /// It waits for a message to send.
    Receiving,
    /// The length of a message is being written.
    WritingLength(Vec<u8>),
    /// The bytes of a message are being written.
    WritingBody,
    /// It was lost, and is tried again after a while.
    Waiting,
}

/// What a state of the bridge connection stands for.
pub enum BridgeStateView {
    Connecting,
    Receiving,
    WritingLength(Seq<u8>),
    WritingBody,
    Waiting,
}

impl View for BridgeState {
    type V = BridgeStateView;

    open spec fn view(&self) -> BridgeStateView {
        match *self {
            BridgeState::Connecting => BridgeStateView::Connecting,
            BridgeState::Receiving => BridgeStateView::Receiving,
            BridgeState::WritingLength(message) => BridgeStateView::WritingLength(message@),
            BridgeState::WritingBody => BridgeStateView::WritingBody,
            BridgeState::Waiting => BridgeStateView::Waiting,
        }
    }
}

/// What happened on the bridge connection.
#[derive(Debug)]
pub enum BridgeEvent {
    /// The attempt to connect succeeded, or failed.
    Connected(bool),
    /// There is a message to send.
    Message(Vec<u8>),
    /// The attempt to write succeeded, or failed.
    Written(bool),
    /// The wait is over.
    Waited,
}

/// What is to be done for the bridge connection.
#[derive(Debug)]
pub enum BridgeAction {
    Connect,
    /// Wait for a message to send.
    Receive,
    /// Write the length of a message, as eight bytes, the most significant first.
    WriteLength(u64),
    /// Write the bytes of a message.
    WriteBody(Vec<u8>),
    /// Drop the connection, if there is one, and wait for so many seconds.
    Wait(u64),
}

/// What an action stands for.
pub enum BridgeActionView {
    Connect,
    Receive,
    WriteLength(nat),
    WriteBody(Seq<u8>),
    Wait(nat),
}

impl View for BridgeAction {
    type V = BridgeActionView;

    open spec fn view(&self) -> BridgeActionView {
        match *self {
            BridgeAction::Connect => BridgeActionView::Connect,
            BridgeAction::Receive => BridgeActionView::Receive,
            BridgeAction::WriteLength(length) => BridgeActionView::WriteLength(length as nat),
            BridgeAction::WriteBody(message) => BridgeActionView::WriteBody(message@),
            BridgeAction::Wait(wait) => BridgeActionView::Wait(wait as nat),
        }
    }
}

/// The state of the bridge connection.
pub struct BridgeView {
    pub state: BridgeStateView,
    /// The next wait, in seconds.
    pub wait: nat,
}

/// Whether an event is one that a state waits for.
pub open spec fn bridge_expects(state: BridgeStateView, event: BridgeEvent) -> bool {
    match state {
        BridgeStateView::Connecting => event is Connected,
        BridgeStateView::Receiving => event is Message,
        BridgeStateView::WritingLength(_) | BridgeStateView::WritingBody => event is Written,
        BridgeStateView::Waiting => event is Waited,
    }
}

/// Whether an event is the failure of an attempt.
pub open spec fn bridge_fails(event: BridgeEvent) -> bool {
    event == BridgeEvent::Connected(false) || event == BridgeEvent::Written(false)
}

/// What is done on an event, and in which state that leaves the connection. A failure
/// costs the message that was being sent, and the next wait is longer.
pub open spec fn bridge_step(bridge: BridgeView, event: BridgeEvent) -> (
    BridgeView,
    BridgeActionView,
) {
    if bridge_fails(event) {
        (
            BridgeView { state: BridgeStateView::Waiting, wait: next_wait(bridge.wait) },
            BridgeActionView::Wait(bridge.wait),
        )
    } else {
        match (bridge.state, event) {
            (_, BridgeEvent::Waited) => (
                BridgeView { state: BridgeStateView::Connecting, ..bridge },
                BridgeActionView::Connect,
            ),
            (_, BridgeEvent::Message(message)) => (
                BridgeView { state: BridgeStateView::WritingLength(message@), ..bridge },
                BridgeActionView::WriteLength(message@.len()),
            ),
            (BridgeStateView::WritingLength(message), _) => (
                BridgeView { state: BridgeStateView::WritingBody, ..bridge },
                BridgeActionView::WriteBody(message),
            ),
            _ => (
                BridgeView { state: BridgeStateView::Receiving, ..bridge },
                BridgeActionView::Receive,
            ),
        }
    }
}

/// The state of a connection that is first to be established.
pub open spec fn new_bridge() -> BridgeView {
    BridgeView { state: BridgeStateView::Connecting, wait: 1 }
}

/// The bridge connection.
#[derive(Debug)]
pub struct Bridge {
    state: BridgeState,
    backoff: Backoff,
}

impl View for Bridge {
    type V = BridgeView;

    closed spec fn view(&self) -> BridgeView {
        BridgeView { state: self.state@, wait: self.backoff@ }
    }
}

impl Bridge {
    /// A connection that is first to be established.
    pub fn new() -> (bridge: Bridge)
        ensures
            bridge@ == new_bridge(),
            bridge@.state is Connecting,
            bridge@.wait == 1,
    {
        Bridge { state: BridgeState::Connecting, backoff: Backoff::new() }
    }

    /// What is to be done first.
    pub fn start(&self) -> (action: BridgeAction)
        ensures
            action@ == BridgeActionView::Connect,
    {
        BridgeAction::Connect
    }

    /// Whether the connection waits for such an event.
    pub fn expects(&self, event: &BridgeEvent) -> (r: bool)
        ensures
            r == bridge_expects(self@.state, *event),
            *event is Connected ==> r == (self@.state is Connecting),
            *event is Message ==> r == (self@.state is Receiving),
            *event is Written ==> r == (self@.state is WritingLength || self@.state is WritingBody),
            *event is Waited ==> r == (self@.state is Waiting),
    {
        match (&self.state, event) {
            (BridgeState::Connecting, BridgeEvent::Connected(_)) => true,
            (BridgeState::Receiving, BridgeEvent::Message(_)) => true,
            (BridgeState::WritingLength(_), BridgeEvent::Written(_)) => true,
            (BridgeState::WritingBody, BridgeEvent::Written(_)) => true,
            (BridgeState::Waiting, BridgeEvent::Waited) => true,
            _ => false,
        }
    }

    /// Drops the connection.
    fn fail(&mut self) -> (action: BridgeAction)
        ensures
            action matches BridgeAction::Wait(seconds) && seconds == old(self)@.wait,
            action@ == BridgeActionView::Wait(old(self)@.wait),
            final(self)@.wait == (if old(self)@.wait <= 32 {
                2 * old(self)@.wait
            } else {
                64
            }),
            final(self)@ == (BridgeView {
                state: BridgeStateView::Waiting,
                wait: next_wait(old(self)@.wait),
            }),
    {
        self.state = BridgeState::Waiting;
        BridgeAction::Wait(self.backoff.run())
    }

    /// What is to be done once something happened.
    pub fn step(&mut self, event: BridgeEvent) -> (action: BridgeAction)
        requires
            bridge_expects(old(self)@.state, event),
        ensures
            (final(self)@, action@) == bridge_step(old(self)@, event),
            event == BridgeEvent::Connected(true) ==> action is Receive && final(self)@.state is Receiving,
            event matches BridgeEvent::Message(message) ==> (
            action matches BridgeAction::WriteLength(length) && length == message@.len()) && final(self)@.state == BridgeStateView::WritingLength(message@),
            event == BridgeEvent::Written(true) ==> match old(self)@.state {
                BridgeStateView::WritingLength(message) => (
                action matches BridgeAction::WriteBody(bytes) && bytes@ == message) && final(self)@.state is WritingBody,
                _ => action is Receive && final(self)@.state is Receiving,
            },
            event is Waited ==> action is Connect && final(self)@.state is Connecting,
            event == BridgeEvent::Connected(false) || event == BridgeEvent::Written(false) ==> (
            action matches BridgeAction::Wait(seconds) && seconds == old(self)@.wait) && final(self)@.state is Waiting && final(self)@.wait == (if old(self)@.wait <= 32 {
                2 * old(self)@.wait
            } else {
                64
            }),
            event != BridgeEvent::Connected(false) && event != BridgeEvent::Written(false) ==> final(self)@.wait == old(self)@.wait,
    {
        match event {
            BridgeEvent::Connected(ok) => {
                if !ok {
                    return self.fail();
                }
                self.state = BridgeState::Receiving;
                BridgeAction::Receive
            },
            BridgeEvent::Message(message) => {
                let length = message.len() as u64;
                self.state = BridgeState::WritingLength(message);
                BridgeAction::WriteLength(length)
            },
            BridgeEvent::Written(ok) => {
                if !ok {
                    return self.fail();
                }
                let mut state = BridgeState::Receiving;
                std::mem::swap(&mut self.state, &mut state);
                match state {
                    BridgeState::WritingLength(message) => {
                        self.state = BridgeState::WritingBody;
                        BridgeAction::WriteBody(message)
                    },
                    _ => BridgeAction::Receive,
                }
            },
            BridgeEvent::Waited => {
                self.state = BridgeState::Connecting;
                BridgeAction::Connect
            },
        }
    }
}

/// The waits are one second, two, four and so on, and never more than 64 seconds.
pub proof fn waits_double(n: nat)
    ensures
        nth_wait(n) == if pow2(n) < 64 {
            pow2(n)
        } else {
            64
        },
        n >= 6 ==> nth_wait(n) == 64,
    decreases n,
{
    if n == 0 {
        lemma2_to64();
    } else {
        waits_double((n - 1) as nat);
        lemma_pow2_unfold(n);
    }
    if n >= 6 {
        lemma2_to64();
        if n > 6 {
            lemma_pow2_strictly_increases(6, n);
        }
    }
}

/// The state of the connection after what happened on it since it was made.
pub open spec fn bridge_after(events: Seq<BridgeEvent>) -> BridgeView
    decreases events.len(),
{
    if events.len() == 0 {
        new_bridge()
    } else {
        bridge_step(bridge_after(events.drop_last()), events.last()).0
    }
}

/// How many attempts have failed since the connection was made.
pub open spec fn bridge_failures(events: Seq<BridgeEvent>) -> nat
    decreases events.len(),
{
    if events.len() == 0 {
        0
    } else {
        bridge_failures(events.drop_last()) + (if bridge_fails(events.last()) {
            1nat
        } else {
            0nat
        })
    }
}

/// Whatever happens on the connection: after `n` failures since it was made the next wait
/// is two to the `n`-th seconds, up to 64. So the wait that follows the first failure is one
/// second, that after the second two seconds and so on, and no success makes it shorter
/// again.
pub proof fn waits_of_a_run(events: Seq<BridgeEvent>, failure: BridgeEvent)
    requires
        bridge_fails(failure),
    ensures
        bridge_after(events).wait == nth_wait(bridge_failures(events)),
        bridge_step(bridge_after(events), failure).1 == BridgeActionView::Wait(
            if pow2(bridge_failures(events)) < 64 {
                pow2(bridge_failures(events))
            } else {
                64
            },
        ),
    decreases events.len(),
{
    if events.len() > 0 {
        waits_of_a_run(events.drop_last(), failure);
    }
    waits_double(bridge_failures(events));
}

/// Whether events come as a connection waits for them, from when it was made.
pub open spec fn bridge_run(events: Seq<BridgeEvent>) -> bool {
    forall|i: int|
        0 <= i < events.len() ==> bridge_expects(
            bridge_after(events.take(i)).state,
            #[trigger] events[i],
        )
}

/// The bytes of a message are written only when its length has just been written, and its
/// length only when it has just come in: a message whose sending failed is never written
/// again.
pub proof fn messages_are_written_once(events: Seq<BridgeEvent>, event: BridgeEvent)
    requires
        bridge_run(events),
        bridge_expects(bridge_after(events).state, event),
    ensures
        bridge_step(bridge_after(events), event).1 matches BridgeActionView::WriteLength(length)
            ==> (event matches BridgeEvent::Message(message) && length == message@.len()),
        bridge_step(bridge_after(events), event).1 matches BridgeActionView::WriteBody(bytes)
            ==> event == BridgeEvent::Written(true) && events.len() > 0 && (
        events.last() matches BridgeEvent::Message(message) && message@ == bytes),
{
    if events.len() > 0 {
        let n = events.len() - 1;
        assert(events.take(n) =~= events.drop_last());
        assert(bridge_expects(bridge_after(events.take(n)).state, events[n]));
    }
}

/// A message that can be sent is sent whole: its length is written, then its bytes, and
/// then the next message is waited for.
pub proof fn messages_are_framed(bridge: BridgeView, message: Vec<u8>)
    requires
        bridge.state is Receiving,
    ensures
        ({
            let (a, first) = bridge_step(bridge, BridgeEvent::Message(message));
            let (b, second) = bridge_step(a, BridgeEvent::Written(true));
            let (c, third) = bridge_step(b, BridgeEvent::Written(true));
            &&& first == BridgeActionView::WriteLength(message@.len())
            &&& second == BridgeActionView::WriteBody(message@)
            &&& third is Receive
            &&& c == bridge
        }),
{
}

/// However it fails, the connection is tried again after a wait, and the message that
/// was being sent is not sent again.
pub proof fn failures_lose_the_message(bridge: BridgeView, event: BridgeEvent)
    requires
        bridge_expects(bridge.state, event),
        bridge_fails(event),
    ensures
        ({
            let (a, first) = bridge_step(bridge, event);
            let (b, second) = bridge_step(a, BridgeEvent::Waited);
            let (c, third) = bridge_step(b, BridgeEvent::Connected(true));
            &&& first == BridgeActionView::Wait(bridge.wait)
            &&& second is Connect
            &&& third is Receive
            &&& c == (BridgeView {
                state: BridgeStateView::Receiving,
                wait: next_wait(bridge.wait),
            })
        }),
{
}

/// Each state waits for one kind of event, and for each kind of event some state waits.
pub proof fn states_wait_for_their_event(state: BridgeStateView, event: BridgeEvent)
    ensures
        event is Connected ==> (bridge_expects(state, event) <==> state is Connecting),
        event is Message ==> (bridge_expects(state, event) <==> state is Receiving),
        event is Written ==> (bridge_expects(state, event) <==> state is WritingLength
            || state is WritingBody),
        event is Waited ==> (bridge_expects(state, event) <==> state is Waiting),
        bridge_fails(event) <==> (event matches BridgeEvent::Connected(ok) && !ok) || (
        event matches BridgeEvent::Written(ok) && !ok),
{
}

/// What follows on each event. Once connected, a message is waited for. Of a message the
/// length is written, then the bytes, and then the next is waited for. Where connecting or
/// writing fails, the node waits as long as it is to wait next, and will wait twice as long
/// the time after, up to 64 seconds; then it connects again. Only a failure changes the wait.
pub proof fn events_lead_on(bridge: BridgeView, event: BridgeEvent)
    requires
        bridge_expects(bridge.state, event),
    ensures
        ({
            let (after, action) = bridge_step(bridge, event);
            match event {
                BridgeEvent::Connected(ok) | BridgeEvent::Written(ok) => if !ok {
                    &&& after.state is Waiting
                    &&& action == BridgeActionView::Wait(bridge.wait)
                    &&& after.wait == if bridge.wait <= 32 {
                        2 * bridge.wait
                    } else {
                        64
                    }
                } else if bridge.state is WritingLength {
                    &&& after.state is WritingBody
                    &&& action == BridgeActionView::WriteBody(bridge.state->WritingLength_0)
                    &&& after.wait == bridge.wait
                } else {
                    &&& after.state is Receiving
                    &&& action is Receive
                    &&& after.wait == bridge.wait
                },
                BridgeEvent::Message(message) => {
                    &&& after.state == BridgeStateView::WritingLength(message@)
                    &&& action == BridgeActionView::WriteLength(message@.len())
                    &&& after.wait == bridge.wait
                },
                BridgeEvent::Waited => {
                    &&& after.state is Connecting
                    &&& action is Connect
                    &&& after.wait == bridge.wait
                },
            }
        }),
        new_bridge().state is Connecting,
        new_bridge().wait == 1,
{
}

/// What is done for the connection is what the action says.
pub proof fn bridge_actions_stand_for_themselves(length: u64, message: Vec<u8>, seconds: u64)
    ensures
        BridgeAction::Connect@ is Connect,
        BridgeAction::Receive@ is Receive,
        BridgeAction::WriteLength(length)@ == BridgeActionView::WriteLength(length as nat),
        BridgeAction::WriteBody(message)@ == BridgeActionView::WriteBody(message@),
        BridgeAction::Wait(seconds)@ == BridgeActionView::Wait(seconds as nat),
        BridgeState::WritingLength(message)@ == BridgeStateView::WritingLength(message@),
{
}

} // verus!
