//! The channel hub: one connection's byte stream, cut into frames and fanned
//! out to one queue per channel.
//!
//! The hub never touches the wire itself. Whoever owns the connection reports
//! what it saw as an [`Event`] and carries out the [`Action`] the hub answers
//! with, so every decision of the polling loop is made, and proved, here.
//! Nor does it make up a signal: where channels are simulated, the samples are
//! drawn elsewhere and handed in, and the hub keeps count.

use std::collections::VecDeque;
use vstd::prelude::*;

verus! {

/// The `k`-th four-byte block of a frame: the raw sample of channel `k`.
pub open spec fn block(frame: Seq<u8>, k: int) -> [u8; 4] {
    [frame[4 * k], frame[4 * k + 1], frame[4 * k + 2], frame[4 * k + 3]]
}

/// The character of a single decimal digit.
pub open spec fn digit(d: nat) -> char {
    if d == 0 {
        '0'
    } else if d == 1 {
        '1'
    } else if d == 2 {
        '2'
    } else if d == 3 {
        '3'
    } else if d == 4 {
        '4'
    } else if d == 5 {
        '5'
    } else if d == 6 {
        '6'
    } else if d == 7 {
        '7'
    } else if d == 8 {
        '8'
    } else {
        '9'
    }
}

/// A natural number written in base ten, without padding.
pub open spec fn decimal(n: nat) -> Seq<char>
    decreases n,
{
    if n < 10 {
        seq![digit(n)]
    } else {
        decimal(n / 10).push(digit(n % 10))
    }
}

/// The name under which the `ordinal`-th claim on a connection is known.
pub open spec fn split_label(connection: Seq<char>, ordinal: nat) -> Seq<char> {
    connection + " split "@ + decimal(ordinal)
}

fn digit_text(d: usize) -> (text: &'static str)
    requires
        d < 10,
    ensures
        text@ == seq![digit(d as nat)],
{
    proof {
        reveal_strlit("0");
        reveal_strlit("1");
        reveal_strlit("2");
        reveal_strlit("3");
        reveal_strlit("4");
        reveal_strlit("5");
        reveal_strlit("6");
        reveal_strlit("7");
        reveal_strlit("8");
        reveal_strlit("9");
    }
    let text = if d == 0 {
        "0"
    } else if d == 1 {
        "1"
    } else if d == 2 {
        "2"
    } else if d == 3 {
        "3"
    } else if d == 4 {
        "4"
    } else if d == 5 {
        "5"
    } else if d == 6 {
        "6"
    } else if d == 7 {
        "7"
    } else if d == 8 {
        "8"
    } else {
        "9"
    };
    assert(text@ =~= seq![digit(d as nat)]);
    text
}

fn append_decimal(text: &mut String, n: usize)
    ensures
        final(text)@ == old(text)@ + decimal(n as nat),
    decreases n,
{
    if n < 10 {
        text.append(digit_text(n));
    } else {
        append_decimal(text, n / 10);
        text.append(digit_text(n % 10));
    }
    assert(final(text)@ =~= old(text)@ + decimal(n as nat));
}

/// The count that follows `count`: a source's counter starts over after the
/// largest count it can hold.
pub open spec fn following(count: nat) -> nat {
    if count >= u64::MAX {
        0
    } else {
        count + 1
    }
}

/// What an observer of the connection reports to the hub.
pub enum Event {
    /// The number of bytes waiting on the connection, or `None` where the
    /// connection could not say.
    Available(Option<u32>),
    /// The bytes of a read the hub asked for, or `None` where the read failed.
    Frame(Option<Vec<u8>>),
}

/// What the hub asks of the connection's owner next.
#[derive(Debug, Clone, Copy, PartialEq, Eq, Structural)]
pub enum Action {
    /// Nothing to do now: sleep for the poll interval, then report again.
    Wait,
    /// Read exactly this many bytes and report them as a frame.
    Read(usize),
    /// The worker is finished: no channel will receive anything more.
    Stop,
}

/// A consumer's claim as the contracts see it.
pub struct Claim {
    /// The slot of the channel the claim is on.
    pub slot: nat,
    /// The claim's name.
    pub label: Seq<char>,
}

/// One channel as the contracts see it.
pub enum LaneView {
    /// A channel fed from the wire.
    Live {
        /// Samples delivered and not yet pulled, oldest first.
        pending: Seq<[u8; 4]>,
        /// Whether the consuming end still exists.
        attached: bool,
    },
    /// A channel with a simulated source behind it.
    Simulated {
        /// How many samples the source has given since its counter last
        /// started over.
        drawn: nat,
        /// The sample it gave last.
        last: [u8; 4],
    },
}

impl LaneView {
    /// Whether a sample from the wire can be delivered to this channel.
    pub open spec fn accepts(self) -> bool {
        self matches LaneView::Live { attached, .. } && attached
    }

    /// The channel after one more sample from the wire has arrived.
    pub open spec fn pushed(self, raw: [u8; 4]) -> LaneView {
        match self {
            LaneView::Live { pending, attached } => LaneView::Live {
                pending: pending.push(raw),
                attached,
            },
            LaneView::Simulated { .. } => self,
        }
    }

    /// What a pull on this channel yields: the oldest pending sample of a
    /// live channel whose consumer is in place; on a simulated channel the
    /// sample that was drawn for it.
    pub open spec fn oldest(self, simulated: [u8; 4]) -> Option<[u8; 4]> {
        match self {
            LaneView::Live { pending, attached } => if attached && pending.len() > 0 {
                Some(pending[0])
            } else {
                None
            },
            LaneView::Simulated { .. } => Some(simulated),
        }
    }

    /// The channel after a pull.
    pub open spec fn pulled(self, simulated: [u8; 4]) -> LaneView {
        match self {
            LaneView::Live { pending, attached } => if attached && pending.len() > 0 {
                LaneView::Live { pending: pending.drop_first(), attached }
            } else {
                self
            },
            LaneView::Simulated { drawn, .. } => LaneView::Simulated {
                drawn: following(drawn),
                last: simulated,
            },
        }
    }
}

/// A hub as the contracts see it.
pub struct PortView {
    /// The connection's identifier.
    pub name: Seq<char>,
    /// The channels, by slot.
    pub lanes: Seq<LaneView>,
    /// How many channels have been claimed; they are claimed in slot order.
    pub claimed: nat,
    /// Whether the worker is still alive.
    pub running: bool,
}

impl PortView {
    /// Whether enough bytes are waiting for one whole frame.
    pub open spec fn due(self, available: Option<u32>) -> bool {
        available matches Some(count) && count >= 4 * self.lanes.len()
    }

    /// Whether a read brought exactly one frame.
    pub open spec fn whole(self, frame: Option<Seq<u8>>) -> bool {
        frame matches Some(bytes) && bytes.len() == 4 * self.lanes.len()
    }

    /// Whether every channel is fed from the wire and still has its consumer.
    pub open spec fn intact(self) -> bool {
        forall|k: int| 0 <= k < self.lanes.len() ==> (#[trigger] self.lanes[k]).accepts()
    }

    /// The hub after a whole frame has come in. A frame is handed out whole
    /// or not at all: where every channel accepts, channel `k` gets block `k`;
    /// where any channel accepts nothing, every queue stays as it was and the
    /// worker ends.
    pub open spec fn delivered(self, frame: Seq<u8>) -> PortView {
        if self.intact() {
            PortView {
                lanes: Seq::new(self.lanes.len(), |k: int| self.lanes[k].pushed(block(frame, k))),
                ..self
            }
        } else {
            PortView { running: false, ..self }
        }
    }

    /// The hub after the result of a read: a whole frame is delivered, anything
    /// else ends the worker. A stopped hub stays as it is.
    pub open spec fn after_read(self, frame: Option<Seq<u8>>) -> PortView {
        if !self.running {
            self
        } else if self.whole(frame) {
            self.delivered(frame->0)
        } else {
            PortView { running: false, ..self }
        }
    }

    /// The hub after a run of successful reads, each applied in turn.
    pub open spec fn after_frames(self, frames: Seq<Seq<u8>>) -> PortView
        decreases frames.len(),
    {
        if frames.len() == 0 {
            self
        } else {
            self.after_frames(frames.drop_last()).after_read(Some(frames.last()))
        }
    }

    /// The hub after an event.
    pub open spec fn after(self, event: Event) -> PortView {
        match event {
            Event::Available(_) => self,
            Event::Frame(Some(bytes)) => self.after_read(Some(bytes@)),
            Event::Frame(None) => self.after_read(None),
        }
    }

    /// The hub's answer to an event.
    pub open spec fn answer(self, event: Event) -> Action {
        if !self.after(event).running {
            Action::Stop
        } else {
            match event {
                Event::Available(available) => if self.due(available) {
                    Action::Read((4 * self.lanes.len()) as usize)
                } else {
                    Action::Wait
                },
                Event::Frame(_) => Action::Wait,
            }
        }
    }

    /// Whether a claim was made on this hub: its slot has been claimed here,
    /// and it bears the name this hub gave to that slot's claim.
    pub open spec fn owns(self, claim: Claim) -> bool {
        &&& claim.slot < self.claimed
        &&& claim.slot < self.lanes.len()
        &&& claim.label == split_label(self.name, claim.slot + 1)
    }

    /// What a pull under `claim` yields. A claim made elsewhere yields
    /// nothing.
    pub open spec fn oldest(self, claim: Claim, simulated: [u8; 4]) -> Option<[u8; 4]> {
        if self.owns(claim) {
            self.lanes[claim.slot as int].oldest(simulated)
        } else {
            None
        }
    }

    /// The hub after a pull under `claim`: what was handed out is gone from
    /// its channel. A claim made elsewhere changes nothing.
    pub open spec fn pulled(self, claim: Claim, simulated: [u8; 4]) -> PortView {
        if self.owns(claim) {
            PortView {
                lanes: self.lanes.update(
                    claim.slot as int,
                    self.lanes[claim.slot as int].pulled(simulated),
                ),
                ..self
            }
        } else {
            self
        }
    }

    /// How many samples the simulated source behind `claim` has given;
    /// nothing where the channel is fed from the wire or the claim was made
    /// elsewhere.
    pub open spec fn drawn(self, claim: Claim) -> Option<nat> {
        if self.owns(claim) && self.lanes[claim.slot as int] is Simulated {
            Some(self.lanes[claim.slot as int]->drawn)
        } else {
            None
        }
    }

    /// The hub after `claim` was given up: what was pending for its channel
    /// is lost, and nothing can be delivered to it or pulled from it again. A
    /// claim made elsewhere changes nothing.
    pub open spec fn released(self, claim: Claim) -> PortView {
        if self.owns(claim) {
            PortView {
                lanes: self.lanes.update(
                    claim.slot as int,
                    LaneView::Live { pending: Seq::empty(), attached: false },
                ),
                ..self
            }
        } else {
            self
        }
    }
}

/// A byte stream cut into consecutive frames for `channels` channels; bytes
/// after the last whole frame are left out.
pub open spec fn frames_of(stream: Seq<u8>, channels: nat) -> Seq<Seq<u8>> {
    Seq::new(
        ((stream.len() as int) / (4 * channels as int)) as nat,
        |j: int| stream.subrange(4 * channels * j, 4 * channels * j + 4 * channels),
    )
}

/// Frames keep their order, channel by channel: after any run of whole frames
/// has reached a running hub whose consumers are all in place, the queue of
/// channel `k` holds what it held before, followed by block `k` of each frame
/// in the order of arrival, and the hub is still running with every consumer
/// in place.
pub proof fn lemma_frames_keep_order(hub: PortView, frames: Seq<Seq<u8>>)
    requires
        hub.running,
        hub.intact(),
        forall|j: int| 0 <= j < frames.len() ==> (#[trigger] frames[j]).len() == 4 * hub.lanes.len(),
    ensures
        hub.after_frames(frames).running,
        hub.after_frames(frames).intact(),
        hub.after_frames(frames).lanes.len() == hub.lanes.len(),
        hub.after_frames(frames).name == hub.name,
        hub.after_frames(frames).claimed == hub.claimed,
        forall|k: int|
            0 <= k < hub.lanes.len() ==> (#[trigger] hub.after_frames(frames).lanes[k])->pending
                == hub.lanes[k]->pending + Seq::new(frames.len(), |j: int| block(frames[j], k)),
    decreases frames.len(),
{
    if frames.len() == 0 {
        assert forall|k: int| 0 <= k < hub.lanes.len() implies (#[trigger] hub.after_frames(
            frames,
        ).lanes[k])->pending == hub.lanes[k]->pending + Seq::new(
            frames.len(),
            |j: int| block(frames[j], k),
        ) by {
            assert(hub.lanes[k]->pending =~= hub.lanes[k]->pending + Seq::new(
                frames.len(),
                |j: int| block(frames[j], k),
            ));
        }
    } else {
        let earlier = frames.drop_last();
        let newest = frames.last();
        lemma_frames_keep_order(hub, earlier);
        let before = hub.after_frames(earlier);
        assert(before.whole(Some(newest)));
        let now = before.delivered(newest);
        assert(hub.after_frames(frames) == now);
        assert forall|k: int| 0 <= k < hub.lanes.len() implies (#[trigger] now.lanes[k])->pending
            == hub.lanes[k]->pending + Seq::new(frames.len(), |j: int| block(frames[j], k)) by {
            assert(before.lanes[k].accepts());
            assert(now.lanes[k] == before.lanes[k].pushed(block(newest, k)));
            assert(before.lanes[k]->pending == hub.lanes[k]->pending + Seq::new(
                earlier.len(),
                |j: int| block(earlier[j], k),
            ));
            assert(now.lanes[k]->pending =~= hub.lanes[k]->pending + Seq::new(
                frames.len(),
                |j: int| block(frames[j], k),
            ));
        }
        assert forall|k: int| 0 <= k < now.lanes.len() implies (#[trigger] now.lanes[k]).accepts() by {
            assert(before.lanes[k].accepts());
        }
    }
}

/// While fewer bytes are waiting than a frame holds, nothing happens: the
/// report is answered with a wait, no read is asked for, and the hub, every
/// queue of it, is as it was.
pub proof fn lemma_short_supply_changes_nothing(hub: PortView, available: Option<u32>)
    requires
        !hub.due(available),
    ensures
        hub.after(Event::Available(available)) == hub,
        hub.running ==> hub.answer(Event::Available(available)) == Action::Wait,
        !hub.running ==> hub.answer(Event::Available(available)) == Action::Stop,
{
}

/// One abandoned channel ends them all, and no frame is handed out in part:
/// a whole frame that reaches a running hub with a channel that accepts
/// nothing ends the worker and leaves every queue as it was.
pub proof fn lemma_one_gone_stops_all(hub: PortView, frame: Seq<u8>)
    requires
        hub.running,
        !hub.intact(),
        frame.len() == 4 * hub.lanes.len(),
    ensures
        hub.after_read(Some(frame)) == (PortView { running: false, ..hub }),
{
}

/// Once the worker has ended nothing arrives any more: every event is
/// answered with a stop and leaves the hub, every queue of it, as it was.
pub proof fn lemma_stopped_stays(hub: PortView, event: Event)
    requires
        !hub.running,
    ensures
        hub.after(event) == hub,
        hub.answer(event) == Action::Stop,
{
}

/// The channel of a claim that was given up accepts nothing, so the hub is
/// no longer intact, and nothing can be pulled under that claim again.
pub proof fn lemma_release_breaks(hub: PortView, claim: Claim, simulated: [u8; 4])
    requires
        hub.owns(claim),
    ensures
        !hub.released(claim).intact(),
        hub.released(claim).oldest(claim, simulated) is None,
{
    assert(!hub.released(claim).lanes[claim.slot as int].accepts());
}

/// A simulated channel always has a sample to give, namely the one that was
/// drawn for it, and stays simulated when it has given one: pulling from it
/// never comes back empty, and its count goes up by one.
pub proof fn lemma_simulated_always_yields(hub: PortView, claim: Claim, simulated: [u8; 4])
    requires
        hub.owns(claim),
        hub.lanes[claim.slot as int] is Simulated,
    ensures
        hub.oldest(claim, simulated) == Some(simulated),
        hub.pulled(claim, simulated).owns(claim),
        hub.pulled(claim, simulated).lanes[claim.slot as int] is Simulated,
        hub.pulled(claim, simulated).drawn(claim) == Some(following(hub.drawn(claim)->0)),
        forall|k: int|
            0 <= k < hub.lanes.len() && k != claim.slot ==> #[trigger] hub.pulled(
                claim,
                simulated,
            ).lanes[k] == hub.lanes[k],
{
}

/// A pull takes the oldest sample and nothing else: what is left on the
/// channel is what was there, without its first, in the same order, and no
/// other channel is touched.
pub proof fn lemma_pull_takes_the_oldest(hub: PortView, claim: Claim, simulated: [u8; 4])
    requires
        hub.owns(claim),
        hub.lanes[claim.slot as int] matches LaneView::Live { pending, attached } && attached
            && pending.len() > 0,
    ensures
        hub.oldest(claim, simulated) == Some(hub.lanes[claim.slot as int]->pending[0]),
        hub.pulled(claim, simulated).lanes[claim.slot as int]->pending == hub.lanes[claim.slot as int]->pending.subrange(
            1,
            hub.lanes[claim.slot as int]->pending.len() as int,
        ),
        forall|k: int|
            0 <= k < hub.lanes.len() && k != claim.slot ==> #[trigger] hub.pulled(
                claim,
                simulated,
            ).lanes[k] == hub.lanes[k],
{
}

/// A claim made on one hub is nothing to another: where the claim's slot was
/// never claimed on this hub, or its name is not the one this hub gave, a
/// pull yields nothing, and neither a pull nor giving the claim up changes
/// anything.
pub proof fn lemma_foreign_claims_do_nothing(hub: PortView, claim: Claim, simulated: [u8; 4])
    requires
        claim.slot >= hub.claimed || claim.label != split_label(hub.name, claim.slot + 1),
    ensures
        hub.oldest(claim, simulated) is None,
        hub.pulled(claim, simulated) == hub,
        hub.released(claim) == hub,
        hub.drawn(claim) is None,
{
}

/// A sample's channel is its block's position in the stream, modulo the
/// number of channels: when a stream is cut into whole frames and these reach a
/// running hub whose consumers are all in place, the stream's `b`-th four-byte
/// block ends up in the queue of channel `b % channels`, behind what was there
/// before and behind the `b / channels` blocks that came for that channel
/// earlier.
pub proof fn lemma_slot_is_position(hub: PortView, stream: Seq<u8>, b: int)
    requires
        hub.running,
        hub.intact(),
        hub.lanes.len() >= 1,
        0 <= b,
        4 * (b + 1) <= stream.len(),
        b / (hub.lanes.len() as int) < frames_of(stream, hub.lanes.len()).len(),
    ensures
        ({
            let channels = hub.lanes.len() as int;
            let lane = hub.after_frames(frames_of(stream, hub.lanes.len())).lanes[b % channels];
            let behind = hub.lanes[b % channels]->pending.len() + b / channels;
            behind < lane->pending.len() && lane->pending[behind] == [
                stream[4 * b],
                stream[4 * b + 1],
                stream[4 * b + 2],
                stream[4 * b + 3],
            ]
        }),
{
    let channels = hub.lanes.len() as int;
    let frames = frames_of(stream, hub.lanes.len());
    let total = stream.len() as int;
    assert(0 <= total / (4 * channels)) by (nonlinear_arith)
        requires
            channels >= 1,
            0 <= total,
    ;
    assert(frames.len() == total / (4 * channels));
    let k = b % channels;
    let j = b / channels;
    assert(b == channels * j + k && 0 <= k < channels) by (nonlinear_arith)
        requires
            channels >= 1,
            k == b % channels,
            j == b / channels,
    ;
    assert(0 <= j) by (nonlinear_arith)
        requires
            channels >= 1,
            0 <= b,
            j == b / channels,
    ;
    assert forall|i: int| 0 <= i < frames.len() implies (#[trigger] frames[i]).len() == 4
        * hub.lanes.len() by {
        assert(4 * channels * i + 4 * channels <= total) by (nonlinear_arith)
            requires
                channels >= 1,
                0 <= i,
                i + 1 <= total / (4 * channels),
                0 <= total,
        ;
        assert(0 <= 4 * channels * i) by (nonlinear_arith)
            requires
                channels >= 1,
                0 <= i,
        ;
    }
    lemma_frames_keep_order(hub, frames);
    let lane = hub.after_frames(frames).lanes[k];
    let fresh = Seq::new(frames.len(), |i: int| block(frames[i], k));
    assert(lane->pending == hub.lanes[k]->pending + fresh);
    assert(fresh[j] == block(frames[j], k));
    assert(4 * channels * j + 4 * k == 4 * b) by (nonlinear_arith)
        requires
            b == channels * j + k,
    ;
    assert(4 * channels * j + 4 * channels <= total) by (nonlinear_arith)
        requires
            channels >= 1,
            0 <= j,
            j + 1 <= total / (4 * channels),
            0 <= total,
    ;
    assert(0 <= 4 * channels * j) by (nonlinear_arith)
        requires
            channels >= 1,
            0 <= j,
    ;
    assert(block(frames[j], k) =~= [
        stream[4 * b],
        stream[4 * b + 1],
        stream[4 * b + 2],
        stream[4 * b + 3],
    ]);
}

enum Lane {
    Live { pending: VecDeque<[u8; 4]>, attached: bool },
    Simulated(RealDummyPort),
}

impl View for Lane {
    type V = LaneView;

    closed spec fn view(&self) -> LaneView {
        match self {
            Lane::Live { pending, attached } => LaneView::Live {
                pending: pending@,
                attached: *attached,
            },
            Lane::Simulated(source) => LaneView::Simulated {
                drawn: source.count(),
                last: source.last(),
            },
        }
    }
}

/// The count of a simulated source: what it is given it hands on, and it
/// remembers how many samples that makes and which came last. The signal
/// itself is drawn by whoever pulls.
pub struct RealDummyPort {
    value: [u8; 4],
    value_count: u64,
}

impl RealDummyPort {
    /// How many samples the source has given since its counter last started
    /// over.
    pub closed spec fn count(&self) -> nat {
        self.value_count as nat
    }

    /// The sample the source gave last; four zero bytes before the first.
    pub closed spec fn last(&self) -> [u8; 4] {
        self.value
    }

    /// A source that has given nothing yet.
    pub fn new() -> (source: RealDummyPort)
        ensures
            source.count() == 0,
            source.last() == [0u8, 0u8, 0u8, 0u8],
    {
        RealDummyPort { value: [0u8, 0u8, 0u8, 0u8], value_count: 0 }
    }

    /// How many samples the source has given since its counter last started
    /// over. The next sample is to be drawn for the count after this one.
    pub fn value_count(&self) -> (count: u64)
        ensures
            count == self.count(),
    {
        self.value_count
    }

    /// Gives the sample that was drawn for the next count. There always is
    /// one: the source counts it, remembers it and hands it on unchanged.
    pub fn read(&mut self, drawn: [u8; 4]) -> (raw: [u8; 4])
        ensures
            raw == drawn,
            final(self).count() == following(old(self).count()),
            final(self).last() == drawn,
    {
        self.value_count = if self.value_count == u64::MAX {
            0
        } else {
            self.value_count + 1
        };
        self.value = drawn;
        drawn
    }
}

/// A consumer's claim on one channel of a hub.
pub struct MultiPort {
    slot: usize,
    name: String,
}

/// What a consumer's end of a channel is known by.
pub trait Port {
    /// The name as the contracts see it.
    spec fn label(&self) -> Seq<char>;

    /// The name: a stable string that tells this end from every other.
    fn name(&self) -> (label: String)
        ensures
            label@ == self.label(),
    ;
}

impl View for MultiPort {
    type V = Claim;

    closed spec fn view(&self) -> Claim {
        Claim { slot: self.slot as nat, label: self.name@ }
    }
}

impl MultiPort {
    /// The slot of the channel this claim is on.
    pub closed spec fn slot(&self) -> nat {
        self.slot as nat
    }

    /// A claim's view holds its slot and its name.
    pub proof fn lemma_view(&self)
        ensures
            self@.slot == self.slot(),
            self@.label == self.label(),
    {
    }
}

impl Port for MultiPort {
    closed spec fn label(&self) -> Seq<char> {
        self.name@
    }

    /// The claim's name: the connection's identifier and the claim's ordinal.
    fn name(&self) -> (label: String) {
        self.name.clone()
    }
}

/// The hub of one connection: a channel per slot, the live ones filled frame
/// by frame.
pub struct PhysicalPort {
    name: String,
    lanes: Vec<Lane>,
    current_port_read: usize,
    running: bool,
}

impl View for PhysicalPort {
    type V = PortView;

    closed spec fn view(&self) -> PortView {
        PortView {
            name: self.name@,
            lanes: Seq::new(self.lanes.len() as nat, |k: int| self.lanes[k]@),
            claimed: self.current_port_read as nat,
            running: self.running,
        }
    }
}

/// A live channel as it is when its hub is made.
pub open spec fn fresh_lane() -> LaneView {
    LaneView::Live { pending: Seq::empty(), attached: true }
}

/// A simulated channel as it is when its hub is made.
pub open spec fn fresh_source() -> LaneView {
    LaneView::Simulated { drawn: 0, last: [0u8, 0u8, 0u8, 0u8] }
}

impl PhysicalPort {
    #[verifier::type_invariant]
    spec fn claims_fit(&self) -> bool {
        self.current_port_read <= self.lanes.len()
    }

    /// A hub of `internal_ports` live channels on the connection `name`:
    /// every queue empty, every consuming end in place, nothing claimed yet,
    /// the worker alive.
    pub fn new(internal_ports: usize, name: String) -> (hub: PhysicalPort)
        ensures
            hub@.name == name@,
            hub@.lanes == Seq::new(internal_ports as nat, |k: int| fresh_lane()),
            hub@.claimed == 0,
            hub@.running,
    {
        let mut lanes: Vec<Lane> = Vec::new();
        let mut k: usize = 0;
        while k < internal_ports
            invariant
                k <= internal_ports,
                lanes.len() == k,
                forall|j: int| 0 <= j < k ==> #[trigger] lanes[j]@ == fresh_lane(),
            decreases internal_ports - k,
        {
            lanes.push(Lane::Live { pending: VecDeque::new(), attached: true });
            k += 1;
        }
        let hub = PhysicalPort { name, lanes, current_port_read: 0, running: true };
        assert(hub@.lanes =~= Seq::new(internal_ports as nat, |k: int| fresh_lane()));
        hub
    }

    /// A hub of `internal_ports` simulated channels under the name `name`:
    /// each channel has a source of its own that has given nothing yet. There
    /// is no wire and no worker.
    pub fn simulated(internal_ports: usize, name: String) -> (hub: PhysicalPort)
        ensures
            hub@.name == name@,
            hub@.lanes == Seq::new(internal_ports as nat, |k: int| fresh_source()),
            hub@.claimed == 0,
            !hub@.running,
    {
        let mut lanes: Vec<Lane> = Vec::new();
        let mut k: usize = 0;
        while k < internal_ports
            invariant
                k <= internal_ports,
                lanes.len() == k,
                forall|j: int| 0 <= j < k ==> #[trigger] lanes[j]@ == fresh_source(),
            decreases internal_ports - k,
        {
            let source = RealDummyPort::new();
            lanes.push(Lane::Simulated(source));
            k += 1;
        }
        let hub = PhysicalPort { name, lanes, current_port_read: 0, running: false };
        assert(hub@.lanes =~= Seq::new(internal_ports as nat, |k: int| fresh_source()));
        hub
    }

    /// Claims the next unclaimed channel. Channels are handed out in slot
    /// order, once each; when all are claimed the answer is `None` and the hub
    /// is unchanged.
    pub fn split(&mut self) -> (port: Option<MultiPort>)
        ensures
            old(self)@.claimed < old(self)@.lanes.len() ==> {
                &&& port matches Some(claim)
                &&& claim@ == (Claim {
                    slot: old(self)@.claimed,
                    label: split_label(old(self)@.name, old(self)@.claimed + 1),
                })
                &&& claim.slot() == old(self)@.claimed
                &&& claim.label() == split_label(old(self)@.name, old(self)@.claimed + 1)
                &&& final(self)@ == (PortView { claimed: old(self)@.claimed + 1, ..old(self)@ })
                &&& final(self)@.owns(claim@)
            },
            old(self)@.claimed >= old(self)@.lanes.len() ==> port is None && final(self)@ == old(
                self,
            )@,
    {
        proof {
            use_type_invariant(&*self);
        }
        if self.current_port_read >= self.lanes.len() {
            return None;
        }
        let slot = self.current_port_read;
        self.current_port_read = slot + 1;
        let name = self.label_of(slot);
        assert(self@.lanes =~= old(self)@.lanes);
        Some(MultiPort { slot, name })
    }

    fn label_of(&self, slot: usize) -> (label: String)
        requires
            slot < usize::MAX,
        ensures
            label@ == split_label(self@.name, (slot + 1) as nat),
    {
        let mut label = self.name.clone();
        label.append(" split ");
        append_decimal(&mut label, slot + 1);
        label
    }

    fn owns(&self, port: &MultiPort) -> (yes: bool)
        ensures
            yes == self@.owns(port@),
            yes ==> port.slot < self.lanes.len(),
    {
        proof {
            use_type_invariant(self);
        }
        if port.slot >= self.current_port_read {
            return false;
        }
        let label = self.label_of(port.slot);
        port.name == label
    }

    /// One step of the polling loop.
    ///
    /// A report of the bytes waiting never changes the hub: it is answered
    /// with a read of one whole frame where that many bytes are there, and
    /// with a wait otherwise. A frame is handed out whole, block `k` to
    /// channel `k`, or not at all: a failed or short read, or a single channel
    /// that accepts nothing, leaves every queue as it was and ends the worker
    /// for all channels. A hub whose worker has ended answers every event
    /// with a stop and stays as it is.
    pub fn next(&mut self, event: Event) -> (action: Action)
        ensures
            final(self)@ == old(self)@.after(event),
            action == old(self)@.answer(event),
    {
        proof {
            use_type_invariant(&*self);
        }
        let channels = self.lanes.len();
        if !self.running {
            return Action::Stop;
        }
        match event {
            Event::Available(available) => {
                match available {
                    Some(count) => {
                        if (count / 4) as usize >= channels {
                            Action::Read(4 * channels)
                        } else {
                            Action::Wait
                        }
                    },
                    None => Action::Wait,
                }
            },
            Event::Frame(frame) => {
                match frame {
                    Some(bytes) => {
                        if bytes.len() / 4 == channels && bytes.len() % 4 == 0 {
                            self.deliver(&bytes);
                        } else {
                            self.running = false;
                            assert(self@.lanes =~= old(self)@.lanes);
                        }
                    },
                    None => {
                        self.running = false;
                        assert(self@.lanes =~= old(self)@.lanes);
                    },
                }
                if self.running {
                    Action::Wait
                } else {
                    Action::Stop
                }
            },
        }
    }

    fn intact(&self) -> (yes: bool)
        ensures
            yes == self@.intact(),
    {
        let mut k: usize = 0;
        while k < self.lanes.len()
            invariant
                k <= self.lanes.len(),
                forall|j: int| 0 <= j < k ==> (#[trigger] self@.lanes[j]).accepts(),
            decreases self.lanes.len() - k,
        {
            let accepts = match &self.lanes[k] {
                Lane::Live { attached, .. } => *attached,
                Lane::Simulated(_) => false,
            };
            if !accepts {
                assert(!self@.lanes[k as int].accepts());
                return false;
            }
            k += 1;
        }
        true
    }

    fn deliver(&mut self, frame: &Vec<u8>)
        requires
            frame.len() == 4 * old(self)@.lanes.len(),
        ensures
            final(self)@ == old(self)@.delivered(frame@),
    {
        proof {
            use_type_invariant(&*self);
        }
        if !self.intact() {
            self.running = false;
            assert(self@.lanes =~= old(self)@.lanes);
            return;
        }
        let channels = self.lanes.len();
        let ghost before = self@;
        let mut k: usize = 0;
        while k < channels
            invariant
                self.lanes.len() == channels,
                before.lanes.len() == channels,
                before.intact(),
                frame.len() == 4 * channels,
                self.current_port_read <= channels,
                k <= channels,
                self@.name == before.name,
                self@.claimed == before.claimed,
                self@.running == before.running,
                forall|j: int|
                    0 <= j < channels ==> #[trigger] self@.lanes[j] == if j < k {
                        before.lanes[j].pushed(block(frame@, j))
                    } else {
                        before.lanes[j]
                    },
            decreases channels - k,
        {
            assert(self@.lanes[k as int] == before.lanes[k as int]);
            assert(before.lanes[k as int].accepts());
            let raw = [frame[4 * k], frame[4 * k + 1], frame[4 * k + 2], frame[4 * k + 3]];
            assert(raw =~= block(frame@, k as int));
            let ghost during = self@;
            match &mut self.lanes[k] {
                Lane::Live { pending, .. } => {
                    pending.push_back(raw);
                },
                Lane::Simulated(_) => {},
            }
            assert(forall|j: int|
                0 <= j < channels && j != k ==> #[trigger] self@.lanes[j] == during.lanes[j]);
            k += 1;
        }
        assert(self@.lanes =~= before.delivered(frame@).lanes);
    }

    /// How many samples the simulated source behind a claim has given, for
    /// whoever draws the next one; `None` where the claim's channel is fed from
    /// the wire or the claim was made on another hub.
    pub fn drawn(&self, port: &MultiPort) -> (count: Option<u64>)
        ensures
            match count {
                Some(count) => self@.drawn(port@) == Some(count as nat),
                None => self@.drawn(port@) is None,
            },
    {
        if !self.owns(port) {
            return None;
        }
        match &self.lanes[port.slot] {
            Lane::Live { .. } => None,
            Lane::Simulated(source) => Some(source.value_count()),
        }
    }

    /// Hands out what the claimed channel has next: the oldest sample waiting
    /// on a live channel, if there is one, or on a simulated channel the sample
    /// `simulated`, which the caller drew for it. This never waits: an empty
    /// queue answers `None` at once, and so does a claim made on another hub.
    pub fn pull(&mut self, port: &MultiPort, simulated: [u8; 4]) -> (raw: Option<[u8; 4]>)
        ensures
            raw == old(self)@.oldest(port@, simulated),
            final(self)@ == old(self)@.pulled(port@, simulated),
    {
        proof {
            use_type_invariant(&*self);
        }
        if !self.owns(port) {
            return None;
        }
        let slot = port.slot;
        let raw = match &mut self.lanes[slot] {
            Lane::Live { pending, attached } => {
                if *attached {
                    pending.pop_front()
                } else {
                    None
                }
            },
            Lane::Simulated(source) => Some(source.read(simulated)),
        };
        assert(self@.lanes =~= old(self)@.pulled(port@, simulated).lanes);
        raw
    }

    /// Gives a claim up. The channel's consumer is gone from then on, so the
    /// next frame that comes in ends the worker. A claim made on another hub
    /// changes nothing.
    pub fn release(&mut self, port: MultiPort)
        ensures
            final(self)@ == old(self)@.released(port@),
    {
        proof {
            use_type_invariant(&*self);
        }
        if self.owns(&port) {
            let slot = port.slot;
            self.lanes[slot] = Lane::Live { pending: VecDeque::new(), attached: false };
            assert(self@.lanes =~= old(self)@.released(port@).lanes);
        }
    }
}

/// Whether a connection is simulated: its identifier asks for it, or the
/// device could not be opened.
pub open spec fn simulates(identifier: Seq<char>, connected: bool) -> bool {
    identifier == "simulate"@ || !connected
}

/// Whether an identifier is the one reserved for simulation. No device is
/// opened under it.
pub fn reserved(s: &str) -> (yes: bool)
    ensures
        yes == (s@ == "simulate"@),
{
    s.to_owned() == "simulate".to_owned()
}

/// Sets up the channels of a connection and claims them all.
///
/// `connected` says whether the device named `s` was opened. Where it was, the
/// channels are live and wait for frames; where it was not, or where `s` is
/// the identifier reserved for simulation, each channel gets a simulated
/// source of its own. Either way there are `internal_ports` claims, in slot
/// order, named after the connection, and the hub owns each of them.
pub fn from_string(s: &str, internal_ports: usize, connected: bool) -> (opened: (
    PhysicalPort,
    Vec<MultiPort>,
))
    ensures
        opened.0@.name == s@,
        opened.0@.claimed == internal_ports,
        opened.0@.running == !simulates(s@, connected),
        opened.0@.lanes == Seq::new(
            internal_ports as nat,
            |k: int|
                if simulates(s@, connected) {
                    fresh_source()
                } else {
                    fresh_lane()
                },
        ),
        opened.1.len() == internal_ports,
        forall|k: int|
            0 <= k < internal_ports ==> (#[trigger] opened.1[k])@ == (Claim {
                slot: k as nat,
                label: split_label(s@, (k + 1) as nat),
            }) && opened.0@.owns(opened.1[k]@),
{
    let mut hub = if reserved(s) || !connected {
        PhysicalPort::simulated(internal_ports, s.to_owned())
    } else {
        PhysicalPort::new(internal_ports, s.to_owned())
    };
    let ghost made = hub@;
    let mut ports: Vec<MultiPort> = Vec::new();
    let mut k: usize = 0;
    while k < internal_ports
        invariant
            k <= internal_ports,
            ports.len() == k,
            hub@ == (PortView { claimed: k as nat, ..made }),
            made.lanes.len() == internal_ports,
            made.name == s@,
            forall|j: int|
                0 <= j < k ==> (#[trigger] ports[j])@ == (Claim {
                    slot: j as nat,
                    label: split_label(s@, (j + 1) as nat),
                }),
        decreases internal_ports - k,
    {
        match hub.split() {
            Some(port) => {
                ports.push(port);
            },
            None => {},
        }
        k += 1;
    }
    (hub, ports)
}

} // verus!
