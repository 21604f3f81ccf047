//! A message bus with expiry: global messages by kind, and local messages
//! that are found by position.
//!
//! Producers hold a [`Sender`] and may send from any thread. Once per tick
//! the owner calls [`Messenger::update`], which drops what has expired and
//! takes in what was sent since the last call, stamped with the time of the
//! update. Time is counted in ticks of the caller's clock.

use crate::grid::{Grid, Griddable};
use crate::grid_model::GridState;
use crate::space::{Point, UNIT};
use std::sync::mpsc::{Receiver, Sender};
use vstd::prelude::*;

verus! {

/// `std::sync::mpsc::Sender`, the sending end of a channel. Nothing is seen
/// inside it.
#[verifier::external_type_specification]
#[verifier::external_body]
#[verifier::reject_recursive_types(T)]
pub struct ExSender<T>(Sender<T>);

/// `std::sync::mpsc::Receiver`, the receiving end of a channel. Nothing is
/// seen inside it.
#[verifier::external_type_specification]
#[verifier::external_body]
#[verifier::reject_recursive_types(T)]
pub struct ExReceiver<T>(Receiver<T>);

/// What a message says.
#[derive(Clone, Copy, Debug, PartialEq, Eq, Structural)]
pub enum Signal {
    /// One unit of the food at the message's position is eaten.
    ConsumeFood,
}

/// The kind of a signal, without what it carries.
#[derive(Clone, Copy, Debug, PartialEq, Eq, Structural)]
pub enum MessageTypes {
    ConsumeFood,
}

/// The number of signal kinds.
pub const SIGNAL_COUNT: usize = 1;

impl MessageTypes {
    /// The kind of `signal`.
    pub open spec fn of(signal: Signal) -> MessageTypes {
        match signal {
            Signal::ConsumeFood => MessageTypes::ConsumeFood,
        }
    }

    /// The kind's place in the table of global messages.
    pub open spec fn slot(self) -> int {
        match self {
            MessageTypes::ConsumeFood => 0,
        }
    }

    /// The kind of `signal`.
    pub fn from(signal: Signal) -> (kind: MessageTypes)
        ensures
            kind == MessageTypes::of(signal),
    {
        match signal {
            Signal::ConsumeFood => MessageTypes::ConsumeFood,
        }
    }

    /// The kind's place in the table of global messages.
    pub fn index(self) -> (slot: usize)
        ensures
            slot == self.slot(),
            slot < SIGNAL_COUNT,
    {
        match self {
            MessageTypes::ConsumeFood => 0,
        }
    }
}

/// One message: a signal, where it applies, and how long it lasts.
#[derive(Clone, Copy, Debug)]
pub struct Dispatch {
    /// Where the message applies; `None` for a global message.
    pub pos: Option<Point>,
    /// What the message says.
    pub signal: Signal,
    /// How many ticks the message lasts once the bus has taken it in.
    pub delay: u64,
}

impl Dispatch {
    /// A message with the given position, signal and lifetime.
    pub fn new(pos: Option<Point>, signal: Signal, delay: u64) -> (dispatch: Self)
        ensures
            dispatch == (Dispatch { pos, signal, delay }),
    {
        Dispatch { pos, signal, delay }
    }
}

/// A local message as the bus keeps it: stamped with the time it was taken in.
#[derive(Clone, Copy, Debug)]
pub struct Local {
    /// When the bus took the message in.
    pub time: u64,
    /// Where the message applies.
    pub at: Point,
    /// What the message says.
    pub signal: Signal,
    /// How many ticks the message lasts from `time` on.
    pub delay: u64,
}

impl Griddable for Local {
    open spec fn position(&self) -> Point {
        self.at
    }

    open spec fn is_alive(&self) -> bool {
        true
    }

    fn pos(&self) -> (p: Point) {
        self.at
    }

    fn alive(&self) -> (a: bool) {
        true
    }
}

/// Whether a message taken in at `time` with lifetime `delay` is still
/// present at `now`.
pub open spec fn unexpired(time: u64, delay: u64, now: u64) -> bool {
    now < time + delay
}

/// Whether a message taken in at `time` with lifetime `delay` is still
/// present at `now`.
pub fn still_present(time: u64, delay: u64, now: u64) -> (present: bool)
    ensures
        present == unexpired(time, delay, now),
{
    (now as u128) < (time as u128) + (delay as u128)
}

/// The first `n` of `entries` that are unexpired at `now`, in order.
pub open spec fn kept(entries: Seq<(u64, Dispatch)>, now: u64, n: int) -> Seq<(u64, Dispatch)>
    decreases n,
{
    if n <= 0 {
        Seq::empty()
    } else if unexpired(entries[n - 1].0, entries[n - 1].1.delay, now) {
        kept(entries, now, n - 1).push(entries[n - 1])
    } else {
        kept(entries, now, n - 1)
    }
}

/// Message expiry: a message that the bus took in at `t0` with lifetime `d`
/// is still among the messages of its kind at every `now < t0 + d`, and is
/// not at any `now >= t0 + d`.
pub proof fn lemma_expiry(entries: Seq<(u64, Dispatch)>, message: (u64, Dispatch), now: u64)
    requires
        entries.contains(message),
    ensures
        kept(entries, now, entries.len() as int).contains(message) <==> now < message.0 + message.1.delay,
{
    lemma_kept(entries, now, entries.len() as int);
    let stay = kept(entries, now, entries.len() as int);
    if stay.contains(message) {
        let k = choose|k: int| 0 <= k < stay.len() && stay[k] == message;
        assert(unexpired(stay[k].0, stay[k].1.delay, now));
    }
    if unexpired(message.0, message.1.delay, now) {
        let j = choose|j: int| 0 <= j < entries.len() && entries[j] == message;
        assert(stay.contains(entries[j]));
    }
}

/// Of the first `n` entries exactly the unexpired ones are kept, and nothing
/// else.
pub proof fn lemma_kept(entries: Seq<(u64, Dispatch)>, now: u64, n: int)
    requires
        0 <= n <= entries.len(),
    ensures
        forall|k: int| 0 <= k < kept(entries, now, n).len() ==> unexpired(
            (#[trigger] kept(entries, now, n)[k]).0,
            kept(entries, now, n)[k].1.delay,
            now,
        ) && entries.contains(kept(entries, now, n)[k]),
        forall|j: int| 0 <= j < n && unexpired(entries[j].0, entries[j].1.delay, now) ==> kept(
            entries,
            now,
            n,
        ).contains(#[trigger] entries[j]),
    decreases n,
{
    if n > 0 {
        lemma_kept(entries, now, n - 1);
        let prev = kept(entries, now, n - 1);
        let cur = kept(entries, now, n);
        assert forall|j: int| 0 <= j < n && unexpired(entries[j].0, entries[j].1.delay, now) implies cur.contains(
            #[trigger] entries[j],
        ) by {
            if j == n - 1 {
                assert(cur[cur.len() - 1] == entries[j]);
            } else {
                let k = choose|k: int| 0 <= k < prev.len() && prev[k] == entries[j];
                assert(cur[k] == entries[j]);
            }
        }
    }
}

/// The signals of the first `n` of `entries`, in order.
pub open spec fn signals_of(entries: Seq<(u64, Dispatch)>, n: int) -> Seq<Signal>
    decreases n,
{
    if n <= 0 {
        Seq::empty()
    } else {
        signals_of(entries, n - 1).push(entries[n - 1].1.signal)
    }
}

/// The signals of the global messages of the first `n` of `kinds`, kind by
/// kind in the order asked.
pub open spec fn global_signals(global: Seq<Seq<(u64, Dispatch)>>, kinds: Seq<MessageTypes>, n: int) -> Seq<
    Signal,
>
    decreases n,
{
    if n <= 0 {
        Seq::empty()
    } else {
        global_signals(global, kinds, n - 1) + signals_of(
            global[kinds[n - 1].slot()],
            global[kinds[n - 1].slot()].len() as int,
        )
    }
}

/// Of the first `n` of `hits`, the position and signal of each local message
/// whose kind is among `kinds`, in order.
pub open spec fn chosen(
    locals: GridState<Local>,
    hits: Seq<(u128, usize)>,
    kinds: Seq<MessageTypes>,
    n: int,
) -> Seq<(Point, Signal)>
    decreases n,
{
    if n <= 0 {
        Seq::empty()
    } else if kinds.contains(MessageTypes::of(locals.entity(hits[n - 1].1).signal)) {
        chosen(locals, hits, kinds, n - 1).push(
            (locals.entity(hits[n - 1].1).at, locals.entity(hits[n - 1].1).signal),
        )
    } else {
        chosen(locals, hits, kinds, n - 1)
    }
}

/// A message bus as a mathematical value.
pub struct MessengerState {
    /// The time of the latest update.
    pub now: u64,
    /// The global messages, one sequence for each kind, each message with the
    /// time it was taken in.
    pub global: Seq<Seq<(u64, Dispatch)>>,
    /// The local messages.
    pub locals: GridState<Local>,
}

impl MessengerState {
    /// The table has one sequence for each kind, each global message stands
    /// under its kind, and the local messages form a settled grid.
    pub open spec fn wf(self) -> bool {
        &&& self.global.len() == SIGNAL_COUNT
        &&& forall|k: int, j: int| 0 <= k < self.global.len() && 0 <= j < self.global[k].len() ==> {
            &&& (#[trigger] self.global[k][j]).1.pos is None
            &&& MessageTypes::of(self.global[k][j].1.signal).slot() == k
        }
        &&& self.locals.wf()
        &&& self.locals.settled()
    }

    /// Whether `after` is what is left of the bus when the clock moves to
    /// `now`: of the global messages of each kind the unexpired ones, in
    /// their order; of the local messages the unexpired ones, each in its
    /// slot, in a settled grid.
    pub open spec fn expires_to(self, now: u64, after: Self) -> bool {
        &&& after.wf()
        &&& after.now == now
        &&& forall|k: int| 0 <= k < SIGNAL_COUNT ==> (#[trigger] after.global[k]) == kept(
            self.global[k],
            now,
            self.global[k].len() as int,
        )
        &&& after.locals.scale == self.locals.scale
        &&& after.locals.arena.slots.len() == self.locals.arena.slots.len()
        &&& forall|i: usize| #[trigger]
            after.locals.arena.get(i as int) == (if self.locals.arena.occupied(i as int) && unexpired(
                self.locals.entity(i).time,
                self.locals.entity(i).delay,
                now,
            ) {
                self.locals.arena.get(i as int)
            } else {
                None
            })
    }

    /// The bus after it took in `dispatch` at its current time.
    pub open spec fn took(self, dispatch: Dispatch) -> Self {
        match dispatch.pos {
            Some(at) => MessengerState {
                now: self.now,
                global: self.global,
                locals: self.locals.insert(
                    Local { time: self.now, at, signal: dispatch.signal, delay: dispatch.delay },
                ),
            },
            None => {
                let k = MessageTypes::of(dispatch.signal).slot();
                MessengerState {
                    now: self.now,
                    global: self.global.update(k, self.global[k].push((self.now, dispatch))),
                    locals: self.locals,
                }
            },
        }
    }

    /// The bus after it took in the messages one by one, in order.
    pub open spec fn took_all(self, incoming: Seq<Dispatch>) -> Self
        decreases incoming.len(),
    {
        if incoming.len() == 0 {
            self
        } else {
            self.took_all(incoming.drop_last()).took(incoming.last())
        }
    }
}

/// Taking in messages leaves the clock as it was.
pub proof fn lemma_took_all_now(state: MessengerState, incoming: Seq<Dispatch>)
    ensures
        state.took_all(incoming).now == state.now,
    decreases incoming.len(),
{
    if incoming.len() > 0 {
        lemma_took_all_now(state, incoming.drop_last());
    }
}

/// `mpsc::channel`: a new channel for messages. Nothing is stated of it.
#[verifier::external_body]
fn open_channel() -> (ends: (Sender<Dispatch>, Receiver<Dispatch>)) {
    std::sync::mpsc::channel()
}

/// `Sender::clone`: another handle on the same channel. Nothing is stated
/// of it.
#[verifier::external_body]
fn another(sender: &Sender<Dispatch>) -> (handle: Sender<Dispatch>) {
    sender.clone()
}

/// `Sender::send`: queues `dispatch` on the channel. The result tells whether
/// the channel took it; it does not when the receiving end is gone.
#[verifier::external_body]
fn send_on(sender: &Sender<Dispatch>, dispatch: Dispatch) -> (sent: bool) {
    sender.send(dispatch).is_ok()
}

/// `Receiver::try_iter`: what is queued on the channel at this moment, in
/// the order of arrival. It depends on what the producers did, so nothing is
/// stated of it.
#[verifier::external_body]
fn drain(receiver: &Receiver<Dispatch>) -> (queued: Vec<Dispatch>) {
    receiver.try_iter().collect()
}

/// Sends `dispatch` to the bus behind `sender`. Returns whether the channel
/// took the message; a message that was not taken is lost.
pub fn post(sender: &Sender<Dispatch>, dispatch: Dispatch) -> (sent: bool) {
    send_on(sender, dispatch)
}

/// Whether `kind` is among `kinds`.
pub fn has_kind(kinds: &Vec<MessageTypes>, kind: MessageTypes) -> (found: bool)
    ensures
        found == kinds@.contains(kind),
{
    let mut i: usize = 0;
    while i < kinds.len()
        invariant
            0 <= i <= kinds.len(),
            forall|j: int| 0 <= j < i ==> kinds@[j] != kind,
        decreases kinds.len() - i,
    {
        if kinds[i] == kind {
            return true;
        }
        i += 1;
    }
    false
}

/// The message bus.
pub struct Messenger {
    now: u64,
    global: Vec<Vec<(u64, Dispatch)>>,
    locals: Grid<Local>,
    sender: Sender<Dispatch>,
    receiver: Receiver<Dispatch>,
}

/// The side of a cell of the grid of local messages.
pub const LOCAL_SCALE: u32 = 128 * (UNIT as u32);

impl View for Messenger {
    type V = MessengerState;

    closed spec fn view(&self) -> MessengerState {
        MessengerState {
            now: self.now,
            global: Seq::new(self.global@.len(), |k: int| self.global@[k]@),
            locals: self.locals@,
        }
    }
}

/// Taking in a message keeps the bus well formed.
pub proof fn lemma_took(state: MessengerState, dispatch: Dispatch)
    requires
        state.wf(),
        dispatch.pos is Some && state.locals.arena.frees.len() == 0 ==> state.locals.arena.slots.len()
            < usize::MAX,
    ensures
        state.took(dispatch).wf(),
{
    match dispatch.pos {
        Some(at) => {
            state.locals.lemma_insert(
                Local { time: state.now, at, signal: dispatch.signal, delay: dispatch.delay },
            );
        },
        None => {
            let after = state.took(dispatch);
            let slot = MessageTypes::of(dispatch.signal).slot();
            assert forall|k: int, j: int|
                0 <= k < after.global.len() && 0 <= j < after.global[k].len() implies (
            #[trigger] after.global[k][j]).1.pos is None && MessageTypes::of(after.global[k][j].1.signal).slot()
                == k by {
                if k == slot && j == state.global[k].len() {
                } else {
                    assert(after.global[k][j] == state.global[k][j]);
                }
            }
        },
    }
}

impl Messenger {
    /// The bus is well formed.
    pub open spec fn wf(&self) -> bool {
        self@.wf()
    }

    /// An empty bus whose clock reads `now`.
    pub fn new(now: u64) -> (bus: Self)
        ensures
            bus.wf(),
            bus@.now == now,
            bus@.global == Seq::new(SIGNAL_COUNT as nat, |k: int| Seq::<(u64, Dispatch)>::empty()),
            bus@.locals == GridState::<Local>::empty(LOCAL_SCALE as int),
    {
        let (sender, receiver) = open_channel();
        let mut global: Vec<Vec<(u64, Dispatch)>> = Vec::new();
        let mut k: usize = 0;
        while k < SIGNAL_COUNT
            invariant
                0 <= k <= SIGNAL_COUNT,
                global@.len() == k,
                forall|j: int| 0 <= j < k ==> (#[trigger] global@[j])@ == Seq::<(u64, Dispatch)>::empty(),
            decreases SIGNAL_COUNT - k,
        {
            global.push(Vec::new());
            k += 1;
        }
        let bus = Messenger { now, global, locals: Grid::new(LOCAL_SCALE), sender, receiver };
        proof {
            assert(bus@.global =~= Seq::new(SIGNAL_COUNT as nat, |k: int| Seq::<(u64, Dispatch)>::empty()));
        }
        bus
    }

    /// A handle through which any number of producers may send to the bus.
    pub fn sender(&self) -> (handle: Sender<Dispatch>) {
        another(&self.sender)
    }

    /// The time of the latest update.
    pub fn now(&self) -> (now: u64)
        ensures
            now == self@.now,
    {
        self.now
    }

    /// Sets the clock to `now` and drops every message that has expired: a
    /// message taken in at `time` with lifetime `delay` stays exactly when
    /// `now < time + delay`.
    pub fn expire(&mut self, now: u64)
        requires
            old(self).wf(),
        ensures
            final(self).wf(),
            old(self)@.expires_to(now, final(self)@),
    {
        self.now = now;
        let mut k: usize = 0;
        while k < SIGNAL_COUNT
            invariant
                0 <= k <= SIGNAL_COUNT,
                self.now == now,
                self.global@.len() == SIGNAL_COUNT,
                self.locals == old(self).locals,
                forall|j: int| 0 <= j < k ==> (#[trigger] self.global@[j])@ == kept(
                    old(self)@.global[j],
                    now,
                    old(self)@.global[j].len() as int,
                ),
                forall|j: int| k <= j < SIGNAL_COUNT ==> (#[trigger] self.global@[j])@ == old(self)@.global[j],
            decreases SIGNAL_COUNT - k,
        {
            let ghost entries = self.global@[k as int]@;
            let mut stay: Vec<(u64, Dispatch)> = Vec::new();
            let mut j: usize = 0;
            while j < self.global[k].len()
                invariant
                    0 <= k < SIGNAL_COUNT,
                    self.global@.len() == SIGNAL_COUNT,
                    self.global@[k as int]@ == entries,
                    0 <= j <= entries.len(),
                    stay@ == kept(entries, now, j as int),
                decreases entries.len() - j,
            {
                let entry = self.global[k][j];
                if still_present(entry.0, entry.1.delay, now) {
                    stay.push(entry);
                }
                j += 1;
            }
            self.global[k] = stay;
            k += 1;
        }
        let ghost before = self.locals@;
        let keep = |m: &Local| -> (present: bool)
            ensures
                present == unexpired(m.time, m.delay, now),
            { still_present(m.time, m.delay, now) };
        self.locals.retain(keep);
        let ghost retained = self.locals@;
        proof {
            assert forall|i: usize| #[trigger] retained.filed.contains_key(i) implies retained.filed[i]
                == retained.home(i) by {
                assert(before.filed.contains_key(i));
            }
            assert(retained.settled());
        }
        self.locals.maintain();
        proof {
            assert forall|k: int, j: int|
                0 <= k < self@.global.len() && 0 <= j < self@.global[k].len() implies (
            #[trigger] self@.global[k][j]).1.pos is None && MessageTypes::of(self@.global[k][j].1.signal).slot()
                == k by {
                let entries = old(self)@.global[k];
                lemma_kept(entries, now, entries.len() as int);
                let e = self@.global[k][j];
                assert(entries.contains(e));
                let p = choose|p: int| 0 <= p < entries.len() && entries[p] == e;
                assert(old(self)@.global[k][p] == e);
            }
            assert forall|i: usize| #[trigger]
                self@.locals.arena.get(i as int) == (if old(self)@.locals.arena.occupied(i as int) && unexpired(
                    old(self)@.locals.entity(i).time,
                    old(self)@.locals.entity(i).delay,
                    now,
                ) {
                    old(self)@.locals.arena.get(i as int)
                } else {
                    None
                }) by {
                assert(before.filed.contains_key(i) <==> before.arena.occupied(i as int));
                assert(retained.filed.contains_key(i) <==> retained.arena.occupied(i as int));
                assert(self@.locals.arena.get(i as int) == (if retained.live(i) {
                    retained.arena.get(i as int)
                } else {
                    None
                }));
            }
        }
    }

    /// Takes in `dispatch`, stamped with the time of the latest update: a
    /// message with a position joins the local messages, one without joins
    /// the global messages of its kind.
    pub fn take(&mut self, dispatch: Dispatch)
        requires
            old(self).wf(),
        ensures
            final(self).wf(),
            final(self)@ == old(self)@.took(dispatch),
    {
        let ghost before = self@;
        match dispatch.pos {
            Some(at) => {
                self.locals.insert(Local { time: self.now, at, signal: dispatch.signal, delay: dispatch.delay });
                proof {
                    assert(self@.global =~= before.global);
                    if before.locals.arena.frees.len() == 0 {
                        assert(before.locals.arena.slots.len() < self@.locals.arena.slots.len());
                    }
                    lemma_took(before, dispatch);
                }
            },
            None => {
                let slot = MessageTypes::from(dispatch.signal).index();
                self.global[slot].push((self.now, dispatch));
                proof {
                    assert(self@.global =~= before.took(dispatch).global);
                    lemma_took(before, dispatch);
                }
            },
        }
    }

    /// Takes in the messages one by one, in order.
    pub fn ingest(&mut self, incoming: Vec<Dispatch>)
        requires
            old(self).wf(),
        ensures
            final(self).wf(),
            final(self)@ == old(self)@.took_all(incoming@),
    {
        let mut n: usize = 0;
        while n < incoming.len()
            invariant
                0 <= n <= incoming.len(),
                self.wf(),
                self@ == old(self)@.took_all(incoming@.take(n as int)),
            decreases incoming.len() - n,
        {
            self.take(incoming[n]);
            proof {
                assert(incoming@.take(n + 1).drop_last() =~= incoming@.take(n as int));
            }
            n += 1;
        }
        proof {
            assert(incoming@.take(n as int) =~= incoming@);
        }
    }

    /// One tick of the bus: drops what has expired at `now`, then takes in
    /// everything that producers have sent since the last call, stamped
    /// `now`. What was sent is known only to the channel: the bus ends as if
    /// some sequence of messages had been taken in after the expiry.
    pub fn update(&mut self, now: u64)
        requires
            old(self).wf(),
        ensures
            final(self).wf(),
            final(self)@.now == now,
            exists|expired: MessengerState, incoming: Seq<Dispatch>|
                old(self)@.expires_to(now, expired) && final(self)@ == #[trigger] expired.took_all(incoming),
    {
        self.expire(now);
        let ghost expired = self@;
        let incoming = drain(&self.receiver);
        self.ingest(incoming);
        proof {
            lemma_took_all_now(expired, incoming@);
            assert(self@ == expired.took_all(incoming@));
        }
    }

    /// The signals of the global messages of the kinds asked, kind by kind.
    pub fn global_receive(&self, kinds: &Vec<MessageTypes>) -> (signals: Vec<Signal>)
        requires
            self.wf(),
        ensures
            signals@ == global_signals(self@.global, kinds@, kinds@.len() as int),
    {
        let mut signals: Vec<Signal> = Vec::new();
        let mut n: usize = 0;
        while n < kinds.len()
            invariant
                self.wf(),
                0 <= n <= kinds.len(),
                signals@ == global_signals(self@.global, kinds@, n as int),
            decreases kinds.len() - n,
        {
            let slot = kinds[n].index();
            let ghost start = signals@;
            let ghost entries = self@.global[slot as int];
            let mut j: usize = 0;
            while j < self.global[slot].len()
                invariant
                    self.wf(),
                    slot < SIGNAL_COUNT,
                    entries == self@.global[slot as int],
                    entries == self.global@[slot as int]@,
                    0 <= j <= entries.len(),
                    signals@ == start + signals_of(entries, j as int),
                decreases entries.len() - j,
            {
                signals.push(self.global[slot][j].1.signal);
                proof {
                    assert(signals@ =~= start + signals_of(entries, j + 1));
                }
                j += 1;
            }
            n += 1;
        }
        signals
    }

    /// The position and signal of every local message of the kinds asked
    /// within `radius` of `pos`.
    pub fn local_receive(&self, pos: Point, radius: u32, kinds: &Vec<MessageTypes>) -> (found: Vec<
        (Point, Signal),
    >)
        requires
            self.wf(),
        ensures
            exists|hits: Seq<(u128, usize)>| #[trigger]
                self@.locals.answers(pos, radius as int, hits) && found@ == chosen(
                    self@.locals,
                    hits,
                    kinds@,
                    hits.len() as int,
                ),
    {
        let hits = self.locals.query_with_dist(pos, radius);
        let mut found: Vec<(Point, Signal)> = Vec::new();
        let mut n: usize = 0;
        while n < hits.len()
            invariant
                self.wf(),
                self@.locals.answers(pos, radius as int, hits@),
                0 <= n <= hits.len(),
                found@ == chosen(self@.locals, hits@, kinds@, n as int),
            decreases hits.len() - n,
        {
            assert(self@.locals.hit(pos, radius as int, hits@[n as int].1));
            assert(self@.locals.filed.contains_key(hits@[n as int].1) <==> self@.locals.arena.occupied(
                hits@[n as int].1 as int,
            ));
            match self.locals.entity(hits[n].1) {
                Some(message) => {
                    if has_kind(kinds, MessageTypes::from(message.signal)) {
                        found.push((message.at, message.signal));
                    }
                },
                None => {},
            }
            n += 1;
        }
        found
    }
}

} // verus!
