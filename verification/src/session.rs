//! The session of one connection as a state machine: each event that the
//! connection, the timer or the store delivers gives the next state and the
//! actions to perform, in order.

use vstd::prelude::*;
use vstd::utf8::{decode_utf8, encode_utf8, valid_utf8};
use vstd::string::StringExecFns;
use crate::error::{Error, BAD_REQUEST, INTERNAL_SERVER_ERROR};
use crate::membership::{absorbed, names, spectator, without, is_spectator, Membership};
use crate::message::{
    encodable, entries, frame_bytes, parse_frame, Envelope, GameMessage, KeyValue,
};
use crate::text::{bytes_eq, string_from_utf8};

verus! {

/// The channel on which a player's arrival is announced.
pub const JOINS: &'static str = "joins";

/// The channel on which a player's departure is announced.
pub const LEAVES: &'static str = "leaves";

/// The report of a snapshot that is too long for the wire.
pub const SERIALIZE_FAILED: &'static str = "Failed to serialize game message";

/// The report of a notification whose name is not text.
pub const NAME_NOT_UTF8: &'static str = "Join name was not valid UTF-8";

/// One of the two presence channels.
#[derive(Clone, Copy, Debug, PartialEq, Eq)]
pub enum Channel {
    Joins,
    Leaves,
}

/// The name of a channel.
pub open spec fn channel_name(channel: Channel) -> Seq<char> {
    match channel {
        Channel::Joins => JOINS@,
        Channel::Leaves => LEAVES@,
    }
}

impl Channel {
    /// The name under which the channel is published and subscribed to.
    pub fn name(&self) -> (name: &'static str)
        ensures
            name@ == channel_name(*self),
    {
        match self {
            Channel::Joins => JOINS,
            Channel::Leaves => LEAVES,
        }
    }
}

/// Where a session stands.
#[derive(Clone, Copy, Debug, PartialEq, Eq)]
pub enum Phase {
    /// No name was received yet.
    AwaitingName,
    /// The name is known and the session runs.
    Active,
    /// The session is over.
    Closed,
}

/// Why a session did not start.
#[derive(Clone, Copy, Debug, PartialEq, Eq)]
pub enum HandshakeError {
    /// The connection ended before a name came.
    NoName,
    /// The connection failed before a name came.
    ReceiveFailed,
    /// The first frame was not text.
    NotText,
    /// The store could not be reached.
    StoreUnavailable,
}

/// The status a handshake failure is reported with: the client's fault
/// unless the store could not be reached.
pub open spec fn handshake_status(why: HandshakeError) -> u16 {
    match why {
        HandshakeError::StoreUnavailable => INTERNAL_SERVER_ERROR,
        _ => BAD_REQUEST,
    }
}

/// The report of a handshake failure.
pub open spec fn handshake_report(why: HandshakeError) -> Seq<char> {
    match why {
        HandshakeError::NoName => "Did not receive any name message"@,
        HandshakeError::ReceiveFailed => "Failed to receive name message"@,
        HandshakeError::NotText => "Name message was not a text message"@,
        HandshakeError::StoreUnavailable => "Failed to get connection to Redis"@,
    }
}

impl HandshakeError {
    /// The status to report the failure with.
    pub fn status_code(&self) -> (code: u16)
        ensures
            code == handshake_status(*self),
    {
        match self {
            HandshakeError::StoreUnavailable => INTERNAL_SERVER_ERROR,
            _ => BAD_REQUEST,
        }
    }

    /// The failure as an error with its status and report.
    pub fn to_error(&self) -> (e: Error)
        ensures
            e@ == (handshake_status(*self), handshake_report(*self)),
    {
        let report = match self {
            HandshakeError::NoName => "Did not receive any name message",
            HandshakeError::ReceiveFailed => "Failed to receive name message",
            HandshakeError::NotText => "Name message was not a text message",
            HandshakeError::StoreUnavailable => "Failed to get connection to Redis",
        };
        Error(self.status_code(), String::from_str(report))
    }
}

/// What the connection delivered.
#[derive(Clone, Debug, PartialEq, Eq)]
pub enum Inbound {
    /// A text frame.
    Text(String),
    /// A binary frame.
    Binary(Vec<u8>),
    /// A ping or a pong.
    Control,
    /// The peer's close signal.
    Close,
    /// The transport failed.
    Failed,
    /// The connection is gone.
    Ended,
}

/// An `Inbound` as mathematical values.
pub enum InboundView {
    Text(Seq<char>),
    Binary(Seq<u8>),
    Control,
    Close,
    Failed,
    Ended,
}

impl View for Inbound {
    type V = InboundView;

    open spec fn view(&self) -> InboundView {
        match *self {
            Inbound::Text(s) => InboundView::Text(s@),
            Inbound::Binary(b) => InboundView::Binary(b@),
            Inbound::Control => InboundView::Control,
            Inbound::Close => InboundView::Close,
            Inbound::Failed => InboundView::Failed,
            Inbound::Ended => InboundView::Ended,
        }
    }
}

/// One value of a pushed notification.
#[derive(Clone, Debug, PartialEq, Eq)]
pub enum PushValue {
    /// A string of bytes.
    Bulk(Vec<u8>),
    /// Anything else.
    Other,
}

/// A `PushValue` as mathematical values.
pub enum PushValueView {
    Bulk(Seq<u8>),
    Other,
}

impl View for PushValue {
    type V = PushValueView;

    open spec fn view(&self) -> PushValueView {
        match *self {
            PushValue::Bulk(b) => PushValueView::Bulk(b@),
            PushValue::Other => PushValueView::Other,
        }
    }
}

/// What the store connection pushed: whether it is a published message, and
/// its values, of which the last two are the channel and the payload.
#[derive(Clone, Debug, PartialEq, Eq)]
pub struct Push {
    pub is_message: bool,
    pub data: Vec<PushValue>,
}

/// A `Push` as mathematical values.
pub struct PushView {
    pub is_message: bool,
    pub data: Seq<PushValueView>,
}

impl View for Push {
    type V = PushView;

    open spec fn view(&self) -> PushView {
        PushView { is_message: self.is_message, data: self.data@.map_values(|v: PushValue| v@) }
    }
}

/// What happened.
#[derive(Clone, Debug, PartialEq, Eq)]
pub enum Event {
    /// The connection delivered something.
    Inbound(Inbound),
    /// The store enumerated its keys.
    Keys(Vec<String>),
    /// The timer fired.
    Tick,
    /// The store read the watched keys; a key it does not have reads `None`.
    Scores(Vec<Option<i64>>),
    /// The store connection pushed a notification.
    Push(Push),
    /// A store operation failed, with this report.
    StoreFailed(String),
}

/// An `Event` as mathematical values.
pub enum EventView {
    Inbound(InboundView),
    Keys(Seq<Seq<char>>),
    Tick,
    Scores(Seq<Option<i64>>),
    Push(PushView),
    StoreFailed(Seq<char>),
}

impl View for Event {
    type V = EventView;

    open spec fn view(&self) -> EventView {
        match *self {
            Event::Inbound(f) => EventView::Inbound(f@),
            Event::Keys(k) => EventView::Keys(names(k@)),
            Event::Tick => EventView::Tick,
            Event::Scores(v) => EventView::Scores(v@),
            Event::Push(p) => EventView::Push(p@),
            Event::StoreFailed(r) => EventView::StoreFailed(r@),
        }
    }
}

/// What is to be done, by whoever runs the session.
#[derive(Clone, Debug, PartialEq, Eq)]
pub enum Action {
    /// Refuse the connection with the status of this failure.
    Reject(HandshakeError),
    /// Create the key in the store with value 0.
    Initialize(String),
    /// Enumerate the keys of the store and hand them back as `Event::Keys`.
    EnumerateKeys,
    /// Subscribe to both presence channels.
    Subscribe,
    /// Publish the name on the channel.
    Publish(Channel, String),
    /// Add the delta to the key's value in the store.
    Increment(String, i64),
    /// Read these keys from the store and hand the values back as
    /// `Event::Scores`.
    BatchRead(Vec<String>),
    /// Send a binary frame to the client.
    Send(Vec<u8>),
    /// Send the error to the client as a text frame, if it can be rendered.
    SendError(Error),
    /// Delete the key from the store.
    Delete(String),
}

/// An `Action` as mathematical values.
pub enum ActionView {
    Reject(HandshakeError),
    Initialize(Seq<char>),
    EnumerateKeys,
    Subscribe,
    Publish(Channel, Seq<char>),
    Increment(Seq<char>, i64),
    BatchRead(Seq<Seq<char>>),
    Send(Seq<u8>),
    SendError((u16, Seq<char>)),
    Delete(Seq<char>),
}

impl View for Action {
    type V = ActionView;

    open spec fn view(&self) -> ActionView {
        match *self {
            Action::Reject(why) => ActionView::Reject(why),
            Action::Initialize(k) => ActionView::Initialize(k@),
            Action::EnumerateKeys => ActionView::EnumerateKeys,
            Action::Subscribe => ActionView::Subscribe,
            Action::Publish(c, k) => ActionView::Publish(c, k@),
            Action::Increment(k, d) => ActionView::Increment(k@, d),
            Action::BatchRead(ks) => ActionView::BatchRead(names(ks@)),
            Action::Send(b) => ActionView::Send(b@),
            Action::SendError(e) => ActionView::SendError(e@),
            Action::Delete(k) => ActionView::Delete(k@),
        }
    }
}

/// The actions of a list, in order.
pub open spec fn action_views(actions: Seq<Action>) -> Seq<ActionView> {
    actions.map_values(|a: Action| a@)
}


/// The state of a session as mathematical values.
pub struct SessionState {
    /// Where the session stands.
    pub phase: Phase,
    /// The name the client gave; meaningless before it gave one.
    pub name: Seq<char>,
    /// The keys watched, in order.
    pub members: Seq<Seq<char>>,
    /// Whether the membership changed since the last snapshot.
    pub dirty: bool,
}

impl SessionState {
    /// No key is watched twice, and the spectator key is not watched.
    pub open spec fn wf(self) -> bool {
        &&& self.members.no_duplicates()
        &&& !self.members.contains(spectator())
    }
}

/// The state of a session before any event: awaiting the name, nothing
/// watched, and the first snapshot still owed with `clear` set.
pub open spec fn initial_state() -> SessionState {
    SessionState {
        phase: Phase::AwaitingName,
        name: Seq::empty(),
        members: Seq::empty(),
        dirty: true,
    }
}

/// What a player's arrival asks for: its key in the store, the keys that are
/// there, the subscription, and then the announcement, which the session
/// itself hears. A spectator only looks and listens.
pub open spec fn registration(name: Seq<char>) -> Seq<ActionView> {
    if name == spectator() {
        seq![ActionView::EnumerateKeys, ActionView::Subscribe]
    } else {
        seq![
            ActionView::Initialize(name),
            ActionView::EnumerateKeys,
            ActionView::Subscribe,
            ActionView::Publish(Channel::Joins, name),
        ]
    }
}

/// What a player's departure asks for: its key deleted, then the
/// announcement. A spectator leaves no trace.
pub open spec fn cleanup(name: Seq<char>) -> Seq<ActionView> {
    if name == spectator() {
        Seq::empty()
    } else {
        seq![ActionView::Delete(name), ActionView::Publish(Channel::Leaves, name)]
    }
}

/// The state with the session over.
pub open spec fn closed(s: SessionState) -> SessionState {
    SessionState { phase: Phase::Closed, ..s }
}

/// A session that does not start: it is over, and the connection is refused.
pub open spec fn rejected(s: SessionState, why: HandshakeError) -> (SessionState, Seq<ActionView>) {
    (closed(s), seq![ActionView::Reject(why)])
}

/// A running session that fails: it is over, the client is told, and then
/// the departure is cleaned up.
pub open spec fn failed(s: SessionState, error: (u16, Seq<char>)) -> (
    SessionState,
    Seq<ActionView>,
) {
    (closed(s), seq![ActionView::SendError(error)] + cleanup(s.name))
}

/// One increment for each click, in the order of the batch.
pub open spec fn increments(clicks: Seq<(Seq<char>, i64)>) -> Seq<ActionView> {
    clicks.map_values(|c: (Seq<char>, i64)| ActionView::Increment(c.0, c.1))
}

/// What a binary frame asks for: the increments of its clicks. Bytes that
/// are no message, and a message without clicks, ask for nothing.
pub open spec fn click_actions(bytes: Seq<u8>) -> Seq<ActionView> {
    match parse_frame(bytes) {
        Ok(m) => match m.clicks {
            Some(clicks) => increments(clicks),
            None => Seq::empty(),
        },
        Err(_) => Seq::empty(),
    }
}

/// The value read for the key at `i`: what the store returned there, and 0
/// where it returned nothing.
pub open spec fn score_at(values: Seq<Option<i64>>, i: int) -> i64 {
    if 0 <= i < values.len() {
        match values[i] {
            Some(v) => v,
            None => 0,
        }
    } else {
        0
    }
}

/// The full update list: every watched key, in order, with its value.
pub open spec fn snapshot(members: Seq<Seq<char>>, values: Seq<Option<i64>>) -> Seq<
    (Seq<char>, i64),
> {
    Seq::new(members.len(), |i: int| (members[i], score_at(values, i)))
}

/// The message of a snapshot: the full update list, and `clear` as the
/// session's dirty flag.
pub open spec fn snapshot_envelope(s: SessionState, values: Seq<Option<i64>>) -> Envelope {
    Envelope { updates: Some(snapshot(s.members, values)), clicks: None, clear: Some(s.dirty) }
}

/// Sending a snapshot: the message goes out and the dirty flag is reset. A
/// message too long for the wire ends the session.
pub open spec fn emitted(s: SessionState, values: Seq<Option<i64>>) -> (
    SessionState,
    Seq<ActionView>,
) {
    let m = snapshot_envelope(s, values);
    if encodable(m) {
        (SessionState { dirty: false, ..s }, seq![ActionView::Send(frame_bytes(m))])
    } else {
        failed(s, (INTERNAL_SERVER_ERROR, SERIALIZE_FAILED@))
    }
}

/// What a pushed notification says.
pub enum Notice {
    /// Nothing this session listens to.
    Ignored,
    /// A join or a leave whose name is not text.
    Invalid,
    /// The player joined.
    Join(Seq<char>),
    /// The player left.
    Leave(Seq<char>),
}

/// Reads a pushed notification: a published message whose last two values
/// are strings of bytes, the channel and then the name.
pub open spec fn notice(push: PushView) -> Notice {
    let n = push.data.len() as int;
    if !push.is_message || n < 2 {
        Notice::Ignored
    } else {
        match (push.data[n - 2], push.data[n - 1]) {
            (PushValueView::Bulk(channel), PushValueView::Bulk(name)) => {
                if channel == encode_utf8(JOINS@) {
                    if valid_utf8(name) {
                        Notice::Join(decode_utf8(name))
                    } else {
                        Notice::Invalid
                    }
                } else if channel == encode_utf8(LEAVES@) {
                    if valid_utf8(name) {
                        Notice::Leave(decode_utf8(name))
                    } else {
                        Notice::Invalid
                    }
                } else {
                    Notice::Ignored
                }
            },
            _ => Notice::Ignored,
        }
    }
}

/// The membership after a join: the key is added at the end unless it is
/// watched already or is the spectator key.
pub open spec fn joined(members: Seq<Seq<char>>, key: Seq<char>) -> Seq<Seq<char>> {
    if key == spectator() || members.contains(key) {
        members
    } else {
        members.push(key)
    }
}

/// A running session after a notice: a join or a leave that changes the
/// membership sets the dirty flag, one that changes nothing changes nothing.
pub open spec fn noticed(s: SessionState, n: Notice) -> (SessionState, Seq<ActionView>) {
    match n {
        Notice::Ignored => (s, Seq::empty()),
        Notice::Invalid => failed(s, (BAD_REQUEST, NAME_NOT_UTF8@)),
        Notice::Join(key) => {
            let members = joined(s.members, key);
            (SessionState { members, dirty: s.dirty || members != s.members, ..s }, Seq::empty())
        },
        Notice::Leave(key) => {
            let members = without(s.members, key);
            (SessionState { members, dirty: s.dirty || members != s.members, ..s }, Seq::empty())
        },
    }
}

/// The session after the connection delivered something.
pub open spec fn inbound_step(s: SessionState, frame: InboundView) -> (
    SessionState,
    Seq<ActionView>,
) {
    match s.phase {
        Phase::AwaitingName => match frame {
            InboundView::Text(name) => (
                SessionState { phase: Phase::Active, name, ..s },
                registration(name),
            ),
            InboundView::Ended => rejected(s, HandshakeError::NoName),
            InboundView::Failed => rejected(s, HandshakeError::ReceiveFailed),
            _ => rejected(s, HandshakeError::NotText),
        },
        Phase::Active => match frame {
            InboundView::Binary(bytes) => (s, click_actions(bytes)),
            InboundView::Text(_) => (s, Seq::empty()),
            InboundView::Control => (s, Seq::empty()),
            _ => (closed(s), cleanup(s.name)),
        },
        Phase::Closed => (s, Seq::empty()),
    }
}

/// The session after the store enumerated its keys.
pub open spec fn keys_step(s: SessionState, keys: Seq<Seq<char>>) -> (
    SessionState,
    Seq<ActionView>,
) {
    match s.phase {
        Phase::Active => {
            let members = absorbed(s.members, keys, s.name);
            (SessionState { members, dirty: s.dirty || members != s.members, ..s }, Seq::empty())
        },
        _ => (s, Seq::empty()),
    }
}

/// The session after the timer fired: with keys to watch it asks for their
/// values, without any it sends the empty snapshot at once.
pub open spec fn tick_step(s: SessionState) -> (SessionState, Seq<ActionView>) {
    match s.phase {
        Phase::Active => if s.members.len() == 0 {
            emitted(s, Seq::empty())
        } else {
            (s, seq![ActionView::BatchRead(s.members)])
        },
        _ => (s, Seq::empty()),
    }
}

/// The session after the store read the watched keys.
pub open spec fn scores_step(s: SessionState, values: Seq<Option<i64>>) -> (
    SessionState,
    Seq<ActionView>,
) {
    match s.phase {
        Phase::Active => emitted(s, values),
        _ => (s, Seq::empty()),
    }
}

/// The session after the store connection pushed a notification.
pub open spec fn push_step(s: SessionState, push: PushView) -> (SessionState, Seq<ActionView>) {
    match s.phase {
        Phase::Active => noticed(s, notice(push)),
        _ => (s, Seq::empty()),
    }
}

/// The session after a store operation failed.
pub open spec fn failure_step(s: SessionState, report: Seq<char>) -> (
    SessionState,
    Seq<ActionView>,
) {
    match s.phase {
        Phase::AwaitingName => rejected(s, HandshakeError::StoreUnavailable),
        Phase::Active => failed(s, (INTERNAL_SERVER_ERROR, report)),
        Phase::Closed => (s, Seq::empty()),
    }
}

/// The session after an event: the next state, and the actions to perform.
pub open spec fn next(s: SessionState, event: EventView) -> (SessionState, Seq<ActionView>) {
    match event {
        EventView::Inbound(frame) => inbound_step(s, frame),
        EventView::Keys(keys) => keys_step(s, keys),
        EventView::Tick => tick_step(s),
        EventView::Scores(values) => scores_step(s, values),
        EventView::Push(push) => push_step(s, push),
        EventView::StoreFailed(report) => failure_step(s, report),
    }
}


/// A copy of a list of keys.
fn copy_keys(keys: &Vec<String>) -> (copy: Vec<String>)
    ensures
        names(copy@) == names(keys@),
{
    let mut copy: Vec<String> = Vec::new();
    let mut i: usize = 0;
    while i < keys.len()
        invariant
            i <= keys.len(),
            names(copy@) == names(keys@).subrange(0, i as int),
        decreases keys.len() - i,
    {
        let ghost before = copy@;
        copy.push(keys[i].clone());
        assert(names(copy@) =~= names(before).push(keys@[i as int]@));
        assert(names(keys@).subrange(0, i + 1) =~= names(keys@).subrange(0, i as int).push(
            keys@[i as int]@,
        ));
        i += 1;
    }
    assert(names(keys@).subrange(0, i as int) =~= names(keys@));
    copy
}

/// The full update list for the watched keys and the values read for them:
/// one entry for each key, in order, with 0 where no value was read.
pub fn snapshot_updates(keys: &Vec<String>, values: &Vec<Option<i64>>) -> (updates: Vec<KeyValue>)
    ensures
        entries(updates@) == snapshot(names(keys@), values@),
        updates@.len() == keys@.len(),
        forall|i: int|
            0 <= i < keys@.len() ==> #[trigger] updates@[i]@ == (
                keys@[i]@,
                score_at(values@, i),
            ),
{
    let mut updates: Vec<KeyValue> = Vec::new();
    let mut i: usize = 0;
    while i < keys.len()
        invariant
            i <= keys.len(),
            updates@.len() == i,
            forall|j: int|
                0 <= j < i ==> #[trigger] updates@[j]@ == (keys@[j]@, score_at(values@, j)),
        decreases keys.len() - i,
    {
        let value = if i < values.len() {
            match values[i] {
                Some(v) => v,
                None => 0,
            }
        } else {
            0
        };
        updates.push(KeyValue { key: keys[i].clone(), value });
        i += 1;
    }
    assert(entries(updates@) =~= snapshot(names(keys@), values@));
    updates
}

/// One increment for each click of a batch, in order.
fn increment_actions(clicks: &Vec<KeyValue>) -> (actions: Vec<Action>)
    ensures
        action_views(actions@) == increments(entries(clicks@)),
{
    let mut actions: Vec<Action> = Vec::new();
    let mut i: usize = 0;
    while i < clicks.len()
        invariant
            i <= clicks.len(),
            actions@.len() == i,
            forall|j: int|
                0 <= j < i ==> #[trigger] actions@[j]@ == ActionView::Increment(
                    clicks@[j].key@,
                    clicks@[j].value,
                ),
        decreases clicks.len() - i,
    {
        actions.push(Action::Increment(clicks[i].key.clone(), clicks[i].value));
        i += 1;
    }
    assert(action_views(actions@) =~= increments(entries(clicks@)));
    actions
}

/// The session of one connection.
pub struct Session {
    phase: Phase,
    name: String,
    members: Membership,
    dirty: bool,
}

impl View for Session {
    type V = SessionState;

    closed spec fn view(&self) -> SessionState {
        SessionState {
            phase: self.phase,
            name: self.name@,
            members: self.members@,
            dirty: self.dirty,
        }
    }
}

impl Session {
    /// No key is watched twice, and the spectator key is not watched.
    pub open spec fn wf(&self) -> bool {
        self@.wf()
    }

    /// A session that awaits the name.
    pub fn new() -> (s: Session)
        ensures
            s.wf(),
            s@ == initial_state(),
    {
        Session {
            phase: Phase::AwaitingName,
            name: String::new(),
            members: Membership::new(),
            dirty: true,
        }
    }

    /// Where the session stands.
    pub fn phase(&self) -> (phase: Phase)
        ensures
            phase == self@.phase,
    {
        self.phase
    }

    /// The name the client gave.
    pub fn name(&self) -> (name: &str)
        ensures
            name@ == self@.name,
    {
        self.name.as_str()
    }

    /// The keys watched.
    pub fn members(&self) -> (members: &Membership)
        ensures
            members@ == self@.members,
    {
        &self.members
    }

    /// Whether the membership changed since the last snapshot.
    pub fn is_dirty(&self) -> (dirty: bool)
        ensures
            dirty == self@.dirty,
    {
        self.dirty
    }

    fn registration_actions(name: &String) -> (actions: Vec<Action>)
        ensures
            action_views(actions@) == registration(name@),
    {
        let mut actions: Vec<Action> = Vec::new();
        if !is_spectator(name.as_str()) {
            actions.push(Action::Initialize(name.clone()));
        }
        actions.push(Action::EnumerateKeys);
        actions.push(Action::Subscribe);
        if !is_spectator(name.as_str()) {
            actions.push(Action::Publish(Channel::Joins, name.clone()));
        }
        assert(action_views(actions@) =~= registration(name@));
        actions
    }

    fn cleanup_actions(&self) -> (actions: Vec<Action>)
        ensures
            action_views(actions@) == cleanup(self@.name),
    {
        let mut actions: Vec<Action> = Vec::new();
        if !is_spectator(self.name.as_str()) {
            actions.push(Action::Delete(self.name.clone()));
            actions.push(Action::Publish(Channel::Leaves, self.name.clone()));
        }
        assert(action_views(actions@) =~= cleanup(self@.name));
        actions
    }

    fn reject(&mut self, why: HandshakeError) -> (actions: Vec<Action>)
        requires
            old(self).wf(),
        ensures
            final(self).wf(),
            final(self)@ == rejected(old(self)@, why).0,
            action_views(actions@) == rejected(old(self)@, why).1,
    {
        self.phase = Phase::Closed;
        let mut actions: Vec<Action> = Vec::new();
        actions.push(Action::Reject(why));
        assert(action_views(actions@) =~= seq![ActionView::Reject(why)]);
        actions
    }

    fn close(&mut self) -> (actions: Vec<Action>)
        requires
            old(self).wf(),
        ensures
            final(self).wf(),
            final(self)@ == closed(old(self)@),
            action_views(actions@) == cleanup(old(self)@.name),
    {
        self.phase = Phase::Closed;
        self.cleanup_actions()
    }

    fn fail(&mut self, error: Error) -> (actions: Vec<Action>)
        requires
            old(self).wf(),
        ensures
            final(self).wf(),
            final(self)@ == failed(old(self)@, error@).0,
            action_views(actions@) == failed(old(self)@, error@).1,
    {
        self.phase = Phase::Closed;
        let mut actions: Vec<Action> = Vec::new();
        actions.push(Action::SendError(error));
        let mut rest = self.cleanup_actions();
        let ghost head = actions@;
        let ghost tail = rest@;
        actions.append(&mut rest);
        assert(action_views(actions@) =~= action_views(head) + action_views(tail));
        assert(action_views(head) =~= seq![ActionView::SendError(error@)]);
        actions
    }

    fn emit(&mut self, values: &Vec<Option<i64>>) -> (actions: Vec<Action>)
        requires
            old(self).wf(),
        ensures
            final(self).wf(),
            final(self)@ == emitted(old(self)@, values@).0,
            action_views(actions@) == emitted(old(self)@, values@).1,
    {
        let updates = snapshot_updates(self.members.keys(), values);
        let message = GameMessage { updates: Some(updates), clicks: None, clear: Some(self.dirty) };
        assert(message@ == snapshot_envelope(self@, values@));
        match message.encode() {
            Ok(bytes) => {
                self.dirty = false;
                let mut actions: Vec<Action> = Vec::new();
                actions.push(Action::Send(bytes));
                assert(action_views(actions@) =~= seq![ActionView::Send(bytes@)]);
                actions
            },
            Err(_) => self.fail(Error(INTERNAL_SERVER_ERROR, String::from_str(SERIALIZE_FAILED))),
        }
    }

    /// Takes what the connection delivered. Before the name is known, a text
    /// frame is the name and starts the session, and anything else refuses
    /// the connection. In a running session a binary frame is a click batch,
    /// the end of the connection ends the session, and other frames are
    /// dropped.
    pub fn on_inbound(&mut self, frame: Inbound) -> (actions: Vec<Action>)
        requires
            old(self).wf(),
        ensures
            final(self).wf(),
            final(self)@ == inbound_step(old(self)@, frame@).0,
            action_views(actions@) == inbound_step(old(self)@, frame@).1,
    {
        match self.phase {
            Phase::AwaitingName => match frame {
                Inbound::Text(name) => {
                    let actions = Session::registration_actions(&name);
                    self.phase = Phase::Active;
                    self.name = name;
                    actions
                },
                Inbound::Ended => self.reject(HandshakeError::NoName),
                Inbound::Failed => self.reject(HandshakeError::ReceiveFailed),
                _ => self.reject(HandshakeError::NotText),
            },
            Phase::Active => match frame {
                Inbound::Binary(bytes) => {
                    let actions = match GameMessage::decode(bytes.as_slice()) {
                        Ok(message) => match message.clicks {
                            Some(clicks) => increment_actions(&clicks),
                            None => Vec::new(),
                        },
                        Err(_) => Vec::new(),
                    };
                    assert(action_views(actions@) =~= click_actions(bytes@));
                    actions
                },
                Inbound::Text(_) => {
                    let actions: Vec<Action> = Vec::new();
                    assert(action_views(actions@) =~= Seq::<ActionView>::empty());
                    actions
                },
                Inbound::Control => {
                    let actions: Vec<Action> = Vec::new();
                    assert(action_views(actions@) =~= Seq::<ActionView>::empty());
                    actions
                },
                _ => self.close(),
            },
            Phase::Closed => {
                let actions: Vec<Action> = Vec::new();
                assert(action_views(actions@) =~= Seq::<ActionView>::empty());
                actions
            },
        }
    }

    /// Takes the keys that the store enumerated: each but the session's own
    /// name and the spectator key is watched from now on.
    pub fn on_keys(&mut self, keys: &Vec<String>) -> (actions: Vec<Action>)
        requires
            old(self).wf(),
        ensures
            final(self).wf(),
            final(self)@ == keys_step(old(self)@, names(keys@)).0,
            action_views(actions@) == keys_step(old(self)@, names(keys@)).1,
    {
        match self.phase {
            Phase::Active => {
                if self.members.absorb(keys, self.name.as_str()) {
                    self.dirty = true;
                }
            },
            _ => {},
        }
        let actions: Vec<Action> = Vec::new();
        assert(action_views(actions@) =~= Seq::<ActionView>::empty());
        actions
    }

    /// Takes a tick of the timer: asks for the values of the watched keys,
    /// or, with nothing to watch, sends the empty snapshot.
    pub fn on_tick(&mut self) -> (actions: Vec<Action>)
        requires
            old(self).wf(),
        ensures
            final(self).wf(),
            final(self)@ == tick_step(old(self)@).0,
            action_views(actions@) == tick_step(old(self)@).1,
    {
        match self.phase {
            Phase::Active => {
                if self.members.is_empty() {
                    let none: Vec<Option<i64>> = Vec::new();
                    assert(none@ =~= Seq::<Option<i64>>::empty());
                    self.emit(&none)
                } else {
                    let mut actions: Vec<Action> = Vec::new();
                    actions.push(Action::BatchRead(copy_keys(self.members.keys())));
                    assert(action_views(actions@) =~= seq![ActionView::BatchRead(self@.members)]);
                    actions
                }
            },
            _ => {
                let actions: Vec<Action> = Vec::new();
                assert(action_views(actions@) =~= Seq::<ActionView>::empty());
                actions
            },
        }
    }

    /// Takes the values that the store read for the watched keys, and sends
    /// the snapshot: every watched key with its value, 0 for a key that the
    /// store does not have, and `clear` set if the membership changed since
    /// the last snapshot.
    pub fn on_scores(&mut self, values: &Vec<Option<i64>>) -> (actions: Vec<Action>)
        requires
            old(self).wf(),
        ensures
            final(self).wf(),
            final(self)@ == scores_step(old(self)@, values@).0,
            action_views(actions@) == scores_step(old(self)@, values@).1,
    {
        match self.phase {
            Phase::Active => self.emit(values),
            _ => {
                let actions: Vec<Action> = Vec::new();
                assert(action_views(actions@) =~= Seq::<ActionView>::empty());
                actions
            },
        }
    }

    /// Takes a pushed notification: a join adds the named key, a leave
    /// removes it, and either sets the dirty flag if the membership changed.
    /// A name that is not text ends the session.
    pub fn on_push(&mut self, push: Push) -> (actions: Vec<Action>)
        requires
            old(self).wf(),
        ensures
            final(self).wf(),
            final(self)@ == push_step(old(self)@, push@).0,
            action_views(actions@) == push_step(old(self)@, push@).1,
    {
        let ghost view = push@;
        let mut data = push.data;
        let mut quiet: Vec<Action> = Vec::new();
        assert(action_views(quiet@) =~= Seq::<ActionView>::empty());
        match self.phase {
            Phase::Active => {},
            _ => {
                return quiet;
            },
        }
        if !push.is_message || data.len() < 2 {
            return quiet;
        }
        let last = data.pop();
        let before = data.pop();
        match (before, last) {
            (Some(PushValue::Bulk(channel)), Some(PushValue::Bulk(name))) => {
                assert(view.data[view.data.len() - 2] == PushValueView::Bulk(channel@));
                assert(view.data[view.data.len() - 1] == PushValueView::Bulk(name@));
                let join = bytes_eq(channel.as_slice(), JOINS.as_bytes());
                let leave = bytes_eq(channel.as_slice(), LEAVES.as_bytes());
                if !join && !leave {
                    return quiet;
                }
                match string_from_utf8(name) {
                    None => self.fail(Error(BAD_REQUEST, String::from_str(NAME_NOT_UTF8))),
                    Some(key) => {
                        let changed = if join {
                            self.members.insert(key)
                        } else {
                            self.members.remove(key.as_str())
                        };
                        if changed {
                            self.dirty = true;
                        }
                        quiet
                    },
                }
            },
            _ => {
                assert(notice(view) == Notice::Ignored);
                quiet
            },
        }
    }

    /// Takes the failure of a store operation: before the name is known the
    /// connection is refused, and a running session ends with the report.
    pub fn on_failure(&mut self, report: String) -> (actions: Vec<Action>)
        requires
            old(self).wf(),
        ensures
            final(self).wf(),
            final(self)@ == failure_step(old(self)@, report@).0,
            action_views(actions@) == failure_step(old(self)@, report@).1,
    {
        match self.phase {
            Phase::AwaitingName => self.reject(HandshakeError::StoreUnavailable),
            Phase::Active => self.fail(Error(INTERNAL_SERVER_ERROR, report)),
            Phase::Closed => {
                let actions: Vec<Action> = Vec::new();
                assert(action_views(actions@) =~= Seq::<ActionView>::empty());
                actions
            },
        }
    }

    /// Takes one event and says what is to be done, in order.
    pub fn step(&mut self, event: Event) -> (actions: Vec<Action>)
        requires
            old(self).wf(),
        ensures
            final(self).wf(),
            final(self)@ == next(old(self)@, event@).0,
            action_views(actions@) == next(old(self)@, event@).1,
    {
        match event {
            Event::Inbound(frame) => self.on_inbound(frame),
            Event::Keys(keys) => self.on_keys(&keys),
            Event::Tick => self.on_tick(),
            Event::Scores(values) => self.on_scores(&values),
            Event::Push(push) => self.on_push(push),
            Event::StoreFailed(report) => self.on_failure(report),
        }
    }
}

} // verus!
