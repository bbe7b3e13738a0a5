//! What holds of every session, whatever events reach it.

use vstd::prelude::*;
use crate::membership::{absorbed, lemma_absorbed, lemma_without, spectator, without};
use crate::message::{encodable, frame_bytes, lemma_body_size};
use crate::order::{latest, lemma_latest_is_some, lemma_values_for_single};
use crate::scoreboard::{distinct_keys, has_key, lemma_place_of, lookup, patched, place_of, rebuilt};
use crate::session::{
    cleanup, joined, next, notice, registration, score_at, snapshot, snapshot_envelope,
    ActionView, EventView, InboundView, Notice, Phase, PushView, SessionState,
};

verus! {

/// Whether an action touches the store or the directory under `key`.
pub open spec fn registers(action: ActionView, key: Seq<char>) -> bool {
    match action {
        ActionView::Initialize(k) => k == key,
        ActionView::Delete(k) => k == key,
        ActionView::Publish(_, k) => k == key,
        _ => false,
    }
}

/// Whether an action creates, deletes or announces anything.
pub open spec fn touches_presence(action: ActionView) -> bool {
    action is Initialize || action is Delete || action is Publish
}

/// Every step keeps the session well-formed: no key is watched twice and
/// the spectator key is never watched, whatever a notification names.
pub proof fn law_step_keeps_wf(s: SessionState, event: EventView)
    requires
        s.wf(),
    ensures
        next(s, event).0.wf(),
{
    match event {
        EventView::Keys(keys) => {
            lemma_absorbed(s.members, keys, s.name);
            let out = absorbed(s.members, keys, s.name);
            if out.contains(spectator()) {
                assert(out.to_set().contains(spectator()));
                assert(s.members.to_set().contains(spectator()));
            }
        },
        EventView::Push(push) => {
            match notice(push) {
                Notice::Leave(key) => {
                    lemma_without(s.members, key);
                    let out = without(s.members, key);
                    if out.contains(spectator()) {
                        assert(out.to_set().contains(spectator()));
                        assert(s.members.to_set().contains(spectator()));
                    }
                },
                Notice::Join(key) => {
                    if key != spectator() && !s.members.contains(key) {
                        let out = s.members.push(key);
                        assert forall|a: int, b: int|
                            0 <= a < out.len() && 0 <= b < out.len() && a != b implies out[a]
                            != out[b] by {
                            if a == out.len() - 1 {
                                assert(s.members[b] == out[b]);
                            } else if b == out.len() - 1 {
                                assert(s.members[a] == out[a]);
                            }
                        }
                        if out.contains(spectator()) {
                            let i = out.index_of(spectator());
                            assert(s.members[i] == spectator());
                        }
                    }
                },
                _ => {},
            }
        },
        _ => {},
    }
}

/// No step creates, deletes or announces the spectator key.
pub proof fn law_spectator_never_registered(s: SessionState, event: EventView, i: int)
    requires
        0 <= i < next(s, event).1.len(),
    ensures
        !registers(next(s, event).1[i], spectator()),
{
}

/// A session of the spectator, once it runs, creates, deletes and announces
/// nothing at all.
pub proof fn law_spectator_leaves_no_trace(s: SessionState, event: EventView, i: int)
    requires
        s.phase != Phase::AwaitingName,
        s.name == spectator(),
        0 <= i < next(s, event).1.len(),
    ensures
        !touches_presence(next(s, event).1[i]),
{
}

/// The name frame of the spectator asks only to enumerate and to subscribe.
pub proof fn law_spectator_handshake()
    ensures
        registration(spectator()) == seq![ActionView::EnumerateKeys, ActionView::Subscribe],
        cleanup(spectator()) == Seq::<ActionView>::empty(),
{
}


/// A session that does not get a name never starts and touches nothing:
/// whatever comes first that is no text frame, the connection is refused
/// and no other action is asked for.
pub proof fn law_failed_handshake_touches_nothing(s: SessionState, event: EventView)
    requires
        s.phase == Phase::AwaitingName,
        !(event matches EventView::Inbound(InboundView::Text(_))),
    ensures
        next(s, event).0.phase != Phase::Active,
        next(s, event).0.members == s.members,
        next(s, event).1.len() <= 1,
        forall|i: int| 0 <= i < next(s, event).1.len() ==> next(s, event).1[i] is Reject,
{
}

/// A session that is over stays over, and asks for nothing more.
pub proof fn law_closed_is_final(s: SessionState, event: EventView)
    requires
        s.phase == Phase::Closed,
    ensures
        next(s, event) == (s, Seq::<ActionView>::empty()),
{
}

/// Whatever ends a running session, the departure is cleaned up: the last
/// actions delete the key and announce the leave, and before them there is
/// at most the error for the client.
pub proof fn law_leaving_cleans_up(s: SessionState, event: EventView)
    requires
        s.phase == Phase::Active,
        next(s, event).0.phase == Phase::Closed,
    ensures
        next(s, event).1 == cleanup(s.name) || exists|error: (u16, Seq<char>)|
            next(s, event).1 == seq![ActionView::SendError(error)] + cleanup(s.name),
{
    let acts = next(s, event).1;
    if acts != cleanup(s.name) {
        assert(acts.len() > 0);
        let error = acts[0]->SendError_0;
        assert(acts == seq![ActionView::SendError(error)] + cleanup(s.name));
    }
}

/// The state after a sequence of events.
pub open spec fn run(s: SessionState, events: Seq<EventView>) -> SessionState
    decreases events.len(),
{
    if events.len() == 0 {
        s
    } else {
        next(run(s, events.drop_last()), events.last()).0
    }
}

/// The keys that are registered after a sequence of joins and leaves, from
/// the keys registered before it: a join registers its key unless it is the
/// spectator key, a leave takes its key out.
pub open spec fn registered(start: Set<Seq<char>>, notices: Seq<Notice>) -> Set<Seq<char>>
    decreases notices.len(),
{
    if notices.len() == 0 {
        start
    } else {
        let before = registered(start, notices.drop_last());
        match notices.last() {
            Notice::Join(key) => if key == spectator() {
                before
            } else {
                before.insert(key)
            },
            Notice::Leave(key) => before.remove(key),
            _ => before,
        }
    }
}

/// The events of a sequence of pushed notifications.
pub open spec fn push_events(pushes: Seq<PushView>) -> Seq<EventView> {
    pushes.map_values(|p: PushView| EventView::Push(p))
}

/// What a sequence of pushed notifications says.
pub open spec fn notices(pushes: Seq<PushView>) -> Seq<Notice> {
    pushes.map_values(|p: PushView| notice(p))
}

/// The set of keys after a join is the set before it with the key, unless
/// it is the spectator key.
pub proof fn lemma_joined_set(members: Seq<Seq<char>>, key: Seq<char>)
    ensures
        joined(members, key).to_set() == if key == spectator() {
            members.to_set()
        } else {
            members.to_set().insert(key)
        },
{
    if key == spectator() {
    } else if members.contains(key) {
        assert(members.to_set().contains(key));
        assert(members.to_set().insert(key) =~= members.to_set());
    } else {
        members.lemma_push_to_set_commute(key);
    }
}

/// After any sequence of join and leave notifications, a running session
/// watches exactly the keys that are registered: those it watched before,
/// with every key that joined and without every key that left, in the order
/// of the notifications.
pub proof fn law_membership_follows_notifications(s: SessionState, pushes: Seq<PushView>)
    requires
        s.wf(),
        s.phase == Phase::Active,
        forall|i: int|
            0 <= i < pushes.len() ==> notice(#[trigger] pushes[i]) is Join || notice(
                pushes[i],
            ) is Leave,
    ensures
        run(s, push_events(pushes)).wf(),
        run(s, push_events(pushes)).phase == Phase::Active,
        run(s, push_events(pushes)).members.to_set() == registered(
            s.members.to_set(),
            notices(pushes),
        ),
    decreases pushes.len(),
{
    if pushes.len() > 0 {
        let front = pushes.drop_last();
        let last = pushes.last();
        assert(push_events(pushes).drop_last() =~= push_events(front));
        assert(notices(pushes).drop_last() =~= notices(front));
        assert(push_events(pushes).last() == EventView::Push(last));
        assert(notices(pushes).last() == notice(last));
        assert forall|i: int| 0 <= i < front.len() implies notice(#[trigger] front[i]) is Join
            || notice(front[i]) is Leave by {
            assert(front[i] == pushes[i]);
        }
        law_membership_follows_notifications(s, front);
        let before = run(s, push_events(front));
        law_step_keeps_wf(before, EventView::Push(last));
        match notice(last) {
            Notice::Join(key) => {
                lemma_joined_set(before.members, key);
            },
            Notice::Leave(key) => {
                lemma_without(before.members, key);
            },
            _ => {},
        }
    }
}

/// A join of a key that is watched already, or of the spectator key,
/// changes nothing and asks for nothing.
pub proof fn law_duplicate_join_is_no_op(s: SessionState, push: PushView, key: Seq<char>)
    requires
        s.phase == Phase::Active,
        notice(push) == Notice::Join(key),
        s.members.contains(key) || key == spectator(),
    ensures
        next(s, EventView::Push(push)) == (s, Seq::<ActionView>::empty()),
{
}

/// A leave of a key that is not watched changes nothing and asks for
/// nothing.
pub proof fn law_absent_leave_is_no_op(s: SessionState, push: PushView, key: Seq<char>)
    requires
        s.phase == Phase::Active,
        notice(push) == Notice::Leave(key),
        !s.members.contains(key),
    ensures
        next(s, EventView::Push(push)) == (s, Seq::<ActionView>::empty()),
{
}

/// A join of a key that is new puts it at the end of the membership and
/// sets the dirty flag.
pub proof fn law_join_changes_membership(s: SessionState, push: PushView, key: Seq<char>)
    requires
        s.phase == Phase::Active,
        notice(push) == Notice::Join(key),
        key != spectator(),
        !s.members.contains(key),
    ensures
        next(s, EventView::Push(push)) == (
            SessionState { members: s.members.push(key), dirty: true, ..s },
            Seq::<ActionView>::empty(),
        ),
{
    assert(s.members.push(key).len() != s.members.len());
}

/// A leave of a key that is watched takes it out of the membership and sets
/// the dirty flag.
pub proof fn law_leave_changes_membership(s: SessionState, push: PushView, key: Seq<char>)
    requires
        s.wf(),
        s.phase == Phase::Active,
        notice(push) == Notice::Leave(key),
        s.members.contains(key),
    ensures
        next(s, EventView::Push(push)) == (
            SessionState { members: without(s.members, key), dirty: true, ..s },
            Seq::<ActionView>::empty(),
        ),
        without(s.members, key).to_set() == s.members.to_set().remove(key),
{
    lemma_without(s.members, key);
}

/// A snapshot that fits the wire goes out as one message that holds every
/// watched key with the value read for it, and `clear` as the dirty flag
/// was; after it the flag is reset and nothing else has changed.
pub proof fn law_snapshot(s: SessionState, values: Seq<Option<i64>>)
    requires
        s.phase == Phase::Active,
        encodable(snapshot_envelope(s, values)),
    ensures
        next(s, EventView::Scores(values)) == (
            SessionState { dirty: false, ..s },
            seq![ActionView::Send(frame_bytes(snapshot_envelope(s, values)))],
        ),
        snapshot_envelope(s, values).clear == Some(s.dirty),
        snapshot_envelope(s, values).updates == Some(snapshot(s.members, values)),
{
}

/// With nothing to watch, a tick sends the empty snapshot at once, with
/// `clear` as the dirty flag was, and resets the flag.
pub proof fn law_empty_tick_sends(s: SessionState)
    requires
        s.phase == Phase::Active,
        s.members.len() == 0,
    ensures
        next(s, EventView::Tick) == (
            SessionState { dirty: false, ..s },
            seq![ActionView::Send(frame_bytes(snapshot_envelope(s, Seq::empty())))],
        ),
        snapshot_envelope(s, Seq::empty()).updates == Some(Seq::<(Seq<char>, i64)>::empty()),
{
    let m = snapshot_envelope(s, Seq::empty());
    assert(snapshot(s.members, Seq::empty()) =~= Seq::<(Seq<char>, i64)>::empty());
    lemma_body_size(m);
}

/// With keys to watch, a tick asks for their values and changes nothing.
pub proof fn law_tick_reads_watched_keys(s: SessionState)
    requires
        s.phase == Phase::Active,
        s.members.len() > 0,
    ensures
        next(s, EventView::Tick) == (s, seq![ActionView::BatchRead(s.members)]),
{
}

/// A key that the store did not return a value for is in the snapshot all
/// the same, with value 0: a miss leaves no key out and ends no session.
pub proof fn law_miss_reads_zero(s: SessionState, values: Seq<Option<i64>>, i: int)
    requires
        0 <= i < s.members.len(),
        i >= values.len() || values[i] is None,
    ensures
        snapshot(s.members, values).len() == s.members.len(),
        snapshot(s.members, values)[i] == (s.members[i], 0i64),
{
}

/// Whether the step from `s` on `event` leaves the session running and sends
/// no snapshot.
pub open spec fn quiet(s: SessionState, event: EventView) -> bool {
    &&& next(s, event).0.phase == Phase::Active
    &&& forall|i: int| 0 <= i < next(s, event).1.len() ==> !(#[trigger] next(s, event).1[i] is Send)
}

/// Whether every step of a sequence of events is quiet.
pub open spec fn all_quiet(s: SessionState, events: Seq<EventView>) -> bool
    decreases events.len(),
{
    events.len() == 0 || (all_quiet(s, events.drop_last()) && quiet(
        run(s, events.drop_last()),
        events.last(),
    ))
}

/// Whether some step of a sequence of events changed the membership.
pub open spec fn membership_changed(s: SessionState, events: Seq<EventView>) -> bool
    decreases events.len(),
{
    events.len() > 0 && (membership_changed(s, events.drop_last()) || run(s, events).members
        != run(s, events.drop_last()).members)
}

/// A quiet step sets the dirty flag if it changes the membership, and
/// otherwise leaves the flag alone.
pub proof fn law_quiet_step_marks_change(s: SessionState, event: EventView)
    requires
        s.phase == Phase::Active,
        quiet(s, event),
    ensures
        next(s, event).0.dirty == (s.dirty || next(s, event).0.members != s.members),
{
    let acts = next(s, event).1;
    match event {
        EventView::Tick => {
            if s.members.len() == 0 {
                if encodable(snapshot_envelope(s, Seq::empty())) {
                    assert(acts[0] is Send);
                }
            }
        },
        EventView::Scores(values) => {
            if encodable(snapshot_envelope(s, values)) {
                assert(acts[0] is Send);
            }
        },
        _ => {},
    }
}

/// Between two snapshots the dirty flag says whether the membership
/// changed: after any events that send no snapshot, the flag is set if it
/// was set before or some event changed the membership, and not otherwise.
/// So the snapshot after a change carries `clear` set, once, and those after
/// it do not, until the next change.
pub proof fn law_clear_marks_membership_change(s: SessionState, events: Seq<EventView>)
    requires
        s.phase == Phase::Active,
        all_quiet(s, events),
    ensures
        run(s, events).phase == Phase::Active,
        run(s, events).dirty == (s.dirty || membership_changed(s, events)),
    decreases events.len(),
{
    if events.len() > 0 {
        law_clear_marks_membership_change(s, events.drop_last());
        law_quiet_step_marks_change(run(s, events.drop_last()), events.last());
    }
}


/// A snapshot holds one value for every watched key, the one read for it,
/// and none for any other key.
pub proof fn lemma_latest_of_snapshot(
    members: Seq<Seq<char>>,
    values: Seq<Option<i64>>,
    key: Seq<char>,
)
    requires
        members.no_duplicates(),
    ensures
        latest(snapshot(members, values), key) == if members.contains(key) {
            Some(score_at(values, members.index_of(key)))
        } else {
            None
        },
{
    let list = snapshot(members, values);
    lemma_latest_is_some(list, key);
    if members.contains(key) {
        let at = members.index_of(key);
        assert(list[at] == (key, score_at(values, at)));
        assert forall|j: int| 0 <= j < list.len() && j != at implies (#[trigger] list[j]).0
            != list[at].0 by {
            assert(list[j].0 == members[j]);
        }
        lemma_values_for_single(list, at);
    } else {
        if exists|i: int| 0 <= i < list.len() && (#[trigger] list[i]).0 == key {
            let i = choose|i: int| 0 <= i < list.len() && (#[trigger] list[i]).0 == key;
            assert(members[i] == key);
        }
    }
}

/// A client that rebuilds its scoreboard from a snapshot shows what the
/// session watches: every watched key with the value read for it, and no
/// other key.
pub proof fn law_rebuilt_board_shows_snapshot(
    board: Seq<(Seq<char>, i64)>,
    members: Seq<Seq<char>>,
    values: Seq<Option<i64>>,
)
    requires
        members.no_duplicates(),
        rebuilt(board, snapshot(members, values)),
    ensures
        forall|key: Seq<char>| has_key(board, key) <==> members.contains(key),
        forall|i: int|
            0 <= i < members.len() ==> lookup(board, #[trigger] members[i]) == Some(
                score_at(values, i),
            ),
{
    assert forall|key: Seq<char>| has_key(board, key) <==> members.contains(key) by {
        lemma_latest_of_snapshot(members, values, key);
        assert(lookup(board, key) == latest(snapshot(members, values), key));
    }
    assert forall|i: int| 0 <= i < members.len() implies lookup(board, #[trigger] members[i])
        == Some(score_at(values, i)) by {
        lemma_latest_of_snapshot(members, values, members[i]);
        assert(lookup(board, members[i]) == latest(snapshot(members, values), members[i]));
    }
}

/// A client that patches its scoreboard with a snapshot shows the values
/// read for the keys it has, and has the keys it had: a patch brings no key
/// in and takes none out, which is why a change of the membership asks for
/// `clear`.
pub proof fn law_patched_board_shows_snapshot(
    board: Seq<(Seq<char>, i64)>,
    members: Seq<Seq<char>>,
    values: Seq<Option<i64>>,
)
    requires
        members.no_duplicates(),
        distinct_keys(board),
    ensures
        distinct_keys(patched(board, snapshot(members, values))),
        forall|key: Seq<char>|
            has_key(patched(board, snapshot(members, values)), key) <==> has_key(board, key),
        forall|i: int|
            0 <= i < members.len() && has_key(board, members[i]) ==> lookup(
                patched(board, snapshot(members, values)),
                #[trigger] members[i],
            ) == Some(score_at(values, i)),
        forall|key: Seq<char>|
            !members.contains(key) ==> lookup(patched(board, snapshot(members, values)), key)
                == lookup(board, key),
{
    let list = snapshot(members, values);
    let out = patched(board, list);
    assert forall|i: int, j: int| 0 <= i < j < out.len() implies (#[trigger] out[i]).0 != (
    #[trigger] out[j]).0 by {
        assert(board[i].0 != board[j].0);
    }
    assert forall|key: Seq<char>| has_key(out, key) <==> has_key(board, key) by {
        if has_key(out, key) {
            let i = place_of(out, key);
            assert(board[i].0 == key);
        }
        if has_key(board, key) {
            let i = place_of(board, key);
            assert(out[i].0 == key);
        }
    }
    assert forall|i: int| 0 <= i < members.len() && has_key(board, members[i]) implies lookup(
        out,
        #[trigger] members[i],
    ) == Some(score_at(values, i)) by {
        let key = members[i];
        lemma_latest_of_snapshot(members, values, key);
        let at = place_of(board, key);
        assert(out[at] == (key, score_at(values, i)));
        lemma_place_of(out, at);
    }
    assert forall|key: Seq<char>| !members.contains(key) implies lookup(out, key) == lookup(
        board,
        key,
    ) by {
        lemma_latest_of_snapshot(members, values, key);
        if has_key(board, key) {
            let at = place_of(board, key);
            lemma_place_of(board, at);
            assert(out[at] == board[at]);
            lemma_place_of(out, at);
        }
    }
}

} // verus!
