//! The client's view of the game: every player's score, in a fixed order,
//! kept up to date from the snapshots that the server sends.

use vstd::prelude::*;
use indexmap::IndexMap;
use crate::message::{
    encodable, entries, frame_bytes, parse_frame, EncodeError, Envelope, GameMessage, KeyValue,
};
use crate::text::str_eq;
use crate::order::{
    key_le, latest, lemma_key_le_antisymmetric, lemma_latest_is_some, lemma_values_for_push,
    names_with, players, sort_by_key, sort_by_score, sorted, values_for,
};

verus! {

/// `indexmap::IndexMap`, taken as a type whose inside is not looked at.
#[verifier::external_type_specification]
#[verifier::external_body]
#[verifier::reject_recursive_types(K)]
#[verifier::reject_recursive_types(V)]
#[verifier::reject_recursive_types(S)]
pub struct ExIndexMap<K, V, S>(IndexMap<K, V, S>);

/// The pairs that a map holds, in its order.
pub uninterp spec fn pairs(map: IndexMap<String, i64>) -> Seq<(Seq<char>, i64)>;

/// Whether some pair has the key.
pub open spec fn has_key(list: Seq<(Seq<char>, i64)>, key: Seq<char>) -> bool {
    exists|i: int| 0 <= i < list.len() && (#[trigger] list[i]).0 == key
}

/// Where a pair with the key stands.
pub open spec fn place_of(list: Seq<(Seq<char>, i64)>, key: Seq<char>) -> int {
    choose|i: int| 0 <= i < list.len() && (#[trigger] list[i]).0 == key
}

/// The value of the pair with the key, if there is one.
pub open spec fn lookup(list: Seq<(Seq<char>, i64)>, key: Seq<char>) -> Option<i64> {
    if has_key(list, key) {
        Some(list[place_of(list, key)].1)
    } else {
        None
    }
}

/// The pairs after an insertion: the pair with the key keeps its place and
/// gets the value, and a key that is new goes to the end.
pub open spec fn inserted(list: Seq<(Seq<char>, i64)>, key: Seq<char>, value: i64) -> Seq<
    (Seq<char>, i64),
> {
    if has_key(list, key) {
        list.update(place_of(list, key), (key, value))
    } else {
        list.push((key, value))
    }
}

/// Calls `IndexMap::new`. Trusted: the new map holds nothing.
#[verifier::external_body]
fn map_new() -> (map: IndexMap<String, i64>)
    ensures
        pairs(map) == Seq::<(Seq<char>, i64)>::empty(),
{
    IndexMap::new()
}

/// Calls `IndexMap::len`. Trusted: it is the number of pairs.
#[verifier::external_body]
fn map_len(map: &IndexMap<String, i64>) -> (n: usize)
    ensures
        n == pairs(*map).len(),
{
    map.len()
}

/// Calls `IndexMap::get`. Trusted: it finds the value stored for the key.
#[verifier::external_body]
fn map_get(map: &IndexMap<String, i64>, key: &str) -> (value: Option<i64>)
    ensures
        value == lookup(pairs(*map), key@),
{
    map.get(key).copied()
}

/// Calls `IndexMap::get_index`. Trusted: it hands out the pair at the
/// index, and nothing beyond the last pair.
#[verifier::external_body]
fn map_at(map: &IndexMap<String, i64>, index: usize) -> (pair: Option<(String, i64)>)
    ensures
        match pair {
            Some((key, value)) => index < pairs(*map).len() && pairs(*map)[index as int] == (
                key@,
                value,
            ),
            None => index >= pairs(*map).len(),
        },
{
    map.get_index(index).map(|(key, value)| (key.clone(), *value))
}

/// Calls `IndexMap::insert`. Trusted: a key that the map has keeps its place
/// and gets the new value, and a key that is new is put last.
#[verifier::external_body]
fn map_insert(map: &mut IndexMap<String, i64>, key: String, value: i64)
    ensures
        pairs(*final(map)) == inserted(pairs(*old(map)), key@, value),
{
    map.insert(key, value);
}


/// Whether no two pairs have the same key.
pub open spec fn distinct_keys(list: Seq<(Seq<char>, i64)>) -> bool {
    forall|i: int, j: int|
        0 <= i < j < list.len() ==> (#[trigger] list[i]).0 != (#[trigger] list[j]).0
}

/// Whether the keys go up from each pair to the next.
pub open spec fn ascending(list: Seq<(Seq<char>, i64)>) -> bool {
    forall|i: int, j: int|
        0 <= i < j < list.len() ==> key_le((#[trigger] list[i]).0, (#[trigger] list[j]).0)
            && list[i].0 != list[j].0
}

/// The pairs after a patch: the same keys in the same places, each with the
/// value that the updates hold last for it, or with its own where they hold
/// none. Updates for keys that the pairs do not have are left out.
pub open spec fn patched(list: Seq<(Seq<char>, i64)>, updates: Seq<(Seq<char>, i64)>) -> Seq<
    (Seq<char>, i64),
> {
    Seq::new(
        list.len(),
        |i: int|
            (
                list[i].0,
                match latest(updates, list[i].0) {
                    Some(value) => value,
                    None => list[i].1,
                },
            ),
    )
}

/// Whether `list` is what a full update list rebuilds: the keys of the
/// updates, each once, going up, each with the value that the updates hold
/// last for it.
pub open spec fn rebuilt(list: Seq<(Seq<char>, i64)>, updates: Seq<(Seq<char>, i64)>) -> bool {
    &&& ascending(list)
    &&& forall|key: Seq<char>| #[trigger] lookup(list, key) == latest(updates, key)
}

/// In pairs with distinct keys, the pair with a key stands at one place.
pub proof fn lemma_place_of(list: Seq<(Seq<char>, i64)>, i: int)
    requires
        distinct_keys(list),
        0 <= i < list.len(),
    ensures
        has_key(list, list[i].0),
        place_of(list, list[i].0) == i,
        lookup(list, list[i].0) == Some(list[i].1),
{
    let key = list[i].0;
    assert(list[i].0 == key);
    let at = place_of(list, key);
    if at < i {
        assert(list[at].0 != list[i].0);
    } else if i < at {
        assert(list[i].0 != list[at].0);
    }
}

/// An insertion keeps the keys distinct, gives the key its value and leaves
/// the values of the other keys alone.
pub proof fn lemma_inserted(list: Seq<(Seq<char>, i64)>, key: Seq<char>, value: i64)
    requires
        distinct_keys(list),
    ensures
        distinct_keys(inserted(list, key, value)),
        forall|k: Seq<char>| #[trigger]
            lookup(inserted(list, key, value), k) == if k == key {
                Some(value)
            } else {
                lookup(list, k)
            },
{
    let out = inserted(list, key, value);
    let at = if has_key(list, key) {
        place_of(list, key)
    } else {
        list.len() as int
    };
    assert(out[at] == (key, value));
    assert forall|i: int| 0 <= i < out.len() && i != at implies #[trigger] out[i] == list[i]
        && out[i].0 != key by {
        if has_key(list, key) {
            if i < at {
                assert(list[i].0 != list[at].0);
            } else {
                assert(list[at].0 != list[i].0);
            }
        } else {
            if list[i].0 == key {
                assert(has_key(list, key));
            }
        }
    }
    assert forall|i: int, j: int| 0 <= i < j < out.len() implies (#[trigger] out[i]).0 != (
    #[trigger] out[j]).0 by {
        if i != at && j != at {
            assert(list[i].0 != list[j].0);
        }
    }
    assert forall|k: Seq<char>| #[trigger]
        lookup(out, k) == if k == key {
            Some(value)
        } else {
            lookup(list, k)
        } by {
        if k == key {
            lemma_place_of(out, at);
        } else {
            if has_key(list, k) {
                let i = place_of(list, k);
                lemma_place_of(list, i);
                assert(i != at);
                assert(out[i] == list[i]);
                lemma_place_of(out, i);
            }
            if has_key(out, k) {
                let i = place_of(out, k);
                assert(i != at);
                assert(out[i] == list[i]);
                lemma_place_of(list, i);
                lemma_place_of(out, i);
            }
        }
    }
}

/// Pairs whose keys go up have distinct keys.
pub proof fn lemma_ascending_is_distinct(list: Seq<(Seq<char>, i64)>)
    requires
        ascending(list),
    ensures
        distinct_keys(list),
{
    assert forall|i: int, j: int| 0 <= i < j < list.len() implies (#[trigger] list[i]).0 != (
    #[trigger] list[j]).0 by {
        assert(key_le(list[i].0, list[j].0) && list[i].0 != list[j].0);
    }
}

/// Two lists whose keys go up and that hold the same value for every key
/// are the same list.
pub proof fn lemma_ascending_is_unique(a: Seq<(Seq<char>, i64)>, b: Seq<(Seq<char>, i64)>)
    requires
        ascending(a),
        ascending(b),
        forall|key: Seq<char>| #[trigger] lookup(a, key) == lookup(b, key),
    ensures
        a == b,
    decreases a.len(),
{
    lemma_ascending_is_distinct(a);
    lemma_ascending_is_distinct(b);
    if a.len() == 0 {
        if b.len() > 0 {
            lemma_place_of(b, 0);
            assert(lookup(a, b[0].0) == lookup(b, b[0].0));
        }
        assert(a =~= b);
    } else {
        let x = a.last();
        lemma_place_of(a, a.len() - 1);
        assert(lookup(b, x.0) == lookup(a, x.0));
        let at = place_of(b, x.0);
        lemma_place_of(b, at);
        let y = b.last();
        lemma_place_of(b, b.len() - 1);
        assert(lookup(a, y.0) == lookup(b, y.0));
        let back = place_of(a, y.0);
        lemma_place_of(a, back);
        // the last keys are each the greatest, so they are the same key
        if at < b.len() - 1 && back < a.len() - 1 {
            assert(key_le(b[at].0, b[b.len() - 1].0));
            assert(key_le(a[back].0, a[a.len() - 1].0));
            lemma_key_le_antisymmetric(x.0, y.0);
        }
        assert(x == y);
        let a0 = a.drop_last();
        let b0 = b.drop_last();
        assert forall|key: Seq<char>| #[trigger] lookup(a0, key) == lookup(b0, key) by {
            lemma_ascending_is_distinct(a0);
            lemma_ascending_is_distinct(b0);
            assert(lookup(a, key) == lookup(b, key));
            if has_key(a0, key) {
                let i = place_of(a0, key);
                assert(a[i] == a0[i]);
                lemma_place_of(a, i);
                lemma_place_of(a0, i);
                let j = place_of(b, key);
                lemma_place_of(b, j);
                assert(j != b.len() - 1) by {
                    assert(a[i].0 != a[a.len() - 1].0);
                }
                assert(b0[j] == b[j]);
                lemma_place_of(b0, j);
            }
            if has_key(b0, key) {
                let j = place_of(b0, key);
                assert(b[j] == b0[j]);
                lemma_place_of(b, j);
                lemma_place_of(b0, j);
                let i = place_of(a, key);
                lemma_place_of(a, i);
                assert(i != a.len() - 1) by {
                    assert(b[j].0 != b[b.len() - 1].0);
                }
                assert(a0[i] == a[i]);
                lemma_place_of(a0, i);
            }
        }
        lemma_ascending_is_unique(a0, b0);
        assert(a =~= a0.push(x));
        assert(b =~= b0.push(y));
    }
}

/// What a full update list rebuilds is one list and no other.
pub proof fn law_rebuilt_is_unique(
    a: Seq<(Seq<char>, i64)>,
    b: Seq<(Seq<char>, i64)>,
    updates: Seq<(Seq<char>, i64)>,
)
    requires
        rebuilt(a, updates),
        rebuilt(b, updates),
    ensures
        a == b,
{
    assert forall|key: Seq<char>| #[trigger] lookup(a, key) == lookup(b, key) by {
        assert(lookup(a, key) == latest(updates, key));
        assert(lookup(b, key) == latest(updates, key));
    }
    lemma_ascending_is_unique(a, b);
}

/// The scores of the players that the client knows of, in a fixed order.
pub struct Scoreboard {
    people: IndexMap<String, i64>,
}

impl View for Scoreboard {
    type V = Seq<(Seq<char>, i64)>;

    closed spec fn view(&self) -> Seq<(Seq<char>, i64)> {
        pairs(self.people)
    }
}

impl Scoreboard {
    /// No player is there twice.
    pub open spec fn wf(&self) -> bool {
        distinct_keys(self@)
    }

    /// The scoreboard without players.
    pub fn new() -> (board: Scoreboard)
        ensures
            board.wf(),
            board@ == Seq::<(Seq<char>, i64)>::empty(),
    {
        Scoreboard { people: map_new() }
    }

    /// The number of players.
    pub fn len(&self) -> (n: usize)
        ensures
            n == self@.len(),
    {
        map_len(&self.people)
    }

    /// The score of a player, if the player is there.
    pub fn score(&self, name: &str) -> (score: Option<i64>)
        ensures
            score == lookup(self@, name@),
    {
        map_get(&self.people, name)
    }

    /// The player at a place with its score, and nothing beyond the last.
    pub fn entry(&self, index: usize) -> (pair: Option<(String, i64)>)
        ensures
            match pair {
                Some((name, score)) => index < self@.len() && self@[index as int] == (name@, score),
                None => index >= self@.len(),
            },
    {
        map_at(&self.people, index)
    }

    /// Sets the scores that the updates name, for the players that are
    /// there. The players and their places stay.
    pub fn patch(&mut self, updates: &Vec<KeyValue>)
        requires
            old(self).wf(),
        ensures
            final(self).wf(),
            final(self)@ == patched(old(self)@, entries(updates@)),
    {
        let ghost before = self@;
        let ghost all = entries(updates@);
        let mut i: usize = 0;
        assert(all.subrange(0, 0) =~= Seq::<(Seq<char>, i64)>::empty());
        assert(self@ =~= patched(before, all.subrange(0, 0)));
        while i < updates.len()
            invariant
                i <= updates.len(),
                all == entries(updates@),
                distinct_keys(before),
                self.wf(),
                self@ == patched(before, all.subrange(0, i as int)),
            decreases updates.len() - i,
        {
            let ghost done = all.subrange(0, i as int);
            let ghost now = self@;
            let ghost key = updates@[i as int].key@;
            let ghost value = updates@[i as int].value;
            proof {
                assert(all.subrange(0, i + 1) =~= done.push((key, value)));
                lemma_values_for_push(done, (key, value), key);
                lemma_inserted(now, key, value);
            }
            if map_get(&self.people, updates[i].key.as_str()).is_some() {
                map_insert(&mut self.people, updates[i].key.clone(), updates[i].value);
                proof {
                    let next = patched(before, done.push((key, value)));
                    let at = place_of(now, key);
                    assert(self@ == now.update(at, (key, value)));
                    assert forall|j: int| 0 <= j < now.len() implies self@[j] == next[j] by {
                        lemma_values_for_push(done, (key, value), before[j].0);
                        if j != at {
                            if now[j].0 == key {
                                lemma_place_of(now, j);
                            }
                        }
                    }
                    assert(self@ =~= next);
                }
            } else {
                proof {
                    let next = patched(before, done.push((key, value)));
                    assert forall|j: int| 0 <= j < now.len() implies now[j] == next[j] by {
                        lemma_values_for_push(done, (key, value), before[j].0);
                        if now[j].0 == key {
                            assert(has_key(now, key));
                        }
                    }
                    assert(self@ =~= next);
                }
            }
            i += 1;
        }
        assert(all.subrange(0, i as int) =~= all);
    }

    /// Throws the players away and takes those of a full update list: each
    /// key once, in the order of the keys, with the value that the list
    /// holds last for it.
    pub fn rebuild(&mut self, updates: Vec<KeyValue>)
        ensures
            final(self).wf(),
            rebuilt(final(self)@, entries(updates@)),
    {
        let mut list = updates;
        sort_by_key(&mut list);
        let ghost all = entries(list@);
        self.people = map_new();
        let mut i: usize = 0;
        proof {
            assert(all.subrange(0, 0) =~= Seq::<(Seq<char>, i64)>::empty());
            assert forall|key: Seq<char>| #[trigger]
                lookup(self@, key) == latest(all.subrange(0, 0), key) by {}
        }
        while i < list.len()
            invariant
                i <= list.len(),
                all == entries(list@),
                sorted(all),
                ascending(self@),
                forall|key: Seq<char>| #[trigger]
                    lookup(self@, key) == latest(all.subrange(0, i as int), key),
            decreases list.len() - i,
        {
            let ghost done = all.subrange(0, i as int);
            let ghost now = self@;
            let ghost key = list@[i as int].key@;
            let ghost value = list@[i as int].value;
            map_insert(&mut self.people, list[i].key.clone(), list[i].value);
            proof {
                let out = self@;
                assert(all.subrange(0, i + 1) =~= done.push((key, value)));
                assert(all[i as int] == (key, value));
                lemma_inserted(now, key, value);
                assert forall|k: Seq<char>| #[trigger]
                    lookup(out, k) == latest(done.push((key, value)), k) by {
                    lemma_values_for_push(done, (key, value), k);
                    assert(lookup(now, k) == latest(done, k));
                }
                // every key on the board comes before the new key, or is it
                assert forall|j: int| 0 <= j < now.len() implies key_le(
                    (#[trigger] now[j]).0,
                    key,
                ) by {
                    lemma_place_of(now, j);
                    assert(lookup(now, now[j].0) == latest(done, now[j].0));
                    lemma_latest_is_some(done, now[j].0);
                    let m = choose|m: int|
                        0 <= m < done.len() && (#[trigger] done[m]).0 == now[j].0;
                    assert(all[m] == done[m]);
                    assert(key_le(all[m].0, all[i as int].0));
                }
                if has_key(now, key) {
                    let at = place_of(now, key);
                    assert forall|a: int, b: int| 0 <= a < b < out.len() implies key_le(
                        (#[trigger] out[a]).0,
                        (#[trigger] out[b]).0,
                    ) && out[a].0 != out[b].0 by {
                        assert(out[a].0 == now[a].0);
                        assert(out[b].0 == now[b].0);
                        assert(key_le(now[a].0, now[b].0) && now[a].0 != now[b].0);
                    }
                } else {
                    assert forall|a: int, b: int| 0 <= a < b < out.len() implies key_le(
                        (#[trigger] out[a]).0,
                        (#[trigger] out[b]).0,
                    ) && out[a].0 != out[b].0 by {
                        if b < now.len() {
                            assert(out[a] == now[a]);
                            assert(out[b] == now[b]);
                            assert(key_le(now[a].0, now[b].0) && now[a].0 != now[b].0);
                        } else {
                            assert(out[a] == now[a]);
                            assert(out[b].0 == key);
                            assert(key_le(now[a].0, key));
                            if now[a].0 == key {
                                assert(has_key(now, key));
                            }
                        }
                    }
                }
            }
            i += 1;
        }
        proof {
            assert(all.subrange(0, i as int) =~= all);
            assert forall|key: Seq<char>| #[trigger]
                lookup(self@, key) == latest(entries(updates@), key) by {
                assert(lookup(self@, key) == latest(all, key));
                assert(values_for(all, key) == values_for(entries(updates@), key));
            }
        }
    }

    /// Takes a message from the server: with `clear` set the players are
    /// rebuilt from the updates, else the updates patch the players that are
    /// there. A message without updates is one with none.
    pub fn apply(&mut self, message: GameMessage)
        requires
            old(self).wf(),
        ensures
            final(self).wf(),
            message@.clear == Some(true) ==> rebuilt(final(self)@, updates_of(message@)),
            message@.clear != Some(true) ==> final(self)@ == patched(
                old(self)@,
                updates_of(message@),
            ),
    {
        let updates = match message.updates {
            Some(updates) => updates,
            None => Vec::new(),
        };
        assert(entries(updates@) =~= updates_of(message@));
        let clear = match message.clear {
            Some(flag) => flag,
            None => false,
        };
        if clear {
            self.rebuild(updates);
        } else {
            self.patch(&updates);
        }
    }

    /// Takes a binary frame from the server: a message is applied, and
    /// bytes that are no message are dropped. Says whether it was a message.
    pub fn receive(&mut self, bytes: &[u8]) -> (applied: bool)
        requires
            old(self).wf(),
        ensures
            final(self).wf(),
            match parse_frame(bytes@) {
                Ok(m) => {
                    &&& applied
                    &&& m.clear == Some(true) ==> rebuilt(final(self)@, updates_of(m))
                    &&& m.clear != Some(true) ==> final(self)@ == patched(
                        old(self)@,
                        updates_of(m),
                    )
                },
                Err(_) => !applied && final(self)@ == old(self)@,
            },
    {
        match GameMessage::decode(bytes) {
            Ok(message) => {
                self.apply(message);
                true
            },
            Err(_) => false,
        }
    }

    /// The players with their scores, in the order of the scoreboard.
    pub fn entries(&self) -> (list: Vec<(String, i64)>)
        ensures
            players(list@) == self@,
    {
        let mut list: Vec<(String, i64)> = Vec::new();
        let mut i: usize = 0;
        let n = map_len(&self.people);
        while i < n
            invariant
                i <= n,
                n == self@.len(),
                players(list@) == self@.subrange(0, i as int),
            decreases n - i,
        {
            match map_at(&self.people, i) {
                Some(pair) => {
                    let ghost before = list@;
                    list.push(pair);
                    assert(players(list@) =~= players(before).push((pair.0@, pair.1)));
                    assert(self@.subrange(0, i + 1) =~= self@.subrange(0, i as int).push(
                        self@[i as int],
                    ));
                },
                None => {},
            }
            i += 1;
        }
        assert(self@.subrange(0, n as int) =~= self@);
        list
    }

    /// The players from the highest score to the lowest. Players with the
    /// same score come in the reverse of their order on the scoreboard.
    pub fn ranking(&self) -> (list: Vec<(String, i64)>)
        ensures
            ranked(players(list@), self@),
    {
        let mut rising = self.entries();
        sort_by_score(&mut rising);
        let ghost sorted = rising@;
        let mut list: Vec<(String, i64)> = Vec::new();
        while rising.len() > 0
            invariant
                rising@.len() + list@.len() == sorted.len(),
                rising@ == sorted.subrange(0, rising@.len() as int),
                forall|k: int|
                    0 <= k < list@.len() ==> #[trigger] list@[k] == sorted[sorted.len() - 1 - k],
            decreases rising.len(),
        {
            let ghost before = rising@;
            match rising.pop() {
                Some(pair) => {
                    list.push(pair);
                    assert(rising@ =~= sorted.subrange(0, rising@.len() as int));
                },
                None => {},
            }
        }
        proof {
            assert(list@.reverse() =~= sorted);
            assert(players(list@).reverse() =~= players(list@.reverse()));
            assert forall|i: int, j: int| 0 <= i <= j < list@.len() implies (
            #[trigger] players(list@)[i]).1 >= (#[trigger] players(list@)[j]).1 by {
                assert(list@[i] == sorted[sorted.len() - 1 - i]);
                assert(list@[j] == sorted[sorted.len() - 1 - j]);
            }
        }
        list
    }

    /// Takes a click on the player at a place: the click to send to the
    /// server, and the player's score moved by it at once, wrapping around
    /// at the ends of the range. A click on the client's own name, or one
    /// that helps, adds `CLICK`; any other takes it away. Beyond the last
    /// player there is nothing to click.
    pub fn click(&mut self, index: usize, label: &str, helping: bool) -> (click: Option<KeyValue>)
        requires
            old(self).wf(),
        ensures
            final(self).wf(),
            match click {
                Some(kv) => {
                    &&& index < old(self)@.len()
                    &&& kv@ == (
                        old(self)@[index as int].0,
                        click_delta(old(self)@[index as int].0 == label@, helping),
                    )
                    &&& final(self)@ == old(self)@.update(
                        index as int,
                        (kv@.0, old(self)@[index as int].1.wrapping_add(kv@.1)),
                    )
                },
                None => index >= old(self)@.len() && final(self)@ == old(self)@,
            },
    {
        match map_at(&self.people, index) {
            None => None,
            Some((name, score)) => {
                let delta = if str_eq(name.as_str(), label) || helping {
                    CLICK
                } else {
                    -CLICK
                };
                proof {
                    lemma_place_of(self@, index as int);
                    lemma_inserted(self@, name@, score.wrapping_add(delta));
                }
                map_insert(&mut self.people, name.clone(), score.wrapping_add(delta));
                Some(KeyValue { key: name, value: delta })
            },
        }
    }
}

/// Whether `list` ranks the players of `board`: the scores never go up,
/// and read backwards the list holds, for every score, the names that the
/// board holds with it, in the board's order.
pub open spec fn ranked(list: Seq<(Seq<char>, i64)>, board: Seq<(Seq<char>, i64)>) -> bool {
    &&& list.len() == board.len()
    &&& forall|i: int, j: int|
        0 <= i <= j < list.len() ==> (#[trigger] list[i]).1 >= (#[trigger] list[j]).1
    &&& forall|score: i64| #[trigger]
        names_with(list.reverse(), score) == names_with(board, score)
}

/// What one click is worth.
pub const CLICK: i64 = 10_000;

/// The delta of a click: up for the client's own name and for a click that
/// helps, down for any other.
pub open spec fn click_delta(own: bool, helping: bool) -> i64 {
    if own || helping {
        CLICK
    } else {
        (-CLICK) as i64
    }
}

/// The updates of a message, none where the field is absent.
pub open spec fn updates_of(m: Envelope) -> Seq<(Seq<char>, i64)> {
    match m.updates {
        Some(updates) => updates,
        None => Seq::empty(),
    }
}

/// The frame that carries a click batch to the server: a message with the
/// clicks and no other field.
pub fn encode_clicks(clicks: Vec<KeyValue>) -> (r: Result<Vec<u8>, EncodeError>)
    ensures
        match r {
            Ok(bytes) => encodable(click_envelope(entries(clicks@))) && bytes@ == frame_bytes(
                click_envelope(entries(clicks@)),
            ),
            Err(_) => !encodable(click_envelope(entries(clicks@))),
        },
{
    let message = GameMessage { updates: None, clicks: Some(clicks), clear: None };
    message.encode()
}

/// The message of a click batch.
pub open spec fn click_envelope(clicks: Seq<(Seq<char>, i64)>) -> Envelope {
    Envelope { updates: None, clicks: Some(clicks), clear: None }
}

} // verus!
