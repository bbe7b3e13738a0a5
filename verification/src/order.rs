//! The order of keys, and lists of pairs sorted by it.

use vstd::prelude::*;
use vstd::utf8::encode_utf8;
use crate::message::{entries, KeyValue};
use crate::text::lemma_encode_utf8_injective;

verus! {

/// Whether `a` comes before `b`, or is `b`, byte by byte.
pub open spec fn bytes_le(a: Seq<u8>, b: Seq<u8>) -> bool
    decreases a.len(),
{
    if a.len() == 0 {
        true
    } else if b.len() == 0 {
        false
    } else if a[0] != b[0] {
        a[0] < b[0]
    } else {
        bytes_le(a.drop_first(), b.drop_first())
    }
}

/// The order of keys: that of their UTF-8 bytes.
pub open spec fn key_le(a: Seq<char>, b: Seq<char>) -> bool {
    bytes_le(encode_utf8(a), encode_utf8(b))
}

/// The values that a list holds for `key`, in order.
pub open spec fn values_for(list: Seq<(Seq<char>, i64)>, key: Seq<char>) -> Seq<i64>
    decreases list.len(),
{
    if list.len() == 0 {
        Seq::empty()
    } else if list.last().0 == key {
        values_for(list.drop_last(), key).push(list.last().1)
    } else {
        values_for(list.drop_last(), key)
    }
}

/// The value that a list holds last for `key`, if it holds one.
pub open spec fn latest(list: Seq<(Seq<char>, i64)>, key: Seq<char>) -> Option<i64> {
    if values_for(list, key).len() > 0 {
        Some(values_for(list, key).last())
    } else {
        None
    }
}

/// Whether the keys of a list never go down.
pub open spec fn sorted(list: Seq<(Seq<char>, i64)>) -> bool {
    forall|i: int, j: int|
        0 <= i <= j < list.len() ==> key_le(#[trigger] list[i].0, #[trigger] list[j].0)
}

/// Calls the slice method `sort_by_key` of std with the key of each pair.
/// Trusted: afterwards the keys never go down in the byte order of strings,
/// and the sort is stable, so for every key the list holds the same values
/// in the same order as before.
#[verifier::external_body]
pub(crate) fn sort_by_key(list: &mut Vec<KeyValue>)
    ensures
        sorted(entries(final(list)@)),
        final(list)@.len() == old(list)@.len(),
        forall|key: Seq<char>| #[trigger]
            values_for(entries(final(list)@), key) == values_for(entries(old(list)@), key),
{
    list.sort_by_key(|kv| kv.key.clone());
}


/// The names and scores of a list of players.
pub open spec fn players(list: Seq<(String, i64)>) -> Seq<(Seq<char>, i64)> {
    list.map_values(|p: (String, i64)| (p.0@, p.1))
}

/// The names that a list holds with `score`, in order.
pub open spec fn names_with(list: Seq<(Seq<char>, i64)>, score: i64) -> Seq<Seq<char>>
    decreases list.len(),
{
    if list.len() == 0 {
        Seq::empty()
    } else if list.last().1 == score {
        names_with(list.drop_last(), score).push(list.last().0)
    } else {
        names_with(list.drop_last(), score)
    }
}

/// Calls the slice method `sort_by_key` of std with the score of each
/// player. Trusted: afterwards the scores never go down, and the sort is
/// stable, so for every score the list holds the same names in the same
/// order as before.
#[verifier::external_body]
pub(crate) fn sort_by_score(list: &mut Vec<(String, i64)>)
    ensures
        final(list)@.len() == old(list)@.len(),
        forall|i: int, j: int|
            0 <= i <= j < final(list)@.len() ==> (#[trigger] final(list)@[i]).1 <= (
            #[trigger] final(list)@[j]).1,
        forall|score: i64| #[trigger]
            names_with(players(final(list)@), score) == names_with(players(old(list)@), score),
{
    list.sort_by_key(|p| p.1);
}

/// Two byte strings that each come before or are the other are the same.
pub proof fn lemma_bytes_le_antisymmetric(a: Seq<u8>, b: Seq<u8>)
    requires
        bytes_le(a, b),
        bytes_le(b, a),
    ensures
        a == b,
    decreases a.len(),
{
    if a.len() == 0 || b.len() == 0 {
        assert(a =~= b);
    } else {
        lemma_bytes_le_antisymmetric(a.drop_first(), b.drop_first());
        assert(a =~= seq![a[0]] + a.drop_first());
        assert(b =~= seq![b[0]] + b.drop_first());
    }
}

/// Two keys that each come before or are the other are the same.
pub proof fn lemma_key_le_antisymmetric(a: Seq<char>, b: Seq<char>)
    requires
        key_le(a, b),
        key_le(b, a),
    ensures
        a == b,
{
    lemma_bytes_le_antisymmetric(encode_utf8(a), encode_utf8(b));
    lemma_encode_utf8_injective(a, b);
}

/// The values for a key in a list with one more pair at the end.
pub proof fn lemma_values_for_push(
    list: Seq<(Seq<char>, i64)>,
    pair: (Seq<char>, i64),
    key: Seq<char>,
)
    ensures
        values_for(list.push(pair), key) == if pair.0 == key {
            values_for(list, key).push(pair.1)
        } else {
            values_for(list, key)
        },
        latest(list.push(pair), key) == if pair.0 == key {
            Some(pair.1)
        } else {
            latest(list, key)
        },
{
    assert(list.push(pair).drop_last() =~= list);
}

/// A list holds a value for a key exactly if one of its pairs has the key.
pub proof fn lemma_latest_is_some(list: Seq<(Seq<char>, i64)>, key: Seq<char>)
    ensures
        latest(list, key) is Some <==> exists|i: int|
            0 <= i < list.len() && (#[trigger] list[i]).0 == key,
    decreases list.len(),
{
    if list.len() > 0 {
        let front = list.drop_last();
        lemma_latest_is_some(front, key);
        if exists|i: int| 0 <= i < front.len() && (#[trigger] front[i]).0 == key {
            let i = choose|i: int| 0 <= i < front.len() && (#[trigger] front[i]).0 == key;
            assert(list[i].0 == key);
        }
        if list.last().0 == key {
            assert(list[list.len() - 1].0 == key);
        }
        if exists|i: int| 0 <= i < list.len() && (#[trigger] list[i]).0 == key {
            let i = choose|i: int| 0 <= i < list.len() && (#[trigger] list[i]).0 == key;
            if i < front.len() {
                assert(front[i].0 == key);
            }
        }
    }
}


/// A list in which one pair alone has a key holds that pair's value for
/// the key, and no other.
pub proof fn lemma_values_for_single(list: Seq<(Seq<char>, i64)>, at: int)
    requires
        0 <= at < list.len(),
        forall|j: int| 0 <= j < list.len() && j != at ==> (#[trigger] list[j]).0 != list[at].0,
    ensures
        values_for(list, list[at].0) == seq![list[at].1],
        latest(list, list[at].0) == Some(list[at].1),
    decreases list.len(),
{
    let key = list[at].0;
    let front = list.drop_last();
    if at == list.len() - 1 {
        lemma_latest_is_some(front, key);
        if exists|i: int| 0 <= i < front.len() && (#[trigger] front[i]).0 == key {
            let i = choose|i: int| 0 <= i < front.len() && (#[trigger] front[i]).0 == key;
            assert(list[i].0 == key);
        }
        assert(values_for(list, key) =~= seq![list[at].1]);
    } else {
        assert(list[list.len() - 1].0 != key);
        assert(front[at] == list[at]);
        assert forall|j: int| 0 <= j < front.len() && j != at implies (#[trigger] front[j]).0
            != front[at].0 by {
            assert(front[j] == list[j]);
        }
        lemma_values_for_single(front, at);
    }
}

} // verus!
