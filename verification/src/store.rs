//! The score store as the session relies on it: a map from keys to
//! counters, changed by the actions that a session asks for. The store
//! itself is a service outside this library; this is what its operations
//! mean, and what follows from that for increments that arrive in any order.

use vstd::prelude::*;
use vstd::seq_lib::{to_multiset_build, to_multiset_contains, to_multiset_remove};
use crate::session::{increments, ActionView};

verus! {

/// The value of a key: its counter, and 0 for a key that the store does
/// not have.
pub open spec fn value_at(store: Map<Seq<char>, int>, key: Seq<char>) -> int {
    if store.contains_key(key) {
        store[key]
    } else {
        0
    }
}

/// The store after an action: initialising sets the key to 0, an increment
/// adds to the key's value, deleting takes the key out, and every other
/// action leaves the store alone.
pub open spec fn performed(store: Map<Seq<char>, int>, action: ActionView) -> Map<Seq<char>, int> {
    match action {
        ActionView::Initialize(key) => store.insert(key, 0),
        ActionView::Increment(key, delta) => store.insert(key, value_at(store, key) + delta),
        ActionView::Delete(key) => store.remove(key),
        _ => store,
    }
}

/// The store after a sequence of clicks, each applied as an increment.
pub open spec fn applied(store: Map<Seq<char>, int>, clicks: Seq<(Seq<char>, i64)>) -> Map<
    Seq<char>,
    int,
>
    decreases clicks.len(),
{
    if clicks.len() == 0 {
        store
    } else {
        performed(
            applied(store, clicks.drop_last()),
            ActionView::Increment(clicks.last().0, clicks.last().1),
        )
    }
}

/// What a click adds to `key`: its delta if it names the key, else nothing.
pub open spec fn share(click: (Seq<char>, i64), key: Seq<char>) -> int {
    if click.0 == key {
        click.1 as int
    } else {
        0
    }
}

/// The sum of the deltas that a sequence of clicks holds for `key`.
pub open spec fn total(clicks: Seq<(Seq<char>, i64)>, key: Seq<char>) -> int
    decreases clicks.len(),
{
    if clicks.len() == 0 {
        0
    } else {
        total(clicks.drop_last(), key) + share(clicks.last(), key)
    }
}

/// The store after a sequence of actions, performed in order.
pub open spec fn performed_all(store: Map<Seq<char>, int>, actions: Seq<ActionView>) -> Map<
    Seq<char>,
    int,
>
    decreases actions.len(),
{
    if actions.len() == 0 {
        store
    } else {
        performed(performed_all(store, actions.drop_last()), actions.last())
    }
}

/// The increments that a session asks for on a click batch, performed in
/// order, apply every click of the batch, whatever its sign or its target.
pub proof fn law_batch_is_applied(store: Map<Seq<char>, int>, clicks: Seq<(Seq<char>, i64)>)
    ensures
        performed_all(store, increments(clicks)) == applied(store, clicks),
    decreases clicks.len(),
{
    if clicks.len() > 0 {
        law_batch_is_applied(store, clicks.drop_last());
        assert(increments(clicks).drop_last() =~= increments(clicks.drop_last()));
    }
}

/// After any sequence of clicks, the value of a key is its value before
/// plus the sum of the deltas for it.
pub proof fn law_increments_add_up(
    store: Map<Seq<char>, int>,
    clicks: Seq<(Seq<char>, i64)>,
    key: Seq<char>,
)
    ensures
        value_at(applied(store, clicks), key) == value_at(store, key) + total(clicks, key),
        applied(store, clicks).contains_key(key) <==> store.contains_key(key) || exists|i: int|
            0 <= i < clicks.len() && (#[trigger] clicks[i]).0 == key,
    decreases clicks.len(),
{
    if clicks.len() > 0 {
        let front = clicks.drop_last();
        law_increments_add_up(store, front, key);
        if exists|i: int| 0 <= i < front.len() && (#[trigger] front[i]).0 == key {
            let i = choose|i: int| 0 <= i < front.len() && (#[trigger] front[i]).0 == key;
            assert(clicks[i].0 == key);
        }
        if clicks.last().0 == key {
            assert(clicks[clicks.len() - 1].0 == key);
        }
        if exists|i: int| 0 <= i < clicks.len() && (#[trigger] clicks[i]).0 == key {
            let i = choose|i: int| 0 <= i < clicks.len() && (#[trigger] clicks[i]).0 == key;
            if i < front.len() {
                assert(front[i].0 == key);
            }
        }
    }
}

/// Taking one click out of a sequence takes its share out of the sum.
pub proof fn lemma_total_remove(clicks: Seq<(Seq<char>, i64)>, at: int, key: Seq<char>)
    requires
        0 <= at < clicks.len(),
    ensures
        total(clicks, key) == total(clicks.remove(at), key) + share(clicks[at], key),
    decreases clicks.len(),
{
    if at == clicks.len() - 1 {
        assert(clicks.remove(at) =~= clicks.drop_last());
    } else {
        lemma_total_remove(clicks.drop_last(), at, key);
        assert(clicks.remove(at).drop_last() =~= clicks.drop_last().remove(at));
        assert(clicks.remove(at).last() == clicks.last());
    }
}

/// The sum of the deltas for a key does not depend on the order of the
/// clicks.
pub proof fn lemma_total_of_rearranged(
    a: Seq<(Seq<char>, i64)>,
    b: Seq<(Seq<char>, i64)>,
    key: Seq<char>,
)
    requires
        a.to_multiset() == b.to_multiset(),
    ensures
        total(a, key) == total(b, key),
    decreases a.len(),
{
    a.to_multiset_ensures();
    b.to_multiset_ensures();
    if a.len() == 0 {
        assert(b.len() == 0);
    } else {
        let x = a.last();
        let front = a.drop_last();
        assert(a =~= front.push(x));
        to_multiset_build(front, x);
        to_multiset_contains(b, x);
        assert(a.to_multiset().count(x) > 0);
        let at = b.index_of(x);
        to_multiset_remove(b, at);
        assert(front.to_multiset() =~= a.to_multiset().remove(x));
        lemma_total_remove(b, at, key);
        lemma_total_of_rearranged(front, b.remove(at), key);
    }
}

/// Increments commute: two sequences of clicks that hold the same clicks,
/// in whatever order the sessions' clicks were interleaved, leave the same
/// store, in which every key has its value from before plus the sum of its
/// deltas.
pub proof fn law_interleaving_is_immaterial(
    store: Map<Seq<char>, int>,
    a: Seq<(Seq<char>, i64)>,
    b: Seq<(Seq<char>, i64)>,
)
    requires
        a.to_multiset() == b.to_multiset(),
    ensures
        applied(store, a) == applied(store, b),
{
    let left = applied(store, a);
    let right = applied(store, b);
    assert forall|key: Seq<char>| #[trigger]
        left.dom().contains(key) == right.dom().contains(key) by {
        law_increments_add_up(store, a, key);
        law_increments_add_up(store, b, key);
        if exists|i: int| 0 <= i < a.len() && (#[trigger] a[i]).0 == key {
            let i = choose|i: int| 0 <= i < a.len() && (#[trigger] a[i]).0 == key;
            to_multiset_contains(a, a[i]);
            to_multiset_contains(b, a[i]);
            assert(a.contains(a[i]));
            let j = b.index_of(a[i]);
            assert(b[j].0 == key);
        }
        if exists|i: int| 0 <= i < b.len() && (#[trigger] b[i]).0 == key {
            let i = choose|i: int| 0 <= i < b.len() && (#[trigger] b[i]).0 == key;
            to_multiset_contains(a, b[i]);
            to_multiset_contains(b, b[i]);
            assert(b.contains(b[i]));
            let j = a.index_of(b[i]);
            assert(a[j].0 == key);
        }
    }
    assert forall|key: Seq<char>| left.dom().contains(key) implies #[trigger] left[key]
        == right[key] by {
        law_increments_add_up(store, a, key);
        law_increments_add_up(store, b, key);
        lemma_total_of_rearranged(a, b, key);
        assert(right.dom().contains(key));
    }
    assert(left =~= right);
}

} // verus!
