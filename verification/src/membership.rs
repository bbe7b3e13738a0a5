//! The ordered, duplicate-free set of player keys that one session watches.

use vstd::prelude::*;
use crate::text::str_eq;

verus! {

/// The reserved identity that watches the game without taking part in it.
pub const SPECTATOR: &'static str = "Bradshaw";

/// The spectator key as a character sequence.
pub open spec fn spectator() -> Seq<char> {
    SPECTATOR@
}

/// Whether `name` is the spectator key.
pub fn is_spectator(name: &str) -> (yes: bool)
    ensures
        yes == (name@ == spectator()),
{
    str_eq(name, SPECTATOR)
}

/// The character sequences of a list of strings, in order.
pub open spec fn names(keys: Seq<String>) -> Seq<Seq<char>> {
    keys.map_values(|k: String| k@)
}

/// `s` after the swap-removal of `key`: the last key takes the place of
/// `key` and the sequence gets shorter by one. Without `key` in it, `s` itself.
pub open spec fn without(s: Seq<Seq<char>>, key: Seq<char>) -> Seq<Seq<char>> {
    if s.contains(key) {
        s.update(s.index_of(key), s.last()).drop_last()
    } else {
        s
    }
}

/// `base` after taking in a list of enumerated keys: each key that is new
/// is added at the end, in the order of its first occurrence, leaving out
/// `own` and the spectator key.
pub open spec fn absorbed(base: Seq<Seq<char>>, keys: Seq<Seq<char>>, own: Seq<char>) -> Seq<
    Seq<char>,
>
    decreases keys.len(),
{
    if keys.len() == 0 {
        base
    } else {
        let before = absorbed(base, keys.drop_last(), own);
        let k = keys.last();
        if k == own || k == spectator() || before.contains(k) {
            before
        } else {
            before.push(k)
        }
    }
}

/// Swap-removal from a duplicate-free sequence removes exactly the one key
/// from the set of keys, and leaves the sequence duplicate-free.
pub proof fn lemma_without(s: Seq<Seq<char>>, key: Seq<char>)
    requires
        s.no_duplicates(),
    ensures
        without(s, key).no_duplicates(),
        without(s, key).to_set() == s.to_set().remove(key),
        !without(s, key).contains(key),
        s.contains(key) ==> without(s, key).len() == s.len() - 1,
{
    let t = without(s, key);
    if s.contains(key) {
        let i = s.index_of(key);
        let n = s.len() - 1;
        assert forall|a: int, b: int| 0 <= a < t.len() && 0 <= b < t.len() && a != b implies t[a]
            != t[b] by {
            let sa = if a == i { n } else { a };
            let sb = if b == i { n } else { b };
            assert(t[a] == s[sa] && t[b] == s[sb]);
        }
        assert forall|k: Seq<char>| t.to_set().contains(k) <==> s.to_set().remove(key).contains(
            k,
        ) by {
            if t.contains(k) {
                let a = t.index_of(k);
                let sa = if a == i { n } else { a };
                assert(s[sa] == k);
                assert(sa != i || i == n);
            }
            if s.contains(k) && k != key {
                let b = s.index_of(k);
                let tb = if b == n { i } else { b };
                assert(t[tb] == k);
            }
        }
        assert(t.to_set() =~= s.to_set().remove(key));
    } else {
        assert(t.to_set() =~= s.to_set().remove(key));
    }
}

/// Taking in enumerated keys keeps what was there, in place, adds every
/// enumerated key but `own` and the spectator key, and adds none twice.
pub proof fn lemma_absorbed(base: Seq<Seq<char>>, keys: Seq<Seq<char>>, own: Seq<char>)
    requires
        base.no_duplicates(),
    ensures
        absorbed(base, keys, own).no_duplicates(),
        absorbed(base, keys, own).to_set() == base.to_set().union(
            keys.to_set().remove(own).remove(spectator()),
        ),
        base.len() <= absorbed(base, keys, own).len(),
        absorbed(base, keys, own).subrange(0, base.len() as int) == base,
    decreases keys.len(),
{
    let out = absorbed(base, keys, own);
    let goal = base.to_set().union(keys.to_set().remove(own).remove(spectator()));
    if keys.len() == 0 {
        assert(out.to_set() =~= goal);
        assert(out.subrange(0, base.len() as int) =~= base);
    } else {
        let front = keys.drop_last();
        let k = keys.last();
        lemma_absorbed(base, front, own);
        let before = absorbed(base, front, own);
        assert(out.subrange(0, base.len() as int) =~= before.subrange(0, base.len() as int));
        assert forall|x: Seq<char>| out.to_set().contains(x) <==> goal.contains(x) by {
            if out.contains(x) {
                let a = out.index_of(x);
                if a < before.len() {
                    assert(before[a] == x);
                    assert(before.to_set().contains(x));
                    if !base.to_set().contains(x) {
                        let b = front.index_of(x);
                        assert(keys[b] == x);
                    }
                } else {
                    assert(x == k);
                    assert(keys[keys.len() - 1] == k);
                }
            }
            if goal.contains(x) {
                if base.to_set().contains(x) {
                    assert(before.to_set().contains(x));
                    let a = before.index_of(x);
                    assert(out[a] == x);
                } else {
                    let b = keys.index_of(x);
                    if b < front.len() {
                        assert(front[b] == x);
                        assert(front.to_set().remove(own).remove(spectator()).contains(x));
                        assert(before.to_set().contains(x));
                        let a = before.index_of(x);
                        assert(out[a] == x);
                    } else {
                        assert(x == k);
                        if before.contains(k) {
                            let a = before.index_of(k);
                            assert(out[a] == k);
                        } else {
                            assert(out[out.len() - 1] == k);
                        }
                    }
                }
            }
        }
        assert(out.to_set() =~= goal);
    }
}

/// The keys of the players a session currently knows of, in join order,
/// until a removal moves the last key into the gap.
pub struct Membership {
    keys: Vec<String>,
}

impl View for Membership {
    type V = Seq<Seq<char>>;

    closed spec fn view(&self) -> Seq<Seq<char>> {
        names(self.keys@)
    }
}

impl Membership {
    /// No key occurs twice, and the spectator key does not occur.
    pub open spec fn wf(&self) -> bool {
        &&& self@.no_duplicates()
        &&& !self@.contains(spectator())
    }

    /// The keys as a set.
    pub open spec fn set(&self) -> Set<Seq<char>> {
        self@.to_set()
    }

    /// The empty membership.
    pub fn new() -> (m: Membership)
        ensures
            m.wf(),
            m@ == Seq::<Seq<char>>::empty(),
    {
        let m = Membership { keys: Vec::new() };
        assert(m@ =~= Seq::<Seq<char>>::empty());
        m
    }

    /// The number of keys.
    pub fn len(&self) -> (n: usize)
        ensures
            n == self@.len(),
    {
        self.keys.len()
    }

    /// Whether there is no key.
    pub fn is_empty(&self) -> (empty: bool)
        ensures
            empty == (self@.len() == 0),
    {
        self.keys.len() == 0
    }

    /// The keys in their current order.
    pub fn keys(&self) -> (keys: &Vec<String>)
        ensures
            names(keys@) == self@,
    {
        &self.keys
    }

    /// Where `key` stands first, if it is a member.
    pub fn position(&self, key: &str) -> (at: Option<usize>)
        ensures
            match at {
                Some(i) => {
                    &&& i < self@.len()
                    &&& self@[i as int] == key@
                    &&& forall|j: int| 0 <= j < i ==> self@[j] != key@
                },
                None => !self@.contains(key@),
            },
    {
        let mut i: usize = 0;
        while i < self.keys.len()
            invariant
                i <= self.keys.len(),
                forall|j: int| 0 <= j < i ==> self@[j] != key@,
            decreases self.keys.len() - i,
        {
            if str_eq(self.keys[i].as_str(), key) {
                return Some(i);
            }
            i += 1;
        }
        None
    }

    /// Whether `key` is a member.
    pub fn contains(&self, key: &str) -> (found: bool)
        ensures
            found == self@.contains(key@),
    {
        self.position(key).is_some()
    }

    /// Adds `key` at the end unless it is already a member or is the
    /// spectator key. Says whether the membership changed.
    pub fn insert(&mut self, key: String) -> (added: bool)
        requires
            old(self).wf(),
        ensures
            final(self).wf(),
            added == (key@ != spectator() && !old(self)@.contains(key@)),
            final(self)@ == if added {
                old(self)@.push(key@)
            } else {
                old(self)@
            },
            final(self).set() == if key@ == spectator() {
                old(self).set()
            } else {
                old(self).set().insert(key@)
            },
    {
        if is_spectator(key.as_str()) || self.contains(key.as_str()) {
            proof {
                if self@.contains(key@) {
                    assert(self.set().contains(key@));
                    assert(self.set().insert(key@) =~= self.set());
                }
            }
            return false;
        }
        let ghost before = self@;
        self.keys.push(key);
        proof {
            assert(self@ =~= before.push(key@));
            assert(self.set() =~= before.to_set().insert(key@)) by {
                before.lemma_push_to_set_commute(key@);
            }
        }
        true
    }

    /// Removes `key` by moving the last key into its place. Says whether the
    /// membership changed.
    pub fn remove(&mut self, key: &str) -> (removed: bool)
        requires
            old(self).wf(),
        ensures
            final(self).wf(),
            removed == old(self)@.contains(key@),
            final(self)@ == without(old(self)@, key@),
            final(self).set() == old(self).set().remove(key@),
    {
        let ghost before = self@;
        proof {
            lemma_without(before, key@);
        }
        match self.position(key) {
            Some(i) => {
                proof {
                    assert(before.contains(key@));
                    assert(before.index_of(key@) == i);
                }
                let _ = self.keys.swap_remove(i);
                assert(self@ =~= without(before, key@));
                assert(!self@.contains(spectator())) by {
                    if self@.contains(spectator()) {
                        assert(self@.to_set().contains(spectator()));
                        assert(before.to_set().contains(spectator()));
                    }
                }
                true
            },
            None => false,
        }
    }

    /// Takes in a list of enumerated keys: adds each but `own` and the
    /// spectator key, once. Says whether the membership changed.
    pub fn absorb(&mut self, keys: &Vec<String>, own: &str) -> (changed: bool)
        requires
            old(self).wf(),
        ensures
            final(self).wf(),
            final(self)@ == absorbed(old(self)@, names(keys@), own@),
            final(self).set() == old(self).set().union(
                names(keys@).to_set().remove(own@).remove(spectator()),
            ),
            changed == (final(self)@ != old(self)@),
    {
        let ghost base = self@;
        let ghost all = names(keys@);
        let mut changed = false;
        let mut i: usize = 0;
        assert(all.subrange(0, 0) =~= Seq::<Seq<char>>::empty());
        while i < keys.len()
            invariant
                i <= keys.len(),
                self.wf(),
                base.no_duplicates(),
                all == names(keys@),
                self@ == absorbed(base, all.subrange(0, i as int), own@),
                changed == (self@ != base),
            decreases keys.len() - i,
        {
            let ghost upto = all.subrange(0, i + 1);
            proof {
                assert(upto.drop_last() =~= all.subrange(0, i as int));
                assert(upto.last() == keys@[i as int]@);
                lemma_absorbed(base, all.subrange(0, i as int), own@);
                lemma_absorbed(base, upto, own@);
            }
            if !str_eq(keys[i].as_str(), own) {
                if self.insert(keys[i].clone()) {
                    changed = true;
                }
            }
            proof {
                if self@.len() == base.len() {
                    assert(self@ =~= self@.subrange(0, base.len() as int));
                }
            }
            i += 1;
        }
        proof {
            assert(all.subrange(0, i as int) =~= all);
            lemma_absorbed(base, all, own@);
        }
        changed
    }
}

} // verus!
