//! The key-state ledger: the current down/up status of every simulated key,
//! with idempotent transitions.
//!
//! `key_press_once` and `key_release_once` request a transition; a request is
//! emitted only when it actually changes the logical state of the key, so no
//! two consecutive emitted transitions for one key have the same direction.
//! The ledger's view is the set of keys currently held down; a key that was
//! never touched counts as up.

use vstd::prelude::*;

use crate::ids::{KeyId, KeyTransition};

verus! {

/// One ledger entry: whether `key` is currently held down.
struct KeyEntry {
    key: KeyId,
    down: bool,
}

/// Holds the current simulated-key down/up status. Abstractly, the set of
/// keys that are down.
pub struct KeyLedger {
    entries: Vec<KeyEntry>,
}

/// True when some entry records `k` as held down.
spec fn down_in(s: Seq<KeyEntry>, k: KeyId) -> bool {
    exists|i: int| 0 <= i < s.len() && (#[trigger] s[i]).key == k && s[i].down
}

impl View for KeyLedger {
    type V = Set<KeyId>;

    closed spec fn view(&self) -> Set<KeyId> {
        Set::new(|k: KeyId| down_in(self.entries@, k))
    }
}

/// The ledger state after a press of `k` is requested.
pub open spec fn press_effect(s: Set<KeyId>, k: KeyId) -> Set<KeyId> {
    s.insert(k)
}

/// The transitions emitted by a requested press of `k`: one key-down when `k`
/// was up, nothing when it was already down.
pub open spec fn press_emits(s: Set<KeyId>, k: KeyId) -> Seq<KeyTransition> {
    if s.contains(k) {
        Seq::empty()
    } else {
        seq![KeyTransition::Press(k)]
    }
}

/// The ledger state after a release of `k` is requested.
pub open spec fn release_effect(s: Set<KeyId>, k: KeyId) -> Set<KeyId> {
    s.remove(k)
}

/// The transitions emitted by a requested release of `k`: one key-up when `k`
/// was down, nothing when it was already up.
pub open spec fn release_emits(s: Set<KeyId>, k: KeyId) -> Seq<KeyTransition> {
    if s.contains(k) {
        seq![KeyTransition::Release(k)]
    } else {
        Seq::empty()
    }
}

impl KeyLedger {
    /// No key has two entries, so each key's status is recorded once.
    pub closed spec fn wf(&self) -> bool {
        forall|i: int, j: int|
            0 <= i < j < self.entries@.len() ==> (#[trigger] self.entries@[i]).key != (
            #[trigger] self.entries@[j]).key
    }

    /// An empty ledger: every key is up.
    pub fn new() -> (r: KeyLedger)
        ensures
            r.wf(),
            r@ == Set::<KeyId>::empty(),
    {
        let r = KeyLedger { entries: Vec::new() };
        proof {
            assert(r@ =~= Set::<KeyId>::empty());
        }
        r
    }

    /// The position of the entry for `key`, if one exists.
    fn index_of(&self, key: KeyId) -> (r: Option<usize>)
        ensures
            match r {
                Some(i) => i < self.entries@.len() && self.entries@[i as int].key == key,
                None => forall|j: int|
                    0 <= j < self.entries@.len() ==> (#[trigger] self.entries@[j]).key != key,
            },
    {
        let n = self.entries.len();
        let mut i: usize = 0;
        while i < n
            invariant
                i <= n,
                n == self.entries@.len(),
                forall|j: int| 0 <= j < i ==> (#[trigger] self.entries@[j]).key != key,
            decreases n - i,
        {
            if self.entries[i].key == key {
                return Some(i);
            }
            i += 1;
        }
        None
    }

    /// Whether `key` is currently held down.
    pub fn is_down(&self, key: KeyId) -> (r: bool)
        requires
            self.wf(),
        ensures
            r == self@.contains(key),
    {
        match self.index_of(key) {
            Some(i) => {
                let d = self.entries[i].down;
                proof {
                    let s = self.entries@;
                    if d {
                        assert(s[i as int].key == key && s[i as int].down);
                        assert(down_in(s, key));
                    } else {
                        assert forall|j: int|
                            0 <= j < s.len() && (#[trigger] s[j]).key == key implies !s[j].down by {
                            if j != i as int {
                                assert(s[j].key != s[i as int].key);
                            }
                        }
                        assert(!down_in(s, key));
                    }
                }
                d
            },
            None => {
                proof {
                    assert(!down_in(self.entries@, key));
                }
                false
            },
        }
    }
}

/// Press `key` unless it is already down; at most one key-down is emitted.
pub fn key_press_once(key_state: &mut KeyLedger, key: KeyId, out: &mut Vec<KeyTransition>)
    requires
        old(key_state).wf(),
    ensures
        final(key_state).wf(),
        final(key_state)@ == press_effect(old(key_state)@, key),
        final(out)@ == old(out)@ + press_emits(old(key_state)@, key),
{
    let ghost s0 = key_state.entries@;
    let ghost v0 = key_state@;
    match key_state.index_of(key) {
        Some(i) => {
            if key_state.entries[i].down {
                proof {
                    assert(s0[i as int].key == key && s0[i as int].down);
                    assert(down_in(s0, key));
                    assert(v0.contains(key));
                    assert(key_state@ =~= press_effect(v0, key));
                    assert(out@ =~= out@ + press_emits(v0, key));
                }
            } else {
                key_state.entries[i] = KeyEntry { key, down: true };
                out.push(KeyTransition::Press(key));
                proof {
                    let s1 = key_state.entries@;
                    lemma_absent_when_entry_up(s0, i as int, key);
                    assert(!v0.contains(key));
                    // The update touches only position i, whose key is unchanged.
                    assert(forall|j: int|
                        0 <= j < s1.len() && j != i as int ==> s1[j] == s0[j]);
                    assert(s1[i as int].key == key && s1[i as int].down);
                    assert(key_state.wf());
                    assert forall|x: KeyId| #[trigger] key_state@.contains(x) implies v0.insert(
                        key,
                    ).contains(x) by {
                        if x != key {
                            let j = choose|j: int|
                                0 <= j < s1.len() && (#[trigger] s1[j]).key == x && s1[j].down;
                            assert(s0[j].key == x && s0[j].down);
                            assert(down_in(s0, x));
                        }
                    }
                    assert forall|x: KeyId| #[trigger] v0.insert(key).contains(x) implies key_state@.contains(
                        x,
                    ) by {
                        if x == key {
                            assert(down_in(s1, key));
                        } else {
                            let j = choose|j: int|
                                0 <= j < s0.len() && (#[trigger] s0[j]).key == x && s0[j].down;
                            assert(s1[j].key == x && s1[j].down);
                            assert(down_in(s1, x));
                        }
                    }
                    assert(key_state@ =~= press_effect(v0, key));
                    assert(out@ =~= old(out)@ + press_emits(v0, key));
                }
            }
        },
        None => {
            key_state.entries.push(KeyEntry { key, down: true });
            out.push(KeyTransition::Press(key));
            proof {
                let s1 = key_state.entries@;
                assert(!down_in(s0, key));
                assert(!v0.contains(key));
                assert(forall|j: int| 0 <= j < s0.len() ==> s1[j] == s0[j]);
                assert(s1[s0.len() as int].key == key && s1[s0.len() as int].down);
                assert forall|i: int, j: int|
                    0 <= i < j < s1.len() implies (#[trigger] s1[i]).key != (
                #[trigger] s1[j]).key by {
                    if j == s0.len() as int {
                        assert(s1[i].key != key);
                    }
                }
                assert(key_state.wf());
                assert forall|x: KeyId| #[trigger] key_state@.contains(x) implies v0.insert(
                    key,
                ).contains(x) by {
                    if x != key {
                        let j = choose|j: int|
                            0 <= j < s1.len() && (#[trigger] s1[j]).key == x && s1[j].down;
                        assert(j < s0.len());
                        assert(down_in(s0, x));
                    }
                }
                assert forall|x: KeyId| #[trigger] v0.insert(key).contains(x) implies key_state@.contains(
                    x,
                ) by {
                    if x == key {
                        assert(down_in(s1, key));
                    } else {
                        let j = choose|j: int|
                            0 <= j < s0.len() && (#[trigger] s0[j]).key == x && s0[j].down;
                        assert(s1[j].key == x && s1[j].down);
                        assert(down_in(s1, x));
                    }
                }
                assert(key_state@ =~= press_effect(v0, key));
                assert(out@ =~= old(out)@ + press_emits(v0, key));
            }
        },
    }
}

/// Release `key` unless it is already up; at most one key-up is emitted.
pub fn key_release_once(key_state: &mut KeyLedger, key: KeyId, out: &mut Vec<KeyTransition>)
    requires
        old(key_state).wf(),
    ensures
        final(key_state).wf(),
        final(key_state)@ == release_effect(old(key_state)@, key),
        final(out)@ == old(out)@ + release_emits(old(key_state)@, key),
{
    let ghost s0 = key_state.entries@;
    let ghost v0 = key_state@;
    match key_state.index_of(key) {
        Some(i) => {
            if key_state.entries[i].down {
                key_state.entries[i] = KeyEntry { key, down: false };
                out.push(KeyTransition::Release(key));
                proof {
                    let s1 = key_state.entries@;
                    assert(s0[i as int].key == key && s0[i as int].down);
                    assert(down_in(s0, key));
                    assert(v0.contains(key));
                    assert(forall|j: int|
                        0 <= j < s1.len() && j != i as int ==> s1[j] == s0[j]);
                    assert(s1[i as int].key == key && !s1[i as int].down);
                    assert(key_state.wf());
                    assert forall|x: KeyId| #[trigger] key_state@.contains(x) implies v0.remove(
                        key,
                    ).contains(x) by {
                        let j = choose|j: int|
                            0 <= j < s1.len() && (#[trigger] s1[j]).key == x && s1[j].down;
                        assert(j != i as int);
                        assert(s0[j].key == x && s0[j].down);
                        assert(down_in(s0, x));
                        if x == key {
                            assert(s0[j].key != s0[i as int].key);
                        }
                    }
                    assert forall|x: KeyId| #[trigger] v0.remove(key).contains(x) implies key_state@.contains(
                        x,
                    ) by {
                        let j = choose|j: int|
                            0 <= j < s0.len() && (#[trigger] s0[j]).key == x && s0[j].down;
                        assert(j != i as int);
                        assert(s1[j].key == x && s1[j].down);
                        assert(down_in(s1, x));
                    }
                    assert(key_state@ =~= release_effect(v0, key));
                    assert(out@ =~= old(out)@ + release_emits(v0, key));
                }
            } else {
                proof {
                    lemma_absent_when_entry_up(s0, i as int, key);
                    assert(!v0.contains(key));
                    assert(key_state@ =~= release_effect(v0, key));
                    assert(out@ =~= out@ + release_emits(v0, key));
                }
            }
        },
        None => {
            proof {
                assert(!down_in(s0, key));
                assert(!v0.contains(key));
                assert(key_state@ =~= release_effect(v0, key));
                assert(out@ =~= out@ + release_emits(v0, key));
            }
        },
    }
}

/// In a well-formed entry sequence, a key whose unique entry records it as up
/// is not down.
proof fn lemma_absent_when_entry_up(s: Seq<KeyEntry>, i: int, key: KeyId)
    requires
        forall|a: int, b: int|
            0 <= a < b < s.len() ==> (#[trigger] s[a]).key != (#[trigger] s[b]).key,
        0 <= i < s.len(),
        s[i].key == key,
        !s[i].down,
    ensures
        !down_in(s, key),
{
    assert forall|j: int| 0 <= j < s.len() && (#[trigger] s[j]).key == key implies !s[j].down by {
        if j != i {
            assert(s[j].key != s[i].key);
        }
    }
}

} // verus!
