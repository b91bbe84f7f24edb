use vstd::prelude::*;
use crate::entity::{Entity, PLACEHOLDER_ID};

verus! {

/// The table from old identities (as saved) to new identities (as spawned),
/// built once per load.
#[derive(Debug)]
pub struct EntityMapper {
    pairs: Vec<(u64, u64)>,
}

/// What a reference to `old` becomes under `m`: its entry, or the sentinel.
pub open spec fn map_id(m: Map<u64, u64>, old: u64) -> u64 {
    if m.contains_key(old) {
        m[old]
    } else {
        PLACEHOLDER_ID
    }
}

/// The table that a sequence of (old, new) pairs describes; a later pair for
/// the same old identity replaces an earlier one.
pub open spec fn pairs_map(s: Seq<(u64, u64)>) -> Map<u64, u64>
    decreases s.len(),
{
    if s.len() == 0 {
        Map::empty()
    } else {
        pairs_map(s.drop_last()).insert(s.last().0, s.last().1)
    }
}

impl View for EntityMapper {
    type V = Map<u64, u64>;

    closed spec fn view(&self) -> Map<u64, u64> {
        pairs_map(self.pairs@)
    }
}

impl EntityMapper {
    /// An empty table.
    pub fn new() -> (r: EntityMapper)
        ensures
            r@ == Map::<u64, u64>::empty(),
    {
        EntityMapper { pairs: Vec::new() }
    }

    /// Records that `from` now stands for `to`.
    pub fn insert(&mut self, from: Entity, to: Entity)
        ensures
            final(self)@ == old(self)@.insert(from.id, to.id),
    {
        self.pairs.push((from.id, to.id));
        assert(self.pairs@.drop_last() =~= old(self).pairs@);
    }

    /// The new identity recorded for `old`, if any.
    pub fn get(&self, old: Entity) -> (r: Option<Entity>)
        ensures
            r == (if self@.contains_key(old.id) {
                Some(Entity { id: self@[old.id] })
            } else {
                None::<Entity>
            }),
    {
        let mut i: usize = self.pairs.len();
        while i > 0
            invariant
                i <= self.pairs@.len(),
                forall|j: int| i <= j < self.pairs@.len() ==> self.pairs@[j].0 != old.id,
            decreases i,
        {
            i = i - 1;
            let (o, n) = self.pairs[i];
            if o == old.id {
                proof {
                    lemma_last_entry_wins(self.pairs@, i as int);
                }
                return Some(Entity { id: n });
            }
        }
        proof {
            lemma_absent(self.pairs@, old.id);
        }
        None
    }

    /// What a reference to `old` becomes: its new identity, or the sentinel
    /// when `old` was never recorded.
    pub fn map_entity(&self, old: Entity) -> (r: Entity)
        ensures
            r.id == map_id(self@, old.id),
    {
        match self.get(old) {
            Some(e) => e,
            None => Entity::placeholder(),
        }
    }
}

/// The last pair for a key decides its entry.
proof fn lemma_last_entry_wins(s: Seq<(u64, u64)>, i: int)
    requires
        0 <= i < s.len(),
        forall|j: int| i < j < s.len() ==> s[j].0 != s[i].0,
    ensures
        pairs_map(s).contains_key(s[i].0),
        pairs_map(s)[s[i].0] == s[i].1,
    decreases s.len(),
{
    if i < s.len() - 1 {
        lemma_last_entry_wins(s.drop_last(), i);
    }
}

/// A key with no pair has no entry.
proof fn lemma_absent(s: Seq<(u64, u64)>, k: u64)
    requires
        forall|j: int| 0 <= j < s.len() ==> s[j].0 != k,
    ensures
        !pairs_map(s).contains_key(k),
    decreases s.len(),
{
    if s.len() > 0 {
        assert(s[s.len() - 1].0 != k);
        lemma_absent(s.drop_last(), k);
    }
}

} // verus!
