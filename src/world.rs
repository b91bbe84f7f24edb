use vstd::prelude::*;
use crate::component::{Component, ComponentView};
use crate::entity::{Entity, PLACEHOLDER_ID};

verus! {

/// A live entity: its identity, its two marker tags and its components.
#[derive(Debug)]
pub struct LiveEntity {
    pub id: Entity,
    /// Save Marker: include this entity in saves under the default filter.
    pub save: bool,
    /// Unload Marker: this entity came from a load and goes at the next one.
    pub unload: bool,
    pub components: Vec<Component>,
}

/// The mathematical value of a live entity.
pub struct EntityView {
    pub id: u64,
    pub save: bool,
    pub unload: bool,
    pub components: Seq<ComponentView>,
}

impl View for LiveEntity {
    type V = EntityView;

    open spec fn view(&self) -> EntityView {
        EntityView {
            id: self.id.id,
            save: self.save,
            unload: self.unload,
            components: self.components@.map_values(|c: Component| c@),
        }
    }
}

/// Whether `e` carries a component of type `t`.
pub open spec fn has_type(e: EntityView, t: u32) -> bool {
    exists|j: int| 0 <= j < e.components.len() && e.components[j].type_id == t
}

/// The entities that stay when every Unload-Marked entity of `s` is despawned,
/// in their order.
pub open spec fn cleared(s: Seq<EntityView>) -> Seq<EntityView>
    decreases s.len(),
{
    if s.len() == 0 {
        Seq::empty()
    } else if s.last().unload {
        cleared(s.drop_last())
    } else {
        cleared(s.drop_last()).push(s.last())
    }
}

/// Identities strictly increase along `s`, and all stay below `bound`.
pub open spec fn ids_ordered_below(s: Seq<EntityView>, bound: u64) -> bool {
    &&& forall|i: int, j: int| 0 <= i < j < s.len() ==> s[i].id < s[j].id
    &&& forall|i: int| 0 <= i < s.len() ==> s[i].id < bound
}

/// The host world: its live entities in spawn order, and the next fresh identity.
#[derive(Debug)]
pub struct World {
    pub entities: Vec<LiveEntity>,
    pub next_id: u64,
}

/// The mathematical value of a world.
pub struct WorldView {
    pub entities: Seq<EntityView>,
    pub next_id: u64,
}

impl View for World {
    type V = WorldView;

    open spec fn view(&self) -> WorldView {
        WorldView {
            entities: self.entities@.map_values(|e: LiveEntity| e@),
            next_id: self.next_id,
        }
    }
}

impl WorldView {
    /// Identities are distinct (they increase in spawn order), every one was
    /// handed out already, and none is the sentinel.
    pub open spec fn wf(self) -> bool {
        &&& ids_ordered_below(self.entities, self.next_id)
        &&& self.next_id < PLACEHOLDER_ID
    }
}

/// Despawning keeps what it keeps in order, so identities stay ordered.
pub proof fn lemma_cleared_ordered(s: Seq<EntityView>, bound: u64)
    requires
        ids_ordered_below(s, bound),
    ensures
        ids_ordered_below(cleared(s), bound),
        forall|i: int| 0 <= i < cleared(s).len() ==> exists|j: int| 0 <= j < s.len() && s[j] == #[trigger] cleared(s)[i],
        forall|i: int| 0 <= i < cleared(s).len() ==> !(#[trigger] cleared(s)[i]).unload,
    decreases s.len(),
{
    if s.len() > 0 {
        let p = s.drop_last();
        lemma_cleared_ordered(p, bound);
        assert forall|i: int| 0 <= i < cleared(p).len() implies exists|j: int| 0 <= j < s.len() && s[j] == #[trigger] cleared(p)[i] by {
            let j = choose|j: int| 0 <= j < p.len() && p[j] == cleared(p)[i];
            assert(s[j] == p[j]);
        }
        if !s.last().unload {
            let c = cleared(s);
            assert forall|i: int| 0 <= i < cleared(p).len() implies (#[trigger] cleared(p)[i]).id < s.last().id by {
                let j = choose|j: int| 0 <= j < p.len() && p[j] == cleared(p)[i];
                assert(s[j] == p[j]);
            }
            assert forall|i: int| 0 <= i < c.len() implies exists|j: int| 0 <= j < s.len() && s[j] == #[trigger] c[i] by {
                if i == c.len() - 1 {
                    assert(s[s.len() - 1] == c[i]);
                } else {
                    assert(c[i] == cleared(p)[i]);
                }
            }
        }
    }
}

impl World {
    /// An empty world.
    pub fn new() -> (r: World)
        ensures
            r@.entities.len() == 0,
            r@.next_id == 0,
            r@.wf(),
    {
        World { entities: Vec::new(), next_id: 0 }
    }

    /// Spawns an entity with the given markers and components, under a fresh
    /// identity, at the end of the spawn order.
    pub fn spawn_tagged(&mut self, save: bool, unload: bool, components: Vec<Component>) -> (r: Entity)
        requires
            old(self)@.wf(),
            old(self).next_id + 1 < PLACEHOLDER_ID,
        ensures
            r.id == old(self).next_id,
            final(self)@.next_id == old(self).next_id + 1,
            final(self)@.entities == old(self)@.entities.push(EntityView {
                id: r.id,
                save,
                unload,
                components: components@.map_values(|c: Component| c@),
            }),
            final(self)@.wf(),
    {
        let id = Entity { id: self.next_id };
        self.next_id = self.next_id + 1;
        let ghost cv = components@.map_values(|c: Component| c@);
        self.entities.push(LiveEntity { id, save, unload, components });
        assert(self@.entities =~= old(self)@.entities.push(EntityView { id: id.id, save, unload, components: cv }));
        id
    }

    /// Spawns an entity that carries the Save Marker, with the given components.
    pub fn spawn(&mut self, components: Vec<Component>) -> (r: Entity)
        requires
            old(self)@.wf(),
            old(self).next_id + 1 < PLACEHOLDER_ID,
        ensures
            r.id == old(self).next_id,
            final(self)@.next_id == old(self).next_id + 1,
            final(self)@.entities == old(self)@.entities.push(EntityView {
                id: r.id,
                save: true,
                unload: false,
                components: components@.map_values(|c: Component| c@),
            }),
            final(self)@.wf(),
    {
        self.spawn_tagged(true, false, components)
    }

    /// Spawns an entity with no markers and no components.
    pub fn spawn_empty(&mut self) -> (r: Entity)
        requires
            old(self)@.wf(),
            old(self).next_id + 1 < PLACEHOLDER_ID,
        ensures
            r.id == old(self).next_id,
            final(self)@.next_id == old(self).next_id + 1,
            final(self)@.entities == old(self)@.entities.push(EntityView {
                id: r.id,
                save: false,
                unload: false,
                components: Seq::empty(),
            }),
            final(self)@.wf(),
    {
        let none: Vec<Component> = Vec::new();
        proof {
            assert(none@.map_values(|c: Component| c@) =~= Seq::<ComponentView>::empty());
        }
        self.spawn_tagged(false, false, none)
    }

    /// Despawns every entity that carries the Unload Marker; the others keep
    /// their order.
    pub fn clear_scope(&mut self)
        requires
            old(self)@.wf(),
        ensures
            final(self)@.entities == cleared(old(self)@.entities),
            final(self)@.next_id == old(self).next_id,
            final(self)@.wf(),
    {
        let ghost orig = self@.entities;
        let n: usize = self.entities.len();
        let mut i: usize = 0;
        let mut k: usize = 0;
        while k < self.entities.len()
            invariant
                self.next_id == old(self).next_id,
                orig == old(self)@.entities,
                orig.len() == n,
                k <= i <= orig.len(),
                self.entities@.len() == cleared(orig.take(i as int)).len() + (orig.len() - i),
                k == cleared(orig.take(i as int)).len(),
                self@.entities == cleared(orig.take(i as int)) + orig.skip(i as int),
            decreases orig.len() - i,
        {
            proof {
                assert(i < orig.len());
                assert(orig.take(i + 1).drop_last() =~= orig.take(i as int));
                assert(self@.entities[k as int] == orig[i as int]);
            }
            if self.entities[k].unload {
                let ghost before = self@.entities;
                let _gone = self.entities.remove(k);
                proof {
                    assert(self@.entities =~= before.remove(k as int));
                    assert(orig.take(i + 1).last() == orig[i as int]);
                    assert(cleared(orig.take(i + 1)) == cleared(orig.take(i as int)));
                }
                i = i + 1;
                proof {
                    assert(self@.entities =~= cleared(orig.take(i as int)) + orig.skip(i as int));
                }
            } else {
                proof {
                    assert(orig.take(i + 1).last() == orig[i as int]);
                    assert(cleared(orig.take(i + 1)) == cleared(orig.take(i as int)).push(orig[i as int]));
                }
                k = k + 1;
                i = i + 1;
                proof {
                    assert(self@.entities =~= cleared(orig.take(i as int)) + orig.skip(i as int));
                }
            }
        }
        proof {
            assert(orig.take(i as int) =~= orig);
            assert(self@.entities =~= cleared(orig));
            lemma_cleared_ordered(orig, self.next_id);
        }
    }

    /// Number of live entities.
    pub fn len(&self) -> (r: usize)
        ensures
            r == self@.entities.len(),
    {
        self.entities.len()
    }

    /// The live entity with identity `e`, if any.
    pub fn get(&self, e: Entity) -> (r: Option<&LiveEntity>)
        ensures
            match r {
                Some(x) => x.id == e && exists|i: int| 0 <= i < self.entities@.len() && self.entities@[i] == *x,
                None => forall|i: int| 0 <= i < self@.entities.len() ==> self@.entities[i].id != e.id,
            },
    {
        let mut i: usize = 0;
        while i < self.entities.len()
            invariant
                i <= self.entities@.len(),
                forall|j: int| 0 <= j < i ==> self@.entities[j].id != e.id,
            decreases self.entities@.len() - i,
        {
            if self.entities[i].id.id == e.id {
                return Some(&self.entities[i]);
            }
            i = i + 1;
        }
        None
    }
}

} // verus!
