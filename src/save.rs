use vstd::prelude::*;
use crate::component::{Component, ComponentView};
use crate::filter::{entity_matches, type_allowed, type_demanded, unrestricted, FilterView, SaveFilter, TypeRegistry};
use crate::snapshot::{EntityRecord, RecordView, Snapshot};
use crate::world::{EntityView, LiveEntity, World};

verus! {

/// Why a save failed.
#[derive(Clone, Copy, Debug, PartialEq, Eq, Structural)]
pub enum SaveError {
    /// A component type that the filter demanded is not registered, so it
    /// cannot be serialized.
    Serialize(u32),
}

/// Whether a component of type `t` is serialized under `f` and `reg`:
/// allowed by the filter and registered. Unregistered types are skipped.
pub open spec fn component_kept(f: FilterView, reg: Set<u32>, t: u32) -> bool {
    type_allowed(f, t) && reg.contains(t)
}

/// The components of `cs` that a save keeps, in order.
pub open spec fn kept_components(f: FilterView, reg: Set<u32>, cs: Seq<ComponentView>) -> Seq<ComponentView>
    decreases cs.len(),
{
    if cs.len() == 0 {
        Seq::empty()
    } else if component_kept(f, reg, cs.last().type_id) {
        kept_components(f, reg, cs.drop_last()).push(cs.last())
    } else {
        kept_components(f, reg, cs.drop_last())
    }
}

/// The first component type of `cs` that the filter demands and the registry
/// cannot serialize.
pub open spec fn first_unserializable(f: FilterView, reg: Set<u32>, cs: Seq<ComponentView>) -> Option<u32>
    decreases cs.len(),
{
    if cs.len() == 0 {
        None
    } else {
        match first_unserializable(f, reg, cs.drop_last()) {
            Some(t) => Some(t),
            None => if type_demanded(f, cs.last().type_id) && !reg.contains(cs.last().type_id) {
                Some(cs.last().type_id)
            } else {
                None
            },
        }
    }
}

/// The record that a save makes of the qualifying entity `e`.
pub open spec fn record_of(f: FilterView, reg: Set<u32>, e: EntityView) -> RecordView {
    RecordView { id: e.id, save: e.save, components: kept_components(f, reg, e.components) }
}

/// The outcome of saving the entities `es` under `f` and `reg`: one record per
/// qualifying entity in world order, or the first type that failed.
pub open spec fn save_spec(f: FilterView, reg: Set<u32>, es: Seq<EntityView>) -> Result<Seq<RecordView>, u32>
    decreases es.len(),
{
    if es.len() == 0 {
        Ok(Seq::empty())
    } else {
        match save_spec(f, reg, es.drop_last()) {
            Err(t) => Err(t),
            Ok(rs) => if !entity_matches(f, es.last()) {
                Ok(rs)
            } else {
                match first_unserializable(f, reg, es.last().components) {
                    Some(t) => Err(t),
                    None => Ok(rs.push(record_of(f, reg, es.last()))),
                }
            },
        }
    }
}

/// The record of one qualifying entity, or the first demanded type that
/// cannot be serialized.
fn record_for(filter: &SaveFilter, registry: &TypeRegistry, e: &LiveEntity) -> (r: Result<EntityRecord, u32>)
    ensures
        match first_unserializable(filter@, registry@, e@.components) {
            Some(t) => r == Err::<EntityRecord, u32>(t),
            None => r is Ok && r->Ok_0@ == record_of(filter@, registry@, e@),
        },
{
    let ghost cs = e@.components;
    let mut out: Vec<Component> = Vec::new();
    let mut j: usize = 0;
    while j < e.components.len()
        invariant
            j <= cs.len(),
            cs == e@.components,
            first_unserializable(filter@, registry@, cs.take(j as int)) is None,
            out@.map_values(|c: Component| c@) == kept_components(filter@, registry@, cs.take(j as int)),
        decreases cs.len() - j,
    {
        let c = &e.components[j];
        let t = c.type_id;
        proof {
            assert(cs.take(j + 1).drop_last() =~= cs.take(j as int));
            assert(cs.take(j + 1).last() == c@);
        }
        let allowed = filter.allows(t);
        let registered = registry.contains(t);
        if allowed && registered {
            let ghost before = out@;
            out.push(c.duplicate());
            proof {
                assert(out@.map_values(|c: Component| c@) =~= before.map_values(|c: Component| c@).push(c@));
            }
        } else if allowed && filter.allow.is_some() {
            proof {
                lemma_first_unserializable_prefix(filter@, registry@, cs, j + 1);
            }
            return Err(t);
        }
        j = j + 1;
    }
    proof {
        assert(cs.take(j as int) =~= cs);
    }
    Ok(EntityRecord { entity: e.id, save: e.save, components: out })
}

/// A failure found in a prefix is the failure of the whole sequence.
proof fn lemma_first_unserializable_prefix(f: FilterView, reg: Set<u32>, cs: Seq<ComponentView>, n: int)
    requires
        0 < n <= cs.len(),
        first_unserializable(f, reg, cs.take(n)) is Some,
    ensures
        first_unserializable(f, reg, cs) == first_unserializable(f, reg, cs.take(n)),
    decreases cs.len() - n,
{
    if n < cs.len() {
        assert(cs.take(n + 1).drop_last() =~= cs.take(n));
        lemma_first_unserializable_prefix(f, reg, cs, n + 1);
    } else {
        assert(cs.take(n) =~= cs);
    }
}

/// A failure found among the first entities is the failure of the whole save.
proof fn lemma_save_error_prefix(f: FilterView, reg: Set<u32>, es: Seq<EntityView>, n: int)
    requires
        0 < n <= es.len(),
        save_spec(f, reg, es.take(n)) is Err,
    ensures
        save_spec(f, reg, es) == save_spec(f, reg, es.take(n)),
    decreases es.len() - n,
{
    if n < es.len() {
        assert(es.take(n + 1).drop_last() =~= es.take(n));
        lemma_save_error_prefix(f, reg, es, n + 1);
    } else {
        assert(es.take(n) =~= es);
    }
}

/// Captures every entity of `world` that qualifies under `filter`, in world
/// order, with the components that the filter allows and the registry can
/// serialize. Fails when the filter demands a type that is not registered.
/// The world is only read.
pub fn save(world: &World, filter: &SaveFilter, registry: &TypeRegistry) -> (r: Result<Snapshot, SaveError>)
    ensures
        match save_spec(filter@, registry@, world@.entities) {
            Ok(rs) => r is Ok && r->Ok_0@ == rs,
            Err(t) => r == Err::<Snapshot, SaveError>(SaveError::Serialize(t)),
        },
{
    let ghost es = world@.entities;
    let mut records: Vec<EntityRecord> = Vec::new();
    let mut i: usize = 0;
    proof {
        assert(es.take(0) =~= Seq::<EntityView>::empty());
        assert(records@.map_values(|r: EntityRecord| r@) =~= Seq::<RecordView>::empty());
    }
    while i < world.entities.len()
        invariant
            i <= es.len(),
            es == world@.entities,
            save_spec(filter@, registry@, es.take(i as int)) == Ok::<Seq<RecordView>, u32>(
                records@.map_values(|r: EntityRecord| r@),
            ),
        decreases es.len() - i,
    {
        let e = &world.entities[i];
        proof {
            assert(es.take(i + 1).drop_last() =~= es.take(i as int));
            assert(es.take(i + 1).last() == e@);
        }
        if filter.matches_entity(e) {
            match record_for(filter, registry, e) {
                Ok(rec) => {
                    let ghost before = records@;
                    records.push(rec);
                    proof {
                        assert(records@.map_values(|r: EntityRecord| r@) =~= before.map_values(
                            |r: EntityRecord| r@,
                        ).push(rec@));
                    }
                },
                Err(t) => {
                    proof {
                        lemma_save_error_prefix(filter@, registry@, es, i + 1);
                    }
                    return Err(SaveError::Serialize(t));
                },
            }
        }
        i = i + 1;
    }
    proof {
        assert(es.take(i as int) =~= es);
    }
    Ok(Snapshot { records })
}

/// A filter that lists no allowed types demands none, so a save under it
/// always succeeds.
proof fn lemma_no_demand_never_fails(f: FilterView, reg: Set<u32>, es: Seq<EntityView>)
    requires
        f.allow is None,
    ensures
        save_spec(f, reg, es) is Ok,
    decreases es.len(),
{
    if es.len() > 0 {
        lemma_no_demand_never_fails(f, reg, es.drop_last());
        lemma_no_demand_components(f, reg, es.last().components);
    }
}

proof fn lemma_no_demand_components(f: FilterView, reg: Set<u32>, cs: Seq<ComponentView>)
    requires
        f.allow is None,
    ensures
        first_unserializable(f, reg, cs) is None,
    decreases cs.len(),
{
    if cs.len() > 0 {
        lemma_no_demand_components(f, reg, cs.drop_last());
    }
}

/// Saves under the default filter: every entity with the Save Marker, all of
/// its registered components. Never fails.
pub fn save_default(world: &World, registry: &TypeRegistry) -> (r: Result<Snapshot, SaveError>)
    ensures
        save_spec(unrestricted(true), registry@, world@.entities) is Ok,
        r is Ok,
        r->Ok_0@ == save_spec(unrestricted(true), registry@, world@.entities)->Ok_0,
{
    let f = SaveFilter::default_filter();
    proof {
        lemma_no_demand_never_fails(f@, registry@, world@.entities);
    }
    save(world, &f, registry)
}

/// Saves every entity, with all of its registered components. Never fails.
pub fn save_all(world: &World, registry: &TypeRegistry) -> (r: Result<Snapshot, SaveError>)
    ensures
        save_spec(unrestricted(false), registry@, world@.entities) is Ok,
        r is Ok,
        r->Ok_0@ == save_spec(unrestricted(false), registry@, world@.entities)->Ok_0,
{
    let f = SaveFilter::all();
    proof {
        lemma_no_demand_never_fails(f@, registry@, world@.entities);
    }
    save(world, &f, registry)
}

} // verus!
