use vstd::prelude::*;
use vstd::pervasive::VecAdditionalExecFns;
use crate::codec::{decode, lemma_concat_len, enc_record, encode_spec, record_bytes, snapshot_fits};
use crate::component::{remap_components, Component, ComponentView};
use crate::entity::{Entity, PLACEHOLDER_ID};
use crate::filter::TypeRegistry;
use crate::mapper::{map_id, EntityMapper};
use crate::snapshot::{RecordView, Snapshot};
use crate::world::{cleared, EntityView, LiveEntity, World, WorldView};

verus! {

/// Why a load failed.
#[derive(Clone, Copy, Debug, PartialEq, Eq, Structural)]
pub enum LoadError {
    /// The bytes are not the encoding of any snapshot.
    Deserialize,
    /// A payload names a component type that is not registered.
    UnknownType(u32),
}

/// The outcome of a load: the table from saved identities to the entities
/// spawned for them, for post-load fixups.
#[derive(Debug)]
pub struct Loaded {
    mapper: EntityMapper,
}

impl View for Loaded {
    type V = Map<u64, u64>;

    closed spec fn view(&self) -> Map<u64, u64> {
        self.mapper@
    }
}

impl Loaded {
    /// The entity spawned for the saved identity `old`, if it was loaded.
    pub fn get(&self, old: Entity) -> (r: Option<Entity>)
        ensures
            r == (if self@.contains_key(old.id) {
                Some(Entity { id: self@[old.id] })
            } else {
                None::<Entity>
            }),
    {
        self.mapper.get(old)
    }

    /// The old-to-new table itself, read-only.
    pub fn entity_mapper(&self) -> (r: &EntityMapper)
        ensures
            r@ == self@,
    {
        &self.mapper
    }
}

impl Entity {
    /// What a saved reference to `old` becomes after the load that produced
    /// `loaded`: the entity spawned for it, or the sentinel.
    pub fn from_loaded(old: Entity, loaded: &Loaded) -> (r: Entity)
        ensures
            r.id == map_id(loaded@, old.id),
    {
        Entity::from_mapper(old, &loaded.mapper)
    }
}

/// The first unregistered type among the components `cs`.
pub open spec fn first_unknown_in(reg: Set<u32>, cs: Seq<ComponentView>) -> Option<u32>
    decreases cs.len(),
{
    if cs.len() == 0 {
        None
    } else {
        match first_unknown_in(reg, cs.drop_last()) {
            Some(t) => Some(t),
            None => if reg.contains(cs.last().type_id) {
                None
            } else {
                Some(cs.last().type_id)
            },
        }
    }
}

/// The first unregistered type among the payloads of `rs`, in record order.
pub open spec fn first_unknown(reg: Set<u32>, rs: Seq<RecordView>) -> Option<u32>
    decreases rs.len(),
{
    if rs.len() == 0 {
        None
    } else {
        match first_unknown(reg, rs.drop_last()) {
            Some(t) => Some(t),
            None => first_unknown_in(reg, rs.last().components),
        }
    }
}

/// The table that spawning the records `rs`, from identity `base` on, builds.
pub open spec fn spawn_map(rs: Seq<RecordView>, base: u64) -> Map<u64, u64>
    decreases rs.len(),
{
    if rs.len() == 0 {
        Map::empty()
    } else {
        spawn_map(rs.drop_last(), base).insert(rs.last().id, (base + rs.len() - 1) as u64)
    }
}

/// The entities that a load spawns for `rs` from identity `base` on, with
/// their components remapped under `m`.
pub open spec fn spawned(rs: Seq<RecordView>, base: u64, m: Map<u64, u64>) -> Seq<EntityView> {
    Seq::new(
        rs.len(),
        |i: int|
            EntityView {
                id: (base + i) as u64,
                save: rs[i].save,
                unload: true,
                components: remap_components(rs[i].components, m),
            },
    )
}

/// The world after a successful load of `rs` into `w`: the Unload-Marked
/// entities are gone, the others are kept in order, and one entity per record
/// follows, in record order.
pub open spec fn load_spec(w: WorldView, rs: Seq<RecordView>) -> WorldView {
    WorldView {
        entities: cleared(w.entities) + spawned(rs, w.next_id, spawn_map(rs, w.next_id)),
        next_id: (w.next_id + rs.len()) as u64,
    }
}

/// The first unregistered payload type of the snapshot, if any.
fn find_unknown(snapshot: &Snapshot, registry: &TypeRegistry) -> (r: Option<u32>)
    ensures
        r == first_unknown(registry@, snapshot@),
{
    let ghost rs = snapshot@;
    let mut i: usize = 0;
    while i < snapshot.records.len()
        invariant
            i <= rs.len(),
            rs == snapshot@,
            first_unknown(registry@, rs.take(i as int)) is None,
        decreases rs.len() - i,
    {
        let rec = &snapshot.records[i];
        let ghost cs = rec@.components;
        proof {
            assert(rs.take(i + 1).drop_last() =~= rs.take(i as int));
            assert(rs.take(i + 1).last() == rec@);
            assert(first_unknown(registry@, rs.take(i + 1)) == first_unknown_in(registry@, cs));
        }
        let mut j: usize = 0;
        while j < rec.components.len()
            invariant
                j <= cs.len(),
                cs == rec@.components,
                rs == snapshot@,
                i < rs.len(),
                first_unknown(registry@, rs.take(i + 1)) == first_unknown_in(registry@, cs),
                first_unknown_in(registry@, cs.take(j as int)) is None,
            decreases cs.len() - j,
        {
            proof {
                assert(cs.take(j + 1).drop_last() =~= cs.take(j as int));
            }
            let t = rec.components[j].type_id;
            if !registry.contains(t) {
                proof {
                    assert(cs[j as int].type_id == t);
                    assert(cs.take(j + 1).last() == cs[j as int]);
                    assert(first_unknown_in(registry@, cs.take(j + 1)) == Some(t));
                    lemma_unknown_in_prefix(registry@, cs, j + 1);
                    lemma_unknown_prefix(registry@, rs, i + 1);
                }
                return Some(t);
            }
            j = j + 1;
        }
        proof {
            assert(cs.take(j as int) =~= cs);
        }
        i = i + 1;
    }
    proof {
        assert(rs.take(i as int) =~= rs);
    }
    None
}

/// The entities of the spawn phase: one per record, marked for unload, with
/// no components yet.
pub open spec fn spawned_empty(rs: Seq<RecordView>, base: u64, n: int) -> Seq<EntityView> {
    Seq::new(
        n as nat,
        |k: int| EntityView { id: (base + k) as u64, save: rs[k].save, unload: true, components: Seq::empty() },
    )
}

/// The entities during the populate phase: the first `i` filled in.
pub open spec fn populated(rs: Seq<RecordView>, base: u64, m: Map<u64, u64>, i: int) -> Seq<EntityView> {
    Seq::new(
        rs.len(),
        |k: int|
            if k < i {
                spawned(rs, base, m)[k]
            } else {
                spawned_empty(rs, base, rs.len() as int)[k]
            },
    )
}

/// The components `cs` after the generic structural remap, as new values.
fn remap_all(cs: &Vec<Component>, mapper: &EntityMapper) -> (r: Vec<Component>)
    ensures
        r@.map_values(|c: Component| c@) == remap_components(cs@.map_values(|c: Component| c@), mapper@),
{
    let ghost v = cs@.map_values(|c: Component| c@);
    let mut out: Vec<Component> = Vec::new();
    let mut j: usize = 0;
    while j < cs.len()
        invariant
            j <= cs@.len(),
            v == cs@.map_values(|c: Component| c@),
            out@.map_values(|c: Component| c@) == remap_components(v.take(j as int), mapper@),
        decreases cs@.len() - j,
    {
        let ghost before = out@;
        let c = Component::from_mapper(&cs[j], mapper);
        let ghost cv = c@;
        out.push(c);
        j = j + 1;
        proof {
            assert(v[j - 1] == cs@[j - 1]@);
            assert(out@.map_values(|c: Component| c@) =~= before.map_values(|c: Component| c@).push(cv));
            assert(out@.map_values(|c: Component| c@) =~= remap_components(v.take(j as int), mapper@));
        }
    }
    proof {
        assert(v.take(j as int) =~= v);
    }
    out
}

/// Loads `snapshot` into `world`, replacing what an earlier load put there.
///
/// Every payload type is checked against the registry first; on an unknown
/// type the world is left as it was. Otherwise the Unload-Marked entities are
/// despawned, one fresh Unload-Marked entity is spawned per record in record
/// order, and only then is each record's component list remapped through the
/// complete old-to-new table and attached to its entity.
pub fn load(world: &mut World, snapshot: &Snapshot, registry: &TypeRegistry) -> (r: Result<Loaded, LoadError>)
    requires
        old(world)@.wf(),
        old(world).next_id + snapshot@.len() < PLACEHOLDER_ID,
    ensures
        match first_unknown(registry@, snapshot@) {
            Some(t) => r == Err::<Loaded, LoadError>(LoadError::UnknownType(t)) && final(world)@ == old(world)@,
            None => r is Ok && r->Ok_0@ == spawn_map(snapshot@, old(world).next_id) && final(world)@ == load_spec(
                old(world)@,
                snapshot@,
            ),
        },
        final(world)@.wf(),
{
    if let Some(t) = find_unknown(snapshot, registry) {
        return Err(LoadError::UnknownType(t));
    }
    let ghost rs = snapshot@;
    let ghost orig = world@.entities;
    let base: u64 = world.next_id;
    world.clear_scope();
    let kept_len: usize = world.entities.len();
    let ghost kept = world@.entities;
    let n: usize = snapshot.records.len();
    let mut mapper = EntityMapper::new();
    let mut i: usize = 0;
    proof {
        assert(world@.entities =~= kept + spawned_empty(rs, base, 0));
        assert(rs.take(0) =~= Seq::<RecordView>::empty());
    }
    while i < n
        invariant
            rs == snapshot@,
            n == rs.len(),
            base + n < PLACEHOLDER_ID,
            i <= n,
            kept == cleared(orig),
            kept.len() == kept_len,
            world@.wf(),
            world.next_id == base + i,
            world@.entities == kept + spawned_empty(rs, base, i as int),
            mapper@ == spawn_map(rs.take(i as int), base),
        decreases n - i,
    {
        let rec = &snapshot.records[i];
        let none: Vec<Component> = Vec::new();
        proof {
            assert(none@.map_values(|c: Component| c@) =~= Seq::<ComponentView>::empty());
        }
        let e = world.spawn_tagged(rec.save, true, none);
        mapper.insert(rec.entity, e);
        i = i + 1;
        proof {
            assert(world@.entities =~= kept + spawned_empty(rs, base, i as int));
            assert(rs.take(i as int).drop_last() =~= rs.take(i - 1));
        }
    }
    proof {
        assert(rs.take(n as int) =~= rs);
    }
    let ghost m = mapper@;
    let mut i: usize = 0;
    proof {
        assert(spawned_empty(rs, base, n as int) =~= populated(rs, base, m, 0));
    }
    while i < n
        invariant
            rs == snapshot@,
            n == rs.len(),
            base + n < PLACEHOLDER_ID,
            i <= n,
            kept.len() == kept_len,
            world@.wf(),
            world.next_id == base + n,
            world@.entities == kept + populated(rs, base, m, i as int),
            mapper@ == m,
        decreases n - i,
    {
        let rec = &snapshot.records[i];
        let comps = remap_all(&rec.components, &mapper);
        let ghost before = world@.entities;
        proof {
            assert(world.entities@.len() == world@.entities.len());
            assert(world@.entities.len() == kept_len + n);
        }
        let total: usize = world.entities.len();
        let id = Entity { id: base + i as u64 };
        let filled = LiveEntity { id, save: rec.save, unload: true, components: comps };
        proof {
            assert(rs[i as int] == rec@);
            assert(filled@ == spawned(rs, base, m)[i as int]);
        }
        world.entities.set(kept_len + i, filled);
        proof {
            assert(world@.entities =~= before.update(kept_len + i, filled@));
        }
        i = i + 1;
        proof {
            assert(world@.entities =~= kept + populated(rs, base, m, i as int));
            assert forall|x: int| 0 <= x < world@.entities.len() implies world@.entities[x].id == before[x].id by {}
        }
    }
    proof {
        assert(populated(rs, base, m, n as int) =~= spawned(rs, base, m));
    }
    Ok(Loaded { mapper })
}

/// A snapshot has no more records than its encoding has bytes.
proof fn lemma_records_within_bytes(sv: Seq<RecordView>)
    ensures
        sv.len() <= encode_spec(sv).len(),
{
    assert forall|x: RecordView| #[trigger] record_bytes()(x).len() >= 1 by {
        assert(enc_record(x).len() >= 1);
    }
    lemma_concat_len(sv, record_bytes());
}

/// Decodes `bytes` and loads the snapshot they encode into `world`.
///
/// Bytes that encode no snapshot are rejected before anything else, and
/// leave the world as it was; otherwise this is `load` on the decoded
/// snapshot.
pub fn load_from_bytes(world: &mut World, bytes: &Vec<u8>, registry: &TypeRegistry) -> (r: Result<Loaded, LoadError>)
    requires
        old(world)@.wf(),
        old(world).next_id + bytes@.len() < PLACEHOLDER_ID,
    ensures
        (forall|sv: Seq<RecordView>| snapshot_fits(sv) ==> #[trigger] encode_spec(sv) != bytes@) ==> (r
            == Err::<Loaded, LoadError>(LoadError::Deserialize) && final(world)@ == old(world)@),
        forall|sv: Seq<RecordView>|
            snapshot_fits(sv) && #[trigger] encode_spec(sv) == bytes@ ==> match first_unknown(registry@, sv) {
                Some(t) => r == Err::<Loaded, LoadError>(LoadError::UnknownType(t)) && final(world)@ == old(world)@,
                None => r is Ok && r->Ok_0@ == spawn_map(sv, old(world).next_id) && final(world)@ == load_spec(
                    old(world)@,
                    sv,
                ),
            },
        final(world)@.wf(),
{
    match decode(bytes) {
        None => Err(LoadError::Deserialize),
        Some(snapshot) => {
            proof {
                lemma_records_within_bytes(snapshot@);
            }
            load(world, &snapshot, registry)
        },
    }
}

proof fn lemma_unknown_in_prefix(reg: Set<u32>, cs: Seq<ComponentView>, n: int)
    requires
        0 < n <= cs.len(),
        first_unknown_in(reg, cs.take(n)) is Some,
    ensures
        first_unknown_in(reg, cs) == first_unknown_in(reg, cs.take(n)),
    decreases cs.len() - n,
{
    if n < cs.len() {
        assert(cs.take(n + 1).drop_last() =~= cs.take(n));
        lemma_unknown_in_prefix(reg, cs, n + 1);
    } else {
        assert(cs.take(n) =~= cs);
    }
}

proof fn lemma_unknown_prefix(reg: Set<u32>, rs: Seq<RecordView>, n: int)
    requires
        0 < n <= rs.len(),
        first_unknown(reg, rs.take(n)) is Some,
    ensures
        first_unknown(reg, rs) == first_unknown(reg, rs.take(n)),
    decreases rs.len() - n,
{
    if n < rs.len() {
        assert(rs.take(n + 1).drop_last() =~= rs.take(n));
        lemma_unknown_prefix(reg, rs, n + 1);
    } else {
        assert(rs.take(n) =~= rs);
    }
}

} // verus!
