use vstd::prelude::*;
use crate::component::{component_shape, remap_component, Field, ComponentView};
use crate::entity::{Entity, PLACEHOLDER_ID};
use crate::filter::{entity_matches, FilterView};
use crate::load::{load_spec, spawn_map};
use crate::save::{component_kept, kept_components, record_of, save_spec};
use crate::mapper::map_id;
use crate::snapshot::{has_record, ids_distinct, RecordView};
use crate::world::{cleared, ids_ordered_below, EntityView, WorldView};

verus! {

/// The table built by spawning `rs` maps each record's old identity to the
/// identity spawned for it, and knows no other identity.
pub proof fn lemma_spawn_map(rs: Seq<RecordView>, base: u64)
    requires
        ids_distinct(rs),
        base + rs.len() < PLACEHOLDER_ID,
    ensures
        forall|i: int| 0 <= i < rs.len() ==> #[trigger] spawn_map(rs, base).contains_key(rs[i].id)
            && spawn_map(rs, base)[rs[i].id] == base + i,
        forall|id: u64| spawn_map(rs, base).contains_key(id) <==> has_record(rs, id),
    decreases rs.len(),
{
    if rs.len() > 0 {
        let p = rs.drop_last();
        assert(ids_distinct(p)) by {
            assert forall|i: int, j: int| 0 <= i < p.len() && 0 <= j < p.len() && i != j implies p[i].id != p[j].id by {
                assert(p[i] == rs[i] && p[j] == rs[j]);
            }
        }
        lemma_spawn_map(p, base);
        assert forall|i: int| 0 <= i < rs.len() implies #[trigger] spawn_map(rs, base).contains_key(rs[i].id)
            && spawn_map(rs, base)[rs[i].id] == base + i by {
            if i < rs.len() - 1 {
                assert(p[i] == rs[i]);
                assert(spawn_map(p, base).contains_key(p[i].id));
                assert(rs[i].id != rs.last().id);
            }
        }
        assert forall|id: u64| spawn_map(rs, base).contains_key(id) <==> has_record(rs, id) by {
            if has_record(p, id) {
                let j = choose|j: int| 0 <= j < p.len() && p[j].id == id;
                assert(rs[j].id == id);
            }
            if has_record(rs, id) && id != rs.last().id {
                let j = choose|j: int| 0 <= j < rs.len() && rs[j].id == id;
                assert(p[j].id == id);
            }
            if id == rs.last().id {
                assert(rs[rs.len() - 1].id == id);
            }
        }
    }
}

/// After a load, a reference from one saved entity to another saved entity
/// points at the entity spawned for its target, whichever of the two records
/// comes first; that identity is never the sentinel.
pub proof fn lemma_reference_follows_record(w: WorldView, rs: Seq<RecordView>, a: int, c: int, f: int, b: int)
    requires
        w.wf(),
        ids_distinct(rs),
        w.next_id + rs.len() < PLACEHOLDER_ID,
        0 <= a < rs.len(),
        0 <= b < rs.len(),
        0 <= c < rs[a].components.len(),
        0 <= f < rs[a].components[c].fields.len(),
        rs[a].components[c].fields[f] == Field::Ref(Entity { id: rs[b].id }),
    ensures
        ({
            let after = load_spec(w, rs).entities;
            let k = cleared(w.entities).len();
            &&& after[k + a].components[c].fields[f] == Field::Ref(Entity { id: after[k + b].id })
            &&& after[k + b].id != PLACEHOLDER_ID
            &&& after[k + b].id == w.next_id + b
        }),
{
    lemma_spawn_map(rs, w.next_id);
    let m = spawn_map(rs, w.next_id);
    assert(m.contains_key(rs[b].id));
    assert(map_id(m, rs[b].id) == w.next_id + b);
}

/// After a load, a reference to an entity that no record of the snapshot
/// carries is the sentinel, in whatever world the snapshot is loaded, and so
/// on every repeated load.
pub proof fn lemma_dangling_reference(w: WorldView, rs: Seq<RecordView>, a: int, c: int, f: int, target: Entity)
    requires
        0 <= a < rs.len(),
        0 <= c < rs[a].components.len(),
        0 <= f < rs[a].components[c].fields.len(),
        rs[a].components[c].fields[f] == Field::Ref(target),
        !has_record(rs, target.id),
        w.next_id + rs.len() < PLACEHOLDER_ID,
        ids_distinct(rs),
    ensures
        ({
            let after = load_spec(w, rs).entities;
            let k = cleared(w.entities).len();
            after[k + a].components[c].fields[f] == Field::Ref(Entity { id: PLACEHOLDER_ID })
        }),
{
    lemma_spawn_map(rs, w.next_id);
    assert(!spawn_map(rs, w.next_id).contains_key(target.id));
}

/// An entity with its identity and the targets of its references erased:
/// what a load reproduces whatever identities it hands out.
pub open spec fn entity_shape(e: EntityView) -> EntityView {
    EntityView {
        id: 0,
        save: e.save,
        unload: e.unload,
        components: Seq::new(e.components.len(), |j: int| component_shape(e.components[j])),
    }
}

/// Despawning distributes over concatenation.
proof fn lemma_cleared_concat(s: Seq<EntityView>, t: Seq<EntityView>)
    ensures
        cleared(s + t) == cleared(s) + cleared(t),
    decreases t.len(),
{
    if t.len() == 0 {
        assert(s + t =~= s);
        assert(cleared(s) + cleared(t) =~= cleared(s));
    } else {
        lemma_cleared_concat(s, t.drop_last());
        assert((s + t).drop_last() =~= s + t.drop_last());
        assert((s + t).last() == t.last());
        if !t.last().unload {
            assert(cleared(s) + cleared(t) =~= (cleared(s) + cleared(t.drop_last())).push(t.last()));
        }
    }
}

/// Despawning what carries no Unload Marker changes nothing; despawning what
/// all carry it leaves nothing.
proof fn lemma_cleared_uniform(s: Seq<EntityView>)
    ensures
        (forall|i: int| 0 <= i < s.len() ==> !s[i].unload) ==> cleared(s) == s,
        (forall|i: int| 0 <= i < s.len() ==> s[i].unload) ==> cleared(s) == Seq::<EntityView>::empty(),
    decreases s.len(),
{
    if s.len() > 0 {
        lemma_cleared_uniform(s.drop_last());
        assert(s.drop_last().push(s.last()) =~= s);
        if forall|i: int| 0 <= i < s.len() ==> !s[i].unload {
            assert(forall|i: int| 0 <= i < s.drop_last().len() ==> !s.drop_last()[i].unload);
        }
        if forall|i: int| 0 <= i < s.len() ==> s[i].unload {
            assert(forall|i: int| 0 <= i < s.drop_last().len() ==> s.drop_last()[i].unload);
        }
    }
}

/// Erasing references after a remap is erasing them before it.
proof fn lemma_shape_ignores_remap(c: ComponentView, m: Map<u64, u64>)
    ensures
        component_shape(remap_component(c, m)) == component_shape(c),
{
    assert(component_shape(remap_component(c, m)).fields =~= component_shape(c).fields);
}

/// Loading the same snapshot a second time leaves as many entities, of the
/// same shapes in the same order, as loading it once: the second load first
/// despawns what the first one spawned.
pub proof fn lemma_reload_same_shape(w: WorldView, rs: Seq<RecordView>)
    requires
        w.wf(),
        w.next_id + 2 * rs.len() < PLACEHOLDER_ID,
    ensures
        ({
            let once = load_spec(w, rs);
            let twice = load_spec(once, rs);
            &&& twice.entities.len() == once.entities.len()
            &&& forall|i: int| 0 <= i < once.entities.len() ==> entity_shape(#[trigger] twice.entities[i]) == entity_shape(once.entities[i])
            &&& forall|i: int| 0 <= i < cleared(w.entities).len() ==> #[trigger] twice.entities[i] == once.entities[i]
        }),
{
    let once = load_spec(w, rs);
    let twice = load_spec(once, rs);
    let kept = cleared(w.entities);
    let first = once.entities.skip(kept.len() as int);
    crate::world::lemma_cleared_ordered(w.entities, w.next_id);
    lemma_cleared_concat(kept, first);
    assert(kept + first =~= once.entities);
    lemma_cleared_uniform(kept);
    lemma_cleared_uniform(first);
    assert(cleared(once.entities) =~= kept);
    assert forall|i: int| 0 <= i < once.entities.len() implies entity_shape(#[trigger] twice.entities[i]) == entity_shape(once.entities[i]) by {
        if i >= kept.len() {
            let k = i - kept.len();
            let c1 = once.entities[i].components;
            let c2 = twice.entities[i].components;
            assert forall|j: int| 0 <= j < c1.len() implies component_shape(c2[j]) == component_shape(c1[j]) by {
                lemma_shape_ignores_remap(rs[k].components[j], spawn_map(rs, w.next_id));
                lemma_shape_ignores_remap(rs[k].components[j], spawn_map(rs, once.next_id));
            }
            assert(entity_shape(twice.entities[i]).components =~= entity_shape(once.entities[i]).components);
        }
    }
}

/// A save keeps exactly the components whose types it may serialize, in
/// their order.
pub proof fn lemma_kept_components(f: FilterView, reg: Set<u32>, cs: Seq<ComponentView>)
    ensures
        forall|j: int| 0 <= j < kept_components(f, reg, cs).len() ==> {
            let c = #[trigger] kept_components(f, reg, cs)[j];
            component_kept(f, reg, c.type_id) && cs.contains(c)
        },
        forall|j: int| 0 <= j < cs.len() && component_kept(f, reg, #[trigger] cs[j].type_id) ==> kept_components(f, reg, cs).contains(cs[j]),
    decreases cs.len(),
{
    if cs.len() > 0 {
        let p = cs.drop_last();
        lemma_kept_components(f, reg, p);
        let k = kept_components(f, reg, cs);
        let kp = kept_components(f, reg, p);
        assert forall|j: int| 0 <= j < k.len() implies {
            let c = #[trigger] k[j];
            component_kept(f, reg, c.type_id) && cs.contains(c)
        } by {
            if j < kp.len() {
                assert(k[j] == kp[j]);
                let q = choose|q: int| 0 <= q < p.len() && p[q] == kp[j];
                assert(cs[q] == p[q]);
            } else {
                assert(cs[cs.len() - 1] == k[j]);
            }
        }
        assert forall|j: int| 0 <= j < cs.len() && component_kept(f, reg, #[trigger] cs[j].type_id) implies k.contains(cs[j]) by {
            if j < p.len() {
                assert(p[j] == cs[j]);
                assert(kp.contains(p[j]));
                let q = choose|q: int| 0 <= q < kp.len() && kp[q] == p[j];
                assert(k[q] == kp[q]);
            } else {
                assert(k[k.len() - 1] == cs[j]);
            }
        }
    }
}

/// Whether `rec` is the record of some entity of `es` that qualifies under `f`.
pub open spec fn saved_from(f: FilterView, reg: Set<u32>, es: Seq<EntityView>, rec: RecordView) -> bool {
    exists|i: int| 0 <= i < es.len() && entity_matches(f, es[i]) && rec == record_of(f, reg, es[i])
}

/// How a successful save over `es` extends the one over all but its last entity.
proof fn lemma_save_step(f: FilterView, reg: Set<u32>, es: Seq<EntityView>)
    requires
        es.len() > 0,
        save_spec(f, reg, es) is Ok,
    ensures
        save_spec(f, reg, es.drop_last()) is Ok,
        entity_matches(f, es.last()) ==> save_spec(f, reg, es)->Ok_0 == save_spec(f, reg, es.drop_last())->Ok_0.push(
            record_of(f, reg, es.last()),
        ),
        !entity_matches(f, es.last()) ==> save_spec(f, reg, es)->Ok_0 == save_spec(f, reg, es.drop_last())->Ok_0,
{
}

/// Every record of a successful save comes from a qualifying entity, and is
/// that entity's record.
proof fn lemma_saved_from(f: FilterView, reg: Set<u32>, es: Seq<EntityView>)
    requires
        save_spec(f, reg, es) is Ok,
    ensures
        forall|r: int| 0 <= r < save_spec(f, reg, es)->Ok_0.len() ==> saved_from(f, reg, es, #[trigger] save_spec(f, reg, es)->Ok_0[r]),
    decreases es.len(),
{
    if es.len() > 0 {
        let p = es.drop_last();
        lemma_save_step(f, reg, es);
        lemma_saved_from(f, reg, p);
        let rs = save_spec(f, reg, es)->Ok_0;
        let rp = save_spec(f, reg, p)->Ok_0;
        assert forall|r: int| 0 <= r < rs.len() implies saved_from(f, reg, es, #[trigger] rs[r]) by {
            if r < rp.len() {
                assert(rs[r] == rp[r]);
                let i = choose|i: int| 0 <= i < p.len() && entity_matches(f, p[i]) && rp[r] == record_of(f, reg, p[i]);
                assert(es[i] == p[i]);
            } else {
                assert(es[es.len() - 1] == es.last());
                assert(rs[r] == record_of(f, reg, es[es.len() - 1]));
            }
        }
    }
}

/// The records of a successful save come in increasing identity order.
proof fn lemma_saved_ordered(f: FilterView, reg: Set<u32>, es: Seq<EntityView>, bound: u64)
    requires
        ids_ordered_below(es, bound),
        save_spec(f, reg, es) is Ok,
    ensures
        forall|r: int, q: int| 0 <= r < q < save_spec(f, reg, es)->Ok_0.len() ==> save_spec(f, reg, es)->Ok_0[r].id
            < save_spec(f, reg, es)->Ok_0[q].id,
    decreases es.len(),
{
    if es.len() > 0 {
        let p = es.drop_last();
        lemma_save_step(f, reg, es);
        assert(ids_ordered_below(p, bound));
        lemma_saved_ordered(f, reg, p, bound);
        lemma_saved_from(f, reg, p);
        let rs = save_spec(f, reg, es)->Ok_0;
        let rp = save_spec(f, reg, p)->Ok_0;
        assert forall|r: int| 0 <= r < rp.len() implies (#[trigger] rp[r]).id < es.last().id by {
            let i = choose|i: int| 0 <= i < p.len() && entity_matches(f, p[i]) && rp[r] == record_of(f, reg, p[i]);
            assert(es[i] == p[i]);
        }
        assert forall|r: int, q: int| 0 <= r < q < rs.len() implies rs[r].id < rs[q].id by {
            assert(rs[r] == rp[r]);
            if q < rp.len() {
                assert(rs[q] == rp[q]);
            }
        }
    }
}

/// Every qualifying entity has its record in a successful save.
proof fn lemma_saved_all(f: FilterView, reg: Set<u32>, es: Seq<EntityView>)
    requires
        save_spec(f, reg, es) is Ok,
    ensures
        forall|i: int| 0 <= i < es.len() && entity_matches(f, #[trigger] es[i]) ==> exists|r: int| 0 <= r < save_spec(f, reg, es)->Ok_0.len()
            && save_spec(f, reg, es)->Ok_0[r] == record_of(f, reg, es[i]),
    decreases es.len(),
{
    if es.len() > 0 {
        let p = es.drop_last();
        lemma_save_step(f, reg, es);
        lemma_saved_all(f, reg, p);
        let rs = save_spec(f, reg, es)->Ok_0;
        let rp = save_spec(f, reg, p)->Ok_0;
        assert forall|i: int| 0 <= i < es.len() && entity_matches(f, #[trigger] es[i]) implies exists|r: int| 0 <= r < rs.len()
            && rs[r] == record_of(f, reg, es[i]) by {
            if i < p.len() {
                assert(es[i] == p[i]);
                assert(entity_matches(f, p[i]));
                let r = choose|r: int| 0 <= r < rp.len() && rp[r] == record_of(f, reg, p[i]);
                assert(rs[r] == rp[r]);
            } else {
                assert(rs[rs.len() - 1] == record_of(f, reg, es[i]));
            }
        }
    }
}

/// A successful save produces one record for each entity that qualifies under
/// the filter, and for no other, in world order: so the records' identities
/// are distinct.
pub proof fn lemma_filter_completeness(f: FilterView, reg: Set<u32>, es: Seq<EntityView>, bound: u64)
    requires
        ids_ordered_below(es, bound),
        save_spec(f, reg, es) is Ok,
    ensures
        ({
            let rs = save_spec(f, reg, es)->Ok_0;
            &&& forall|r: int, q: int| 0 <= r < q < rs.len() ==> rs[r].id < rs[q].id
            &&& ids_distinct(rs)
            &&& forall|r: int| 0 <= r < rs.len() ==> saved_from(f, reg, es, #[trigger] rs[r])
            &&& forall|i: int| 0 <= i < es.len() && entity_matches(f, #[trigger] es[i]) ==> exists|r: int| 0 <= r < rs.len()
                && rs[r] == record_of(f, reg, es[i])
            &&& forall|i: int| 0 <= i < es.len() && !entity_matches(f, #[trigger] es[i]) ==> !has_record(rs, es[i].id)
        }),
{
    let rs = save_spec(f, reg, es)->Ok_0;
    lemma_saved_from(f, reg, es);
    lemma_saved_ordered(f, reg, es, bound);
    lemma_saved_all(f, reg, es);
    assert forall|r: int, q: int| 0 <= r < rs.len() && 0 <= q < rs.len() && r != q implies rs[r].id != rs[q].id by {
        if r < q {
            assert(rs[r].id < rs[q].id);
        } else {
            assert(rs[q].id < rs[r].id);
        }
    }
    assert forall|i: int| 0 <= i < es.len() && !entity_matches(f, #[trigger] es[i]) implies !has_record(rs, es[i].id) by {
        if has_record(rs, es[i].id) {
            let r = choose|r: int| 0 <= r < rs.len() && rs[r].id == es[i].id;
            let j = choose|j: int| 0 <= j < es.len() && entity_matches(f, es[j]) && rs[r] == record_of(f, reg, es[j]);
            assert(es[j].id == es[i].id);
            if i < j {
                assert(es[i].id < es[j].id);
            } else if j < i {
                assert(es[j].id < es[i].id);
            }
        }
    }
    assert(forall|i: int| 0 <= i < es.len() && entity_matches(f, #[trigger] es[i]) ==> exists|r: int| 0 <= r < rs.len()
                && rs[r] == record_of(f, reg, es[i]));
}

/// Saving a world and loading the snapshot into another keeps every
/// reference between two saved entities: in the loaded world it points at the
/// entity spawned for its target, never at the sentinel.
pub proof fn lemma_round_trip_reference(
    src: WorldView,
    f: FilterView,
    reg: Set<u32>,
    dst: WorldView,
    a: int,
    c: int,
    i: int,
    b: int,
)
    requires
        src.wf(),
        dst.wf(),
        save_spec(f, reg, src.entities) is Ok,
        ({
            let rs = save_spec(f, reg, src.entities)->Ok_0;
            &&& dst.next_id + rs.len() < PLACEHOLDER_ID
            &&& 0 <= a < rs.len()
            &&& 0 <= b < rs.len()
            &&& 0 <= c < rs[a].components.len()
            &&& 0 <= i < rs[a].components[c].fields.len()
            &&& rs[a].components[c].fields[i] == Field::Ref(Entity { id: rs[b].id })
        }),
    ensures
        ({
            let rs = save_spec(f, reg, src.entities)->Ok_0;
            let after = load_spec(dst, rs).entities;
            let k = cleared(dst.entities).len();
            &&& after[k + a].components[c].fields[i] == Field::Ref(Entity { id: after[k + b].id })
            &&& after[k + b].id != PLACEHOLDER_ID
        }),
{
    let rs = save_spec(f, reg, src.entities)->Ok_0;
    lemma_filter_completeness(f, reg, src.entities, src.next_id);
    lemma_reference_follows_record(dst, rs, a, c, i, b);
}

} // verus!
