use vstd::prelude::*;
use crate::entity::Entity;
use crate::mapper::{map_id, EntityMapper};

verus! {

/// One field of a component's value, as the type registry describes it.
#[derive(Clone, Copy, Debug, PartialEq, Eq, Structural)]
pub enum Field {
    /// Plain data, carried unchanged by save and load.
    Value(u64),
    /// A reference to another entity, rewritten on load.
    Ref(Entity),
}

/// A typed component payload: its registry key and its field values.
#[derive(Debug)]
pub struct Component {
    pub type_id: u32,
    pub fields: Vec<Field>,
}

/// The mathematical value of a component.
pub struct ComponentView {
    pub type_id: u32,
    pub fields: Seq<Field>,
}

impl View for Component {
    type V = ComponentView;

    open spec fn view(&self) -> ComponentView {
        ComponentView { type_id: self.type_id, fields: self.fields@ }
    }
}

/// A field after remapping under `m`: entity references go through the
/// table, plain data stays.
pub open spec fn remap_field(f: Field, m: Map<u64, u64>) -> Field {
    match f {
        Field::Value(v) => Field::Value(v),
        Field::Ref(e) => Field::Ref(Entity { id: map_id(m, e.id) }),
    }
}

/// A component after the generic structural remap under `m`.
pub open spec fn remap_component(c: ComponentView, m: Map<u64, u64>) -> ComponentView {
    ComponentView {
        type_id: c.type_id,
        fields: Seq::new(c.fields.len(), |i: int| remap_field(c.fields[i], m)),
    }
}

/// A sequence of components, each remapped under `m`.
pub open spec fn remap_components(cs: Seq<ComponentView>, m: Map<u64, u64>) -> Seq<ComponentView> {
    Seq::new(cs.len(), |i: int| remap_component(cs[i], m))
}

/// A field with any entity reference erased: what stays the same whatever
/// identities the entities happen to have.
pub open spec fn field_shape(f: Field) -> Field {
    match f {
        Field::Value(v) => Field::Value(v),
        Field::Ref(_) => Field::Ref(Entity { id: 0 }),
    }
}

/// A component with its entity references erased.
pub open spec fn component_shape(c: ComponentView) -> ComponentView {
    ComponentView {
        type_id: c.type_id,
        fields: Seq::new(c.fields.len(), |i: int| field_shape(c.fields[i])),
    }
}

impl Entity {
    /// The identity that a saved reference to `old` has after a load: the
    /// entity spawned for it, or the sentinel when it was not loaded.
    pub fn from_mapper(old: Entity, mapper: &EntityMapper) -> (r: Entity)
        ensures
            r.id == map_id(mapper@, old.id),
    {
        mapper.map_entity(old)
    }
}

impl Field {
    /// This field after remapping.
    pub fn from_mapper(old: Field, mapper: &EntityMapper) -> (r: Field)
        ensures
            r == remap_field(old, mapper@),
    {
        match old {
            Field::Value(v) => Field::Value(v),
            Field::Ref(e) => Field::Ref(Entity::from_mapper(e, mapper)),
        }
    }
}

impl Component {
    /// Builds a component from its registry key and fields.
    pub fn new(type_id: u32, fields: Vec<Field>) -> (r: Component)
        ensures
            r.type_id == type_id,
            r.fields@ == fields@,
    {
        Component { type_id, fields }
    }

    /// A copy with the same key and fields.
    pub fn duplicate(&self) -> (r: Component)
        ensures
            r@ == self@,
    {
        let mut fields: Vec<Field> = Vec::new();
        let mut i: usize = 0;
        while i < self.fields.len()
            invariant
                i <= self.fields@.len(),
                fields@ == self.fields@.take(i as int),
            decreases self.fields@.len() - i,
        {
            fields.push(self.fields[i]);
            i = i + 1;
            assert(fields@ =~= self.fields@.take(i as int));
        }
        assert(fields@ =~= self.fields@);
        Component { type_id: self.type_id, fields }
    }

    /// This component after the generic structural remap: every entity
    /// reference goes through the table, everything else is kept.
    pub fn from_mapper(old: &Component, mapper: &EntityMapper) -> (r: Component)
        ensures
            r@ == remap_component(old@, mapper@),
    {
        let mut fields: Vec<Field> = Vec::new();
        let mut i: usize = 0;
        while i < old.fields.len()
            invariant
                i <= old.fields@.len(),
                fields@ == Seq::new(i as nat, |k: int| remap_field(old.fields@[k], mapper@)),
            decreases old.fields@.len() - i,
        {
            let f = Field::from_mapper(old.fields[i], mapper);
            fields.push(f);
            i = i + 1;
            assert(fields@ =~= Seq::new(i as nat, |k: int| remap_field(old.fields@[k], mapper@)));
        }
        let r = Component { type_id: old.type_id, fields };
        assert(r@.fields =~= remap_component(old@, mapper@).fields);
        r
    }
}

} // verus!
