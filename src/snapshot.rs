use vstd::prelude::*;
use crate::component::{Component, ComponentView};
use crate::entity::Entity;

verus! {

/// One captured entity: its identity in the saved world, whether it carried
/// the Save Marker, and its serialized components in order.
#[derive(Debug)]
pub struct EntityRecord {
    pub entity: Entity,
    pub save: bool,
    pub components: Vec<Component>,
}

/// The mathematical value of an entity record.
pub struct RecordView {
    pub id: u64,
    pub save: bool,
    pub components: Seq<ComponentView>,
}

impl View for EntityRecord {
    type V = RecordView;

    open spec fn view(&self) -> RecordView {
        RecordView {
            id: self.entity.id,
            save: self.save,
            components: self.components@.map_values(|c: Component| c@),
        }
    }
}

/// A captured set of entities, in save order.
#[derive(Debug)]
pub struct Snapshot {
    pub records: Vec<EntityRecord>,
}

impl View for Snapshot {
    type V = Seq<RecordView>;

    open spec fn view(&self) -> Seq<RecordView> {
        self.records@.map_values(|r: EntityRecord| r@)
    }
}

/// No two records of `s` carry the same old identity.
pub open spec fn ids_distinct(s: Seq<RecordView>) -> bool {
    forall|i: int, j: int| 0 <= i < s.len() && 0 <= j < s.len() && i != j ==> s[i].id != s[j].id
}

/// Whether some record of `s` has old identity `id`.
pub open spec fn has_record(s: Seq<RecordView>, id: u64) -> bool {
    exists|i: int| 0 <= i < s.len() && s[i].id == id
}

impl Snapshot {
    /// Number of records.
    pub fn len(&self) -> (r: usize)
        ensures
            r == self@.len(),
    {
        self.records.len()
    }
}

} // verus!
