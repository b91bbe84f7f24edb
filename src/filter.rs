use vstd::prelude::*;
use crate::world::{has_type, EntityView, LiveEntity};

verus! {

/// The set of component types that can be serialized and deserialized,
/// keyed by their registry identifiers.
#[derive(Debug)]
pub struct TypeRegistry {
    ids: Vec<u32>,
}

impl View for TypeRegistry {
    type V = Set<u32>;

    closed spec fn view(&self) -> Set<u32> {
        self.ids@.to_set()
    }
}

/// Whether `t` occurs in `v`.
pub fn contains_id(v: &Vec<u32>, t: u32) -> (r: bool)
    ensures
        r == v@.contains(t),
{
    let mut i: usize = 0;
    while i < v.len()
        invariant
            i <= v@.len(),
            forall|j: int| 0 <= j < i ==> v@[j] != t,
        decreases v@.len() - i,
    {
        if v[i] == t {
            return true;
        }
        i = i + 1;
    }
    false
}

impl TypeRegistry {
    /// A registry with no types.
    pub fn new() -> (r: TypeRegistry)
        ensures
            r@ == Set::<u32>::empty(),
    {
        let r = TypeRegistry { ids: Vec::new() };
        assert(r@ =~= Set::<u32>::empty());
        r
    }

    /// Registers the type `t`.
    pub fn register(&mut self, t: u32)
        ensures
            final(self)@ == old(self)@.insert(t),
    {
        self.ids.push(t);
        proof {
            assert forall|x: u32| self@.contains(x) <==> old(self)@.insert(t).contains(x) by {
                if x != t && self.ids@.contains(x) {
                    let j = choose|j: int| 0 <= j < self.ids@.len() && self.ids@[j] == x;
                    assert(old(self).ids@[j] == x);
                }
                if old(self).ids@.contains(x) {
                    let j = choose|j: int| 0 <= j < old(self).ids@.len() && old(self).ids@[j] == x;
                    assert(self.ids@[j] == x);
                }
                if x == t {
                    assert(self.ids@[self.ids@.len() - 1] == t);
                }
            }
            assert(self@ =~= old(self)@.insert(t));
        }
    }

    /// Whether `t` is registered.
    pub fn contains(&self, t: u32) -> (r: bool)
        ensures
            r == self@.contains(t),
    {
        contains_id(&self.ids, t)
    }
}

/// Which entities, and which of their components, a save captures.
#[derive(Debug)]
pub struct SaveFilter {
    /// Only entities that carry the Save Marker qualify.
    pub marked_only: bool,
    /// Only entities that carry a component of each of these types qualify.
    pub with_types: Vec<u32>,
    /// Where given, only these component types are serialized, and each of
    /// them must be registered.
    pub allow: Option<Vec<u32>>,
    /// These component types are never serialized.
    pub deny: Vec<u32>,
}

/// The mathematical value of a filter.
pub struct FilterView {
    pub marked_only: bool,
    pub with_types: Seq<u32>,
    pub allow: Option<Seq<u32>>,
    pub deny: Seq<u32>,
}

impl View for SaveFilter {
    type V = FilterView;

    open spec fn view(&self) -> FilterView {
        FilterView {
            marked_only: self.marked_only,
            with_types: self.with_types@,
            allow: match self.allow {
                Some(a) => Some(a@),
                None => None,
            },
            deny: self.deny@,
        }
    }
}

/// Whether the entity `e` qualifies for a save under `f`.
pub open spec fn entity_matches(f: FilterView, e: EntityView) -> bool {
    &&& (f.marked_only ==> e.save)
    &&& forall|k: int| 0 <= k < f.with_types.len() ==> has_type(e, #[trigger] f.with_types[k])
}

/// Whether components of type `t` may enter a snapshot under `f`.
pub open spec fn type_allowed(f: FilterView, t: u32) -> bool {
    &&& match f.allow {
        Some(a) => a.contains(t),
        None => true,
    }
    &&& !f.deny.contains(t)
}

/// Whether `f` names type `t` explicitly as one to serialize.
pub open spec fn type_demanded(f: FilterView, t: u32) -> bool {
    &&& f.allow is Some
    &&& type_allowed(f, t)
}

/// A filter that qualifies entities by the Save Marker alone (or not at all)
/// and keeps every component type.
pub open spec fn unrestricted(marked_only: bool) -> FilterView {
    FilterView { marked_only, with_types: Seq::empty(), allow: None, deny: Seq::empty() }
}

impl SaveFilter {
    /// The default filter: every entity with the Save Marker, all its components.
    pub fn default_filter() -> (r: SaveFilter)
        ensures
            r@ == unrestricted(true),
    {
        SaveFilter { marked_only: true, with_types: Vec::new(), allow: None, deny: Vec::new() }
    }

    /// Every entity, all its components.
    pub fn all() -> (r: SaveFilter)
        ensures
            r@ == unrestricted(false),
    {
        SaveFilter { marked_only: false, with_types: Vec::new(), allow: None, deny: Vec::new() }
    }

    /// Whether the live entity `e` qualifies.
    pub fn matches_entity(&self, e: &LiveEntity) -> (r: bool)
        ensures
            r == entity_matches(self@, e@),
    {
        if self.marked_only && !e.save {
            return false;
        }
        let mut k: usize = 0;
        while k < self.with_types.len()
            invariant
                k <= self.with_types@.len(),
                forall|q: int| 0 <= q < k ==> has_type(e@, #[trigger] self.with_types@[q]),
            decreases self.with_types@.len() - k,
        {
            let t = self.with_types[k];
            let mut j: usize = 0;
            let mut found = false;
            while j < e.components.len()
                invariant
                    j <= e.components@.len(),
                    found ==> has_type(e@, t),
                    !found ==> forall|q: int| 0 <= q < j ==> e@.components[q].type_id != t,
                decreases e.components@.len() - j,
            {
                if e.components[j].type_id == t {
                    assert(e@.components[j as int].type_id == t);
                    found = true;
                }
                j = j + 1;
            }
            if !found {
                assert(!has_type(e@, self@.with_types[k as int]));
                assert(!entity_matches(self@, e@));
                return false;
            }
            k = k + 1;
        }
        true
    }

    /// Whether components of type `t` may enter a snapshot.
    pub fn allows(&self, t: u32) -> (r: bool)
        ensures
            r == type_allowed(self@, t),
    {
        let listed = match &self.allow {
            Some(a) => contains_id(a, t),
            None => true,
        };
        listed && !contains_id(&self.deny, t)
    }
}

} // verus!
