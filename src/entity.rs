//! Entity identifiers, the allocator that issues them, and the entity
//! manager that owns every component store.
use crate::component::{Component, ComponentType, SimpleComponentManager, SparseSetView};
pub use crate::query::EntityQueryTable;
use vstd::prelude::*;

verus! {

broadcast use vstd::seq_lib::group_seq_properties;

/// An entity identifier with its liveness flag.
#[derive(Clone, Copy, Debug, PartialEq, PartialOrd, Eq, Ord, Hash, Structural)]
pub struct Entity {
    id: u32,
    alive: bool,
}

impl Entity {
    pub closed spec fn spec_id(&self) -> u32 {
        self.id
    }

    pub closed spec fn spec_alive(&self) -> bool {
        self.alive
    }

    /// A live entity with the given id.
    pub fn new(id: u32) -> (r: Self)
        ensures
            r.spec_id() == id,
            r.spec_alive(),
    {
        Entity { id, alive: true }
    }

    pub fn id(&self) -> (r: u32)
        ensures
            r == self.spec_id(),
    {
        self.id
    }

    pub fn is_alive(&self) -> (r: bool)
        ensures
            r == self.spec_alive(),
    {
        self.alive
    }
}

/// The abstract state of the entity allocator: ids below `next` have been
/// issued at some point, and `free` holds those that were released and not
/// issued again.
pub struct AllocatorView {
    pub next: nat,
    pub free: Set<usize>,
}

/// The smallest id of a set.
pub open spec fn is_least(s: Set<usize>, r: usize) -> bool {
    s.contains(r) && forall|x: usize| #[trigger] s.contains(x) ==> r <= x
}

impl AllocatorView {
    pub open spec fn is_known(self, id: usize) -> bool {
        id < self.next
    }

    pub open spec fn is_alive(self, id: usize) -> bool {
        id < self.next && !self.free.contains(id)
    }

    /// Free ids were issued before, are finitely many, and have a least one
    /// when there are any; issued ids fit in `u32`.
    pub open spec fn well_formed(self) -> bool {
        &&& self.next <= u32::MAX + 1
        &&& self.free.finite()
        &&& forall|x: usize| #[trigger] self.free.contains(x) ==> x < self.next
        &&& !self.free.is_empty() ==> exists|r: usize| is_least(self.free, r)
    }

    /// Issuing an id is possible when one is free or a fresh one fits in `u32`.
    pub open spec fn can_allocate(self) -> bool {
        !self.free.is_empty() || self.next <= u32::MAX
    }

    /// The id that the next allocation issues: the smallest free id, else a
    /// fresh one.
    pub open spec fn next_id(self) -> usize {
        if self.free.is_empty() {
            self.next as usize
        } else {
            choose|r: usize| is_least(self.free, r)
        }
    }

    pub open spec fn allocate(self) -> AllocatorView {
        if self.free.is_empty() {
            AllocatorView { next: self.next + 1, free: self.free }
        } else {
            AllocatorView { next: self.next, free: self.free.remove(self.next_id()) }
        }
    }

    /// Releasing an id that was never issued changes nothing.
    pub open spec fn release(self, id: usize) -> AllocatorView {
        if id < self.next {
            AllocatorView { next: self.next, free: self.free.insert(id) }
        } else {
            self
        }
    }
}

proof fn lemma_seq_least(s: Seq<usize>)
    requires
        s.len() > 0,
    ensures
        exists|r: usize| is_least(s.to_set(), r),
    decreases s.len(),
{
    let last = s.last();
    if s.len() == 1 {
        assert forall|x: usize| #[trigger] s.to_set().contains(x) implies last <= x by {
            assert(s.contains(x));
        }
        assert(s.to_set().contains(last));
        assert(is_least(s.to_set(), last));
    } else {
        let init = s.drop_last();
        lemma_seq_least(init);
        let r = choose|r: usize| is_least(init.to_set(), r);
        let m = if r <= last { r } else { last };
        assert(init.contains(r));
        let k = choose|k: int| 0 <= k < init.len() && init[k] == r;
        assert(s[k] == r);
        assert(s[s.len() - 1] == last);
        assert forall|x: usize| #[trigger] s.to_set().contains(x) implies m <= x by {
            assert(s.contains(x));
            let j = choose|j: int| 0 <= j < s.len() && s[j] == x;
            if j < s.len() - 1 {
                assert(init[j] == x);
                assert(init.to_set().contains(x));
            }
        }
        assert(s.to_set().contains(m));
        assert(is_least(s.to_set(), m));
    }
}

/// Issues entity ids, recycling released ones, smallest first.
pub struct EntityContainer {
    entities: Vec<Entity>,
    dead_idx: Vec<usize>,
}

impl View for EntityContainer {
    type V = AllocatorView;

    closed spec fn view(&self) -> AllocatorView {
        AllocatorView { next: self.entities@.len(), free: self.dead_idx@.to_set() }
    }
}

impl EntityContainer {
    pub closed spec fn wf(&self) -> bool {
        &&& self.entities@.len() <= u32::MAX + 1
        &&& self.dead_idx@.no_duplicates()
        &&& forall|k: int| 0 <= k < self.dead_idx@.len() ==> #[trigger] self.dead_idx@[k] < self.entities@.len()
        &&& forall|i: int|
            0 <= i < self.entities@.len() ==> {
                &&& (#[trigger] self.entities@[i]).spec_id() == i
                &&& self.entities@[i].spec_alive() == !self.dead_idx@.contains(i as usize)
            }
    }

    pub proof fn lemma_view_well_formed(&self)
        requires
            self.wf(),
        ensures
            self@.well_formed(),
    {
        self.dead_idx@.unique_seq_to_set();
        assert forall|x: usize| #[trigger] self@.free.contains(x) implies x < self@.next by {
            assert(self.dead_idx@.contains(x));
        }
        if !self@.free.is_empty() {
            let x = self@.free.choose();
            assert(self.dead_idx@.contains(x));
            lemma_seq_least(self.dead_idx@);
        }
    }

    pub fn new() -> (r: Self)
        ensures
            r.wf(),
            r@.next == 0,
            r@.free.is_empty(),
    {
        let r = EntityContainer { entities: Vec::new(), dead_idx: Vec::new() };
        assert(r@.free =~= Set::<usize>::empty());
        r
    }

    /// Whether the id was ever issued.
    pub fn has(&self, entity_id: usize) -> (r: bool)
        ensures
            r == self@.is_known(entity_id),
    {
        entity_id < self.entities.len()
    }

    /// Whether the id is issued and not released since.
    pub fn is_alive(&self, entity_id: usize) -> (r: bool)
        requires
            self.wf(),
        ensures
            r == self@.is_alive(entity_id),
    {
        if entity_id < self.entities.len() {
            self.entities[entity_id].is_alive()
        } else {
            false
        }
    }

    /// Whether `entity` can issue another id.
    pub fn can_allocate(&self) -> (r: bool)
        requires
            self.wf(),
        ensures
            r == self@.can_allocate(),
    {
        proof {
            if self.dead_idx@.len() > 0 {
                assert(self@.free.contains(self.dead_idx@[0]));
            }
        }
        self.dead_idx.len() > 0 || self.entities.len() <= 4294967295
    }

    /// Issues an id: the smallest released one if any, else a fresh one.
    pub fn entity(&mut self) -> (r: usize)
        requires
            old(self).wf(),
            old(self)@.can_allocate(),
        ensures
            final(self).wf(),
            r == old(self)@.next_id(),
            final(self)@ == old(self)@.allocate(),
            final(self)@.is_alive(r),
    {
        if self.dead_idx.len() > 0 {
            let mut best: usize = 0;
            let mut j: usize = 1;
            while j < self.dead_idx.len()
                invariant
                    0 <= best < j <= self.dead_idx@.len(),
                    forall|k: int| 0 <= k < j ==> self.dead_idx@[best as int] <= #[trigger] self.dead_idx@[k],
                decreases self.dead_idx@.len() - j,
            {
                if self.dead_idx[j] < self.dead_idx[best] {
                    best = j;
                }
                j = j + 1;
            }
            let ghost old_dead = self.dead_idx@;
            let id = self.dead_idx.remove(best);
            proof {
                assert(is_least(old_dead.to_set(), id)) by {
                    assert forall|x: usize| #[trigger] old_dead.to_set().contains(x) implies id <= x by {
                        let k = choose|k: int| 0 <= k < old_dead.len() && old_dead[k] == x;
                    }
                }
                let c = choose|r: usize| is_least(old_dead.to_set(), r);
                assert(c == id) by {
                    assert(old_dead.to_set().contains(c));
                }
                assert(self.dead_idx@ =~= old_dead.remove(best as int));
                assert(self.dead_idx@.to_set() =~= old_dead.to_set().remove(id)) by {
                    assert forall|x: usize| #[trigger] self.dead_idx@.to_set().contains(x) <==> old_dead.to_set().remove(id).contains(x) by {
                        if old_dead.to_set().contains(x) && x != id {
                            let k = choose|k: int| 0 <= k < old_dead.len() && old_dead[k] == x;
                            assert(k != best);
                            if k < best {
                                assert(self.dead_idx@[k] == x);
                            } else {
                                assert(self.dead_idx@[k - 1] == x);
                            }
                        }
                        if self.dead_idx@.to_set().contains(x) {
                            let k = choose|k: int| 0 <= k < self.dead_idx@.len() && self.dead_idx@[k] == x;
                            if k < best {
                                assert(old_dead[k] == x);
                            } else {
                                assert(old_dead[k + 1] == x);
                            }
                        }
                    }
                }
            }
            self.entities.set(id, Entity::new(id as u32));
            proof {
                assert forall|x: usize| #[trigger] self.dead_idx@.contains(x) <==> (old_dead.contains(x) && x != id) by {
                    assert(self.dead_idx@.to_set().contains(x) == self.dead_idx@.contains(x));
                    assert(old_dead.to_set().contains(x) == old_dead.contains(x));
                }
                assert forall|k: int| 0 <= k < self.dead_idx@.len() implies #[trigger] self.dead_idx@[k] < self.entities@.len() by {
                    assert(old_dead.contains(self.dead_idx@[k]));
                }
                assert forall|i: int| 0 <= i < self.entities@.len() implies {
                    &&& (#[trigger] self.entities@[i]).spec_id() == i
                    &&& self.entities@[i].spec_alive() == !self.dead_idx@.contains(i as usize)
                } by {
                    if i != id as int {
                        assert(old(self).entities@[i] == self.entities@[i]);
                    }
                }
            }
            return id;
        }
        let id = self.entities.len();
        self.entities.push(Entity::new(id as u32));
        proof {
            assert(self@.free =~= old(self)@.free);
        }
        id
    }

    /// Releases an issued id; ids never issued, or already released, are
    /// left as they are.
    pub fn remove(&mut self, entity_id: usize)
        requires
            old(self).wf(),
        ensures
            final(self).wf(),
            final(self)@ == old(self)@.release(entity_id),
    {
        if entity_id >= self.entities.len() {
            return;
        }
        if !self.entities[entity_id].is_alive() {
            proof {
                assert(self@.free =~= old(self)@.free.insert(entity_id));
            }
            return;
        }
        let ghost old_dead = self.dead_idx@;
        self.dead_idx.push(entity_id);
        self.entities.set(entity_id, Entity { id: entity_id as u32, alive: false });
        proof {
            assert(!old_dead.contains(entity_id));
            assert forall|x: usize| #[trigger] self.dead_idx@.contains(x) <==> (old_dead.contains(x) || x == entity_id) by {
                if old_dead.contains(x) {
                    let k = choose|k: int| 0 <= k < old_dead.len() && old_dead[k] == x;
                    assert(self.dead_idx@[k] == x);
                }
            }
            assert(self.dead_idx@.to_set() =~= old_dead.to_set().insert(entity_id));
            assert forall|i: int| 0 <= i < self.entities@.len() implies {
                &&& (#[trigger] self.entities@[i]).spec_id() == i
                &&& self.entities@[i].spec_alive() == !self.dead_idx@.contains(i as usize)
            } by {
                if i != entity_id as int {
                    assert(old(self).entities@[i] == self.entities@[i]);
                }
            }
        }
    }
}

/// The frame after `frame`; the counter stops at `u64::MAX`.
pub open spec fn next_frame(frame: u64) -> u64 {
    if frame < u64::MAX {
        (frame + 1) as u64
    } else {
        frame
    }
}

/// The abstract state of an entity manager: the allocator, one store per
/// registered component type, the frame at which each type's membership
/// last changed, the current frame, and a count of the changes that may have
/// touched a store, with, per type, the count at its last such change.
pub struct ManagerView<V> {
    pub allocator: AllocatorView,
    pub stores: Map<ComponentType, SparseSetView<V>>,
    pub changed: Map<ComponentType, u64>,
    pub frame: u64,
    pub versions: Map<ComponentType, u64>,
    pub changes: u64,
}

impl<V> ManagerView<V> {
    /// The allocator is well formed, every store is, and exactly the
    /// registered types have a changed frame.
    pub open spec fn well_formed(self) -> bool {
        &&& self.allocator.well_formed()
        &&& forall|ty: ComponentType| #[trigger] self.stores.contains_key(ty) ==> self.stores[ty].well_formed()
        &&& forall|ty: ComponentType| #[trigger] self.stores.contains_key(ty) == self.changed.contains_key(ty)
        &&& forall|ty: ComponentType| #[trigger] self.stores.contains_key(ty) == self.versions.contains_key(ty)
        &&& forall|ty: ComponentType| #[trigger] self.versions.contains_key(ty) ==> self.versions[ty] <= self.changes
    }

    /// The change count at the type's last possible membership change; 0 for
    /// a type never registered.
    pub open spec fn version_of(self, ty: ComponentType) -> u64 {
        if self.versions.contains_key(ty) {
            self.versions[ty]
        } else {
            0
        }
    }

    pub open spec fn is_registered(self, ty: ComponentType) -> bool {
        self.stores.contains_key(ty)
    }

    /// Whether the entity holds a component of the type.
    pub open spec fn holds(self, entity: usize, ty: ComponentType) -> bool {
        self.stores.contains_key(ty) && self.stores[ty].has(entity)
    }

    /// The frame at which the type's membership last changed; 0 for a type
    /// never registered.
    pub open spec fn changed_frame_of(self, ty: ComponentType) -> u64 {
        if self.changed.contains_key(ty) {
            self.changed[ty]
        } else {
            0
        }
    }

    pub open spec fn register(self, ty: ComponentType) -> Self {
        if self.stores.contains_key(ty) {
            self
        } else {
            ManagerView {
                stores: self.stores.insert(ty, SparseSetView::empty()),
                changed: self.changed.insert(ty, self.frame),
                versions: self.versions.insert(ty, self.changes),
                ..self
            }
        }
    }

    /// Registers the type if needed, inserts the component (first write
    /// wins) and marks the type changed at the current frame and at a new
    /// change count.
    pub open spec fn attach(self, entity: usize, ty: ComponentType, value: V) -> Self {
        let r = self.register(ty);
        ManagerView {
            stores: r.stores.insert(ty, r.stores[ty].insert(entity, value)),
            changed: r.changed.insert(ty, self.frame),
            versions: r.versions.insert(ty, (self.changes + 1) as u64),
            changes: (self.changes + 1) as u64,
            ..r
        }
    }

    /// Marks the type as possibly changed at a new change count.
    pub open spec fn mark_changed(self, ty: ComponentType) -> Self {
        ManagerView {
            versions: self.versions.insert(ty, (self.changes + 1) as u64),
            changes: (self.changes + 1) as u64,
            ..self
        }
    }

    /// Removes the entity from every store, marks each store that lost it as
    /// changed at the next frame and at a new change count, and releases the
    /// id.
    pub open spec fn detach_all(self, entity: usize) -> Self {
        ManagerView {
            allocator: self.allocator.release(entity),
            stores: Map::new(
                |ty: ComponentType| self.stores.contains_key(ty),
                |ty: ComponentType| self.stores[ty].remove(entity),
            ),
            changed: Map::new(
                |ty: ComponentType| self.changed.contains_key(ty),
                |ty: ComponentType|
                    if self.stores[ty].has(entity) {
                        next_frame(self.frame)
                    } else {
                        self.changed[ty]
                    },
            ),
            frame: self.frame,
            versions: Map::new(
                |ty: ComponentType| self.versions.contains_key(ty),
                |ty: ComponentType|
                    if self.stores[ty].has(entity) {
                        (self.changes + 1) as u64
                    } else {
                        self.versions[ty]
                    },
            ),
            changes: (self.changes + 1) as u64,
        }
    }

    pub open spec fn create_entity(self) -> Self {
        ManagerView { allocator: self.allocator.allocate(), ..self }
    }

    pub open spec fn tick(self) -> Self {
        ManagerView { frame: next_frame(self.frame), ..self }
    }

    /// Replaces a held component; membership and frames stay as they are.
    pub open spec fn set_component(self, entity: usize, ty: ComponentType, value: V) -> Self {
        ManagerView { stores: self.stores.insert(ty, self.stores[ty].set(entity, value)), ..self }
    }
}

/// Owns the entity allocator and one store per registered component type,
/// and tracks per type the frame at which its membership last changed and
/// the change count at which it last may have changed.
pub struct EntityManager<V> {
    container: EntityContainer,
    managers: Vec<SimpleComponentManager<V>>,
    frame_map: Vec<u64>,
    frame: u64,
    versions: Vec<u64>,
    changes: u64,
}

impl<V> View for EntityManager<V> {
    type V = ManagerView<V>;

    closed spec fn view(&self) -> ManagerView<V> {
        ManagerView {
            allocator: self.container@,
            stores: Map::new(
                |ty: ComponentType| self.has_type(ty),
                |ty: ComponentType| self.managers@[self.find(ty)]@,
            ),
            changed: Map::new(
                |ty: ComponentType| self.has_type(ty),
                |ty: ComponentType| self.frame_map@[self.find(ty)],
            ),
            frame: self.frame,
            versions: Map::new(
                |ty: ComponentType| self.has_type(ty),
                |ty: ComponentType| self.versions@[self.find(ty)],
            ),
            changes: self.changes,
        }
    }
}

impl<V> EntityManager<V> {
    closed spec fn has_type(&self, ty: ComponentType) -> bool {
        exists|i: int| 0 <= i < self.managers@.len() && self.managers@[i].spec_component_type() == ty
    }

    closed spec fn find(&self, ty: ComponentType) -> int {
        choose|i: int| 0 <= i < self.managers@.len() && self.managers@[i].spec_component_type() == ty
    }

    pub closed spec fn wf(&self) -> bool {
        &&& self.container.wf()
        &&& self.managers@.len() == self.frame_map@.len()
        &&& self.managers@.len() == self.versions@.len()
        &&& forall|i: int| 0 <= i < self.versions@.len() ==> #[trigger] self.versions@[i] <= self.changes
        &&& forall|i: int| 0 <= i < self.managers@.len() ==> (#[trigger] self.managers@[i]).wf()
        &&& forall|i: int, j: int|
            0 <= i < self.managers@.len() && 0 <= j < self.managers@.len() && i != j
                ==> #[trigger] self.managers@[i].spec_component_type()
                != #[trigger] self.managers@[j].spec_component_type()
    }
}

impl<V: Component> EntityManager<V> {
    proof fn lemma_find(&self, i: int)
        requires
            self.wf(),
            0 <= i < self.managers@.len(),
        ensures
            self.has_type(self.managers@[i].spec_component_type()),
            self.find(self.managers@[i].spec_component_type()) == i,
            self@.stores[self.managers@[i].spec_component_type()] == self.managers@[i]@,
            self@.changed[self.managers@[i].spec_component_type()] == self.frame_map@[i],
            self@.versions[self.managers@[i].spec_component_type()] == self.versions@[i],
    {
        let ty = self.managers@[i].spec_component_type();
        assert(self.has_type(ty));
        let j = self.find(ty);
        assert(self.managers@[j].spec_component_type() == ty);
    }

    /// Changing one store in place (same type), its changed frame and its
    /// version, and perhaps the change count, changes the view at that type
    /// only.
    proof fn lemma_update_slot(a: &Self, b: &Self, i: int)
        requires
            a.wf(),
            0 <= i < a.managers@.len(),
            b.container == a.container,
            b.frame == a.frame,
            b.managers@.len() == a.managers@.len(),
            b.frame_map@.len() == a.frame_map@.len(),
            b.versions@.len() == a.versions@.len(),
            a.changes <= b.changes,
            b.versions@[i] <= b.changes,
            forall|k: int|
                0 <= k < a.managers@.len() && k != i ==> #[trigger] b.managers@[k] == a.managers@[k]
                    && b.frame_map@[k] == a.frame_map@[k] && b.versions@[k] == a.versions@[k],
            b.managers@[i].spec_component_type() == a.managers@[i].spec_component_type(),
            b.managers@[i].wf(),
        ensures
            b.wf(),
            b@ == (ManagerView {
                stores: a@.stores.insert(a.managers@[i].spec_component_type(), b.managers@[i]@),
                changed: a@.changed.insert(a.managers@[i].spec_component_type(), b.frame_map@[i]),
                versions: a@.versions.insert(a.managers@[i].spec_component_type(), b.versions@[i]),
                changes: b.changes,
                ..a@
            }),
    {
        let ty = a.managers@[i].spec_component_type();
        assert forall|k: int| 0 <= k < b.managers@.len() implies #[trigger] b.managers@[k].spec_component_type()
            == a.managers@[k].spec_component_type() by {
            if k != i {
                assert(b.managers@[k] == a.managers@[k]);
            }
        }
        assert forall|k: int| 0 <= k < b.managers@.len() implies (#[trigger] b.managers@[k]).wf() by {
            if k != i {
                assert(b.managers@[k] == a.managers@[k]);
            }
        }
        assert forall|k: int| 0 <= k < b.versions@.len() implies #[trigger] b.versions@[k] <= b.changes by {
            if k != i {
                assert(b.managers@[k] == a.managers@[k]);
                assert(b.versions@[k] == a.versions@[k]);
            }
        }
        assert(b.wf());
        assert forall|t: ComponentType| #[trigger] b.has_type(t) == a.has_type(t) by {
            if a.has_type(t) {
                let k = a.find(t);
                assert(b.managers@[k].spec_component_type() == t);
            }
            if b.has_type(t) {
                let k = b.find(t);
                assert(a.managers@[k].spec_component_type() == t);
            }
        }
        assert forall|t: ComponentType| a.has_type(t) implies #[trigger] b.find(t) == a.find(t) by {
            let k = a.find(t);
            a.lemma_find(k);
            assert(b.managers@[k].spec_component_type() == t);
            b.lemma_find(k);
        }
        a.lemma_find(i);
        b.lemma_find(i);
        assert(b@.stores =~= a@.stores.insert(ty, b.managers@[i]@));
        assert(b@.changed =~= a@.changed.insert(ty, b.frame_map@[i]));
        assert(b@.versions =~= a@.versions.insert(ty, b.versions@[i]));
    }

    /// A well-formed manager has a well-formed abstract state.
    pub proof fn lemma_view_well_formed(&self)
        requires
            self.wf(),
        ensures
            self@.well_formed(),
    {
        self.container.lemma_view_well_formed();
        assert forall|ty: ComponentType| #[trigger] self@.stores.contains_key(ty) implies self@.stores[ty].well_formed() by {
            let i = self.find(ty);
            self.managers@[i].lemma_view_well_formed();
        }
        assert forall|ty: ComponentType| #[trigger] self@.versions.contains_key(ty) implies self@.versions[ty] <= self@.changes by {
            let i = self.find(ty);
            assert(self.versions@[i] <= self.changes);
        }
    }

    /// The slot of the store of the type, if it is registered.
    fn position(&self, ty: ComponentType) -> (r: Option<usize>)
        requires
            self.wf(),
        ensures
            match r {
                Some(i) => i < self.managers@.len() && self.managers@[i as int].spec_component_type() == ty,
                None => !self@.stores.contains_key(ty),
            },
    {
        let mut i: usize = 0;
        while i < self.managers.len()
            invariant
                0 <= i <= self.managers@.len(),
                forall|k: int| 0 <= k < i ==> (#[trigger] self.managers@[k]).spec_component_type() != ty,
            decreases self.managers@.len() - i,
        {
            if self.managers[i].component_type() == ty {
                return Some(i);
            }
            i = i + 1;
        }
        None
    }

    pub fn new() -> (r: Self)
        ensures
            r.wf(),
            r@.allocator.next == 0,
            r@.allocator.free.is_empty(),
            r@.stores.is_empty(),
            r@.changed.is_empty(),
            r@.frame == 0,
            r@.versions.is_empty(),
            r@.changes == 0,
    {
        let r = EntityManager {
            container: EntityContainer::new(),
            managers: Vec::new(),
            frame_map: Vec::new(),
            frame: 0,
            versions: Vec::new(),
            changes: 0,
        };
        assert(r@.stores =~= Map::empty());
        assert(r@.changed =~= Map::empty());
        assert(r@.versions =~= Map::empty());
        r
    }

    /// The change count at the type's last possible membership change, 0
    /// for a type never registered.
    pub fn version(&self, ty: ComponentType) -> (r: u64)
        requires
            self.wf(),
        ensures
            r == self@.version_of(ty),
    {
        match self.position(ty) {
            Some(i) => {
                proof {
                    self.lemma_find(i as int);
                }
                self.versions[i]
            },
            None => 0,
        }
    }

    /// The frame at which the type's membership last changed, 0 for a type
    /// never registered.
    pub fn get_updated_frame(&self, ty: ComponentType) -> (r: u64)
        requires
            self.wf(),
        ensures
            r == self@.changed_frame_of(ty),
    {
        match self.position(ty) {
            Some(i) => {
                proof {
                    self.lemma_find(i as int);
                }
                self.frame_map[i]
            },
            None => 0,
        }
    }

    /// The same as `get_updated_frame`.
    pub fn get_updated_frame_type(&self, type_id: ComponentType) -> (r: u64)
        requires
            self.wf(),
        ensures
            r == self@.changed_frame_of(type_id),
    {
        self.get_updated_frame(type_id)
    }

    /// The current frame.
    pub fn frame(&self) -> (r: u64)
        ensures
            r == self@.frame,
    {
        self.frame
    }

    /// Ensures a store exists for the type; a new one records the current
    /// frame as its changed frame.
    pub fn register(&mut self, ty: ComponentType) -> (r: &mut Self)
        requires
            old(self).wf(),
        ensures
            r.wf(),
            r@ == old(self)@.register(ty),
            *final(self) == *final(r),
    {
        match self.position(ty) {
            Some(i) => {
                proof {
                    self.lemma_find(i as int);
                }
                return self;
            },
            None => {},
        }
        let ghost old_self = *self;
        self.managers.push(SimpleComponentManager::new(ty));
        self.frame_map.push(self.frame);
        self.versions.push(self.changes);
        proof {
            let n = old_self.managers@.len() as int;
            assert forall|i: int, j: int|
                0 <= i < self.managers@.len() && 0 <= j < self.managers@.len() && i != j
                    implies #[trigger] self.managers@[i].spec_component_type()
                    != #[trigger] self.managers@[j].spec_component_type() by {
                if i == n {
                    assert(old_self.has_type(ty) == false);
                    assert(!(0 <= j < n && old_self.managers@[j].spec_component_type() == ty));
                } else if j == n {
                    assert(!(0 <= i < n && old_self.managers@[i].spec_component_type() == ty));
                } else {
                    assert(old_self.managers@[i] == self.managers@[i]);
                    assert(old_self.managers@[j] == self.managers@[j]);
                }
            }
            self.lemma_find(n);
            assert forall|t: ComponentType| #[trigger] self.has_type(t) == (old_self.has_type(t) || t == ty) by {
                if old_self.has_type(t) {
                    let k = old_self.find(t);
                    assert(self.managers@[k] == old_self.managers@[k]);
                }
                if self.has_type(t) && t != ty {
                    let k = self.find(t);
                    assert(self.managers@[k] == old_self.managers@[k]);
                }
            }
            assert forall|t: ComponentType| old_self.has_type(t) implies #[trigger] self.find(t) == old_self.find(t) by {
                let k = old_self.find(t);
                assert(self.managers@[k] == old_self.managers@[k]);
                self.lemma_find(k);
            }
            assert(self@.stores =~= old_self@.stores.insert(ty, SparseSetView::empty()));
            assert(self@.changed =~= old_self@.changed.insert(ty, old_self.frame));
            assert(self@.versions =~= old_self@.versions.insert(ty, old_self.changes));
        }
        self
    }

    /// Issues an entity id through the allocator.
    pub fn entity(&mut self) -> (r: usize)
        requires
            old(self).wf(),
            old(self)@.allocator.can_allocate(),
        ensures
            final(self).wf(),
            r == old(self)@.allocator.next_id(),
            final(self)@ == old(self)@.create_entity(),
    {
        let r = self.container.entity();
        assert(self@.stores =~= old(self)@.stores);
        assert(self@.changed =~= old(self)@.changed);
        assert(self@.versions =~= old(self)@.versions);
        r
    }

    /// Whether `entity` can issue another id.
    pub fn can_create_entity(&self) -> (r: bool)
        requires
            self.wf(),
        ensures
            r == self@.allocator.can_allocate(),
    {
        self.container.can_allocate()
    }

    /// Advances the frame counter by one; it stops at `u64::MAX`.
    pub fn tick_frame(&mut self)
        ensures
            final(self)@ == old(self)@.tick(),
            final(self).wf() == old(self).wf(),
    {
        if self.frame < u64::MAX {
            self.frame = self.frame + 1;
        }
        assert(self@.stores =~= old(self)@.stores);
        assert(self@.changed =~= old(self)@.changed);
        assert(self@.versions =~= old(self)@.versions);
    }

    /// Attaches a component: registers the type if unseen, inserts the
    /// component unless the entity already holds one of the type, and marks
    /// the type changed at the current frame.
    pub fn entity_with(&mut self, entity_id: usize, ty: ComponentType, component: V) -> (r: &mut Self)
        requires
            old(self).wf(),
            old(self)@.stores.contains_key(ty) ==> old(self)@.stores[ty].order.len() < usize::MAX,
            old(self)@.changes < u64::MAX,
        ensures
            r.wf(),
            r@ == old(self)@.attach(entity_id, ty, component),
            *final(self) == *final(r),
    {
        self.register(ty);
        let ghost registered = *self;
        let i = match self.position(ty) {
            Some(i) => i,
            None => {
                assert(false);
                return self;
            },
        };
        proof {
            self.lemma_find(i as int);
        }
        self.managers[i].insert(entity_id, component);
        self.frame_map.set(i, self.frame);
        self.changes = self.changes + 1;
        self.versions.set(i, self.changes);
        proof {
            Self::lemma_update_slot(&registered, self, i as int);
            assert(self@ =~= old(self)@.attach(entity_id, ty, component));
        }
        self
    }

    /// Removes every component of the entity, marks each type whose store
    /// lost one as changed at the next frame and at a new change count, and
    /// releases the id.
    pub fn remove_entity(&mut self, entity_id: usize)
        requires
            old(self).wf(),
            old(self)@.changes < u64::MAX,
        ensures
            final(self).wf(),
            final(self)@ == old(self)@.detach_all(entity_id),
    {
        let next = if self.frame < u64::MAX {
            self.frame + 1
        } else {
            self.frame
        };
        self.changes = self.changes + 1;
        let bumped = self.changes;
        let n = self.managers.len();
        let mut i: usize = 0;
        while i < n
            invariant
                old(self).wf(),
                0 <= i <= n,
                n == self.managers@.len(),
                n == old(self).managers@.len(),
                self.frame_map@.len() == n,
                self.versions@.len() == n,
                self.container == old(self).container,
                self.frame == old(self).frame,
                next == next_frame(self.frame),
                bumped == old(self).changes + 1,
                self.changes == bumped,
                forall|k: int|
                    0 <= k < i ==> #[trigger] self.versions@[k] == (if old(self).managers@[k]@.has(entity_id) {
                        bumped
                    } else {
                        old(self).versions@[k]
                    }),
                forall|k: int| i <= k < n ==> #[trigger] self.versions@[k] == old(self).versions@[k],
                forall|k: int|
                    0 <= k < n ==> (#[trigger] self.managers@[k]).wf()
                        && self.managers@[k].spec_component_type()
                        == old(self).managers@[k].spec_component_type(),
                forall|k: int|
                    0 <= k < i ==> (#[trigger] self.managers@[k])@ == old(self).managers@[k]@.remove(
                        entity_id,
                    ),
                forall|k: int|
                    0 <= k < i ==> #[trigger] self.frame_map@[k] == (if old(self).managers@[k]@.has(entity_id) {
                        next
                    } else {
                        old(self).frame_map@[k]
                    }),
                forall|k: int|
                    i <= k < n ==> #[trigger] self.managers@[k] == old(self).managers@[k]
                        && self.frame_map@[k] == old(self).frame_map@[k],
            decreases n - i,
        {
            let ghost before = *self;
            if self.managers[i].has(entity_id) {
                self.managers[i].remove(entity_id);
                self.frame_map.set(i, next);
                self.versions.set(i, bumped);
            }
            assert(self.managers@ == before.managers@.update(i as int, self.managers@[i as int]));
            assert(self.managers@[i as int]@ == before.managers@[i as int]@.remove(entity_id));
            assert(self.frame_map@ == before.frame_map@.update(i as int, self.frame_map@[i as int]));
            assert(self.versions@ == before.versions@.update(i as int, self.versions@[i as int]));
            let ghost j = i as int;
            i = i + 1;
            assert forall|k: int| 0 <= k < i implies (#[trigger] self.managers@[k])@ == old(self).managers@[k]@.remove(
                entity_id,
            ) && #[trigger] self.frame_map@[k] == (if old(self).managers@[k]@.has(entity_id) {
                next
            } else {
                old(self).frame_map@[k]
            }) by {
                if k < j {
                    assert(before.managers@[k] == self.managers@[k]);
                    assert(before.frame_map@[k] == self.frame_map@[k]);
                } else {
                    assert(before.managers@[k] == old(self).managers@[k]);
                    assert(before.frame_map@[k] == old(self).frame_map@[k]);
                }
            }
            assert forall|k: int| i <= k < n implies #[trigger] self.managers@[k] == old(self).managers@[k]
                && self.frame_map@[k] == old(self).frame_map@[k] by {
                assert(before.managers@[k] == old(self).managers@[k]);
            }
            assert forall|k: int| 0 <= k < i implies #[trigger] self.versions@[k] == (if old(self).managers@[k]@.has(entity_id) {
                bumped
            } else {
                old(self).versions@[k]
            }) by {
                if k < j {
                    assert(before.versions@[k] == self.versions@[k]);
                } else {
                    assert(before.managers@[k] == old(self).managers@[k]);
                }
            }
        }
        self.container.remove(entity_id);
        proof {
            let ov = old(self)@;
            assert forall|k: int| 0 <= k < self.versions@.len() implies #[trigger] self.versions@[k] <= self.changes by {
                if !old(self).managers@[k]@.has(entity_id) {
                    assert(old(self).versions@[k] <= old(self).changes);
                }
            }
            assert(self.wf());
            assert forall|t: ComponentType| #[trigger] self.has_type(t) == old(self).has_type(t) by {
                if old(self).has_type(t) {
                    let k = old(self).find(t);
                    assert(self.managers@[k].spec_component_type() == t);
                }
                if self.has_type(t) {
                    let k = self.find(t);
                    assert(old(self).managers@[k].spec_component_type() == t);
                }
            }
            assert forall|t: ComponentType| old(self).has_type(t) implies {
                &&& #[trigger] self@.stores[t] == ov.stores[t].remove(entity_id)
                &&& self@.changed[t] == (if ov.stores[t].has(entity_id) {
                    next_frame(ov.frame)
                } else {
                    ov.changed[t]
                })
                &&& self@.versions[t] == (if ov.stores[t].has(entity_id) {
                    (ov.changes + 1) as u64
                } else {
                    ov.versions[t]
                })
            } by {
                let k = old(self).find(t);
                old(self).lemma_find(k);
                assert(self.managers@[k].spec_component_type() == t);
                self.lemma_find(k);
            }
            assert(self@.stores =~= ov.detach_all(entity_id).stores);
            assert(self@.changed =~= ov.detach_all(entity_id).changed);
            assert(self@.versions =~= ov.detach_all(entity_id).versions);
        }
    }

    /// The store of the type, if it is registered.
    pub fn borrow_manager(&self, ty: ComponentType) -> (r: Option<&SimpleComponentManager<V>>)
        requires
            self.wf(),
        ensures
            match r {
                Some(m) => {
                    &&& self@.stores.contains_key(ty)
                    &&& m@ == self@.stores[ty]
                    &&& m.wf()
                    &&& m.spec_component_type() == ty
                },
                None => !self@.stores.contains_key(ty),
            },
    {
        match self.position(ty) {
            Some(i) => {
                proof {
                    self.lemma_find(i as int);
                }
                Some(&self.managers[i])
            },
            None => None,
        }
    }

    /// The entities holding a component of the type, in store order; `None`
    /// for a type never registered.
    pub fn query_entity_ids(&self, ty: ComponentType) -> (r: Option<&Vec<usize>>)
        requires
            self.wf(),
        ensures
            match r {
                Some(v) => self@.stores.contains_key(ty) && v@ == self@.stores[ty].order,
                None => !self@.stores.contains_key(ty),
            },
    {
        match self.borrow_manager(ty) {
            Some(m) => Some(m.entities()),
            None => None,
        }
    }

    /// The component of the type that the entity holds, if any.
    pub fn component_of(&self, entity_id: usize, ty: ComponentType) -> (r: Option<&V>)
        requires
            self.wf(),
        ensures
            match r {
                Some(v) => self@.holds(entity_id, ty) && self@.stores[ty].contents[entity_id] == *v,
                None => !self@.holds(entity_id, ty),
            },
    {
        match self.borrow_manager(ty) {
            Some(m) => m.get(entity_id),
            None => None,
        }
    }

    /// Mutable access to the store of the type, if it is registered; the
    /// manager keeps its change marks.
    fn store_mut(&mut self, ty: ComponentType) -> (r: Option<&mut SimpleComponentManager<V>>)
        requires
            old(self).wf(),
        ensures
            match r {
                Some(m) => {
                    &&& old(self)@.stores.contains_key(ty)
                    &&& m@ == old(self)@.stores[ty]
                    &&& m.wf()
                    &&& m.spec_component_type() == ty
                    &&& final(m).wf() && final(m).spec_component_type() == ty ==> {
                        &&& final(self).wf()
                        &&& final(self)@ == (ManagerView {
                            stores: old(self)@.stores.insert(ty, final(m)@),
                            ..old(self)@
                        })
                    }
                },
                None => {
                    &&& !old(self)@.stores.contains_key(ty)
                    &&& *final(self) == *old(self)
                },
            },
    {
        let i = match self.position(ty) {
            Some(i) => i,
            None => return None,
        };
        proof {
            self.lemma_find(i as int);
            assert(self@.changed.insert(ty, self.frame_map@[i as int]) =~= self@.changed);
            assert(self@.versions.insert(ty, self.versions@[i as int]) =~= self@.versions);
            assert forall|b: Self|
                b.container == self.container && b.frame == self.frame && b.frame_map == self.frame_map
                    && b.versions == self.versions && b.changes == self.changes
                    && #[trigger] b.managers@ == self.managers@.update(i as int, b.managers@[i as int])
                    && b.managers@.len() == self.managers@.len()
                    && b.managers@[i as int].wf()
                    && b.managers@[i as int].spec_component_type() == ty
                implies b.wf() && b@ == (ManagerView { stores: self@.stores.insert(ty, b.managers@[i as int]@), ..self@ }) by {
                Self::lemma_update_slot(self, &b, i as int);
                assert(b@.changed =~= self@.changed);
                assert(b@.versions =~= self@.versions);
            }
        }
        Some(&mut self.managers[i])
    }

    /// Mutable access to the store of the type, if it is registered. The
    /// type is marked as possibly changed at a new change count, so cached
    /// query results for it are rebuilt whatever is done through the store.
    /// The manager stays well formed as long as the store does and keeps its
    /// type.
    pub fn borrow_manager_mut(&mut self, ty: ComponentType) -> (r: Option<&mut SimpleComponentManager<V>>)
        requires
            old(self).wf(),
            old(self)@.changes < u64::MAX,
        ensures
            match r {
                Some(m) => {
                    &&& old(self)@.stores.contains_key(ty)
                    &&& m@ == old(self)@.stores[ty]
                    &&& m.wf()
                    &&& m.spec_component_type() == ty
                    &&& final(m).wf() && final(m).spec_component_type() == ty ==> {
                        &&& final(self).wf()
                        &&& final(self)@ == (ManagerView {
                            stores: old(self)@.stores.insert(ty, final(m)@),
                            ..old(self)@.mark_changed(ty)
                        })
                    }
                },
                None => {
                    &&& !old(self)@.stores.contains_key(ty)
                    &&& *final(self) == *old(self)
                },
            },
    {
        let i = match self.position(ty) {
            Some(i) => i,
            None => return None,
        };
        let ghost before = *self;
        proof {
            self.lemma_find(i as int);
        }
        self.changes = self.changes + 1;
        self.versions.set(i, self.changes);
        proof {
            Self::lemma_update_slot(&before, self, i as int);
            assert(before@.changed.insert(ty, before.frame_map@[i as int]) =~= before@.changed);
            assert(before@.stores.insert(ty, before.managers@[i as int]@) =~= before@.stores);
            assert(self@ =~= old(self)@.mark_changed(ty));
        }
        self.store_mut(ty)
    }

    /// Mutable access to the dense array of components of the type; `None`
    /// for a type never registered. Membership and frames stay as they are,
    /// each holder taking the value now in its slot, as long as the array
    /// keeps its length.
    pub fn query(&mut self, ty: ComponentType) -> (r: Option<&mut Vec<V>>)
        requires
            old(self).wf(),
        ensures
            match r {
                Some(v) => {
                    &&& old(self)@.stores.contains_key(ty)
                    &&& v@ == old(self)@.stores[ty].values()
                    &&& final(v)@.len() == v@.len() ==> {
                        &&& final(self).wf()
                        &&& final(self)@ == (ManagerView {
                            stores: old(self)@.stores.insert(ty, old(self)@.stores[ty].with_values(final(v)@)),
                            ..old(self)@
                        })
                    }
                },
                None => {
                    &&& !old(self)@.stores.contains_key(ty)
                    &&& *final(self) == *old(self)
                },
            },
    {
        match self.store_mut(ty) {
            Some(m) => Some(m.borrow_components_mut()),
            None => None,
        }
    }

    /// Mutable access to the component of the type that the entity holds, if
    /// any. Membership and frames stay as they are.
    pub fn component_of_mut(&mut self, entity_id: usize, ty: ComponentType) -> (r: Option<&mut V>)
        requires
            old(self).wf(),
        ensures
            match r {
                Some(v) => {
                    &&& old(self)@.holds(entity_id, ty)
                    &&& old(self)@.stores[ty].contents[entity_id] == *v
                    &&& final(self).wf()
                    &&& final(self)@ == old(self)@.set_component(entity_id, ty, *final(v))
                },
                None => {
                    &&& !old(self)@.holds(entity_id, ty)
                    &&& final(self).wf()
                    &&& final(self)@ == old(self)@
                },
            },
    {
        proof {
            if self@.stores.contains_key(ty) {
                assert(self@.stores.insert(ty, self@.stores[ty]) =~= self@.stores);
            }
        }
        match self.store_mut(ty) {
            Some(m) => {
                m.get_mut(entity_id)
            },
            None => None,
        }
    }
}

} // verus!

verus! {

/// Creating an entity, removing it and creating another issues the same id
/// again, and the new entity holds no component of any type.
pub proof fn lemma_id_reuse<V>(m: ManagerView<V>)
    requires
        m.well_formed(),
        m.allocator.can_allocate(),
    ensures
        ({
            let e = m.allocator.next_id();
            let m2 = m.create_entity().detach_all(e);
            &&& m2.allocator.can_allocate()
            &&& m2.allocator.next_id() == e
            &&& forall|ty: ComponentType| !#[trigger] m2.create_entity().holds(e, ty)
        }),
{
    let e = m.allocator.next_id();
    let m1 = m.create_entity();
    let m2 = m1.detach_all(e);
    if m.allocator.free.is_empty() {
        assert(m2.allocator.free =~= set![e]);
        assert(is_least(m2.allocator.free, e));
        let c = choose|r: usize| is_least(m2.allocator.free, r);
        assert(m2.allocator.free.contains(c));
    } else {
        let r = choose|r: usize| is_least(m.allocator.free, r);
        assert(is_least(m.allocator.free, r));
        assert(m2.allocator.free =~= m.allocator.free);
    }
    assert forall|ty: ComponentType| !#[trigger] m2.create_entity().holds(e, ty) by {
        if m.stores.contains_key(ty) {
            m.stores[ty].lemma_remove_well_formed(e);
        }
    }
}

/// Attaching a second component of a type to an entity keeps the first one:
/// the entity holds the value attached first, or the one it already held.
pub proof fn lemma_first_write_wins<V>(m: ManagerView<V>, entity: usize, ty: ComponentType, v1: V, v2: V)
    ensures
        m.attach(entity, ty, v1).attach(entity, ty, v2).holds(entity, ty),
        m.attach(entity, ty, v1).attach(entity, ty, v2).stores[ty].contents[entity] == (if m.holds(
            entity,
            ty,
        ) {
            m.stores[ty].contents[entity]
        } else {
            v1
        }),
        m.attach(entity, ty, v1).attach(entity, ty, v2).stores[ty] == m.attach(entity, ty, v1).stores[ty],
{
}

} // verus!
