//! Component stores: one sparse set per component type, indexed by entity.
use std::collections::HashMap;
use vstd::prelude::*;

verus! {

broadcast use vstd::std_specs::hash::group_hash_axioms;

/// The key under which a component type is registered with an entity manager.
pub type ComponentType = usize;

/// Marker for values that may be stored as components.
pub trait Component {}

/// The abstract contents of a component store: the entities that hold a
/// component, in dense order, and the component each of them holds.
pub struct SparseSetView<T> {
    pub order: Seq<usize>,
    pub contents: Map<usize, T>,
}

impl<T> SparseSetView<T> {
    pub open spec fn empty() -> Self {
        SparseSetView { order: Seq::empty(), contents: Map::empty() }
    }

    /// Each holder appears once in the dense order, and the dense order lists
    /// exactly the holders.
    pub open spec fn well_formed(self) -> bool {
        &&& self.order.no_duplicates()
        &&& forall|e: usize| #[trigger] self.contents.contains_key(e) <==> self.order.contains(e)
    }

    pub open spec fn has(self, entity: usize) -> bool {
        self.contents.contains_key(entity)
    }

    pub open spec fn get(self, entity: usize) -> Option<T> {
        if self.has(entity) {
            Some(self.contents[entity])
        } else {
            None
        }
    }

    /// First write wins: inserting for an entity that already holds a
    /// component changes nothing.
    pub open spec fn insert(self, entity: usize, value: T) -> Self {
        if self.has(entity) {
            self
        } else {
            SparseSetView { order: self.order.push(entity), contents: self.contents.insert(entity, value) }
        }
    }

    /// Swap-remove: the last holder moves into the slot of the removed one.
    pub open spec fn remove(self, entity: usize) -> Self {
        if !self.has(entity) {
            self
        } else {
            let i = self.order.index_of(entity);
            SparseSetView {
                order: self.order.update(i, self.order.last()).drop_last(),
                contents: self.contents.remove(entity),
            }
        }
    }

    /// Removing a holder keeps each other holder exactly once in the order.
    pub proof fn lemma_remove_well_formed(self, entity: usize)
        requires
            self.well_formed(),
        ensures
            self.remove(entity).well_formed(),
            !self.remove(entity).order.contains(entity),
    {
        if self.has(entity) {
            let i = self.order.index_of(entity);
            assert(self.order.contains(entity));
            let n = self.order.len();
            let o = self.order.update(i, self.order.last()).drop_last();
            assert(self.order[i] == entity);
            assert forall|a: int, b: int| 0 <= a < o.len() && 0 <= b < o.len() && a != b implies o[a] != o[b] by {
                let pa = if a == i { n - 1 } else { a };
                let pb = if b == i { n - 1 } else { b };
                assert(o[a] == self.order[pa]);
                assert(o[b] == self.order[pb]);
            }
            assert forall|e: usize| #[trigger] self.remove(entity).contents.contains_key(e) <==> o.contains(e) by {
                if o.contains(e) {
                    let a = choose|a: int| 0 <= a < o.len() && o[a] == e;
                    let pa = if a == i { n - 1 } else { a };
                    assert(o[a] == self.order[pa]);
                    assert(self.order.contains(e));
                    assert(pa != i);
                }
                if self.contents.contains_key(e) && e != entity {
                    assert(self.order.contains(e));
                    let a = choose|a: int| 0 <= a < n && self.order[a] == e;
                    assert(a != i);
                    if a == n - 1 {
                        assert(o[i] == e);
                    } else {
                        assert(o[a] == e);
                    }
                }
            }
        }
    }

    /// The components in dense order.
    pub open spec fn values(self) -> Seq<T> {
        self.order.map_values(|e: usize| self.contents[e])
    }

    /// The same holders in the same order, holding the given dense values.
    pub open spec fn with_values(self, values: Seq<T>) -> Self {
        SparseSetView {
            order: self.order,
            contents: Map::new(
                |e: usize| self.contents.contains_key(e),
                |e: usize| values[self.order.index_of(e)],
            ),
        }
    }

    /// Replaces the component of a holder, leaving the order as it is.
    pub open spec fn set(self, entity: usize, value: T) -> Self {
        SparseSetView { order: self.order, contents: self.contents.insert(entity, value) }
    }
}

/// What a store returns is what was inserted: inserting for an entity that
/// holds no component makes `get` return the new value; a second insert for
/// the same entity keeps the first value; removing makes `get` return `None`
/// and `has` false; neither disturbs another entity's component, so a value
/// stays until its own entity is removed; and the store stays well formed
/// throughout.
pub proof fn lemma_sparse_set<T>(s: SparseSetView<T>, entity: usize, v1: T, v2: T, other: usize)
    requires
        s.well_formed(),
    ensures
        !s.has(entity) ==> s.insert(entity, v1).get(entity) == Some(v1),
        !s.has(entity) ==> s.insert(entity, v1).insert(entity, v2).get(entity) == Some(v1),
        s.insert(entity, v1).has(entity),
        s.insert(entity, v1).well_formed(),
        s.remove(entity).get(entity) is None,
        !s.remove(entity).has(entity),
        s.remove(entity).well_formed(),
        other != entity ==> s.insert(entity, v1).get(other) == s.get(other),
        other != entity ==> s.remove(entity).get(other) == s.get(other),
        s.has(other) ==> s.insert(entity, v1).get(other) == s.get(other),
        other != entity ==> s.remove(other).get(entity) == s.get(entity),
{
    s.lemma_remove_well_formed(entity);
    if !s.has(entity) {
        assert(!s.order.contains(entity));
        let t = s.insert(entity, v1);
        assert forall|e: usize| #[trigger] t.contents.contains_key(e) <==> t.order.contains(e) by {
            if t.order.contains(e) && e != entity {
                let a = choose|a: int| 0 <= a < t.order.len() && t.order[a] == e;
                assert(s.order[a] == e);
            }
            if s.contents.contains_key(e) {
                let a = choose|a: int| 0 <= a < s.order.len() && s.order[a] == e;
                assert(t.order[a] == e);
            }
            if e == entity {
                assert(t.order[s.order.len() as int] == e);
            }
        }
    }
}

/// A sparse set holding every component of one type: a dense array of
/// values, a parallel dense array of their entities, and a map from entity
/// to dense index.
pub struct SimpleComponentManager<T> {
    components: Vec<T>,
    entities: Vec<usize>,
    entity_idx: HashMap<usize, usize>,
    component_type: ComponentType,
}

impl<T> View for SimpleComponentManager<T> {
    type V = SparseSetView<T>;

    closed spec fn view(&self) -> SparseSetView<T> {
        SparseSetView {
            order: self.entities@,
            contents: Map::new(
                |e: usize| self.entity_idx@.contains_key(e),
                |e: usize| self.components@[self.entity_idx@[e] as int],
            ),
        }
    }
}

impl<T> SimpleComponentManager<T> {
    /// The three arrays are aligned and the index map points each holder at
    /// its own slot.
    pub closed spec fn wf(&self) -> bool {
        &&& self.components@.len() == self.entities@.len()
        &&& forall|i: int|
            0 <= i < self.entities@.len() ==> {
                &&& #[trigger] self.entity_idx@.contains_key(self.entities@[i])
                &&& self.entity_idx@[self.entities@[i]] == i
            }
        &&& forall|e: usize| #[trigger]
            self.entity_idx@.contains_key(e) ==> {
                &&& self.entity_idx@[e] < self.entities@.len()
                &&& self.entities@[self.entity_idx@[e] as int] == e
            }
    }

    pub closed spec fn spec_component_type(&self) -> ComponentType {
        self.component_type
    }
}

impl<T: Component> SimpleComponentManager<T> {
    pub proof fn lemma_view_well_formed(&self)
        requires
            self.wf(),
        ensures
            self@.well_formed(),
    {
        assert forall|i: int, j: int|
            0 <= i < self.entities@.len() && 0 <= j < self.entities@.len() && i != j implies
            self.entities@[i] != self.entities@[j] by {
            assert(self.entity_idx@.contains_key(self.entities@[i]));
            assert(self.entity_idx@.contains_key(self.entities@[j]));
        }
        assert forall|e: usize| #[trigger] self@.contents.contains_key(e) <==> self@.order.contains(e) by {
            if self.entity_idx@.contains_key(e) {
                assert(self.entities@[self.entity_idx@[e] as int] == e);
            }
            if self@.order.contains(e) {
                let i = choose|i: int| 0 <= i < self.entities@.len() && self.entities@[i] == e;
                assert(self.entity_idx@.contains_key(self.entities@[i]));
            }
        }
    }

    proof fn lemma_replace_slot(a: Self, b: Self, entity: usize)
        requires
            a.wf(),
            a.entity_idx@.contains_key(entity),
            b.entities == a.entities,
            b.entity_idx == a.entity_idx,
            b.component_type == a.component_type,
            b.components@ == a.components@.update(
                a.entity_idx@[entity] as int,
                b.components@[a.entity_idx@[entity] as int],
            ),
        ensures
            b.wf(),
            b@ == a@.set(entity, b.components@[a.entity_idx@[entity] as int]),
    {
        let v = b.components@[a.entity_idx@[entity] as int];
        assert(b@.contents =~= a@.set(entity, v).contents) by {
            assert forall|e: usize| #[trigger] b@.contents.contains_key(e) implies b@.contents[e]
                == a@.set(entity, v).contents[e] by {
                if e != entity {
                    assert(a.entities@[a.entity_idx@[e] as int] == e);
                }
            }
        }
    }

    /// An empty store for the given component type.
    pub fn new(component_type: ComponentType) -> (r: Self)
        ensures
            r.wf(),
            r@ == SparseSetView::<T>::empty(),
            r.spec_component_type() == component_type,
    {
        let r = SimpleComponentManager {
            components: Vec::new(),
            entities: Vec::new(),
            entity_idx: HashMap::new(),
            component_type,
        };
        assert(r@.contents =~= Map::<usize, T>::empty());
        r
    }

    /// Whether the entity holds a component in this store.
    pub fn has(&self, entity: usize) -> (r: bool)
        requires
            self.wf(),
        ensures
            r == self@.has(entity),
    {
        self.entity_idx.contains_key(&entity)
    }

    /// The component of the entity, if it holds one.
    pub fn get(&self, entity: usize) -> (r: Option<&T>)
        requires
            self.wf(),
        ensures
            match r {
                Some(v) => self@.get(entity) == Some(*v),
                None => self@.get(entity) is None,
            },
    {
        match self.entity_idx.get(&entity) {
            Some(index) => Some(&self.components[*index]),
            None => None,
        }
    }

    /// Adds the component unless the entity already holds one.
    pub fn insert(&mut self, entity: usize, value: T)
        requires
            old(self).wf(),
            old(self)@.order.len() < usize::MAX,
        ensures
            final(self).wf(),
            final(self)@ == old(self)@.insert(entity, value),
            final(self).spec_component_type() == old(self).spec_component_type(),
            old(self)@.has(entity) ==> *final(self) == *old(self),
    {
        if self.entity_idx.contains_key(&entity) {
            return;
        }
        let ghost old_view = self@;
        let index = self.entities.len();
        self.components.push(value);
        self.entities.push(entity);
        self.entity_idx.insert(entity, index);
        assert(self@.order =~= old_view.order.push(entity));
        assert(self@.contents =~= old_view.contents.insert(entity, value));
    }

    /// Removes the component of the entity, moving the last one into its slot.
    pub fn remove(&mut self, entity: usize)
        requires
            old(self).wf(),
        ensures
            final(self).wf(),
            final(self)@ == old(self)@.remove(entity),
            final(self).spec_component_type() == old(self).spec_component_type(),
            !old(self)@.has(entity) ==> *final(self) == *old(self),
    {
        let index = match self.entity_idx.get(&entity) {
            Some(i) => *i,
            None => return,
        };
        proof {
            self.lemma_view_well_formed();
        }
        let ghost old_self = *self;
        let ghost old_view = self@;
        let last_index = self.entities.len() - 1;
        let last = self.entities[last_index];
        self.entity_idx.insert(last, index);
        self.components.swap_remove(index);
        self.entities.swap_remove(index);
        self.entity_idx.remove(&entity);
        proof {
            assert(old_view.order.index_of(entity) == index as int) by {
                let k = old_view.order.index_of(entity);
                assert(old_view.order.contains(entity));
                assert(old_self.entities@[index as int] == entity);
            }
            assert(self.entities@ =~= old_view.order.update(index as int, old_view.order.last()).drop_last());
            assert forall|i: int| 0 <= i < self.entities@.len() implies {
                &&& #[trigger] self.entity_idx@.contains_key(self.entities@[i])
                &&& self.entity_idx@[self.entities@[i]] == i
            } by {
                assert(old_self.entity_idx@.contains_key(old_self.entities@[i]));
            }
            assert forall|e: usize| #[trigger] self.entity_idx@.contains_key(e) implies {
                &&& self.entity_idx@[e] < self.entities@.len()
                &&& self.entities@[self.entity_idx@[e] as int] == e
            } by {
                assert(old_self.entity_idx@.contains_key(e));
            }
            assert(self@.contents =~= old_view.contents.remove(entity)) by {
                assert forall|e: usize| #[trigger] self@.contents.contains_key(e) implies
                    self@.contents[e] == old_view.contents[e] by {
                    assert(old_self.entity_idx@.contains_key(e));
                }
            }
        }
    }

    /// Mutable access to the component of the entity, if it holds one. The
    /// holders and their order stay as they are.
    pub fn get_mut(&mut self, entity: usize) -> (r: Option<&mut T>)
        requires
            old(self).wf(),
        ensures
            match r {
                Some(v) => {
                    &&& old(self)@.get(entity) == Some(*v)
                    &&& final(self).wf()
                    &&& final(self)@ == old(self)@.set(entity, *final(v))
                    &&& final(self).spec_component_type() == old(self).spec_component_type()
                },
                None => {
                    &&& old(self)@.get(entity) is None
                    &&& *final(self) == *old(self)
                },
            },
    {
        let index = match self.entity_idx.get(&entity) {
            Some(i) => *i,
            None => return None,
        };
        proof {
            assert forall|b: Self|
                b.entities == self.entities && b.entity_idx == self.entity_idx && b.component_type
                    == self.component_type && #[trigger] b.components@ == self.components@.update(
                    index as int,
                    b.components@[index as int],
                ) implies b.wf() && b@ == self@.set(entity, b.components@[index as int]) by {
                Self::lemma_replace_slot(*self, b, entity);
            }
        }
        let r = &mut self.components[index];
        Some(r)
    }

    /// Mutable access to the dense array of components. The store stays well
    /// formed, with each holder taking the value now in its slot, as long as
    /// the array keeps its length.
    pub fn borrow_components_mut(&mut self) -> (r: &mut Vec<T>)
        requires
            old(self).wf(),
        ensures
            r@ == old(self)@.values(),
            final(self).spec_component_type() == old(self).spec_component_type(),
            final(r)@.len() == r@.len() ==> {
                &&& final(self).wf()
                &&& final(self)@ == old(self)@.with_values(final(r)@)
            },
    {
        proof {
            self.lemma_view_well_formed();
            assert(self.components@ =~= self@.values()) by {
                assert forall|i: int| 0 <= i < self.components@.len() implies self.components@[i] == self@.values()[i] by {
                    assert(self.entity_idx@.contains_key(self.entities@[i]));
                }
            }
            assert forall|b: Self|
                b.entities == self.entities && b.entity_idx == self.entity_idx && b.component_type
                    == self.component_type && #[trigger] b.components@.len() == self.components@.len()
                implies b.wf() && b@ == self@.with_values(b.components@) by {
                assert(b@.contents =~= self@.with_values(b.components@).contents) by {
                    assert forall|e: usize| #[trigger] b@.contents.contains_key(e) implies b@.contents[e]
                        == self@.with_values(b.components@).contents[e] by {
                        let i = self.entity_idx@[e] as int;
                        assert(self.entities@[i] == e);
                        assert(self@.order.contains(e));
                        let k = self@.order.index_of(e);
                        assert(self.entities@[k] == e);
                        assert(self.entity_idx@.contains_key(self.entities@[k]));
                    }
                }
            }
        }
        &mut self.components
    }

    /// The dense array of entities holding a component, in store order.
    pub fn entities(&self) -> (r: &Vec<usize>)
        ensures
            r@ == self@.order,
    {
        &self.entities
    }

    /// The component type this store holds.
    pub fn component_type(&self) -> (r: ComponentType)
        ensures
            r == self.spec_component_type(),
    {
        self.component_type
    }
}

/// The order left by swap-removing an entity: its slot takes the last
/// entity and the last slot goes; an order without the entity stays as it is.
pub open spec fn swap_removed(order: Seq<usize>, entity: usize) -> Seq<usize> {
    if order.contains(entity) {
        order.update(order.index_of(entity), order.last()).drop_last()
    } else {
        order
    }
}

/// The operations on a store that do not depend on its component type.
pub trait ComponentManager: Sized {
    spec fn manager_wf(&self) -> bool;

    /// The entities that hold a component in this store, in dense order.
    spec fn holder_order(&self) -> Seq<usize>;

    /// Every entity other than `entity` holds the same component, or none,
    /// in both stores.
    spec fn same_components_except(&self, other: &Self, entity: usize) -> bool;

    spec fn manager_type(&self) -> ComponentType;

    fn has(&self, entity: usize) -> (r: bool)
        requires
            self.manager_wf(),
        ensures
            r == self.holder_order().contains(entity),
    ;

    /// Swap-removes the entity's component; a store without one for the
    /// entity is left as it is.
    fn clear(&mut self, entity: usize)
        requires
            old(self).manager_wf(),
        ensures
            final(self).manager_wf(),
            final(self).holder_order() == swap_removed(old(self).holder_order(), entity),
            !final(self).holder_order().contains(entity),
            final(self).same_components_except(old(self), entity),
            final(self).manager_type() == old(self).manager_type(),
            !old(self).holder_order().contains(entity) ==> *final(self) == *old(self),
    ;

    fn get_type_id(&self) -> (r: ComponentType)
        ensures
            r == self.manager_type(),
    ;
}

/// The operations on a store that depend on its component type.
pub trait TypedComponentManager<T>: ComponentManager {
    /// The component that each holder holds.
    spec fn typed_contents(&self) -> Map<usize, T>;

    /// Appends the entity with the component; a store where the entity
    /// already holds one is left as it is.
    fn with(&mut self, entity: usize, component: T)
        requires
            old(self).manager_wf(),
            old(self).holder_order().len() < usize::MAX,
        ensures
            final(self).manager_wf(),
            final(self).manager_type() == old(self).manager_type(),
            old(self).holder_order().contains(entity) ==> *final(self) == *old(self),
            !old(self).holder_order().contains(entity) ==> {
                &&& final(self).holder_order() == old(self).holder_order().push(entity)
                &&& final(self).typed_contents() == old(self).typed_contents().insert(entity, component)
            },
    ;

    fn component(&self, entity: usize) -> (r: Option<&T>)
        requires
            self.manager_wf(),
        ensures
            match r {
                Some(v) => self.typed_contents().contains_key(entity) && self.typed_contents()[entity]
                    == *v,
                None => !self.typed_contents().contains_key(entity),
            },
    ;

    fn component_mut(&mut self, entity: usize) -> (r: Option<&mut T>)
        requires
            old(self).manager_wf(),
        ensures
            match r {
                Some(v) => {
                    &&& old(self).typed_contents().contains_key(entity)
                    &&& old(self).typed_contents()[entity] == *v
                    &&& final(self).manager_wf()
                    &&& final(self).typed_contents() == old(self).typed_contents().insert(
                        entity,
                        *final(v),
                    )
                    &&& final(self).holder_order() == old(self).holder_order()
                    &&& final(self).manager_type() == old(self).manager_type()
                },
                None => {
                    &&& !old(self).typed_contents().contains_key(entity)
                    &&& *final(self) == *old(self)
                },
            },
    ;
}

impl<T: Component> ComponentManager for SimpleComponentManager<T> {
    open spec fn manager_wf(&self) -> bool {
        self.wf()
    }

    open spec fn holder_order(&self) -> Seq<usize> {
        self@.order
    }

    open spec fn same_components_except(&self, other: &Self, entity: usize) -> bool {
        self@.contents.remove(entity) == other@.contents.remove(entity)
    }

    open spec fn manager_type(&self) -> ComponentType {
        self.spec_component_type()
    }

    fn has(&self, entity: usize) -> (r: bool) {
        proof {
            self.lemma_view_well_formed();
        }
        SimpleComponentManager::has(self, entity)
    }

    fn clear(&mut self, entity: usize) {
        proof {
            self.lemma_view_well_formed();
            self@.lemma_remove_well_formed(entity);
        }
        self.remove(entity);
        assert(self@.contents.remove(entity) =~= old(self)@.contents.remove(entity));
    }

    fn get_type_id(&self) -> (r: ComponentType) {
        self.component_type()
    }
}

impl<T: Component> TypedComponentManager<T> for SimpleComponentManager<T> {
    open spec fn typed_contents(&self) -> Map<usize, T> {
        self@.contents
    }

    fn with(&mut self, entity: usize, component: T) {
        proof {
            self.lemma_view_well_formed();
        }
        self.insert(entity, component);
    }

    fn component(&self, entity: usize) -> (r: Option<&T>) {
        self.get(entity)
    }

    fn component_mut(&mut self, entity: usize) -> (r: Option<&mut T>) {
        self.get_mut(entity)
    }
}

} // verus!
