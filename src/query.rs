//! The query table: per component type, a cached copy of the store's entity
//! list, rebuilt only when the type's changed frame or change count moves.
use std::collections::HashMap;
use vstd::prelude::*;
use crate::component::{Component, ComponentType};
use crate::entity::{EntityManager, ManagerView};

verus! {

broadcast use vstd::std_specs::hash::group_hash_axioms;

/// The abstract state of a query table: the cached entity list of each type
/// queried so far, and the changed frame and change count it was copied at.
pub struct TableView {
    pub cache: Map<ComponentType, Seq<usize>>,
    pub frames: Map<ComponentType, u64>,
    pub versions: Map<ComponentType, u64>,
}

/// The entities that hold every type of the list, in the store order of the
/// first type.
pub open spec fn live_intersection<V>(m: ManagerView<V>, types: Seq<ComponentType>) -> Seq<usize> {
    if types.len() == 0 {
        Seq::empty()
    } else {
        m.stores[types[0]].order.filter(
            |e: usize| forall|j: int| 0 <= j < types.len() ==> m.holds(e, #[trigger] types[j]),
        )
    }
}

/// Every type of the list is registered with the manager.
pub open spec fn all_registered<V>(m: ManagerView<V>, types: Seq<ComponentType>) -> bool {
    forall|j: int| 0 <= j < types.len() ==> m.stores.contains_key(#[trigger] types[j])
}

impl TableView {
    pub open spec fn empty() -> Self {
        TableView { cache: Map::empty(), frames: Map::empty(), versions: Map::empty() }
    }

    /// No cached list holds an entity twice.
    pub open spec fn well_formed(self) -> bool {
        forall|ty: ComponentType| #[trigger] self.cache.contains_key(ty) ==> self.cache[ty].no_duplicates()
    }

    /// Each cached list was copied from the manager's store at a change
    /// count no later than the type's current one, and equals the store's
    /// list when the two counts agree.
    pub open spec fn coherent<V>(self, m: ManagerView<V>) -> bool {
        forall|ty: ComponentType| #[trigger] self.cache.contains_key(ty) ==> {
            &&& m.stores.contains_key(ty)
            &&& self.versions.contains_key(ty)
            &&& self.versions[ty] <= m.version_of(ty)
            &&& self.versions[ty] == m.version_of(ty) ==> self.cache[ty] == m.stores[ty].order
        }
    }

    /// A cached list is rebuilt when there is none yet, or when the frame or
    /// the change count it was copied at differs from the type's current one.
    pub open spec fn needs_rebuild<V>(self, m: ManagerView<V>, ty: ComponentType) -> bool {
        ||| !self.cache.contains_key(ty)
        ||| !self.frames.contains_key(ty)
        ||| self.frames[ty] != m.changed_frame_of(ty)
        ||| !self.versions.contains_key(ty)
        ||| self.versions[ty] != m.version_of(ty)
    }

    pub open spec fn refresh<V>(self, m: ManagerView<V>, ty: ComponentType) -> Self {
        if self.needs_rebuild(m, ty) {
            TableView {
                cache: self.cache.insert(ty, m.stores[ty].order),
                frames: self.frames.insert(ty, m.changed_frame_of(ty)),
                versions: self.versions.insert(ty, m.version_of(ty)),
            }
        } else {
            self
        }
    }

    /// Refreshes each type of the list in turn.
    pub open spec fn refresh_all<V>(self, m: ManagerView<V>, types: Seq<ComponentType>) -> Self
        decreases types.len(),
    {
        if types.len() == 0 {
            self
        } else {
            self.refresh_all(m, types.drop_last()).refresh(m, types.last())
        }
    }

    /// The entity is in the cached list of every type of the list.
    pub open spec fn in_all(self, types: Seq<ComponentType>, entity: usize) -> bool {
        forall|j: int| 0 <= j < types.len() ==> #[trigger] self.cache[types[j]].contains(entity)
    }

    /// The cached list of the first type, keeping the entities that are in
    /// the cached list of every type.
    pub open spec fn intersection(self, types: Seq<ComponentType>) -> Seq<usize> {
        if types.len() == 0 {
            Seq::empty()
        } else {
            self.cache[types[0]].filter(|e: usize| self.in_all(types, e))
        }
    }
}

/// Caches per component type the entities that hold it.
pub struct EntityQueryTable {
    query_cache: HashMap<ComponentType, Vec<usize>>,
    frames: HashMap<ComponentType, u64>,
    versions: HashMap<ComponentType, u64>,
}

impl View for EntityQueryTable {
    type V = TableView;

    closed spec fn view(&self) -> TableView {
        TableView {
            cache: Map::new(
                |ty: ComponentType| self.query_cache@.contains_key(ty),
                |ty: ComponentType| self.query_cache@[ty]@,
            ),
            frames: self.frames@,
            versions: self.versions@,
        }
    }
}

fn vec_contains(v: &Vec<usize>, e: usize) -> (r: bool)
    ensures
        r == v@.contains(e),
{
    let mut i: usize = 0;
    while i < v.len()
        invariant
            0 <= i <= v@.len(),
            forall|k: int| 0 <= k < i ==> v@[k] != e,
        decreases v@.len() - i,
    {
        if v[i] == e {
            return true;
        }
        i = i + 1;
    }
    false
}

impl EntityQueryTable {
    pub fn new() -> (r: Self)
        ensures
            r@ == TableView::empty(),
    {
        let r = EntityQueryTable {
            query_cache: HashMap::new(),
            frames: HashMap::new(),
            versions: HashMap::new(),
        };
        assert(r@.cache =~= Map::empty());
        r
    }

    fn all_registered<V: Component>(manager: &EntityManager<V>, types: &[ComponentType]) -> (r: bool)
        requires
            manager.wf(),
        ensures
            r == all_registered(manager@, types@),
    {
        let mut j: usize = 0;
        while j < types.len()
            invariant
                manager.wf(),
                0 <= j <= types@.len(),
                forall|k: int| 0 <= k < j ==> manager@.stores.contains_key(#[trigger] types@[k]),
            decreases types@.len() - j,
        {
            if manager.query_entity_ids(types[j]).is_none() {
                return false;
            }
            j = j + 1;
        }
        true
    }

    /// Rebuilds the cached list of the type if it is stale.
    fn refresh<V: Component>(&mut self, manager: &EntityManager<V>, ty: ComponentType)
        requires
            manager.wf(),
            manager@.stores.contains_key(ty),
        ensures
            final(self)@ == old(self)@.refresh(manager@, ty),
    {
        let changed = manager.get_updated_frame(ty);
        let version = manager.version(ty);
        let stale_frame = match self.frames.get(&ty) {
            Some(f) => *f != changed,
            None => true,
        };
        let stale_version = match self.versions.get(&ty) {
            Some(v) => *v != version,
            None => true,
        };
        let stale = stale_frame || stale_version;
        if !stale && self.query_cache.contains_key(&ty) {
            return;
        }
        let entities = match manager.query_entity_ids(ty) {
            Some(v) => v,
            None => return,
        };
        let mut copy: Vec<usize> = Vec::new();
        let mut i: usize = 0;
        while i < entities.len()
            invariant
                0 <= i <= entities@.len(),
                copy@ == entities@.subrange(0, i as int),
            decreases entities@.len() - i,
        {
            copy.push(entities[i]);
            i = i + 1;
            assert(copy@ =~= entities@.subrange(0, i as int));
        }
        assert(copy@ =~= entities@);
        self.query_cache.insert(ty, copy);
        self.frames.insert(ty, changed);
        self.versions.insert(ty, version);
        assert(self@.cache =~= old(self)@.cache.insert(ty, manager@.stores[ty].order));
    }

    /// Refreshes each type of the list in turn.
    fn refresh_all<V: Component>(&mut self, manager: &EntityManager<V>, types: &[ComponentType])
        requires
            manager.wf(),
            all_registered(manager@, types@),
        ensures
            final(self)@ == old(self)@.refresh_all(manager@, types@),
    {
        let mut j: usize = 0;
        while j < types.len()
            invariant
                manager.wf(),
                all_registered(manager@, types@),
                0 <= j <= types@.len(),
                self@ == old(self)@.refresh_all(manager@, types@.subrange(0, j as int)),
            decreases types@.len() - j,
        {
            let ghost before = types@.subrange(0, j as int);
            self.refresh(manager, types[j]);
            j = j + 1;
            assert(types@.subrange(0, j as int).drop_last() =~= before);
        }
        assert(types@.subrange(0, types@.len() as int) =~= types@);
    }

    fn in_all(&self, types: &[ComponentType], entity: usize) -> (r: bool)
        requires
            forall|j: int| 0 <= j < types@.len() ==> self@.cache.contains_key(#[trigger] types@[j]),
        ensures
            r == self@.in_all(types@, entity),
    {
        let mut j: usize = 0;
        while j < types.len()
            invariant
                0 <= j <= types@.len(),
                forall|k: int| 0 <= k < types@.len() ==> self@.cache.contains_key(#[trigger] types@[k]),
                forall|k: int| 0 <= k < j ==> #[trigger] self@.cache[types@[k]].contains(entity),
            decreases types@.len() - j,
        {
            let ty = types[j];
            assert(self@.cache.contains_key(types@[j as int]));
            let found = match self.query_cache.get(&ty) {
                Some(v) => {
                    assert(self@.cache[ty] == v@);
                    vec_contains(v, entity)
                },
                None => false,
            };
            if !found {
                assert(!self@.cache[types@[j as int]].contains(entity));
                return false;
            }
            j = j + 1;
        }
        true
    }

    /// The entities holding the type, from the cache, which is rebuilt first
    /// if the type's changed frame or change count moved since it was
    /// copied. `None` for a type never registered, leaving the table as it
    /// was. On a table coherent with the manager the result is the store's
    /// entity list.
    pub fn query_single<V: Component>(&mut self, manager: &EntityManager<V>, ty: ComponentType) -> (r: Option<&Vec<usize>>)
        requires
            manager.wf(),
        ensures
            manager@.stores.contains_key(ty) ==> {
                &&& final(self)@ == old(self)@.refresh(manager@, ty)
                &&& r is Some
                &&& r.unwrap()@ == final(self)@.cache[ty]
            },
            !manager@.stores.contains_key(ty) ==> r is None && final(self)@ == old(self)@,
            old(self)@.coherent(manager@) ==> final(self)@.coherent(manager@),
            old(self)@.coherent(manager@) && manager@.stores.contains_key(ty) ==> r.unwrap()@
                == manager@.stores[ty].order,
            old(self)@.well_formed() ==> final(self)@.well_formed(),
    {
        if manager.query_entity_ids(ty).is_none() {
            return None;
        }
        self.refresh(manager, ty);
        let r = self.query_cache.get(&ty);
        assert(self@.cache.contains_key(ty));
        proof {
            let types = seq![ty];
            assert(types.drop_last() =~= Seq::<ComponentType>::empty());
            assert(types.last() == ty);
            assert(old(self)@.refresh_all(manager@, Seq::<ComponentType>::empty()) == old(self)@);
            assert(old(self)@.refresh_all(manager@, types) == old(self)@.refresh(manager@, ty));
            assert(all_registered(manager@, types));
            manager.lemma_view_well_formed();
            if old(self)@.coherent(manager@) {
                lemma_refresh_all_coherent(old(self)@, manager@, types);
                assert(types[0] == ty);
            }
            if old(self)@.well_formed() {
                lemma_refresh_all_well_formed(old(self)@, manager@, types);
            }
        }
        r
    }

    /// The entities holding every type of the list, in the cached order of
    /// the first type. Each type's cached list is refreshed first. `None`
    /// when a type of the list was never registered, leaving the table as it
    /// was. On a table coherent with the manager the result is exactly the
    /// entities that hold every type, in the store order of the first; on a
    /// well-formed table it holds no entity twice.
    pub fn query<V: Component>(&mut self, manager: &EntityManager<V>, types: &[ComponentType]) -> (r: Option<Vec<usize>>)
        requires
            manager.wf(),
        ensures
            all_registered(manager@, types@) ==> {
                &&& final(self)@ == old(self)@.refresh_all(manager@, types@)
                &&& r is Some
                &&& r.unwrap()@ == final(self)@.intersection(types@)
            },
            !all_registered(manager@, types@) ==> r is None && final(self)@ == old(self)@,
            old(self)@.coherent(manager@) ==> final(self)@.coherent(manager@),
            old(self)@.coherent(manager@) && all_registered(manager@, types@) ==> r.unwrap()@
                == live_intersection(manager@, types@),
            old(self)@.well_formed() ==> final(self)@.well_formed(),
            old(self)@.well_formed() && all_registered(manager@, types@) ==> r.unwrap()@.no_duplicates(),
    {
        if !Self::all_registered(manager, types) {
            return None;
        }
        self.refresh_all(manager, types);
        proof {
            manager.lemma_view_well_formed();
            if old(self)@.coherent(manager@) {
                lemma_refresh_all_coherent(old(self)@, manager@, types@);
                lemma_query_exact(old(self)@, manager@, types@);
            }
            if old(self)@.well_formed() {
                lemma_refresh_all_well_formed(old(self)@, manager@, types@);
            }
        }
        let mut out: Vec<usize> = Vec::new();
        if types.len() == 0 {
            return Some(out);
        }
        proof {
            Self::lemma_refresh_all_caches(old(self)@, manager@, types@);
        }
        let ghost tv = self@;
        let first = match self.query_cache.get(&types[0]) {
            Some(v) => v,
            None => return Some(out),
        };
        assert(first@ == tv.cache[types@[0]]);
        let ghost pred = |e: usize| tv.in_all(types@, e);
        let mut i: usize = 0;
        while i < first.len()
            invariant
                self@ == tv,
                pred == (|e: usize| tv.in_all(types@, e)),
                forall|j: int| 0 <= j < types@.len() ==> tv.cache.contains_key(#[trigger] types@[j]),
                0 <= i <= first@.len(),
                out@ == first@.subrange(0, i as int).filter(pred),
            decreases first@.len() - i,
        {
            let e = first[i];
            let keep = self.in_all(types, e);
            proof {
                assert(tv.in_all(types@, e) == keep);
                assert(pred(e) == tv.in_all(types@, e));
                first@.subrange(0, i as int).lemma_filter_push(e, pred);
                assert(first@.subrange(0, i as int + 1) =~= first@.subrange(0, i as int).push(e));
            }
            if keep {
                out.push(e);
            }
            i = i + 1;
        }
        assert(first@.subrange(0, first@.len() as int) =~= first@);
        proof {
            if old(self)@.well_formed() {
                lemma_filter_no_duplicates(first@, pred);
            }
        }
        Some(out)
    }

    /// After refreshing every type of a list of registered types, each has
    /// a cached list.
    proof fn lemma_refresh_all_caches<V>(t: TableView, m: ManagerView<V>, types: Seq<ComponentType>)
        requires
            all_registered(m, types),
        ensures
            forall|j: int| 0 <= j < types.len() ==> t.refresh_all(m, types).cache.contains_key(#[trigger] types[j]),
            forall|ty: ComponentType| #[trigger] t.cache.contains_key(ty) ==> t.refresh_all(m, types).cache.contains_key(ty),
        decreases types.len(),
    {
        if types.len() > 0 {
            let init = types.drop_last();
            assert(all_registered(m, init)) by {
                assert forall|j: int| 0 <= j < init.len() implies m.stores.contains_key(#[trigger] init[j]) by {
                    assert(init[j] == types[j]);
                }
            }
            Self::lemma_refresh_all_caches(t, m, init);
            assert forall|j: int| 0 <= j < types.len() implies t.refresh_all(m, types).cache.contains_key(#[trigger] types[j]) by {
                if j < types.len() - 1 {
                    assert(init[j] == types[j]);
                }
            }
        }
    }
}

} // verus!

verus! {

/// After refreshing a list of types, each type of the list has a cached list
/// recorded at its current changed frame and change count: the store's
/// entity list if it was stale before, else the list it already had. Types
/// outside the list keep their entries.
pub proof fn lemma_refresh_all_entry<V>(
    t: TableView,
    m: ManagerView<V>,
    types: Seq<ComponentType>,
    ty: ComponentType,
)
    ensures
        types.contains(ty) ==> {
            let r = t.refresh_all(m, types);
            &&& r.cache.contains_key(ty)
            &&& r.frames.contains_key(ty)
            &&& r.frames[ty] == m.changed_frame_of(ty)
            &&& r.versions.contains_key(ty)
            &&& r.versions[ty] == m.version_of(ty)
            &&& r.cache[ty] == (if t.needs_rebuild(m, ty) {
                m.stores[ty].order
            } else {
                t.cache[ty]
            })
        },
        !types.contains(ty) ==> {
            let r = t.refresh_all(m, types);
            &&& r.cache.contains_key(ty) == t.cache.contains_key(ty)
            &&& r.cache[ty] == t.cache[ty]
            &&& r.frames.contains_key(ty) == t.frames.contains_key(ty)
            &&& r.frames[ty] == t.frames[ty]
            &&& r.versions.contains_key(ty) == t.versions.contains_key(ty)
            &&& r.versions[ty] == t.versions[ty]
        },
    decreases types.len(),
{
    if types.len() > 0 {
        let init = types.drop_last();
        let last = types.last();
        lemma_refresh_all_entry(t, m, init, ty);
        assert(types.contains(ty) <==> (init.contains(ty) || ty == last)) by {
            if types.contains(ty) && ty != last {
                let k = choose|k: int| 0 <= k < types.len() && types[k] == ty;
                assert(init[k] == ty);
            }
            if init.contains(ty) {
                let k = choose|k: int| 0 <= k < init.len() && init[k] == ty;
                assert(types[k] == ty);
            }
            assert(types[types.len() - 1] == last);
        }
    }
}

/// When no type of the list is stale, refreshing the list changes nothing.
proof fn lemma_refresh_all_fresh<V>(t: TableView, m: ManagerView<V>, types: Seq<ComponentType>)
    requires
        forall|j: int| 0 <= j < types.len() ==> !t.needs_rebuild(m, #[trigger] types[j]),
    ensures
        t.refresh_all(m, types) == t,
    decreases types.len(),
{
    if types.len() > 0 {
        let init = types.drop_last();
        assert forall|j: int| 0 <= j < init.len() implies !t.needs_rebuild(m, #[trigger] init[j]) by {
            assert(init[j] == types[j]);
        }
        lemma_refresh_all_fresh(t, m, init);
        assert(!t.needs_rebuild(m, types[types.len() - 1]));
    }
}

/// Keeping the entities of a duplicate-free list keeps it duplicate-free.
pub proof fn lemma_filter_no_duplicates(s: Seq<usize>, pred: spec_fn(usize) -> bool)
    requires
        s.no_duplicates(),
    ensures
        s.filter(pred).no_duplicates(),
    decreases s.len(),
{
    if s.len() > 0 {
        let init = s.drop_last();
        let last = s.last();
        assert(init.no_duplicates());
        lemma_filter_no_duplicates(init, pred);
        assert(init.push(last) =~= s);
        init.lemma_filter_push(last, pred);
        if init.filter(pred).contains(last) {
            init.lemma_filter_contains_rev(pred, last);
            let k = choose|k: int| 0 <= k < init.len() && init[k] == last;
            assert(s[k] == s[s.len() - 1]);
        }
    }
}

/// Refreshing a list of registered types keeps a table coherent with the
/// manager and well formed, and leaves each listed type's cached list equal
/// to the store's list.
pub proof fn lemma_refresh_all_coherent<V>(t: TableView, m: ManagerView<V>, types: Seq<ComponentType>)
    requires
        m.well_formed(),
        all_registered(m, types),
        t.coherent(m),
    ensures
        t.refresh_all(m, types).coherent(m),
        forall|j: int| 0 <= j < types.len() ==> #[trigger] t.refresh_all(m, types).cache[types[j]]
            == m.stores[types[j]].order,
{
    let r = t.refresh_all(m, types);
    assert forall|ty: ComponentType| #[trigger] r.cache.contains_key(ty) implies {
        &&& m.stores.contains_key(ty)
        &&& r.versions.contains_key(ty)
        &&& r.versions[ty] <= m.version_of(ty)
        &&& r.versions[ty] == m.version_of(ty) ==> r.cache[ty] == m.stores[ty].order
    } by {
        lemma_refresh_all_entry(t, m, types, ty);
        if types.contains(ty) {
            let k = choose|k: int| 0 <= k < types.len() && types[k] == ty;
            assert(m.stores.contains_key(types[k]));
        }
    }
    assert forall|j: int| 0 <= j < types.len() implies #[trigger] r.cache[types[j]] == m.stores[types[j]].order by {
        assert(types.contains(types[j]));
        lemma_refresh_all_entry(t, m, types, types[j]);
    }
}

/// Refreshing a list of registered types keeps a table well formed.
pub proof fn lemma_refresh_all_well_formed<V>(t: TableView, m: ManagerView<V>, types: Seq<ComponentType>)
    requires
        m.well_formed(),
        all_registered(m, types),
        t.well_formed(),
    ensures
        t.refresh_all(m, types).well_formed(),
{
    let r = t.refresh_all(m, types);
    assert forall|ty: ComponentType| #[trigger] r.cache.contains_key(ty) implies r.cache[ty].no_duplicates() by {
        lemma_refresh_all_entry(t, m, types, ty);
        if types.contains(ty) {
            let k = choose|k: int| 0 <= k < types.len() && types[k] == ty;
            assert(m.stores.contains_key(types[k]));
        }
    }
}

/// A query on a table coherent with the manager returns exactly the
/// entities that hold every type of the list, in the store order of the
/// first type.
pub proof fn lemma_query_exact<V>(t: TableView, m: ManagerView<V>, types: Seq<ComponentType>)
    requires
        m.well_formed(),
        all_registered(m, types),
        t.coherent(m),
    ensures
        t.refresh_all(m, types).intersection(types) == live_intersection(m, types),
{
    lemma_refresh_all_coherent(t, m, types);
    let r = t.refresh_all(m, types);
    if types.len() > 0 {
        let p1 = |e: usize| r.in_all(types, e);
        let p2 = |e: usize| forall|j: int| 0 <= j < types.len() ==> m.holds(e, #[trigger] types[j]);
        assert forall|e: usize| #[trigger] p1(e) == p2(e) by {
            assert forall|j: int| 0 <= j < types.len() implies #[trigger] r.cache[types[j]].contains(e)
                == m.holds(e, types[j]) by {
                assert(m.stores.contains_key(types[j]));
                assert(m.stores[types[j]].well_formed());
                assert(r.cache[types[j]] == m.stores[types[j]].order);
                assert(m.stores[types[j]].contents.contains_key(e) == m.stores[types[j]].order.contains(e));
            }
            if p1(e) {
                assert(r.in_all(types, e));
                assert forall|j: int| 0 <= j < types.len() implies m.holds(e, #[trigger] types[j]) by {
                    assert(r.cache[types[j]].contains(e));
                }
            }
            if p2(e) {
                assert forall|j: int| 0 <= j < types.len() implies #[trigger] r.cache[types[j]].contains(e) by {
                    assert(m.holds(e, types[j]));
                }
                assert(r.in_all(types, e));
            }
        }
        assert(p1 =~= p2);
        assert(m.stores.contains_key(types[0]));
    }
}

/// A new table is coherent with every manager and well formed.
pub proof fn lemma_empty_table_coherent<V>(m: ManagerView<V>)
    ensures
        TableView::empty().coherent(m),
        TableView::empty().well_formed(),
{
}

/// Every change to a manager keeps a coherent table coherent: a store that
/// may change gets a change count above every count recorded before.
pub proof fn lemma_changes_keep_coherent<V>(
    t: TableView,
    m: ManagerView<V>,
    entity: usize,
    ty: ComponentType,
    value: V,
)
    requires
        m.well_formed(),
        t.coherent(m),
        m.changes < u64::MAX,
    ensures
        t.coherent(m.register(ty)),
        t.coherent(m.attach(entity, ty, value)),
        t.coherent(m.detach_all(entity)),
        t.coherent(m.create_entity()),
        t.coherent(m.tick()),
        m.holds(entity, ty) ==> t.coherent(m.set_component(entity, ty, value)),
        m.stores.contains_key(ty) ==> t.coherent(m.mark_changed(ty)),
{
    assert forall|k: ComponentType| #[trigger] t.cache.contains_key(k) implies m.version_of(k) <= m.changes by {
        assert(m.versions.contains_key(k));
    }
    if m.holds(entity, ty) {
        let m2 = m.set_component(entity, ty, value);
        assert forall|k: ComponentType| #[trigger] t.cache.contains_key(k) && t.versions[k] == m2.version_of(k)
            implies t.cache[k] == m2.stores[k].order by {
        }
    }
}

/// Querying a list of types again, after changes confined to types outside
/// the list, leaves the table as it was and returns the same entities.
pub proof fn lemma_query_stable<V>(
    t: TableView,
    m: ManagerView<V>,
    m2: ManagerView<V>,
    types: Seq<ComponentType>,
)
    requires
        all_registered(m, types),
        forall|j: int|
            0 <= j < types.len() ==> {
                &&& m2.stores.contains_key(#[trigger] types[j])
                &&& m2.stores[types[j]] == m.stores[types[j]]
                &&& m2.changed_frame_of(types[j]) == m.changed_frame_of(types[j])
                &&& m2.version_of(types[j]) == m.version_of(types[j])
            },
    ensures
        all_registered(m2, types),
        t.refresh_all(m, types).refresh_all(m2, types) == t.refresh_all(m, types),
        t.refresh_all(m, types).refresh_all(m2, types).intersection(types) == t.refresh_all(
            m,
            types,
        ).intersection(types),
{
    let t1 = t.refresh_all(m, types);
    assert forall|j: int| 0 <= j < types.len() implies !t1.needs_rebuild(m2, #[trigger] types[j]) by {
        assert(types.contains(types[j]));
        lemma_refresh_all_entry(t, m, types, types[j]);
    }
    lemma_refresh_all_fresh(t1, m2, types);
}

/// An entity that holds every type of a list is in the query's result; it
/// stays there when a type outside the list changes, and it is gone once it
/// is removed, in the same frame and after the next tick.
pub proof fn lemma_query_tracks_membership<V>(
    t: TableView,
    m: ManagerView<V>,
    types: Seq<ComponentType>,
    entity: usize,
    other: usize,
    unrelated: ComponentType,
    value: V,
)
    requires
        m.well_formed(),
        t.coherent(m),
        types.len() > 0,
        forall|j: int| 0 <= j < types.len() ==> m.holds(entity, #[trigger] types[j]),
        !types.contains(unrelated),
        m.changes < u64::MAX - 2,
    ensures
        ({
            let t1 = t.refresh_all(m, types);
            let m2 = m.attach(other, unrelated, value);
            let t2 = t1.refresh_all(m2, types);
            let m3 = m2.detach_all(entity);
            let t3 = t2.refresh_all(m3, types);
            let t4 = t3.refresh_all(m3.tick(), types);
            &&& t1.intersection(types).contains(entity)
            &&& t2.intersection(types).contains(entity)
            &&& !t3.intersection(types).contains(entity)
            &&& !t4.intersection(types).contains(entity)
        }),
{
    let t1 = t.refresh_all(m, types);
    let m2 = m.attach(other, unrelated, value);
    let t2 = t1.refresh_all(m2, types);
    let m3 = m2.detach_all(entity);
    let t3 = t2.refresh_all(m3, types);
    let m4 = m3.tick();
    let t4 = t3.refresh_all(m4, types);
    assert(all_registered(m, types));
    lemma_query_exact(t, m, types);
    lemma_refresh_all_coherent(t, m, types);
    live_membership(m, types, entity);
    lemma_changes_keep_coherent(t1, m, other, unrelated, value);
    lemma_attach_well_formed(m, other, unrelated, value);
    assert(all_registered(m2, types));
    assert forall|j: int| 0 <= j < types.len() implies m2.holds(entity, #[trigger] types[j]) by {
        assert(types[j] != unrelated);
    }
    lemma_query_exact(t1, m2, types);
    lemma_refresh_all_coherent(t1, m2, types);
    live_membership(m2, types, entity);
    lemma_changes_keep_coherent(t2, m2, entity, unrelated, value);
    lemma_detach_well_formed(m2, entity);
    assert(all_registered(m3, types));
    lemma_query_exact(t2, m3, types);
    lemma_refresh_all_coherent(t2, m3, types);
    m2.stores[types[0]].lemma_remove_well_formed(entity);
    live_membership(m3, types, entity);
    lemma_changes_keep_coherent(t3, m3, entity, unrelated, value);
    assert(all_registered(m4, types));
    lemma_query_exact(t3, m4, types);
    live_membership(m4, types, entity);
}

/// An entity is in the live intersection exactly when it holds every type.
proof fn live_membership<V>(m: ManagerView<V>, types: Seq<ComponentType>, entity: usize)
    requires
        m.well_formed(),
        all_registered(m, types),
        types.len() > 0,
    ensures
        live_intersection(m, types).contains(entity) <==> forall|j: int|
            0 <= j < types.len() ==> m.holds(entity, #[trigger] types[j]),
{
    let s = m.stores[types[0]].order;
    let pred = |e: usize| forall|j: int| 0 <= j < types.len() ==> m.holds(e, #[trigger] types[j]);
    assert(m.stores.contains_key(types[0]));
    if live_intersection(m, types).contains(entity) {
        let i = choose|i: int| 0 <= i < s.filter(pred).len() && s.filter(pred)[i] == entity;
        s.lemma_filter_pred(pred, i);
    }
    if pred(entity) {
        assert(m.holds(entity, types[0]));
        assert(s.contains(entity));
        let i = choose|i: int| 0 <= i < s.len() && s[i] == entity;
        s.lemma_filter_contains(pred, i);
    }
}

proof fn lemma_attach_well_formed<V>(m: ManagerView<V>, entity: usize, ty: ComponentType, value: V)
    requires
        m.well_formed(),
        m.changes < u64::MAX,
    ensures
        m.attach(entity, ty, value).well_formed(),
{
    let r = m.register(ty);
    let s = if m.stores.contains_key(ty) { m.stores[ty] } else { crate::component::SparseSetView::empty() };
    assert(s.well_formed());
    crate::component::lemma_sparse_set(s, entity, value, value, entity);
}

proof fn lemma_detach_well_formed<V>(m: ManagerView<V>, entity: usize)
    requires
        m.well_formed(),
        m.changes < u64::MAX,
    ensures
        m.detach_all(entity).well_formed(),
{
    let d = m.detach_all(entity);
    assert forall|ty: ComponentType| #[trigger] d.stores.contains_key(ty) implies d.stores[ty].well_formed() by {
        m.stores[ty].lemma_remove_well_formed(entity);
    }
    assert forall|x: usize| #[trigger] d.allocator.free.contains(x) implies x < d.allocator.next by {
    }
    if !d.allocator.free.is_empty() && m.allocator.free.is_empty() {
        assert(d.allocator.free =~= set![entity]);
        assert(crate::entity::is_least(d.allocator.free, entity));
    }
    if !m.allocator.free.is_empty() {
        let r = choose|r: usize| crate::entity::is_least(m.allocator.free, r);
        if entity < r && entity < m.allocator.next {
            assert(crate::entity::is_least(d.allocator.free, entity));
        } else {
            assert(crate::entity::is_least(d.allocator.free, r));
        }
    }
}

} // verus!
