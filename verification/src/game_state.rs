//! The store: entities, per-type component lists, singleton resources,
//! the next-entity-id counter and the stop flag.
//!
//! A component is reachable both from its owning entity's handle list and
//! from the store's per-type list; `wf` pins the two views to each other
//! (dual-list consistency). Component and resource payloads are type
//! parameters: the store's contracts are about the bookkeeping, not about
//! what the payloads mean.

use vstd::prelude::*;

use crate::ecs::{
    find_handle, lemma_find_handle, ComponentHandle, ComponentStruct, ComponentType, Entity,
    COMPONENT_TYPES,
};

verus! {

/// One singleton service object, keyed by the integer token of its
/// concrete kind. Lookup is by key; at most one entry per key is the
/// caller's obligation, and lookups return the first match (FIFO by
/// insertion) either way.
#[derive(Debug)]
pub struct ResourceEntry<R> {
    pub key: ComponentType,
    pub value: R,
}

/// Index of the first entry with the given key, scan order.
pub open spec fn find_resource_index<R>(
    resources: Seq<ResourceEntry<R>>,
    key: ComponentType,
) -> Option<int>
    decreases resources.len(),
{
    if resources.len() == 0 {
        None
    } else if resources[0].key == key {
        Some(0)
    } else {
        match find_resource_index(resources.drop_first(), key) {
            None => None,
            Some(i) => Some(i + 1),
        }
    }
}

/// What `find_resource_index` returns: the first entry with the key, or
/// `None` exactly when no entry carries it.
pub proof fn lemma_find_resource_index<R>(resources: Seq<ResourceEntry<R>>, key: ComponentType)
    ensures
        match find_resource_index(resources, key) {
            Some(i) => 0 <= i < resources.len() && resources[i].key == key && forall|j: int|
                0 <= j < i ==> (#[trigger] resources[j]).key != key,
            None => forall|j: int|
                0 <= j < resources.len() ==> (#[trigger] resources[j]).key != key,
        },
    decreases resources.len(),
{
    if resources.len() == 0 {
    } else if resources[0].key == key {
    } else {
        let rest = resources.drop_first();
        lemma_find_resource_index(rest, key);
        assert forall|j: int| 1 <= j < resources.len() implies rest[j - 1] == resources[j] by {}
    }
}

/// The payload of each cell of a per-type list, in list order.
pub open spec fn component_values<C>(list: Seq<ComponentStruct<C>>) -> Seq<C> {
    list.map_values(|c: ComponentStruct<C>| c.component)
}

/// The owning entity id of each cell of a per-type list, in list order.
pub open spec fn component_owners<C>(list: Seq<ComponentStruct<C>>) -> Seq<u32> {
    list.map_values(|c: ComponentStruct<C>| c.owner)
}

pub struct GameState<C, R> {
    pub entities: Vec<Entity>,
    pub components: Vec<Vec<ComponentStruct<C>>>,
    pub resources: Vec<ResourceEntry<R>>,
    pub next_entity_id: u32,
    pub should_close: bool,
}

impl<C, R> GameState<C, R> {
    /// The handle points at a live component cell that carries the
    /// handle's own type tag and is owned by entity `i`.
    pub open spec fn handle_ok(self, i: int, h: ComponentHandle) -> bool {
        &&& (h.component_type as int) < COMPONENT_TYPES
        &&& (h.index as int) < self.components@[h.component_type as int]@.len()
        &&& self.components@[h.component_type as int]@[h.index as int].owner as int == i
        &&& self.components@[h.component_type as int]@[h.index as int].component_type
            == h.component_type
    }

    /// Entity `i` carries its dense id and every handle it holds is live.
    pub open spec fn entity_ok(self, i: int) -> bool {
        &&& self.entities@[i].id as int == i
        &&& forall|k: int|
            0 <= k < self.entities@[i].components@.len() ==> self.handle_ok(
                i,
                #[trigger] self.entities@[i].components@[k],
            )
    }

    /// The component at position `j` of type list `t` carries tag `t`, is
    /// owned by a live entity, and that owner's handle list reaches it.
    pub open spec fn component_ok(self, t: int, j: int) -> bool {
        &&& self.components@[t]@[j].component_type as int == t
        &&& (self.components@[t]@[j].owner as int) < self.entities@.len()
        &&& self.entities@[self.components@[t]@[j].owner as int].components@.contains(
            ComponentHandle { component_type: t as usize, index: j as usize },
        )
    }

    /// Well-formedness: one list per component type, dense entity ids,
    /// and the two views over the shared component cells agree.
    pub open spec fn wf(self) -> bool {
        &&& self.components@.len() == COMPONENT_TYPES
        &&& self.next_entity_id as int == self.entities@.len()
        &&& forall|i: int| 0 <= i < self.entities@.len() ==> #[trigger] self.entity_ok(i)
        &&& forall|t: int, j: int|
            0 <= t < COMPONENT_TYPES && 0 <= j < self.components@[t]@.len()
                ==> #[trigger] self.component_ok(t, j)
    }

    /// The wildcard component-type token: a system declaring it claims
    /// whole-store access and is scheduled alone.
    pub fn get_component_type() -> (r: ComponentType)
        ensures
            r == COMPONENT_TYPES,
    {
        COMPONENT_TYPES
    }

    /// An empty store: no entities, one empty list per component type, no
    /// resources, next id zero, stop flag clear.
    pub fn new() -> (r: GameState<C, R>)
        ensures
            r.wf(),
            r.entities@.len() == 0,
            r.components@.len() == COMPONENT_TYPES,
            forall|t: int| 0 <= t < COMPONENT_TYPES ==> #[trigger] r.components@[t]@.len() == 0,
            r.resources@.len() == 0,
            r.next_entity_id == 0,
            !r.should_close,
    {
        let mut components: Vec<Vec<ComponentStruct<C>>> = Vec::new();
        let mut t: usize = 0;
        while t < COMPONENT_TYPES
            invariant
                t <= COMPONENT_TYPES,
                components@.len() == t,
                forall|u: int| 0 <= u < t ==> #[trigger] components@[u]@.len() == 0,
            decreases COMPONENT_TYPES - t,
        {
            components.push(Vec::new());
            t = t + 1;
        }
        GameState {
            entities: Vec::new(),
            components,
            resources: Vec::new(),
            next_entity_id: 0,
            should_close: false,
        }
    }

    /// Allocates the next id, stores a new empty-handed entity under it,
    /// and returns the id. Ids are handed out 0, 1, 2, ... with no gaps
    /// or reuse.
    pub fn create_entity(&mut self, name: String) -> (id: u32)
        requires
            old(self).wf(),
            old(self).entities@.len() < u32::MAX as int,
        ensures
            final(self).wf(),
            id == old(self).next_entity_id,
            final(self).entities@.len() == old(self).entities@.len() + 1,
            final(self).entities@[old(self).entities@.len() as int].id == id,
            final(self).entities@[old(self).entities@.len() as int].name == name,
            final(self).entities@[old(self).entities@.len() as int].components@.len() == 0,
            forall|i: int|
                0 <= i < old(self).entities@.len() ==> final(self).entities@[i] == old(
                    self,
                ).entities@[i],
            final(self).components == old(self).components,
            final(self).resources == old(self).resources,
            final(self).next_entity_id == old(self).next_entity_id + 1,
            final(self).should_close == old(self).should_close,
    {
        let id = self.next_entity_id;
        let entity = Entity::new(id, name);
        self.entities.push(entity);
        self.next_entity_id = self.next_entity_id + 1;
        proof {
            let post = *self;
            let pre = *old(self);
            assert forall|i: int| 0 <= i < post.entities@.len() implies #[trigger] post.entity_ok(
                i,
            ) by {
                if i < pre.entities@.len() {
                    assert(pre.entity_ok(i));
                    assert(post.entities@[i] == pre.entities@[i]);
                }
            }
            assert forall|t: int, j: int|
                0 <= t < COMPONENT_TYPES && 0 <= j < post.components@[t]@.len()
                    implies #[trigger] post.component_ok(t, j) by {
                assert(pre.component_ok(t, j));
                let owner = pre.components@[t]@[j].owner as int;
                assert(post.entities@[owner] == pre.entities@[owner]);
            }
        }
        id
    }

    /// Wraps `component` as a component cell tagged with `component_type`
    /// and the owning entity's id, and appends it to both views at once:
    /// the store's per-type list and the entity's handle list.
    pub fn add_component(&mut self, entity_index: usize, component: C, component_type: ComponentType)
        requires
            old(self).wf(),
            (entity_index as int) < old(self).entities@.len(),
            (component_type as int) < COMPONENT_TYPES,
        ensures
            final(self).wf(),
            final(self).components@[component_type as int]@ == old(
                self,
            ).components@[component_type as int]@.push(
                (ComponentStruct {
                    component,
                    owner: old(self).entities@[entity_index as int].id,
                    component_type,
                }),
            ),
            forall|t2: int|
                0 <= t2 < COMPONENT_TYPES && t2 != component_type ==> final(self).components@[t2]
                    == old(self).components@[t2],
            final(self).entities@.len() == old(self).entities@.len(),
            final(self).entities@[entity_index as int].components@ == old(
                self,
            ).entities@[entity_index as int].components@.push(
                (ComponentHandle {
                    component_type,
                    index: old(self).components@[component_type as int]@.len() as usize,
                }),
            ),
            final(self).entities@[entity_index as int].id == old(
                self,
            ).entities@[entity_index as int].id,
            final(self).entities@[entity_index as int].name == old(
                self,
            ).entities@[entity_index as int].name,
            forall|i: int|
                0 <= i < old(self).entities@.len() && i != entity_index ==> final(self).entities@[i]
                    == old(self).entities@[i],
            final(self).resources == old(self).resources,
            final(self).next_entity_id == old(self).next_entity_id,
            final(self).should_close == old(self).should_close,
    {
        let owner_id = self.entities[entity_index].id;
        let idx = self.components[component_type].len();
        let cell = ComponentStruct { component, owner: owner_id, component_type };
        self.components[component_type].push(cell);
        let handle = ComponentHandle { component_type, index: idx };
        self.entities[entity_index].components.push(handle);
        proof {
            let pre = *old(self);
            let post = *self;
            let e = entity_index as int;
            let t = component_type as int;
            let newh = ComponentHandle { component_type, index: idx };
            assert(pre.entity_ok(e));
            assert forall|i: int| 0 <= i < post.entities@.len() implies #[trigger] post.entity_ok(
                i,
            ) by {
                assert(pre.entity_ok(i));
                let post_handles = post.entities@[i].components@;
                assert forall|k: int| 0 <= k < post_handles.len() implies post.handle_ok(
                    i,
                    #[trigger] post_handles[k],
                ) by {
                    let h = post_handles[k];
                    if i == e && k == pre.entities@[e].components@.len() {
                        assert(h == newh);
                    } else {
                        assert(pre.entities@[i].components@[k] == h);
                        assert(pre.handle_ok(i, h));
                    }
                }
            }
            assert forall|t2: int, j: int|
                0 <= t2 < COMPONENT_TYPES && 0 <= j < post.components@[t2]@.len()
                    implies #[trigger] post.component_ok(t2, j) by {
                if t2 == t && j == pre.components@[t]@.len() {
                    let old_hlen = pre.entities@[e].components@.len() as int;
                    assert(post.entities@[e].components@[old_hlen] == newh);
                    assert(post.entities@[e].components@.contains(
                        ComponentHandle { component_type: t2 as usize, index: j as usize },
                    ));
                } else {
                    assert(pre.component_ok(t2, j));
                    let owner = pre.components@[t2]@[j].owner as int;
                    let h2 = ComponentHandle { component_type: t2 as usize, index: j as usize };
                    let k = choose|k: int|
                        0 <= k < pre.entities@[owner].components@.len() && pre.entities@[
                            owner
                        ].components@[k] == h2;
                    assert(post.entities@[owner].components@[k] == h2);
                    assert(post.entities@[owner].components@.contains(h2));
                }
            }
        }
    }

    /// Replaces the payload of the first component of `component_type` on
    /// the entity's list (the one `get_component` yields), keeping owner
    /// and tag; returns whether such a component was found.
    pub fn set_component(&mut self, entity_index: usize, component_type: ComponentType, component: C) -> (r: bool)
        requires
            old(self).wf(),
            (entity_index as int) < old(self).entities@.len(),
        ensures
            final(self).wf(),
            final(self).entities == old(self).entities,
            final(self).resources == old(self).resources,
            final(self).next_entity_id == old(self).next_entity_id,
            final(self).should_close == old(self).should_close,
            r == (find_handle(old(self).entities@[entity_index as int].components@, component_type)
                is Some),
            (match find_handle(
                old(self).entities@[entity_index as int].components@,
                component_type,
            ) {
                None => final(self).components == old(self).components,
                Some(h) => {
                    &&& final(self).components@[h.component_type as int]@ == old(
                        self,
                    ).components@[h.component_type as int]@.update(
                        h.index as int,
                        (ComponentStruct {
                            component,
                            owner: old(self).components@[h.component_type as int]@[h.index as int].owner,
                            component_type: h.component_type,
                        }),
                    )
                    &&& forall|t2: int|
                        0 <= t2 < COMPONENT_TYPES && t2 != h.component_type
                            ==> final(self).components@[t2] == old(self).components@[t2]
                },
            }),
    {
        let hopt = self.entities[entity_index].get_component(component_type);
        match hopt {
            None => false,
            Some(h) => {
                proof {
                    let hs = self.entities@[entity_index as int].components@;
                    lemma_find_handle(hs, component_type);
                    let k = choose|k: int| 0 <= k < hs.len() && hs[k] == h;
                    assert(self.entity_ok(entity_index as int));
                    assert(self.handle_ok(entity_index as int, hs[k]));
                }
                let owner = self.components[h.component_type][h.index].owner;
                self.components[h.component_type].set(
                    h.index,
                    ComponentStruct { component, owner, component_type: h.component_type },
                );
                proof {
                    self.lemma_wf_after_payload_update(*old(self));
                }
                true
            },
        }
    }

    /// Replaces the payload of the component at position `index` of the
    /// per-type list of `component_type`, keeping owner and tag.
    pub fn set_component_at(&mut self, component_type: ComponentType, index: usize, component: C)
        requires
            old(self).wf(),
            (component_type as int) < COMPONENT_TYPES,
            (index as int) < old(self).components@[component_type as int]@.len(),
        ensures
            final(self).wf(),
            final(self).entities == old(self).entities,
            final(self).resources == old(self).resources,
            final(self).next_entity_id == old(self).next_entity_id,
            final(self).should_close == old(self).should_close,
            final(self).components@[component_type as int]@ == old(
                self,
            ).components@[component_type as int]@.update(
                index as int,
                (ComponentStruct {
                    component,
                    owner: old(self).components@[component_type as int]@[index as int].owner,
                    component_type,
                }),
            ),
            forall|t2: int|
                0 <= t2 < COMPONENT_TYPES && t2 != component_type ==> final(self).components@[t2]
                    == old(self).components@[t2],
    {
        proof {
            assert(old(self).component_ok(component_type as int, index as int));
        }
        let owner = self.components[component_type][index].owner;
        self.components[component_type].set(
            index,
            ComponentStruct { component, owner, component_type },
        );
        proof {
            self.lemma_wf_after_payload_update(*old(self));
        }
    }

    /// The store stays well formed when one component cell's payload is
    /// replaced while its owner and tag are kept.
    proof fn lemma_wf_after_payload_update(self, pre: GameState<C, R>)
        requires
            pre.wf(),
            self.entities == pre.entities,
            self.components@.len() == pre.components@.len(),
            forall|t: int|
                0 <= t < COMPONENT_TYPES ==> (#[trigger] self.components@[t])@.len()
                    == pre.components@[t]@.len(),
            forall|t: int, j: int|
                0 <= t < COMPONENT_TYPES && 0 <= j < pre.components@[t]@.len() ==> {
                    &&& (#[trigger] self.components@[t]@[j]).owner == pre.components@[t]@[j].owner
                    &&& self.components@[t]@[j].component_type
                        == pre.components@[t]@[j].component_type
                },
            self.next_entity_id == pre.next_entity_id,
        ensures
            self.wf(),
    {
        assert forall|i: int| 0 <= i < self.entities@.len() implies #[trigger] self.entity_ok(
            i,
        ) by {
            assert(pre.entity_ok(i));
            assert forall|k: int|
                0 <= k < self.entities@[i].components@.len() implies self.handle_ok(
                i,
                #[trigger] self.entities@[i].components@[k],
            ) by {
                assert(pre.handle_ok(i, pre.entities@[i].components@[k]));
            }
        }
        assert forall|t: int, j: int|
            0 <= t < COMPONENT_TYPES && 0 <= j < self.components@[t]@.len()
                implies #[trigger] self.component_ok(t, j) by {
            assert(pre.component_ok(t, j));
        }
    }

    /// The entity stored under `id`, or `None` when no entity has been
    /// created with it yet. Ids are dense, so the id doubles as index.
    pub fn get_entity(&self, id: usize) -> (r: Option<&Entity>)
        ensures
            match r {
                Some(e) => (id as int) < self.entities@.len() && *e == self.entities@[id as int],
                None => (id as int) >= self.entities@.len(),
            },
    {
        if id >= self.entities.len() {
            None
        } else {
            Some(&self.entities[id])
        }
    }

    /// Registers a singleton service under the integer token of its
    /// concrete kind. The entry is appended; adding two entries with one
    /// key leaves lookups at the first (FIFO by insertion).
    pub fn add_resource(&mut self, key: ComponentType, value: R)
        ensures
            final(self).resources@ == old(self).resources@.push((ResourceEntry { key, value })),
            final(self).entities == old(self).entities,
            final(self).components == old(self).components,
            final(self).next_entity_id == old(self).next_entity_id,
            final(self).should_close == old(self).should_close,
            old(self).wf() ==> final(self).wf(),
    {
        self.resources.push(ResourceEntry { key, value });
        proof {
            if old(self).wf() {
                self.lemma_wf_after_payload_update(*old(self));
            }
        }
    }

    /// Singleton lookup by concrete kind: the first entry registered
    /// under `key`, or `None` when none was.
    pub fn get_resource(&self, key: ComponentType) -> (r: Option<&R>)
        ensures
            match find_resource_index(self.resources@, key) {
                None => r is None,
                Some(i) => match r {
                    Some(v) => *v == self.resources@[i].value,
                    None => false,
                },
            },
    {
        proof {
            lemma_find_resource_index(self.resources@, key);
        }
        let n = self.resources.len();
        let mut i: usize = 0;
        while i < n
            invariant
                n == self.resources@.len(),
                i <= n,
                forall|j: int| 0 <= j < i ==> (#[trigger] self.resources@[j]).key != key,
            decreases n - i,
        {
            if self.resources[i].key == key {
                proof {
                    lemma_find_resource_index(self.resources@, key);
                }
                return Some(&self.resources[i].value);
            }
            i = i + 1;
        }
        None
    }

    /// Replaces the value of the first entry registered under `key` (the
    /// one `get_resource` yields); returns whether one was found. When
    /// none was, the store is unchanged and the value is dropped.
    pub fn set_resource(&mut self, key: ComponentType, value: R) -> (r: bool)
        ensures
            final(self).entities == old(self).entities,
            final(self).components == old(self).components,
            final(self).next_entity_id == old(self).next_entity_id,
            final(self).should_close == old(self).should_close,
            old(self).wf() ==> final(self).wf(),
            r == (find_resource_index(old(self).resources@, key) is Some),
            (match find_resource_index(old(self).resources@, key) {
                None => final(self).resources == old(self).resources,
                Some(i) => final(self).resources@ == old(self).resources@.update(
                    i,
                    (ResourceEntry { key, value }),
                ),
            }),
    {
        proof {
            lemma_find_resource_index(self.resources@, key);
        }
        let n = self.resources.len();
        let mut i: usize = 0;
        while i < n
            invariant
                n == self.resources@.len(),
                i <= n,
                forall|j: int| 0 <= j < i ==> (#[trigger] self.resources@[j]).key != key,
                *self == *old(self),
            decreases n - i,
        {
            if self.resources[i].key == key {
                proof {
                    lemma_find_resource_index(self.resources@, key);
                }
                self.resources.set(i, ResourceEntry { key, value });
                proof {
                    if old(self).wf() {
                        self.lemma_wf_after_payload_update(*old(self));
                    }
                }
                return true;
            }
            i = i + 1;
        }
        false
    }

    /// Takes the first entry registered under `key` out of the store,
    /// installing `value` in its place — the slot keeps its position, so
    /// lookup order is unchanged — and returns the old value. When no
    /// entry carries the key, the store is unchanged, `None` comes back
    /// and `value` is dropped.
    pub fn swap_resource(&mut self, key: ComponentType, value: R) -> (r: Option<R>)
        ensures
            final(self).entities == old(self).entities,
            final(self).components == old(self).components,
            final(self).next_entity_id == old(self).next_entity_id,
            final(self).should_close == old(self).should_close,
            old(self).wf() ==> final(self).wf(),
            (match find_resource_index(old(self).resources@, key) {
                None => r is None && final(self).resources == old(self).resources,
                Some(i) => r == Some(old(self).resources@[i].value) && final(self).resources@
                    == old(self).resources@.update(i, (ResourceEntry { key, value })),
            }),
    {
        proof {
            lemma_find_resource_index(self.resources@, key);
        }
        let n = self.resources.len();
        let mut i: usize = 0;
        while i < n
            invariant
                n == self.resources@.len(),
                i <= n,
                forall|j: int| 0 <= j < i ==> (#[trigger] self.resources@[j]).key != key,
                *self == *old(self),
            decreases n - i,
        {
            if self.resources[i].key == key {
                proof {
                    lemma_find_resource_index(self.resources@, key);
                }
                let entry = self.resources.remove(i);
                self.resources.insert(i, ResourceEntry { key, value });
                proof {
                    assert(self.resources@ =~= old(self).resources@.update(
                        i as int,
                        ResourceEntry { key, value },
                    ));
                    if old(self).wf() {
                        self.lemma_wf_after_payload_update(*old(self));
                    }
                }
                return Some(entry.value);
            }
            i = i + 1;
        }
        None
    }

    /// Sets the stop flag. Nothing else changes: the driver observes the
    /// flag and stops calling phases.
    pub fn close(&mut self)
        ensures
            final(self).should_close,
            final(self).entities == old(self).entities,
            final(self).components == old(self).components,
            final(self).resources == old(self).resources,
            final(self).next_entity_id == old(self).next_entity_id,
    {
        self.should_close = true;
    }
}

impl<C: Copy, R> GameState<C, R> {
    /// The payload of the first component of `component_type` on the
    /// entity's list, found by linear scan of the entity's handles, or
    /// `None` when the entity owns no component of that type.
    pub fn get_component(&self, entity_index: usize, component_type: ComponentType) -> (r: Option<
        C,
    >)
        requires
            self.wf(),
            (entity_index as int) < self.entities@.len(),
        ensures
            match find_handle(self.entities@[entity_index as int].components@, component_type) {
                None => r is None,
                Some(h) => r == Some(
                    self.components@[h.component_type as int]@[h.index as int].component,
                ),
            },
    {
        let hopt = self.entities[entity_index].get_component(component_type);
        match hopt {
            None => None,
            Some(h) => {
                proof {
                    let hs = self.entities@[entity_index as int].components@;
                    lemma_find_handle(hs, component_type);
                    let k = choose|k: int| 0 <= k < hs.len() && hs[k] == h;
                    assert(self.entity_ok(entity_index as int));
                    assert(self.handle_ok(entity_index as int, hs[k]));
                }
                Some(self.components[h.component_type][h.index].component)
            },
        }
    }

    /// The payloads of every component of the given type, in the order
    /// the components were added.
    pub fn get_components(&self, component_type: ComponentType) -> (r: Vec<C>)
        requires
            self.wf(),
            (component_type as int) < COMPONENT_TYPES,
        ensures
            r@ == component_values(self.components@[component_type as int]@),
    {
        let list = &self.components[component_type];
        let n = list.len();
        let mut r: Vec<C> = Vec::new();
        let mut i: usize = 0;
        while i < n
            invariant
                n == list@.len(),
                i <= n,
                r@.len() == i,
                forall|k: int| 0 <= k < i ==> r@[k] == list@[k].component,
            decreases n - i,
        {
            r.push(list[i].component);
            i = i + 1;
        }
        proof {
            assert(r@ =~= component_values(list@));
        }
        r
    }

    /// The id of the owning entity of every component of the given type,
    /// in the order the components were added (owners repeat when one
    /// entity holds several components of the type).
    pub fn get_entities_with(&self, component_type: ComponentType) -> (r: Vec<u32>)
        requires
            self.wf(),
            (component_type as int) < COMPONENT_TYPES,
        ensures
            r@ == component_owners(self.components@[component_type as int]@),
    {
        let list = &self.components[component_type];
        let n = list.len();
        let mut r: Vec<u32> = Vec::new();
        let mut i: usize = 0;
        while i < n
            invariant
                n == list@.len(),
                i <= n,
                r@.len() == i,
                forall|k: int| 0 <= k < i ==> r@[k] == list@[k].owner,
            decreases n - i,
        {
            r.push(list[i].owner);
            i = i + 1;
        }
        proof {
            assert(r@ =~= component_owners(list@));
        }
        r
    }
}

/// Law (monotonic entity ids): in a well-formed store the entity stored
/// at position `i` carries id `i`, so the ids handed out by
/// `create_entity` are exactly 0, 1, ..., N-1 with no gaps or reuse.
pub proof fn lemma_entity_ids_dense<C, R>(g: GameState<C, R>)
    requires
        g.wf(),
    ensures
        forall|i: int| 0 <= i < g.entities@.len() ==> (#[trigger] g.entities@[i]).id as int == i,
{
    assert forall|i: int|
        0 <= i < g.entities@.len() implies (#[trigger] g.entities@[i]).id as int == i by {
        assert(g.entity_ok(i));
    }
}

/// Law (dual-list consistency): in a well-formed store the per-type lists
/// and the entities' handle lists are two views over the same component
/// cells. Every handle an entity holds points at a cell that carries the
/// handle's tag and is owned by that entity, and every cell of every
/// per-type list is reached by exactly such a handle of its owner; so
/// after K additions of type T, `get_components(T)` and
/// `get_entities_with(T)` both see exactly those K cells, in call order.
pub proof fn lemma_dual_list_consistent<C, R>(g: GameState<C, R>)
    requires
        g.wf(),
    ensures
        forall|i: int, k: int|
            0 <= i < g.entities@.len() && 0 <= k < g.entities@[i].components@.len()
                ==> g.handle_ok(i, #[trigger] g.entities@[i].components@[k]),
        forall|t: int, j: int|
            0 <= t < COMPONENT_TYPES && 0 <= j < g.components@[t]@.len() ==> {
                &&& (#[trigger] g.components@[t]@[j]).component_type as int == t
                &&& (g.components@[t]@[j].owner as int) < g.entities@.len()
                &&& g.entities@[g.components@[t]@[j].owner as int].components@.contains(
                    ComponentHandle { component_type: t as usize, index: j as usize },
                )
            },
{
    assert forall|i: int, k: int|
        0 <= i < g.entities@.len() && 0 <= k < g.entities@[i].components@.len() implies g.handle_ok(
        i,
        #[trigger] g.entities@[i].components@[k],
    ) by {
        assert(g.entity_ok(i));
    }
    assert forall|t: int, j: int|
        0 <= t < COMPONENT_TYPES && 0 <= j < g.components@[t]@.len() implies {
        &&& (#[trigger] g.components@[t]@[j]).component_type as int == t
        &&& (g.components@[t]@[j].owner as int) < g.entities@.len()
        &&& g.entities@[g.components@[t]@[j].owner as int].components@.contains(
            ComponentHandle { component_type: t as usize, index: j as usize },
        )
    } by {
        assert(g.component_ok(t, j));
    }
}

} // verus!
