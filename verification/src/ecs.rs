//! Vocabulary of the store and the scheduler: component type keys,
//! component cells, entities, and the descriptor a system registers with.

use vstd::prelude::*;

verus! {

/// Dense integer key identifying a component (or resource) kind.
pub type ComponentType = usize;

/// Total number of component kinds a store is built with. The value
/// `COMPONENT_TYPES` itself is not a storable kind: it is the wildcard
/// token a system declares to claim whole-store access (see the
/// scheduler), so every stored component's kind is strictly below it.
pub const COMPONENT_TYPES: usize = 2;

/// Where a component lives inside the store: the per-type list it was
/// appended to, and its position in that list.
#[derive(Clone, Copy, Debug, PartialEq, Eq, Structural)]
pub struct ComponentHandle {
    pub component_type: ComponentType,
    pub index: usize,
}

/// A typed data fragment: the value itself, the id of the owning entity
/// and the component-type tag it was stored under.
#[derive(Debug)]
pub struct ComponentStruct<C> {
    pub component: C,
    pub owner: u32,
    pub component_type: ComponentType,
}

/// An identity (dense integer id plus display name) and the ordered list
/// of handles of the components it owns.
#[derive(Debug)]
pub struct Entity {
    pub id: u32,
    pub name: String,
    pub components: Vec<ComponentHandle>,
}

/// First handle of the given component type in `handles`, scan order.
pub open spec fn find_handle(handles: Seq<ComponentHandle>, component_type: ComponentType) -> Option<
    ComponentHandle,
>
    decreases handles.len(),
{
    if handles.len() == 0 {
        None
    } else if handles[0].component_type == component_type {
        Some(handles[0])
    } else {
        find_handle(handles.drop_first(), component_type)
    }
}

/// What `find_handle` returns: the first handle tagged `component_type`,
/// or `None` exactly when no handle carries that tag.
pub proof fn lemma_find_handle(handles: Seq<ComponentHandle>, component_type: ComponentType)
    ensures
        match find_handle(handles, component_type) {
            Some(h) => handles.contains(h) && h.component_type == component_type,
            None => forall|k: int|
                0 <= k < handles.len() ==> (#[trigger] handles[k]).component_type
                    != component_type,
        },
    decreases handles.len(),
{
    if handles.len() == 0 {
    } else if handles[0].component_type == component_type {
        assert(handles.contains(handles[0]));
    } else {
        let rest = handles.drop_first();
        lemma_find_handle(rest, component_type);
        match find_handle(rest, component_type) {
            Some(h) => {
                let k = choose|k: int| 0 <= k < rest.len() && rest[k] == h;
                assert(handles[k + 1] == h);
                assert(handles.contains(h));
            },
            None => {
                assert forall|k: int| 0 <= k < handles.len() implies (#[trigger] handles[k]).component_type != component_type by {
                    if k > 0 {
                        assert(rest[k - 1] == handles[k]);
                    }
                }
            },
        }
    }
}

impl Entity {
    pub fn new(id: u32, name: String) -> (e: Entity)
        ensures
            e.id == id,
            e.name == name,
            e.components@ == Seq::<ComponentHandle>::empty(),
    {
        Entity { id, name, components: Vec::new() }
    }

    /// Linear scan of this entity's component list for the first handle
    /// tagged with `component_type`; `None` if the entity owns no
    /// component of that type.
    pub fn get_component(&self, component_type: ComponentType) -> (r: Option<ComponentHandle>)
        ensures
            r == find_handle(self.components@, component_type),
    {
        let n = self.components.len();
        let mut i: usize = 0;
        proof {
            assert(self.components@.skip(0) =~= self.components@);
        }
        while i < n
            invariant
                n == self.components.len(),
                i <= n,
                find_handle(self.components@, component_type) == find_handle(
                    self.components@.skip(i as int),
                    component_type,
                ),
            decreases n - i,
        {
            proof {
                assert(self.components@.skip(i as int).drop_first() =~= self.components@.skip(
                    i as int + 1,
                ));
            }
            if self.components[i].component_type == component_type {
                return Some(self.components[i]);
            }
            i = i + 1;
        }
        None
    }
}

/// The four entry points a system can be registered for.
#[derive(Clone, Copy, Debug, PartialEq, Eq, Structural)]
pub enum SystemType {
    Init,
    Update,
    FixedUpdate,
    Close,
}

/// What the scheduler knows about an update routine: the set of
/// component types the routine declares it will touch. The callable
/// itself is the driver's; the scheduler only decides which routines may
/// run side by side, and refers to them by registration index.
#[derive(Debug)]
pub struct System {
    pub args: Vec<ComponentType>,
}

} // verus!
