use vstd::prelude::*;

use crate::component::{
    column_get, column_get_mut, column_indices, column_insert, column_new, column_remove,
    ComponentId, ErasedColumn,
};
use crate::entity::{law_entity_determined_by_parts, lemma_handle_with_parts, Entity};

verus! {

/// The world holds all entities and their components.
pub struct World {
    next_index: u32,
    generations: Vec<u32>,
    free_indices: Vec<u32>,
    freed: Vec<bool>,
    components: Vec<(ComponentId, ErasedColumn)>,
}

/// The number of `true` marks.
pub open spec fn count_marked(m: Seq<bool>) -> nat
    decreases m.len(),
{
    if m.len() == 0 {
        0
    } else {
        count_marked(m.drop_last()) + if m.last() {
            1nat
        } else {
            0nat
        }
    }
}

proof fn lemma_count_marked_push(m: Seq<bool>, b: bool)
    ensures
        count_marked(m.push(b)) == count_marked(m) + if b {
            1nat
        } else {
            0nat
        },
{
    assert(m.push(b).drop_last() =~= m);
}

proof fn lemma_count_marked_le(m: Seq<bool>)
    ensures
        count_marked(m) <= m.len(),
    decreases m.len(),
{
    if m.len() > 0 {
        lemma_count_marked_le(m.drop_last());
    }
}

proof fn lemma_count_marked_update(m: Seq<bool>, i: int, b: bool)
    requires
        0 <= i < m.len(),
    ensures
        count_marked(m.update(i, b)) + (if m[i] {
            1int
        } else {
            0int
        }) == count_marked(m) + (if b {
            1int
        } else {
            0int
        }),
    decreases m.len(),
{
    let u = m.update(i, b);
    if i == m.len() - 1 {
        assert(u.drop_last() =~= m.drop_last());
    } else {
        assert(u.drop_last() =~= m.drop_last().update(i, b));
        lemma_count_marked_update(m.drop_last(), i, b);
    }
}

/// Every generation in `pre` is at most the generation of the same slot in
/// `post`, and `post` has at least as many slots.
pub open spec fn generations_grow(pre: World, post: World) -> bool {
    &&& pre.generation_table().len() <= post.generation_table().len()
    &&& forall|i: int|
        0 <= i < pre.generation_table().len() ==> #[trigger] pre.generation_table()[i]
            <= post.generation_table()[i]
}

/// What `spawn` does: reuse the most recently freed slot with its current
/// generation, or open a new slot with generation 0; components stay as they
/// were.
pub open spec fn spawn_post(pre: World, post: World, e: Entity) -> bool {
    &&& post.columns() == pre.columns()
    &&& post.component_slots() == pre.component_slots()
    &&& if pre.free_slots().len() > 0 {
        &&& e.index_of() == pre.free_slots().last()
        &&& e.generation_of() == pre.generation_table()[e.index_of() as int]
        &&& post.free_slots() == pre.free_slots().drop_last()
        &&& post.free_marks() == pre.free_marks().update(e.index_of() as int, false)
        &&& post.generation_table() == pre.generation_table()
        &&& post.next_slot() == pre.next_slot()
    } else {
        &&& e.index_of() == pre.next_slot()
        &&& e.generation_of() == 0
        &&& post.next_slot() == pre.next_slot() + 1
        &&& post.generation_table() == pre.generation_table().push(0)
        &&& post.free_marks() == pre.free_marks().push(false)
        &&& post.free_slots() == pre.free_slots()
    }
}

/// What `despawn` does: for a live handle, bump the generation of its slot,
/// mark the slot free, push it onto the free list and drop every component at
/// the slot; for any other handle, nothing.
pub open spec fn despawn_post(pre: World, post: World, e: Entity) -> bool {
    if pre.is_live(e) {
        &&& post.generation_table() == pre.generation_table().update(
            e.index_of() as int,
            (e.generation_of() + 1) as u32,
        )
        &&& post.free_marks() == pre.free_marks().update(e.index_of() as int, true)
        &&& post.free_slots() == pre.free_slots().push(e.index_of())
        &&& post.next_slot() == pre.next_slot()
        &&& post.component_slots() == pre.component_slots().filter(
            |p: (ComponentId, u32)| p.1 != e.index_of(),
        )
        &&& post.columns().len() == pre.columns().len()
        &&& forall|j: int|
            0 <= j < pre.columns().len() ==> (#[trigger] post.columns()[j]).0
                == pre.columns()[j].0 && column_indices(post.columns()[j].1)
                == column_indices(pre.columns()[j].1).remove(e.index_of())
    } else {
        &&& same_entities(pre, post)
        &&& post.columns() == pre.columns()
        &&& post.component_slots() == pre.component_slots()
    }
}

/// Every column of `pre` but the one at `k` stands unchanged in `post`.
pub open spec fn columns_agree_except(
    pre: Seq<(ComponentId, ErasedColumn)>,
    post: Seq<(ComponentId, ErasedColumn)>,
    k: int,
) -> bool {
    forall|j: int| 0 <= j < pre.len() && j != k ==> #[trigger] post[j] == pre[j]
}

/// What an insert under component id `c` at slot `i` does to the
/// components: the pair `(c, i)` is added; a column of another id stays as
/// it was; the column of `c`, if there is one, gains the slot; otherwise one
/// column of `c` holding just the slot is added at the end.
pub open spec fn insert_under(pre: World, post: World, c: ComponentId, i: u32) -> bool {
    &&& post.component_slots() == pre.component_slots().insert((c, i))
    &&& forall|k: int|
        0 <= k < pre.columns().len() && pre.columns()[k].0 != c ==> #[trigger] post.columns()[k]
            == pre.columns()[k]
    &&& forall|k: int|
        0 <= k < pre.columns().len() && #[trigger] pre.columns()[k].0 == c ==> {
            &&& post.columns().len() == pre.columns().len()
            &&& post.columns()[k].0 == c
            &&& column_indices(post.columns()[k].1) == column_indices(pre.columns()[k].1).insert(i)
        }
    &&& (forall|k: int| 0 <= k < pre.columns().len() ==> #[trigger] pre.columns()[k].0 != c)
        ==> {
        &&& post.columns().len() == pre.columns().len() + 1
        &&& post.columns().last().0 == c
        &&& column_indices(post.columns().last().1) == Set::<u32>::empty().insert(i)
    }
}

/// Only the column of component id `c` may differ between the two worlds.
pub open spec fn only_column_of(pre: World, post: World, c: ComponentId) -> bool {
    &&& post.columns().len() == pre.columns().len()
    &&& forall|k: int|
        0 <= k < pre.columns().len() ==> (#[trigger] post.columns()[k]).0 == pre.columns()[k].0
    &&& forall|k: int|
        0 <= k < pre.columns().len() && pre.columns()[k].0 != c ==> #[trigger] post.columns()[k]
            == pre.columns()[k]
}

/// The entity bookkeeping of the two worlds is the same.
pub open spec fn same_entities(pre: World, post: World) -> bool {
    &&& post.generation_table() == pre.generation_table()
    &&& post.free_slots() == pre.free_slots()
    &&& post.free_marks() == pre.free_marks()
    &&& post.next_slot() == pre.next_slot()
}

/// Worlds whose columns have the same types and the same occupied indices
/// hold components at the same slots.
broadcast proof fn lemma_same_columns_same_slots(a: World, b: World)
    requires
        a.components@.len() == b.components@.len(),
        forall|j: int|
            0 <= j < a.components@.len() ==> (#[trigger] a.components@[j]).0
                == b.components@[j].0 && column_indices(a.components@[j].1) == column_indices(
                b.components@[j].1,
            ),
    ensures
        #[trigger] a.component_slots() == #[trigger] b.component_slots(),
{
    assert(a.component_slots() =~= b.component_slots()) by {
        assert forall|p: (ComponentId, u32)|
            #[trigger] a.component_slots().contains(p) implies b.component_slots().contains(
                p,
            ) by {
            let j = choose|j: int|
                0 <= j < a.components@.len() && #[trigger] a.components@[j].0 == p.0
                    && column_indices(a.components@[j].1).contains(p.1);
            assert(b.components@[j].0 == p.0);
        }
        assert forall|p: (ComponentId, u32)|
            #[trigger] b.component_slots().contains(p) implies a.component_slots().contains(
                p,
            ) by {
            let j = choose|j: int|
                0 <= j < b.components@.len() && #[trigger] b.components@[j].0 == p.0
                    && column_indices(b.components@[j].1).contains(p.1);
            assert(a.components@[j].0 == p.0);
        }
    }
}

impl World {
    /// The next slot index that has never been handed out.
    pub closed spec fn next_slot(self) -> u32 {
        self.next_index
    }

    /// The current generation of every slot handed out so far.
    pub closed spec fn generation_table(self) -> Seq<u32> {
        self.generations@
    }

    /// Freed slots, in the order they were freed; the last is reused first.
    pub closed spec fn free_slots(self) -> Seq<u32> {
        self.free_indices@
    }

    /// For every slot handed out so far, whether it is free (on the free
    /// list) rather than held by a live entity.
    pub closed spec fn free_marks(self) -> Seq<bool> {
        self.freed@
    }

    /// The component columns: each component type with its opaque store of
    /// values, in order of first insertion.
    pub closed spec fn columns(self) -> Seq<(ComponentId, ErasedColumn)> {
        self.components@
    }

    /// Which (component type, slot index) pairs hold a component.
    pub closed spec fn component_slots(self) -> Set<(ComponentId, u32)> {
        Set::new(
            |p: (ComponentId, u32)|
                exists|k: int|
                    0 <= k < self.components@.len() && #[trigger] self.components@[k].0 == p.0
                        && column_indices(self.components@[k].1).contains(p.1),
        )
    }

    /// The internal invariant: one generation and one free mark per
    /// handed-out slot; the free list holds each marked slot exactly once and
    /// nothing else; one column per component type; components are held only
    /// at slots of live entities.
    pub closed spec fn wf(self) -> bool {
        &&& self.generations@.len() == self.next_index
        &&& self.freed@.len() == self.next_index
        &&& forall|k: int|
            0 <= k < self.free_indices@.len() ==> #[trigger] self.free_indices@[k]
                < self.next_index && self.freed@[self.free_indices@[k] as int]
        &&& self.free_indices@.no_duplicates()
        &&& forall|i: int|
            0 <= i < self.next_index && #[trigger] self.freed@[i] ==> self.free_indices@.contains(
                i as u32,
            )
        &&& self.free_indices@.len() == count_marked(self.freed@)
        &&& forall|j: int, k: int|
            0 <= j < k < self.components@.len() ==> #[trigger] self.components@[j].0
                != #[trigger] self.components@[k].0
        &&& forall|k: int, i: u32|
            0 <= k < self.components@.len() && #[trigger] column_indices(
                self.components@[k].1,
            ).contains(i) ==> i < self.next_index && !self.freed@[i as int]
    }

    /// The handle names a slot that holds an entity (it is not free) and
    /// whose current generation is the handle's generation.
    pub open spec fn is_live(self, e: Entity) -> bool {
        &&& e.index_of() < self.generation_table().len()
        &&& e.index_of() < self.free_marks().len()
        &&& !self.free_marks()[e.index_of() as int]
        &&& self.generation_table()[e.index_of() as int] == e.generation_of()
    }

    /// The handle names a slot that has moved on to a later generation.
    pub open spec fn is_stale(self, e: Entity) -> bool {
        &&& e.index_of() < self.generation_table().len()
        &&& self.generation_table()[e.index_of() as int] > e.generation_of()
    }

    /// Slots handed out minus entries on the free list.
    pub open spec fn live_count(self) -> int {
        self.next_slot() - self.free_slots().len()
    }

    /// The live handles.
    pub open spec fn live_handles(self) -> Set<Entity> {
        Set::new(|e: Entity| self.is_live(e))
    }

    /// Some component, of any type, is held at the slot index.
    pub open spec fn has_component_at(self, index: u32) -> bool {
        exists|c: ComponentId| self.component_slots().contains((c, index))
    }

    /// A slot that is free, or not handed out yet, holds no component.
    proof fn lemma_no_component_at_unheld_slot(self, i: u32)
        requires
            self.wf(),
            i >= self.next_index || self.freed@[i as int],
        ensures
            !self.has_component_at(i),
    {
        if self.has_component_at(i) {
            let c = choose|c: ComponentId| self.component_slots().contains((c, i));
            let k = choose|k: int|
                0 <= k < self.components@.len() && #[trigger] self.components@[k].0 == c
                    && column_indices(self.components@[k].1).contains(i);
            assert(column_indices(self.components@[k].1).contains(i));
        }
    }

    pub fn new() -> (w: Self)
        ensures
            w.wf(),
            w.next_slot() == 0,
            w.generation_table() == Seq::<u32>::empty(),
            w.free_slots() == Seq::<u32>::empty(),
            w.free_marks() == Seq::<bool>::empty(),
            w.columns() == Seq::<(ComponentId, ErasedColumn)>::empty(),
            w.component_slots() == Set::<(ComponentId, u32)>::empty(),
    {
        let w = Self {
            next_index: 0,
            generations: Vec::new(),
            free_indices: Vec::new(),
            freed: Vec::new(),
            components: Vec::new(),
        };
        assert(w.component_slots() =~= Set::<(ComponentId, u32)>::empty());
        w
    }

    /// Spawn a new entity and return its handle. The new entity holds no
    /// component.
    pub fn spawn(&mut self) -> (e: Entity)
        requires
            old(self).wf(),
            old(self).free_slots().len() == 0 ==> old(self).next_slot() < u32::MAX,
        ensures
            final(self).wf(),
            spawn_post(*old(self), *final(self), e),
            final(self).is_live(e),
            !final(self).has_component_at(e.index_of()),
            generations_grow(*old(self), *final(self)),
            final(self).live_count() == old(self).live_count() + 1,
    {
        if let Some(index) = self.free_indices.pop() {
            proof {
                let k = (old(self).free_indices@.len() - 1) as int;
                assert(old(self).free_indices@[k] == index);
                assert(old(self).freed@[index as int]);
                old(self).lemma_no_component_at_unheld_slot(index);
                lemma_count_marked_update(old(self).freed@, index as int, false);
            }
            self.freed.set(index as usize, false);
            let generation = self.generations[index as usize];
            let e = Entity::new(index, generation);
            proof {
                let of = old(self).free_indices@;
                assert(self.free_indices@ =~= of.drop_last());
                assert forall|k: int| 0 <= k < self.free_indices@.len() implies #[trigger] self.free_indices@[k]
                    < self.next_index && self.freed@[self.free_indices@[k] as int] by {
                    assert(self.free_indices@[k] == of[k]);
                    assert(of[k] != of[of.len() - 1]);
                }
                assert forall|i: int|
                    0 <= i < self.next_index && #[trigger] self.freed@[i] implies self.free_indices@.contains(
                        i as u32,
                    ) by {
                    assert(i != index);
                    assert(old(self).freed@[i]);
                    let k = choose|k: int| 0 <= k < of.len() && of[k] == i as u32;
                    assert(k != of.len() - 1);
                    assert(self.free_indices@[k] == i as u32);
                }
                assert forall|k: int, i: u32|
                    0 <= k < self.components@.len() && #[trigger] column_indices(
                        self.components@[k].1,
                    ).contains(i) implies i < self.next_index && !self.freed@[i as int] by {
                    assert(old(self).components@[k] == self.components@[k]);
                    assert(!old(self).freed@[i as int]);
                }
                assert(self.component_slots() =~= old(self).component_slots());
            }
            e
        } else {
            proof {
                lemma_count_marked_push(old(self).freed@, false);
                old(self).lemma_no_component_at_unheld_slot(old(self).next_index);
            }
            let index = self.next_index;
            self.next_index = self.next_index + 1;
            self.generations.push(0);
            self.freed.push(false);
            let e = Entity::new(index, 0);
            proof {
                assert forall|i: int|
                    0 <= i < self.next_index && #[trigger] self.freed@[i] implies self.free_indices@.contains(
                        i as u32,
                    ) by {
                    assert(i < index);
                    assert(old(self).freed@[i]);
                }
                assert forall|k: int| 0 <= k < self.free_indices@.len() implies #[trigger] self.free_indices@[k]
                    < self.next_index && self.freed@[self.free_indices@[k] as int] by {
                    assert(old(self).free_indices@[k] < index);
                }
                assert forall|k: int, i: u32|
                    0 <= k < self.components@.len() && #[trigger] column_indices(
                        self.components@[k].1,
                    ).contains(i) implies i < self.next_index && !self.freed@[i as int] by {
                    assert(old(self).components@[k] == self.components@[k]);
                }
                assert(self.component_slots() =~= old(self).component_slots());
            }
            e
        }
    }

    /// Index of the column of the given component type, if there is one.
    fn column_position(&self, id: ComponentId) -> (r: Option<usize>)
        ensures
            match r {
                Some(k) => k < self.components@.len() && self.components@[k as int].0 == id,
                None => forall|k: int|
                    0 <= k < self.components@.len() ==> self.components@[k].0 != id,
            },
    {
        let n = self.components.len();
        for k in 0..n
            invariant
                n == self.components@.len(),
                forall|j: int| 0 <= j < k ==> self.components@[j].0 != id,
        {
            if self.components[k].0 == id {
                return Some(k);
            }
        }
        None
    }

    /// Despawn an entity, freeing its index for reuse. A handle that is not
    /// live (stale, never handed out, or naming a free slot) changes nothing.
    pub fn despawn(&mut self, entity: Entity)
        requires
            old(self).wf(),
            old(self).is_live(entity) ==> entity.generation_of() < u32::MAX,
        ensures
            final(self).wf(),
            despawn_post(*old(self), *final(self), entity),
            generations_grow(*old(self), *final(self)),
            final(self).live_count() == old(self).live_count() - (if old(self).is_live(entity) {
                1int
            } else {
                0int
            }),
    {
        if !self.is_alive(entity) {
            return;
        }
        let index = entity.index() as usize;
        let n = self.components.len();
        for k in 0..n
            invariant
                n == self.components@.len(),
                n == old(self).components@.len(),
                index == entity.index_of(),
                self.generations@ == old(self).generations@,
                self.free_indices@ == old(self).free_indices@,
                self.freed@ == old(self).freed@,
                self.next_index == old(self).next_index,
                forall|j: int|
                    0 <= j < n ==> (#[trigger] self.components@[j]).0
                        == old(self).components@[j].0,
                forall|j: int|
                    0 <= j < k ==> column_indices(#[trigger] self.components@[j].1)
                        == column_indices(old(self).components@[j].1).remove(
                        entity.index_of(),
                    ),
                forall|j: int|
                    k <= j < n ==> column_indices(#[trigger] self.components@[j].1)
                        == column_indices(old(self).components@[j].1),
        {
            column_remove(&mut self.components[k].1, entity.index());
        }
        proof {
            lemma_count_marked_update(old(self).freed@, index as int, true);
            if old(self).free_indices@.contains(entity.index_of()) {
                let k = choose|k: int|
                    0 <= k < old(self).free_indices@.len() && old(self).free_indices@[k]
                        == entity.index_of();
                assert(old(self).freed@[old(self).free_indices@[k] as int]);
            }
        }
        let bumped = self.generations[index] + 1;
        self.generations.set(index, bumped);
        self.freed.set(index, true);
        self.free_indices.push(entity.index());
        proof {
            let of = old(self).free_indices@;
            assert(self.free_indices@ == of.push(entity.index_of()));
            assert forall|j: int, k: int|
                0 <= j < self.free_indices@.len() && 0 <= k < self.free_indices@.len() && j
                    != k implies self.free_indices@[j] != self.free_indices@[k] by {
                if j < of.len() && k < of.len() {
                    assert(self.free_indices@[j] == of[j]);
                    assert(self.free_indices@[k] == of[k]);
                } else if j < of.len() {
                    assert(self.free_indices@[j] == of[j]);
                    assert(of.contains(of[j]));
                } else if k < of.len() {
                    assert(self.free_indices@[k] == of[k]);
                    assert(of.contains(of[k]));
                }
            }
            assert forall|k: int| 0 <= k < self.free_indices@.len() implies #[trigger] self.free_indices@[k]
                < self.next_index && self.freed@[self.free_indices@[k] as int] by {
                if k < of.len() {
                    assert(self.free_indices@[k] == of[k]);
                }
            }
            assert forall|i: int|
                0 <= i < self.next_index && #[trigger] self.freed@[i] implies self.free_indices@.contains(
                    i as u32,
                ) by {
                if i == index {
                    assert(self.free_indices@[of.len() as int] == i as u32);
                } else {
                    assert(old(self).freed@[i]);
                    let k = choose|k: int| 0 <= k < of.len() && of[k] == i as u32;
                    assert(self.free_indices@[k] == i as u32);
                }
            }
            assert forall|k: int, i: u32|
                0 <= k < self.components@.len() && #[trigger] column_indices(
                    self.components@[k].1,
                ).contains(i) implies i < self.next_index && !self.freed@[i as int] by {
                assert(column_indices(old(self).components@[k].1).contains(i));
            }
            assert(self.component_slots() =~= old(self).component_slots().filter(
                |p: (ComponentId, u32)| p.1 != entity.index_of(),
            )) by {
                assert forall|p: (ComponentId, u32)|
                    #[trigger] self.component_slots().contains(p) implies old(
                        self,
                    ).component_slots().contains(p) && p.1 != entity.index_of() by {
                    let k = choose|k: int|
                        0 <= k < self.components@.len() && #[trigger] self.components@[k].0
                            == p.0 && column_indices(self.components@[k].1).contains(p.1);
                    assert(old(self).components@[k].0 == p.0);
                }
                assert forall|p: (ComponentId, u32)|
                    old(self).component_slots().contains(p) && p.1 != entity.index_of()
                        implies #[trigger] self.component_slots().contains(p) by {
                    let k = choose|k: int|
                        0 <= k < old(self).components@.len() && #[trigger] old(
                            self,
                        ).components@[k].0 == p.0 && column_indices(
                            old(self).components@[k].1,
                        ).contains(p.1);
                    assert(self.components@[k].0 == p.0);
                }
            }
            assert(forall|j: int, k: int|
                0 <= j < k < self.components@.len() ==> #[trigger] self.components@[j].0
                    != #[trigger] self.components@[k].0) by {
                assert(forall|j: int|
                    0 <= j < n ==> self.components@[j].0 == old(self).components@[j].0);
            }
        }
    }

    /// Insert a component for a live entity into the column of the given
    /// component id (made if there is none); a handle that is not live changes
    /// nothing.
    fn insert_as<T: 'static + Send + Sync>(&mut self, id: ComponentId, entity: Entity, component: T)
        requires
            old(self).wf(),
        ensures
            final(self).wf(),
            same_entities(*old(self), *final(self)),
            !old(self).is_live(entity) ==> final(self).columns() == old(self).columns(),
            !old(self).is_live(entity) ==> final(self).component_slots() == old(
                self,
            ).component_slots(),
            old(self).is_live(entity) ==> exists|c: ComponentId|
                final(self).component_slots() == old(self).component_slots().insert(
                    (c, entity.index_of()),
                ),
            old(self).is_live(entity) ==> {
                &&& old(self).columns().len() <= final(self).columns().len()
                &&& final(self).columns().len() <= old(self).columns().len() + 1
                &&& exists|k: int|
                    0 <= k < final(self).columns().len() && #[trigger] columns_agree_except(
                        old(self).columns(),
                        final(self).columns(),
                        k,
                    )
            },
            old(self).is_live(entity) ==> insert_under(*old(self), *final(self), id, entity.index_of()),
    {
        if !self.is_alive(entity) {
            return;
        }
        let index = entity.index();
        match self.column_position(id) {
            Some(k) => {
                column_insert(&mut self.components[k].1, index, component);
                assert(self.components@ =~= old(self).components@.update(
                    k as int,
                    self.components@[k as int],
                ));
                proof {
                    assert forall|kk: int, i: u32|
                        0 <= kk < self.components@.len() && #[trigger] column_indices(
                            self.components@[kk].1,
                        ).contains(i) implies i < self.next_index && !self.freed@[i as int] by {
                        if kk != k {
                            assert(old(self).components@[kk] == self.components@[kk]);
                        } else if i != index {
                            assert(column_indices(old(self).components@[kk].1).contains(i));
                        }
                    }
                    assert(columns_agree_except(old(self).columns(), self.columns(), k as int));
                    assert forall|j: int|
                        0 <= j < old(self).columns().len() && old(self).columns()[j].0 == id implies j == k by {
                        if j != k {
                            assert(old(self).components@[j].0 != old(self).components@[k as int].0);
                        }
                    }
                }
                assert(self.component_slots() =~= old(self).component_slots().insert(
                    (id, index),
                )) by {
                    assert forall|p: (ComponentId, u32)|
                        #[trigger] self.component_slots().contains(p) implies old(
                            self,
                        ).component_slots().insert((id, index)).contains(p) by {
                        let j = choose|j: int|
                            0 <= j < self.components@.len() && #[trigger] self.components@[j].0
                                == p.0 && column_indices(self.components@[j].1).contains(p.1);
                        if j != k {
                            assert(old(self).components@[j] == self.components@[j]);
                        }
                    }
                    assert forall|p: (ComponentId, u32)|
                        old(self).component_slots().insert((id, index)).contains(
                            p,
                        ) implies #[trigger] self.component_slots().contains(p) by {
                        if p != (id, index) {
                            let j = choose|j: int|
                                0 <= j < old(self).components@.len() && #[trigger] old(
                                    self,
                                ).components@[j].0 == p.0 && column_indices(
                                    old(self).components@[j].1,
                                ).contains(p.1);
                            if j != k {
                                assert(old(self).components@[j] == self.components@[j]);
                            }
                            assert(self.components@[j].0 == p.0);
                        } else {
                            assert(self.components@[k as int].0 == p.0);
                        }
                    }
                }
            },
            None => {
                let mut column = column_new();
                column_insert(&mut column, index, component);
                self.components.push((id, column));
                proof {
                    let n: int = old(self).components@.len() as int;
                    assert forall|kk: int, i: u32|
                        0 <= kk < self.components@.len() && #[trigger] column_indices(
                            self.components@[kk].1,
                        ).contains(i) implies i < self.next_index && !self.freed@[i as int] by {
                        if kk < n {
                            assert(old(self).components@[kk] == self.components@[kk]);
                        }
                    }
                    assert(columns_agree_except(old(self).columns(), self.columns(), n));
                }
                assert(self.component_slots() =~= old(self).component_slots().insert(
                    (id, index),
                )) by {
                    let n: int = old(self).components@.len() as int;
                    assert forall|p: (ComponentId, u32)|
                        #[trigger] self.component_slots().contains(p) implies old(
                            self,
                        ).component_slots().insert((id, index)).contains(p) by {
                        let j = choose|j: int|
                            0 <= j < self.components@.len() && #[trigger] self.components@[j].0
                                == p.0 && column_indices(self.components@[j].1).contains(p.1);
                        if j < n {
                            assert(old(self).components@[j] == self.components@[j]);
                        }
                    }
                    assert forall|p: (ComponentId, u32)|
                        old(self).component_slots().insert((id, index)).contains(
                            p,
                        ) implies #[trigger] self.component_slots().contains(p) by {
                        if p != (id, index) {
                            let j = choose|j: int|
                                0 <= j < old(self).components@.len() && #[trigger] old(
                                    self,
                                ).components@[j].0 == p.0 && column_indices(
                                    old(self).components@[j].1,
                                ).contains(p.1);
                            assert(self.components@[j] == old(self).components@[j]);
                        } else {
                            assert(self.components@[n].0 == p.0);
                        }
                    }
                }
            },
        }
    }

    /// Insert a component for a live entity; a component of the same type
    /// already held replaces. A handle that is not live changes nothing.
    pub fn insert<T: 'static + Send + Sync>(&mut self, entity: Entity, component: T)
        requires
            old(self).wf(),
        ensures
            final(self).wf(),
            same_entities(*old(self), *final(self)),
            !old(self).is_live(entity) ==> final(self).columns() == old(self).columns(),
            !old(self).is_live(entity) ==> final(self).component_slots() == old(
                self,
            ).component_slots(),
            old(self).is_live(entity) ==> exists|c: ComponentId|
                final(self).component_slots() == old(self).component_slots().insert(
                    (c, entity.index_of()),
                ),
            old(self).is_live(entity) ==> {
                &&& old(self).columns().len() <= final(self).columns().len()
                &&& final(self).columns().len() <= old(self).columns().len() + 1
                &&& exists|k: int|
                    0 <= k < final(self).columns().len() && #[trigger] columns_agree_except(
                        old(self).columns(),
                        final(self).columns(),
                        k,
                    )
            },
            old(self).is_live(entity) ==> exists|c: ComponentId|
                insert_under(*old(self), *final(self), c, entity.index_of()),
    {
        self.insert_as(ComponentId::of::<T>(), entity, component);
    }

    /// Read a live entity's component from the column of the given component
    /// id; a handle that is not live gets `None`.
    fn get_as<T: 'static>(&self, id: ComponentId, entity: Entity) -> (r: Option<&T>)
        ensures
            !self.is_live(entity) ==> r is None,
            r is Some ==> self.component_slots().contains((id, entity.index_of())),
    {
        if !self.is_alive(entity) {
            return None;
        }
        match self.column_position(id) {
            Some(k) => {
                let r = column_get::<T>(&self.components[k].1, entity.index());
                if r.is_some() {
                    assert(self.component_slots().contains((id, entity.index_of())));
                }
                r
            },
            None => None,
        }
    }

    /// Get an immutable reference to a component of a live entity; a handle
    /// that is not live gets `None`.
    pub fn get<T: 'static>(&self, entity: Entity) -> (r: Option<&T>)
        ensures
            !self.is_live(entity) ==> r is None,
            r is Some ==> self.has_component_at(entity.index_of()),
    {
        self.get_as(ComponentId::of::<T>(), entity)
    }

    /// Mutable access to a live entity's component in the column of the given
    /// component id; no other column changes, and a handle that is not live
    /// gets `None`.
    fn get_mut_as<T: 'static>(&mut self, id: ComponentId, entity: Entity) -> (r: Option<&mut T>)
        requires
            old(self).wf(),
        ensures
            !old(self).is_live(entity) ==> r is None,
            r is Some ==> old(self).component_slots().contains((id, entity.index_of())),
            only_column_of(*old(self), *final(self), id),
            r is None ==> final(self).columns() == old(self).columns(),
            final(self).wf(),
            same_entities(*old(self), *final(self)),
            final(self).component_slots() == old(self).component_slots(),
    {
        broadcast use lemma_same_columns_same_slots;

        if !self.is_alive(entity) {
            return None;
        }
        match self.column_position(id) {
            Some(k) => {
                let r = column_get_mut::<T>(&mut self.components[k].1, entity.index());
                proof {
                    if r.is_some() {
                        assert(old(self).component_slots().contains((id, entity.index_of())));
                    }
                }
                r
            },
            None => None,
        }
    }

    /// Get a mutable reference to a component of a live entity; a handle
    /// that is not live gets `None`.
    pub fn get_mut<T: 'static>(&mut self, entity: Entity) -> (r: Option<&mut T>)
        requires
            old(self).wf(),
        ensures
            !old(self).is_live(entity) ==> r is None,
            r is Some ==> old(self).has_component_at(entity.index_of()),
            r is None ==> final(self).columns() == old(self).columns(),
            final(self).wf(),
            same_entities(*old(self), *final(self)),
            final(self).component_slots() == old(self).component_slots(),
            exists|c: ComponentId| only_column_of(*old(self), *final(self), c),
    {
        self.get_mut_as(ComponentId::of::<T>(), entity)
    }

    /// Check if an entity is still alive.
    pub fn is_alive(&self, entity: Entity) -> (r: bool)
        ensures
            r == self.is_live(entity),
    {
        let index = entity.index() as usize;
        index < self.generations.len() && index < self.freed.len() && !self.freed[index]
            && self.generations[index] == entity.generation()
    }

    /// Get the number of active entities.
    pub fn entity_count(&self) -> (r: usize)
        requires
            self.wf(),
        ensures
            r == self.live_count(),
    {
        proof {
            lemma_count_marked_le(self.freed@);
        }
        self.next_index as usize - self.free_indices.len()
    }
}

impl Default for World {
    fn default() -> (w: Self)
        ensures
            w.wf(),
            w.next_slot() == 0,
            w.generation_table() == Seq::<u32>::empty(),
            w.free_slots() == Seq::<u32>::empty(),
            w.free_marks() == Seq::<bool>::empty(),
            w.columns() == Seq::<(ComponentId, ErasedColumn)>::empty(),
            w.component_slots() == Set::<(ComponentId, u32)>::empty(),
    {
        Self::new()
    }
}

/// The live handles among those whose slot index is below `k`.
spec fn live_below(w: World, k: int) -> Set<Entity> {
    Set::new(|e: Entity| w.is_live(e) && e.index_of() < k)
}

proof fn lemma_live_below(w: World, k: int)
    requires
        w.wf(),
        0 <= k <= w.next_slot(),
    ensures
        live_below(w, k).finite(),
        live_below(w, k).len() == k - count_marked(w.free_marks().take(k)),
    decreases k,
{
    let m = w.free_marks();
    if k == 0 {
        assert(live_below(w, 0) =~= Set::<Entity>::empty());
        assert(m.take(0) =~= Seq::<bool>::empty());
    } else {
        lemma_live_below(w, k - 1);
        assert(m.take(k).drop_last() =~= m.take(k - 1));
        if m[k - 1] {
            assert(live_below(w, k) =~= live_below(w, k - 1));
        } else {
            let h = lemma_handle_with_parts((k - 1) as u32, w.generation_table()[k - 1]);
            assert(live_below(w, k) =~= live_below(w, k - 1).insert(h)) by {
                assert forall|e: Entity| #[trigger] live_below(w, k).contains(e) implies live_below(
                    w,
                    k - 1,
                ).insert(h).contains(e) by {
                    if e.index_of() == k - 1 {
                        law_entity_determined_by_parts(e, h);
                    }
                }
            }
            assert(!live_below(w, k - 1).contains(h));
        }
    }
}

/// The number of entities the world counts is the number of live handles:
/// each slot held by an entity has exactly one live handle, and a free slot
/// has none.
pub proof fn law_entity_count_is_number_of_live_handles(w: World)
    requires
        w.wf(),
    ensures
        w.live_handles().finite(),
        w.live_handles().len() == w.live_count(),
        0 <= w.live_count() <= w.next_slot(),
{
    lemma_live_below(w, w.next_slot() as int);
    assert(w.free_marks().take(w.next_slot() as int) =~= w.free_marks());
    assert(live_below(w, w.next_slot() as int) =~= w.live_handles());
    lemma_count_marked_le(w.free_marks());
}

/// Two live handles on the same slot are the same handle: a handle is a
/// unique identifier of a live entity.
pub proof fn law_live_handles_are_unique(w: World, a: Entity, b: Entity)
    requires
        w.is_live(a),
        w.is_live(b),
        a.index_of() == b.index_of(),
    ensures
        a == b,
{
    law_entity_determined_by_parts(a, b);
}

/// Despawning a live entity kills it for good: the handle is stale, no longer
/// live, and no component of any type is left at its slot.
pub proof fn law_despawned_entity_is_gone(pre: World, post: World, e: Entity)
    requires
        pre.is_live(e),
        e.generation_of() < u32::MAX,
        despawn_post(pre, post, e),
    ensures
        post.is_stale(e),
        !post.is_live(e),
        forall|c: ComponentId| !post.component_slots().contains((c, e.index_of())),
        !post.has_component_at(e.index_of()),
{
}

/// Once a handle is stale it stays stale under any change that only raises
/// generations, which every operation of the world does: a despawned handle
/// never comes back to life.
pub proof fn law_stale_stays_dead(pre: World, post: World, e: Entity)
    requires
        pre.is_stale(e),
        generations_grow(pre, post),
    ensures
        post.is_stale(e),
        !post.is_live(e),
{
    assert(pre.generation_table()[e.index_of() as int] <= post.generation_table()[e.index_of() as int]);
}

/// The entity spawned right after a despawn reuses the freed slot with the
/// next generation, so it differs from the despawned handle.
pub proof fn law_recycled_slot_gets_new_generation(
    w0: World,
    w1: World,
    w2: World,
    e: Entity,
    f: Entity,
)
    requires
        w0.is_live(e),
        e.generation_of() < u32::MAX,
        despawn_post(w0, w1, e),
        spawn_post(w1, w2, f),
    ensures
        f.index_of() == e.index_of(),
        f.generation_of() == e.generation_of() + 1,
        f != e,
        !w2.is_live(e),
{
}

/// A handle on a freed slot is not live, whatever its generation: after a
/// despawn, neither the despawned handle nor the slot's next handle is live
/// until a spawn hands the slot out again.
pub proof fn law_freed_slot_has_no_live_handle(pre: World, post: World, e: Entity, f: Entity)
    requires
        pre.is_live(e),
        despawn_post(pre, post, e),
        f.index_of() == e.index_of(),
    ensures
        !post.is_live(f),
{
}

/// A spawn adds one live entity to the count, a despawn of a live entity
/// takes one away, and a despawn of anything else leaves the count as it was.
pub proof fn law_entity_count_tracks_spawn_and_despawn(
    pre: World,
    spawned: World,
    despawned: World,
    e: Entity,
    d: Entity,
)
    requires
        spawn_post(pre, spawned, e),
        despawn_post(pre, despawned, d),
    ensures
        spawned.live_count() == pre.live_count() + 1,
        pre.is_live(d) ==> despawned.live_count() == pre.live_count() - 1,
        !pre.is_live(d) ==> despawned.live_count() == pre.live_count(),
{
}

/// Component operations leave every entity's liveness as it was.
pub proof fn law_components_do_not_touch_entities(pre: World, post: World, e: Entity)
    requires
        same_entities(pre, post),
    ensures
        post.is_live(e) == pre.is_live(e),
        post.is_stale(e) == pre.is_stale(e),
        generations_grow(pre, post),
{
}

/// After an insert for a live entity, its slot holds a component, and a later
/// despawn of the entity takes it away again.
pub proof fn law_insert_then_despawn(w0: World, w1: World, w2: World, e: Entity)
    requires
        exists|c: ComponentId|
            w1.component_slots() == w0.component_slots().insert((c, e.index_of())),
        same_entities(w0, w1),
        w0.is_live(e),
        despawn_post(w1, w2, e),
    ensures
        w1.has_component_at(e.index_of()),
        !w2.has_component_at(e.index_of()),
{
    let c = choose|c: ComponentId|
        w1.component_slots() == w0.component_slots().insert((c, e.index_of()));
    assert(w1.component_slots().contains((c, e.index_of())));
}

/// What a call on the world did to its entities, as a history records it.
pub enum EntityEvent {
    /// `spawn` returned this handle.
    Spawned(Entity),
    /// `despawn` was called with this handle.
    Despawned(Entity),
    /// A call that leaves the entities alone (`insert`, `get_mut`, ...).
    Untouched,
}

/// The world as `World::new` makes it.
pub open spec fn is_fresh_world(w: World) -> bool {
    &&& w.wf()
    &&& w.next_slot() == 0
    &&& w.generation_table() == Seq::<u32>::empty()
    &&& w.free_slots() == Seq::<u32>::empty()
    &&& w.free_marks() == Seq::<bool>::empty()
}

/// One call took the world from `pre` to `post`, as the event records it,
/// with the contract of that call.
pub open spec fn event_step(pre: World, post: World, ev: EntityEvent) -> bool {
    &&& post.wf()
    &&& match ev {
        EntityEvent::Spawned(e) => spawn_post(pre, post, e),
        EntityEvent::Despawned(e) => {
            &&& pre.is_live(e) ==> e.generation_of() < u32::MAX
            &&& despawn_post(pre, post, e)
        },
        EntityEvent::Untouched => same_entities(pre, post),
    }
}

/// `worlds[i + 1]` came from `worlds[i]` by the call that `events[i]`
/// records, starting from a new world.
pub open spec fn is_history(worlds: Seq<World>, events: Seq<EntityEvent>) -> bool {
    &&& worlds.len() == events.len() + 1
    &&& is_fresh_world(worlds[0])
    &&& forall|i: int|
        0 <= i < events.len() ==> event_step(worlds[i], worlds[i + 1], #[trigger] events[i])
}

/// The handle was returned by a spawn and not passed to a despawn since.
#[verifier::opaque]
pub open spec fn spawned_and_not_despawned(events: Seq<EntityEvent>, e: Entity) -> bool {
    exists|i: int|
        0 <= i < events.len() && #[trigger] events[i] == EntityEvent::Spawned(e) && forall|j: int|
            i < j < events.len() ==> #[trigger] events[j] != EntityEvent::Despawned(e)
}

/// The handle was returned by some spawn.
#[verifier::opaque]
pub open spec fn ever_spawned(events: Seq<EntityEvent>, e: Entity) -> bool {
    exists|i: int| 0 <= i < events.len() && #[trigger] events[i] == EntityEvent::Spawned(e)
}

proof fn lemma_events_push(events: Seq<EntityEvent>, ev: EntityEvent, e: Entity)
    ensures
        spawned_and_not_despawned(events.push(ev), e) == match ev {
            EntityEvent::Spawned(f) => f == e || spawned_and_not_despawned(events, e),
            EntityEvent::Despawned(d) => d != e && spawned_and_not_despawned(events, e),
            EntityEvent::Untouched => spawned_and_not_despawned(events, e),
        },
        ever_spawned(events.push(ev), e) == (ever_spawned(events, e) || ev
            == EntityEvent::Spawned(e)),
{
    reveal(spawned_and_not_despawned);
    reveal(ever_spawned);
    let p = events.push(ev);
    let n = events.len() as int;
    assert(p[n] == ev);
    if spawned_and_not_despawned(events, e) {
        let i = choose|i: int|
            0 <= i < events.len() && #[trigger] events[i] == EntityEvent::Spawned(e) && forall|
                j: int,
            | i < j < events.len() ==> #[trigger] events[j] != EntityEvent::Despawned(e);
        assert(p[i] == events[i]);
        if ev != EntityEvent::Despawned(e) {
            assert forall|j: int| i < j < p.len() implies #[trigger] p[j]
                != EntityEvent::Despawned(e) by {
                if j < n {
                    assert(p[j] == events[j]);
                }
            }
        }
    }
    if spawned_and_not_despawned(p, e) {
        let i = choose|i: int|
            0 <= i < p.len() && #[trigger] p[i] == EntityEvent::Spawned(e) && forall|j: int|
                i < j < p.len() ==> #[trigger] p[j] != EntityEvent::Despawned(e);
        if i < n {
            assert(events[i] == p[i]);
            assert(p[n] != EntityEvent::Despawned(e));
            assert forall|j: int| i < j < events.len() implies #[trigger] events[j]
                != EntityEvent::Despawned(e) by {
                assert(p[j] == events[j]);
            }
        }
    }
    if ever_spawned(events, e) {
        let i = choose|i: int| 0 <= i < events.len() && #[trigger] events[i] == EntityEvent::Spawned(e);
        assert(p[i] == events[i]);
    }
    if ever_spawned(p, e) {
        let i = choose|i: int| 0 <= i < p.len() && #[trigger] p[i] == EntityEvent::Spawned(e);
        if i < n {
            assert(events[i] == p[i]);
        }
    }
}

/// The handles alive in `w` are exactly those spawned and not despawned since,
/// and every handle ever spawned is alive or stale.
pub open spec fn matches_events(w: World, events: Seq<EntityEvent>) -> bool {
    &&& forall|e: Entity| #[trigger] w.is_live(e) == spawned_and_not_despawned(events, e)
    &&& forall|e: Entity| #[trigger] ever_spawned(events, e) ==> w.is_live(e) || w.is_stale(e)
}

proof fn lemma_spawn_step(pre: World, post: World, f: Entity, events: Seq<EntityEvent>)
    requires
        pre.wf(),
        spawn_post(pre, post, f),
        matches_events(pre, events),
    ensures
        matches_events(post, events.push(EntityEvent::Spawned(f))),
        !ever_spawned(events, f),
{
    let ev = EntityEvent::Spawned(f);
    let i = f.index_of();
    let popped = pre.free_slots().len() > 0;
    if popped {
        assert(pre.free_marks()[i as int]);
    }
    assert(!pre.is_live(f));
    assert(!pre.is_stale(f));
    assert forall|e: Entity| #[trigger]
        post.is_live(e) == spawned_and_not_despawned(events.push(ev), e) by {
        lemma_events_push(events, ev, e);
        assert(pre.is_live(e) == spawned_and_not_despawned(events, e));
        if e.index_of() == i {
            if post.is_live(e) {
                law_entity_determined_by_parts(e, f);
            }
        }
    }
    assert forall|e: Entity| #[trigger] ever_spawned(events.push(ev), e) implies post.is_live(e)
        || post.is_stale(e) by {
        lemma_events_push(events, ev, e);
        if ever_spawned(events, e) {
            assert(pre.is_live(e) || pre.is_stale(e));
        }
        if e != f {
            assert(ever_spawned(events, e));
        }
    }
}

proof fn lemma_despawn_step(pre: World, post: World, d: Entity, events: Seq<EntityEvent>)
    requires
        pre.wf(),
        pre.is_live(d) ==> d.generation_of() < u32::MAX,
        despawn_post(pre, post, d),
        matches_events(pre, events),
    ensures
        matches_events(post, events.push(EntityEvent::Despawned(d))),
{
    let ev = EntityEvent::Despawned(d);
    let i = d.index_of();
    assert forall|e: Entity| #[trigger]
        post.is_live(e) == spawned_and_not_despawned(events.push(ev), e) by {
        lemma_events_push(events, ev, e);
        assert(pre.is_live(e) == spawned_and_not_despawned(events, e));
        if pre.is_live(d) && e.index_of() == i && pre.is_live(e) {
            law_entity_determined_by_parts(e, d);
        }
    }
    assert forall|e: Entity| #[trigger] ever_spawned(events.push(ev), e) implies post.is_live(e)
        || post.is_stale(e) by {
        lemma_events_push(events, ev, e);
        if ever_spawned(events, e) {
            assert(pre.is_live(e) || pre.is_stale(e));
        }
        if pre.is_live(d) && e.index_of() == i && pre.is_live(e) {
            law_entity_determined_by_parts(e, d);
        }
    }
}

proof fn lemma_untouched_step(pre: World, post: World, events: Seq<EntityEvent>)
    requires
        same_entities(pre, post),
        matches_events(pre, events),
    ensures
        matches_events(post, events.push(EntityEvent::Untouched)),
{
    let ev = EntityEvent::Untouched;
    assert forall|e: Entity| #[trigger]
        post.is_live(e) == spawned_and_not_despawned(events.push(ev), e) by {
        lemma_events_push(events, ev, e);
        assert(pre.is_live(e) == spawned_and_not_despawned(events, e));
    }
    assert forall|e: Entity| #[trigger] ever_spawned(events.push(ev), e) implies post.is_live(e)
        || post.is_stale(e) by {
        lemma_events_push(events, ev, e);
        if ever_spawned(events, e) {
            assert(pre.is_live(e) || pre.is_stale(e));
        }
    }
}

proof fn lemma_event_step(pre: World, post: World, ev: EntityEvent, events: Seq<EntityEvent>)
    requires
        pre.wf(),
        event_step(pre, post, ev),
        matches_events(pre, events),
    ensures
        matches_events(post, events.push(ev)),
        ev matches EntityEvent::Spawned(f) ==> !ever_spawned(events, f),
{
    match ev {
        EntityEvent::Spawned(f) => lemma_spawn_step(pre, post, f, events),
        EntityEvent::Despawned(d) => lemma_despawn_step(pre, post, d, events),
        EntityEvent::Untouched => lemma_untouched_step(pre, post, events),
    }
}

/// Over any history of calls from a new world: a handle is alive exactly
/// when `spawn` returned it and no `despawn` has been passed it since, every
/// handle ever spawned is alive or stale, and no two spawns return the same
/// handle.
pub proof fn law_alive_exactly_when_spawned_and_not_despawned(
    worlds: Seq<World>,
    events: Seq<EntityEvent>,
)
    requires
        is_history(worlds, events),
    ensures
        matches_events(worlds.last(), events),
        forall|e: Entity|
            #[trigger] worlds.last().is_live(e) == spawned_and_not_despawned(events, e),
        forall|i: int, j: int|
            0 <= i < j < events.len() && #[trigger] events[i] is Spawned && #[trigger] events[j] is Spawned
                ==> events[i] != events[j],
    decreases events.len(),
{
    let n = events.len() as int;
    if n == 0 {
        let w = worlds[0];
        reveal(spawned_and_not_despawned);
        reveal(ever_spawned);
        assert forall|e: Entity| #[trigger] w.is_live(e) == spawned_and_not_despawned(events, e) by {}
        assert forall|e: Entity| #[trigger] ever_spawned(events, e) implies w.is_live(e) || w.is_stale(e) by {}
    } else {
        let ws = worlds.drop_last();
        let evs = events.drop_last();
        assert forall|i: int| 0 <= i < evs.len() implies event_step(ws[i], ws[i + 1], #[trigger] evs[i]) by {
            assert(event_step(worlds[i], worlds[i + 1], events[i]));
        }
        law_alive_exactly_when_spawned_and_not_despawned(ws, evs);
        assert(ws.last() == worlds[n - 1]);
        assert(event_step(worlds[n - 1], worlds[n], events[n - 1]));
        assert(worlds[n - 1].wf()) by {
            if n - 1 > 0 {
                assert(event_step(worlds[n - 2], worlds[n - 1], events[n - 2]));
            }
        }
        lemma_event_step(worlds[n - 1], worlds[n], events[n - 1], evs);
        assert(evs.push(events[n - 1]) =~= events);
        assert forall|i: int, j: int|
            0 <= i < j < events.len() && #[trigger] events[i] is Spawned && #[trigger] events[j] is Spawned
                implies events[i] != events[j] by {
            if j < n - 1 {
                assert(evs[i] == events[i] && evs[j] == events[j]);
            } else {
                assert(evs[i] == events[i]);
                let e = events[i]->Spawned_0;
                assert(ever_spawned(evs, e)) by {
                    reveal(ever_spawned);
                    assert(evs[i] == EntityEvent::Spawned(e));
                }
            }
        }
    }
}

/// An insert under component id `c` at slot `i` holds `(c, i)` afterwards,
/// changes no other (id, slot) pair, leaves every column of another id as it
/// was, and never adds a second column for an id that has one.
pub proof fn law_insert_touches_only_its_column(pre: World, post: World, c: ComponentId, i: u32)
    requires
        pre.wf(),
        insert_under(pre, post, c, i),
    ensures
        post.component_slots().contains((c, i)),
        forall|d: ComponentId, j: u32|
            (d, j) != (c, i) ==> (#[trigger] post.component_slots().contains((d, j))
                == pre.component_slots().contains((d, j))),
        forall|k: int|
            0 <= k < pre.columns().len() && pre.columns()[k].0 != c ==> #[trigger] post.columns()[k]
                == pre.columns()[k],
        (exists|k: int| 0 <= k < pre.columns().len() && #[trigger] pre.columns()[k].0 == c)
            ==> post.columns().len() == pre.columns().len(),
{
    if exists|k: int| 0 <= k < pre.columns().len() && #[trigger] pre.columns()[k].0 == c {
        let k = choose|k: int| 0 <= k < pre.columns().len() && #[trigger] pre.columns()[k].0 == c;
        assert(post.columns().len() == pre.columns().len());
    }
}

/// Access under component id `c` changes at most the column of `c`: every
/// column of another id, and every (id, slot) pair, stays as it was.
pub proof fn law_access_touches_only_its_column(pre: World, post: World, c: ComponentId)
    requires
        only_column_of(pre, post, c),
        post.component_slots() == pre.component_slots(),
    ensures
        forall|k: int|
            0 <= k < pre.columns().len() && pre.columns()[k].0 != c ==> #[trigger] post.columns()[k]
                == pre.columns()[k],
        forall|d: ComponentId, j: u32|
            #[trigger] post.component_slots().contains((d, j)) == pre.component_slots().contains(
                (d, j),
            ),
{
}

/// Two inserts at the same slot under the same id leave one pair and one
/// column for that id: the second insert replaces, it does not add.
pub proof fn law_second_insert_replaces(w0: World, w1: World, w2: World, c: ComponentId, i: u32)
    requires
        w0.wf(),
        w1.wf(),
        insert_under(w0, w1, c, i),
        insert_under(w1, w2, c, i),
    ensures
        w2.component_slots() == w1.component_slots(),
        w2.columns().len() == w1.columns().len(),
{
    law_insert_touches_only_its_column(w0, w1, c, i);
    if exists|k: int| 0 <= k < w0.columns().len() && #[trigger] w0.columns()[k].0 == c {
        let k = choose|k: int| 0 <= k < w0.columns().len() && #[trigger] w0.columns()[k].0 == c;
        assert(w1.columns()[k].0 == c);
    } else {
        let k = w0.columns().len() as int;
        assert(w1.columns()[k].0 == c);
    }
    assert(w2.component_slots() =~= w1.component_slots());
}

} // verus!
