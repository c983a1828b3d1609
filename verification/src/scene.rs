use vstd::prelude::*;

verus! {

/// One scene object: the id the scene gave it and what the renderer keeps
/// for it (its description, mesh and GPU resources).
pub struct SceneSlot<T> {
    pub id: u64,
    pub payload: T,
}

/// The objects of a scene, in the order they were added, and the id the next
/// object will get. Ids start at 1 and are never handed out twice.
pub struct SceneObjects<T> {
    next_id: u64,
    objects: Vec<SceneSlot<T>>,
}

/// The test that keeps every object whose id is not the given one.
pub open spec fn other_than<T>(id: u64) -> spec_fn(SceneSlot<T>) -> bool {
    |s: SceneSlot<T>| s.id != id
}

/// Removing one id keeps every other object, in order.
pub open spec fn without_id<T>(slots: Seq<SceneSlot<T>>, id: u64) -> Seq<SceneSlot<T>> {
    slots.filter(other_than(id))
}

/// The ids of a sequence of objects.
pub open spec fn ids_of<T>(slots: Seq<SceneSlot<T>>) -> Seq<u64> {
    slots.map_values(|s: SceneSlot<T>| s.id)
}

/// Every id is between 1 and `next` (exclusive), and no two objects share an
/// id.
pub open spec fn ids_below_and_distinct<T>(slots: Seq<SceneSlot<T>>, next: u64) -> bool {
    &&& forall|i: int| 0 <= i < slots.len() ==> 1 <= #[trigger] slots[i].id < next
    &&& forall|i: int, j: int|
        0 <= i < j < slots.len() ==> #[trigger] slots[i].id != #[trigger] slots[j].id
}

/// Taking one object out keeps the ids in range and distinct.
proof fn lemma_remove_keeps_ids<T>(s: Seq<SceneSlot<T>>, i: int, next: u64)
    requires
        0 <= i < s.len(),
        ids_below_and_distinct(s, next),
    ensures
        ids_below_and_distinct(s.remove(i), next),
{
    let r = s.remove(i);
    assert forall|j: int, k: int| 0 <= j < k < r.len() implies #[trigger] r[j].id
        != #[trigger] r[k].id by {
        let jj = if j < i { j } else { j + 1 };
        let kk = if k < i { k } else { k + 1 };
        assert(r[j] == s[jj]);
        assert(r[k] == s[kk]);
    }
    assert forall|k: int| 0 <= k < r.len() implies 1 <= #[trigger] r[k].id < next by {
        let kk = if k < i { k } else { k + 1 };
        assert(r[k] == s[kk]);
    }
}

/// One more element of `orig` is processed: the kept prefix grows by it when
/// the test keeps it, and the unprocessed suffix loses it.
proof fn lemma_filter_step<A>(orig: Seq<A>, p: int, pred: spec_fn(A) -> bool)
    requires
        0 <= p < orig.len(),
    ensures
        orig.take(p + 1).filter(pred) == if pred(orig[p]) {
            orig.take(p).filter(pred).push(orig[p])
        } else {
            orig.take(p).filter(pred)
        },
        orig.skip(p + 1) == orig.skip(p).drop_first(),
        orig.skip(p)[0] == orig[p],
{
    assert(orig.take(p + 1) =~= orig.take(p).push(orig[p]));
    orig.take(p).lemma_filter_push(orig[p], pred);
    assert(orig.skip(p + 1) =~= orig.skip(p).drop_first());
}

impl<T> SceneObjects<T> {
    /// The id that the next reservation hands out.
    pub closed spec fn next_id(self) -> u64 {
        self.next_id
    }

    /// The objects, in the order they were added.
    pub closed spec fn slots(self) -> Seq<SceneSlot<T>> {
        self.objects@
    }

    /// The ids of the objects, in order.
    pub open spec fn ids(self) -> Seq<u64> {
        ids_of(self.slots())
    }

    /// Every id is one handed out before (below the next id, and not 0) and
    /// no two objects share an id.
    pub open spec fn wf(self) -> bool {
        &&& self.next_id() >= 1
        &&& ids_below_and_distinct(self.slots(), self.next_id())
    }

    /// An empty scene whose first object gets id 1.
    pub fn new() -> (s: Self)
        ensures
            s.wf(),
            s.next_id() == 1,
            s.slots() == Seq::<SceneSlot<T>>::empty(),
    {
        SceneObjects { next_id: 1, objects: Vec::new() }
    }

    /// The id the next reservation hands out.
    pub fn upcoming_id(&self) -> (r: u64)
        ensures
            r == self.next_id(),
    {
        self.next_id
    }

    /// Hand out the next id; it is consumed whether or not an object is ever
    /// added under it.
    pub fn reserve_id(&mut self) -> (id: u64)
        requires
            old(self).wf(),
            old(self).next_id() < u64::MAX,
        ensures
            final(self).wf(),
            id == old(self).next_id(),
            final(self).next_id() == id + 1,
            final(self).slots() == old(self).slots(),
            !old(self).ids().contains(id),
    {
        let id = self.next_id;
        self.next_id = self.next_id + 1;
        proof {
            if old(self).ids().contains(id) {
                let k = choose|k: int| 0 <= k < old(self).ids().len() && old(self).ids()[k] == id;
                assert(old(self).slots()[k].id == id);
            }
        }
        id
    }

    /// The id was handed out and no object holds it yet.
    pub fn is_fresh_id(&self, id: u64) -> (r: bool)
        requires
            self.wf(),
        ensures
            r == (1 <= id < self.next_id() && !self.ids().contains(id)),
    {
        if id == 0 || id >= self.next_id {
            return false;
        }
        match self.position(id) {
            Some(i) => {
                assert(self.ids()[i as int] == id);
                false
            },
            None => true,
        }
    }

    /// Add an object under a reserved id that no object holds yet.
    pub fn push(&mut self, id: u64, payload: T)
        requires
            old(self).wf(),
            1 <= id < old(self).next_id(),
            !old(self).ids().contains(id),
        ensures
            final(self).wf(),
            final(self).next_id() == old(self).next_id(),
            final(self).slots() == old(self).slots().push(SceneSlot { id, payload }),
    {
        self.objects.push(SceneSlot { id, payload });
        proof {
            assert forall|i: int| 0 <= i < old(self).slots().len() implies #[trigger] old(
                self,
            ).slots()[i].id != id by {
                assert(old(self).ids()[i] == old(self).slots()[i].id);
            }
        }
    }

    /// The position of the first object with the id, if any.
    pub fn position(&self, id: u64) -> (r: Option<usize>)
        ensures
            match r {
                Some(i) => {
                    &&& i < self.slots().len()
                    &&& self.slots()[i as int].id == id
                    &&& forall|j: int| 0 <= j < i ==> self.slots()[j].id != id
                },
                None => !self.ids().contains(id),
            },
    {
        let n = self.objects.len();
        for i in 0..n
            invariant
                n == self.slots().len(),
                forall|j: int| 0 <= j < i ==> self.slots()[j].id != id,
        {
            if self.objects[i].id == id {
                return Some(i);
            }
        }
        proof {
            if self.ids().contains(id) {
                let k = choose|k: int| 0 <= k < self.ids().len() && self.ids()[k] == id;
                assert(self.slots()[k].id == id);
            }
        }
        None
    }

    /// The number of objects.
    pub fn len(&self) -> (r: usize)
        ensures
            r == self.slots().len(),
    {
        self.objects.len()
    }

    /// The objects, in the order they were added.
    pub fn as_slice(&self) -> (r: &[SceneSlot<T>])
        ensures
            r@ == self.slots(),
    {
        self.objects.as_slice()
    }

    /// Mutable access to what is kept for the object at a position; the ids
    /// and the other objects stay as they were.
    pub fn payload_mut(&mut self, i: usize) -> (r: &mut T)
        requires
            i < old(self).slots().len(),
        ensures
            *r == old(self).slots()[i as int].payload,
            final(self).next_id() == old(self).next_id(),
            final(self).slots() == old(self).slots().update(
                i as int,
                SceneSlot { id: old(self).slots()[i as int].id, payload: *final(r) },
            ),
    {
        &mut self.objects[i].payload
    }

    /// Remove every object with the id; the others keep their order.
    pub fn despawn(&mut self, id: u64)
        requires
            old(self).wf(),
        ensures
            final(self).wf(),
            final(self).next_id() == old(self).next_id(),
            final(self).slots() == without_id(old(self).slots(), id),
            !final(self).ids().contains(id),
    {
        let ghost pred = other_than::<T>(id);
        let ghost orig = self.objects@;
        let ghost mut p: int = 0;
        let mut i: usize = 0;
        while i < self.objects.len()
            invariant
                0 <= p <= orig.len(),
                self.next_id == old(self).next_id,
                orig == old(self).objects@,
                pred == other_than::<T>(id),
                i == orig.take(p).filter(pred).len(),
                self.objects@ == orig.take(p).filter(pred) + orig.skip(p),
                ids_below_and_distinct(self.objects@, self.next_id),
                forall|k: int| 0 <= k < i ==> #[trigger] self.objects@[k].id != id,
            decreases self.objects@.len() - i,
        {
            proof {
                lemma_filter_step(orig, p, pred);
            }
            if self.objects[i].id == id {
                proof {
                    lemma_remove_keeps_ids(self.objects@, i as int, self.next_id);
                }
                self.objects.remove(i);
                proof {
                    assert(self.objects@ =~= orig.take(p + 1).filter(pred) + orig.skip(p + 1));
                    p = p + 1;
                }
            } else {
                i = i + 1;
                proof {
                    assert(self.objects@ =~= orig.take(p + 1).filter(pred) + orig.skip(p + 1));
                    p = p + 1;
                }
            }
        }
        proof {
            assert(p == orig.len());
            assert(orig.take(p) =~= orig);
            assert(orig.skip(p) =~= Seq::<SceneSlot<T>>::empty());
            assert(self.objects@ =~= orig.filter(pred));
            if self.ids().contains(id) {
                let k = choose|k: int| 0 <= k < self.ids().len() && self.ids()[k] == id;
                assert(self.objects@[k].id == id);
            }
        }
    }
}

/// Ids come out of the scene in strictly increasing order: an id reserved
/// after another, with any operations in between (none of which lowers the
/// next id), is larger, so no id is ever handed out twice.
pub proof fn law_reserved_ids_strictly_increase<T>(
    s0: SceneObjects<T>,
    s1: SceneObjects<T>,
    a: u64,
    s2: SceneObjects<T>,
    s3: SceneObjects<T>,
    b: u64,
)
    requires
        a == s0.next_id(),
        s1.next_id() == a + 1,
        s1.next_id() <= s2.next_id(),
        b == s2.next_id(),
        s3.next_id() == b + 1,
    ensures
        a < b,
{
}

/// An object added under a fresh id is the one object with that id: a
/// lookup finds it at the end, and a despawn of the id removes exactly it.
pub proof fn law_pushed_object_is_found<T>(pre: SceneObjects<T>, post: SceneObjects<T>, id: u64, payload: T)
    requires
        !pre.ids().contains(id),
        post.slots() == pre.slots().push(SceneSlot { id, payload }),
    ensures
        post.slots()[pre.slots().len() as int].id == id,
        forall|j: int| 0 <= j < pre.slots().len() ==> post.slots()[j].id != id,
        without_id(post.slots(), id) == without_id(pre.slots(), id),
{
    assert forall|j: int| 0 <= j < pre.slots().len() implies post.slots()[j].id != id by {
        assert(pre.ids()[j] == pre.slots()[j].id);
    }
    pre.slots().lemma_filter_push(SceneSlot { id, payload }, other_than(id));
}

} // verus!
