//! The item store of the board: items keyed by id, their z-order (insertion
//! order, bottom first), a monotone id allocator, and the three change logs
//! that the renderer drains once per frame.
use std::collections::hash_map::Entry;
use std::collections::HashMap;
use vstd::prelude::*;

verus! {

/// Identifies an item on the board for its whole life.
pub type ItemId = u64;

/// What only the item type itself knows how to do: move an item, set the
/// bounds of an image or the pose of a shape, and clear the flag that asks
/// the renderer to rebuild an item's geometry. The board never looks at what
/// these do to an item; it only decides which items they are applied to.
pub trait BoardItem: Sized {
    /// How far a move shifts an item.
    type Offset;
    /// Where an image lies and how large it is.
    type Bounds;
    /// Where a shape lies, how large it is and how it is turned.
    type Pose;

    /// The item shifted by `delta`.
    fn translated(self, delta: &Self::Offset) -> Self;

    /// The item shifted by the opposite of `delta`.
    fn translated_back(self, delta: &Self::Offset) -> Self;

    /// An image item with the bounds `bounds`; any other item as it is.
    fn with_image_bounds(self, bounds: &Self::Bounds) -> Self;

    /// A shape item with the pose `pose`; any other item as it is.
    fn with_shape_pose(self, pose: &Self::Pose) -> Self;

    /// Marks a stroke item's geometry as rebuilt; any other item is left as is.
    fn mark_stroke_clean(&mut self);

    /// Marks a shape item's geometry as rebuilt; any other item is left as is.
    fn mark_shape_clean(&mut self);

    /// Marks an image item's geometry as rebuilt; any other item is left as is.
    fn mark_image_clean(&mut self);
}

/// The mathematical state of a [`Scene`].
#[verifier::ext_equal]
pub struct SceneView<T> {
    /// Every live item, by id.
    pub items: Map<ItemId, T>,
    /// Z-order, bottom first; an id that was inserted twice occurs twice.
    pub order: Seq<ItemId>,
    /// The id the allocator hands out next.
    pub next_id: ItemId,
    /// Ids handed out for mutation since the log was last drained.
    pub touched: Seq<ItemId>,
    /// Ids inserted since the log was last drained.
    pub inserted: Seq<ItemId>,
    /// Ids removed since the log was last drained.
    pub removed: Seq<ItemId>,
}

/// The state of a new, empty board.
pub open spec fn empty_scene<T>() -> SceneView<T> {
    SceneView {
        items: Map::empty(),
        order: Seq::empty(),
        next_id: 0,
        touched: Seq::empty(),
        inserted: Seq::empty(),
        removed: Seq::empty(),
    }
}

/// `s` with every occurrence of `id` taken out, the rest in order.
pub open spec fn without_id(s: Seq<ItemId>, id: ItemId) -> Seq<ItemId>
    decreases s.len(),
{
    if s.len() == 0 {
        s
    } else if s.last() == id {
        without_id(s.drop_last(), id)
    } else {
        without_id(s.drop_last(), id).push(s.last())
    }
}

/// The position at which `insert_at` places an item asked to go to `z`.
pub open spec fn clamped_index(z: nat, len: nat) -> nat {
    if z <= len {
        z
    } else {
        len
    }
}

impl<T> SceneView<T> {
    /// An item is live exactly when its id occurs in the z-order.
    pub open spec fn wf(self) -> bool {
        forall|id: ItemId| #[trigger] self.items.contains_key(id) <==> self.order.contains(id)
    }

    /// The state after `insert(id, item)`.
    pub open spec fn after_insert(self, id: ItemId, item: T) -> SceneView<T> {
        SceneView {
            items: self.items.insert(id, item),
            order: self.order.push(id),
            inserted: self.inserted.push(id),
            ..self
        }
    }

    /// The state after `insert_at(id, item, z)`.
    pub open spec fn after_insert_at(self, id: ItemId, item: T, z: nat) -> SceneView<T> {
        SceneView {
            items: self.items.insert(id, item),
            order: self.order.insert(clamped_index(z, self.order.len()) as int, id),
            inserted: self.inserted.push(id),
            ..self
        }
    }

    /// The state after `remove(id)`.
    pub open spec fn after_remove(self, id: ItemId) -> SceneView<T> {
        SceneView {
            items: self.items.remove(id),
            order: without_id(self.order, id),
            removed: self.removed.push(id),
            ..self
        }
    }

    /// Replacing the value of a live item keeps the board well formed.
    pub proof fn lemma_replace_keeps_wf(self, id: ItemId, item: T)
        requires
            self.wf(),
            self.items.contains_key(id),
        ensures
            (SceneView { items: self.items.insert(id, item), ..self }).wf(),
    {
    }

    /// `post` differs from this state at most in the value of the item `id`.
    pub open spec fn edited_quietly(self, post: SceneView<T>, id: ItemId) -> bool {
        &&& post.items.dom() == self.items.dom()
        &&& forall|k: ItemId|
            #![trigger post.items[k]]
            self.items.contains_key(k) && k != id ==> post.items[k] == self.items[k]
        &&& post.order == self.order
        &&& post.next_id == self.next_id
        &&& post.touched == self.touched
        &&& post.inserted == self.inserted
        &&& post.removed == self.removed
    }

    /// The first position of `id` in the z-order, if it occurs.
    pub open spec fn z_index(self, id: ItemId) -> Option<nat> {
        if self.order.contains(id) {
            Some(choose|i: nat| i < self.order.len() && self.order[i as int] == id
                && forall|j: int| 0 <= j < i ==> self.order[j] != id)
        } else {
            None
        }
    }
}

/// Facts about [`without_id`]: it keeps exactly the other ids and is no
/// longer than its argument.
pub proof fn lemma_without_id(s: Seq<ItemId>, id: ItemId)
    ensures
        forall|x: ItemId| #[trigger] without_id(s, id).contains(x) <==> (s.contains(x) && x != id),
        without_id(s, id).len() <= s.len(),
        !s.contains(id) ==> without_id(s, id) == s,
    decreases s.len(),
{
    broadcast use vstd::seq_lib::lemma_seq_contains_after_push;

    if s.len() > 0 {
        lemma_without_id(s.drop_last(), id);
        assert(s =~= s.drop_last().push(s.last()));
    }
}

/// Inserting into a sequence adds exactly the inserted element.
pub proof fn lemma_insert_contains(s: Seq<ItemId>, i: int, id: ItemId)
    requires
        0 <= i <= s.len(),
    ensures
        forall|x: ItemId| #[trigger] s.insert(i, id).contains(x) <==> (s.contains(x) || x == id),
        s.insert(i, id).len() == s.len() + 1,
{
    s.insert_ensures(i, id);
    let t = s.insert(i, id);
    assert forall|x: ItemId| #[trigger] t.contains(x) <==> (s.contains(x) || x == id) by {
        if s.contains(x) {
            let k = choose|k: int| 0 <= k < s.len() && s[k] == x;
            if k < i {
                assert(t[k] == x);
            } else {
                assert(t[k + 1] == x);
            }
        }
        if x == id {
            assert(t[i] == x);
        }
        if t.contains(x) {
            let k = choose|k: int| 0 <= k < t.len() && t[k] == x;
            if k < i {
                assert(s[k] == x);
            } else if k > i {
                assert(s[k - 1] == x);
            }
        }
    }
}

/// The item store. Items live in a hash map keyed by id; the z-order is a
/// separate list of ids, bottom first.
pub struct Scene<T> {
    items: HashMap<ItemId, T>,
    order: Vec<ItemId>,
    next_id: ItemId,
    touched: Vec<ItemId>,
    inserted: Vec<ItemId>,
    removed: Vec<ItemId>,
}

impl<T> View for Scene<T> {
    type V = SceneView<T>;

    closed spec fn view(&self) -> SceneView<T> {
        SceneView {
            items: self.items@,
            order: self.order@,
            next_id: self.next_id,
            touched: self.touched@,
            inserted: self.inserted@,
            removed: self.removed@,
        }
    }
}

impl<T> Scene<T> {
    /// The board's well-formedness: its view is well formed.
    pub open spec fn wf(&self) -> bool {
        self@.wf()
    }

    /// An empty board whose first allocated id is 0.
    pub fn new() -> (s: Self)
        ensures
            s.wf(),
            s@ == empty_scene::<T>(),
    {
        let s = Scene {
            items: HashMap::new(),
            order: Vec::new(),
            next_id: 0,
            touched: Vec::new(),
            inserted: Vec::new(),
            removed: Vec::new(),
        };
        assert(s@.items =~= Map::<ItemId, T>::empty());
        s
    }

    /// The id the allocator hands out next.
    pub fn next_id(&self) -> (id: ItemId)
        ensures
            id == self@.next_id,
    {
        self.next_id
    }

    /// Hands out the next id; ids are handed out in increasing order.
    pub fn alloc_id(&mut self) -> (id: ItemId)
        requires
            old(self).view().next_id < u64::MAX,
        ensures
            id == old(self)@.next_id,
            final(self)@ == (SceneView { next_id: (id + 1) as u64, ..old(self)@ }),
    {
        let id = self.next_id;
        self.next_id = self.next_id + 1;
        id
    }

    /// Makes the allocator hand out no id below `bound`: the next id becomes
    /// `bound` when it was lower. Nothing else changes.
    pub fn reserve_ids_below(&mut self, bound: ItemId)
        ensures
            final(self)@ == (SceneView {
                next_id: if old(self)@.next_id < bound {
                    bound
                } else {
                    old(self)@.next_id
                },
                ..old(self)@
            }),
    {
        if self.next_id < bound {
            self.next_id = bound;
        }
    }

    /// Stores `item` under `id` and puts it on top of the z-order.
    pub fn insert(&mut self, id: ItemId, item: T)
        requires
            old(self).wf(),
        ensures
            final(self).wf(),
            final(self)@ == old(self)@.after_insert(id, item),
    {
        self.items.insert(id, item);
        self.order.push(id);
        self.inserted.push(id);
        proof {
            broadcast use vstd::seq_lib::lemma_seq_contains_after_push;

            assert(self@ =~= old(self)@.after_insert(id, item));
        }
    }

    /// Stores `item` under `id` at position `z` of the z-order (clamped to
    /// the top).
    pub fn insert_at(&mut self, id: ItemId, item: T, z_index: usize)
        requires
            old(self).wf(),
        ensures
            final(self).wf(),
            final(self)@ == old(self)@.after_insert_at(id, item, z_index as nat),
    {
        self.items.insert(id, item);
        let idx = if z_index < self.order.len() {
            z_index
        } else {
            self.order.len()
        };
        self.order.insert(idx, id);
        self.inserted.push(id);
        proof {
            lemma_insert_contains(old(self)@.order, idx as int, id);
            assert(self@ =~= old(self)@.after_insert_at(id, item, z_index as nat));
        }
    }

    /// Takes the item `id` off the board, with every occurrence of `id` in
    /// the z-order. The id is logged as removed whether or not it was live.
    pub fn remove(&mut self, id: ItemId)
        requires
            old(self).wf(),
        ensures
            final(self).wf(),
            final(self)@ == old(self)@.after_remove(id),
    {
        self.items.remove(&id);
        let mut kept: Vec<ItemId> = Vec::new();
        let mut i: usize = 0;
        while i < self.order.len()
            invariant
                0 <= i <= self.order.len(),
                self.order@ == old(self)@.order,
                kept@ == without_id(self.order@.take(i as int), id),
            decreases self.order.len() - i,
        {
            let x = self.order[i];
            proof {
                assert(self.order@.take(i + 1).drop_last() =~= self.order@.take(i as int));
                assert(self.order@.take(i + 1).last() == x);
            }
            if x != id {
                kept.push(x);
            }
            i = i + 1;
        }
        proof {
            assert(self.order@.take(i as int) =~= self.order@);
        }
        self.order = kept;
        self.removed.push(id);
        proof {
            lemma_without_id(old(self)@.order, id);
            assert(self@ =~= old(self)@.after_remove(id));
        }
    }

    /// The position of `id` in the z-order (its first occurrence).
    pub fn z_index_of(&self, id: ItemId) -> (r: Option<usize>)
        ensures
            match r {
                Some(i) => self@.order.contains(id) && i < self@.order.len() && self@.order[i as int] == id
                    && forall|j: int| 0 <= j < i ==> self@.order[j] != id,
                None => !self@.order.contains(id),
            },
    {
        let mut i: usize = 0;
        while i < self.order.len()
            invariant
                0 <= i <= self.order.len(),
                forall|j: int| 0 <= j < i ==> self.order@[j] != id,
            decreases self.order.len() - i,
        {
            if self.order[i] == id {
                proof {
                    assert(self@.order[i as int] == id);
                }
                return Some(i);
            }
            i = i + 1;
        }
        None
    }

    /// The z-order, bottom first.
    pub fn order_ids(&self) -> (r: Vec<ItemId>)
        ensures
            r@ == self@.order,
    {
        let mut r: Vec<ItemId> = Vec::new();
        let mut i: usize = 0;
        while i < self.order.len()
            invariant
                0 <= i <= self.order.len(),
                r@ == self.order@.take(i as int),
            decreases self.order.len() - i,
        {
            r.push(self.order[i]);
            i = i + 1;
            proof {
                assert(r@ =~= self.order@.take(i as int));
            }
        }
        proof {
            assert(self.order@.take(i as int) =~= self.order@);
        }
        r
    }

    /// The item stored under `id`.
    pub fn item(&self, id: ItemId) -> (r: Option<&T>)
        ensures
            match r {
                Some(v) => self@.items.contains_key(id) && *v == self@.items[id],
                None => !self@.items.contains_key(id),
            },
    {
        self.items.get(&id)
    }

    /// Mutable access to the item stored under `id`, logging nothing.
    fn entry_mut(&mut self, id: ItemId) -> (r: Option<&mut T>)
        requires
            old(self).wf(),
        ensures
            final(self).wf(),
            final(self)@.items.dom() == old(self)@.items.dom(),
            final(self)@.order == old(self)@.order,
            final(self)@.next_id == old(self)@.next_id,
            final(self)@.touched == old(self)@.touched,
            final(self)@.inserted == old(self)@.inserted,
            final(self)@.removed == old(self)@.removed,
            match r {
                Some(v) => old(self)@.items.contains_key(id) && *v == old(self)@.items[id]
                    && final(self)@.items == old(self)@.items.insert(id, *final(v)),
                None => !old(self)@.items.contains_key(id) && final(self)@.items == old(self)@.items,
            },
    {
        match self.items.entry(id) {
            Entry::Occupied(e) => {
                let v = e.into_mut();
                proof {
                    old(self)@.lemma_replace_keeps_wf(id, *final(v));
                }
                Some(v)
            },
            Entry::Vacant(_) => {
                assert(old(self)@.items.remove(id) =~= old(self)@.items);
                None
            },
        }
    }

    /// Takes the item `id` out of the store for an edit and logs the id as
    /// touched; the edited item goes back with [`Scene::put_back`].
    pub(crate) fn take_for_edit(&mut self, id: ItemId) -> (r: Option<T>)
        ensures
            final(self)@ == (SceneView {
                items: old(self)@.items.remove(id),
                touched: old(self)@.touched.push(id),
                ..old(self)@
            }),
            match r {
                Some(v) => old(self)@.items.contains_key(id) && v == old(self)@.items[id],
                None => !old(self)@.items.contains_key(id),
            },
    {
        self.touched.push(id);
        let r = self.items.remove(&id);
        proof {
            assert(self@ =~= (SceneView {
                items: old(self)@.items.remove(id),
                touched: old(self)@.touched.push(id),
                ..old(self)@
            }));
        }
        r
    }

    /// Stores an edited item under `id` again, logging nothing.
    pub(crate) fn put_back(&mut self, id: ItemId, item: T)
        ensures
            final(self)@ == (SceneView { items: old(self)@.items.insert(id, item), ..old(self)@ }),
    {
        self.items.insert(id, item);
        proof {
            assert(self@ =~= (SceneView { items: old(self)@.items.insert(id, item), ..old(self)@ }));
        }
    }

    /// Mutable access to the item stored under `id`. The id is logged as
    /// touched whether or not it is live; the z-order does not change.
    pub fn item_mut(&mut self, id: ItemId) -> (r: Option<&mut T>)
        requires
            old(self).wf(),
        ensures
            final(self)@.items.dom() == old(self)@.items.dom(),
            final(self).wf(),
            final(self)@.order == old(self)@.order,
            final(self)@.next_id == old(self)@.next_id,
            final(self)@.touched == old(self)@.touched.push(id),
            final(self)@.inserted == old(self)@.inserted,
            final(self)@.removed == old(self)@.removed,
            match r {
                Some(v) => old(self)@.items.contains_key(id) && *v == old(self)@.items[id]
                    && final(self)@.items == old(self)@.items.insert(id, *final(v)),
                None => !old(self)@.items.contains_key(id) && final(self)@.items == old(self)@.items,
            },
    {
        self.touched.push(id);
        assert(self@.items == old(self)@.items && self@.order == old(self)@.order);
        self.entry_mut(id)
    }

    /// Hands out the log of touched ids and starts a new one.
    pub fn take_touched(&mut self) -> (log: Vec<ItemId>)
        ensures
            log@ == old(self)@.touched,
            final(self)@ == (SceneView { touched: Seq::empty(), ..old(self)@ }),
    {
        let mut log: Vec<ItemId> = Vec::new();
        std::mem::swap(&mut log, &mut self.touched);
        proof {
            assert(self@ =~= (SceneView { touched: Seq::empty(), ..old(self)@ }));
        }
        log
    }

    /// Hands out the log of inserted ids and starts a new one.
    pub fn take_inserted(&mut self) -> (log: Vec<ItemId>)
        ensures
            log@ == old(self)@.inserted,
            final(self)@ == (SceneView { inserted: Seq::empty(), ..old(self)@ }),
    {
        let mut log: Vec<ItemId> = Vec::new();
        std::mem::swap(&mut log, &mut self.inserted);
        proof {
            assert(self@ =~= (SceneView { inserted: Seq::empty(), ..old(self)@ }));
        }
        log
    }

    /// Hands out the log of removed ids and starts a new one.
    pub fn take_removed(&mut self) -> (log: Vec<ItemId>)
        ensures
            log@ == old(self)@.removed,
            final(self)@ == (SceneView { removed: Seq::empty(), ..old(self)@ }),
    {
        let mut log: Vec<ItemId> = Vec::new();
        std::mem::swap(&mut log, &mut self.removed);
        proof {
            assert(self@ =~= (SceneView { removed: Seq::empty(), ..old(self)@ }));
        }
        log
    }

    /// The items in z-order, bottom first, each with its id.
    pub fn iter_ordered_with_id(&self) -> (r: Vec<(ItemId, &T)>)
        requires
            self.wf(),
        ensures
            r.len() == self@.order.len(),
            forall|i: int|
                0 <= i < r.len() ==> (#[trigger] r@[i]).0 == self@.order[i] && *r@[i].1
                    == self@.items[self@.order[i]],
    {
        let mut r: Vec<(ItemId, &T)> = Vec::new();
        let mut i: usize = 0;
        while i < self.order.len()
            invariant
                self.wf(),
                0 <= i <= self.order.len(),
                r.len() == i,
                forall|a: int|
                    0 <= a < i ==> (#[trigger] r@[a]).0 == self@.order[a] && *r@[a].1
                        == self@.items[self@.order[a]],
            decreases self.order.len() - i,
        {
            let id = self.order[i];
            proof {
                assert(self@.order.contains(id)) by {
                    assert(self@.order[i as int] == id);
                }
                assert(self@.items.contains_key(id));
            }
            match self.items.get(&id) {
                Some(item) => r.push((id, item)),
                None => {
                    assert(false);
                },
            }
            i = i + 1;
        }
        r
    }

    /// The items in z-order, top first, each with its id.
    pub fn iter_ordered_with_id_rev(&self) -> (r: Vec<(ItemId, &T)>)
        requires
            self.wf(),
        ensures
            r.len() == self@.order.len(),
            forall|i: int|
                0 <= i < r.len() ==> (#[trigger] r@[i]).0 == self@.order[self@.order.len() - 1 - i]
                    && *r@[i].1 == self@.items[self@.order[self@.order.len() - 1 - i]],
    {
        let mut r: Vec<(ItemId, &T)> = Vec::new();
        let mut i: usize = self.order.len();
        while i > 0
            invariant
                self.wf(),
                0 <= i <= self.order.len(),
                r.len() == self.order.len() - i,
                forall|a: int|
                    0 <= a < r.len() ==> (#[trigger] r@[a]).0 == self@.order[self@.order.len() - 1 - a]
                        && *r@[a].1 == self@.items[self@.order[self@.order.len() - 1 - a]],
            decreases i,
        {
            i = i - 1;
            let id = self.order[i];
            proof {
                assert(self@.order.contains(id)) by {
                    assert(self@.order[i as int] == id);
                }
                assert(self@.items.contains_key(id));
            }
            match self.items.get(&id) {
                Some(item) => r.push((id, item)),
                None => {
                    assert(false);
                },
            }
        }
        r
    }

    /// The items in z-order, bottom first.
    pub fn iter_ordered(&self) -> (r: Vec<&T>)
        requires
            self.wf(),
        ensures
            r.len() == self@.order.len(),
            forall|i: int| 0 <= i < r.len() ==> *(#[trigger] r@[i]) == self@.items[self@.order[i]],
    {
        let mut r: Vec<&T> = Vec::new();
        let mut i: usize = 0;
        while i < self.order.len()
            invariant
                self.wf(),
                0 <= i <= self.order.len(),
                r.len() == i,
                forall|a: int| 0 <= a < i ==> *(#[trigger] r@[a]) == self@.items[self@.order[a]],
            decreases self.order.len() - i,
        {
            let id = self.order[i];
            proof {
                assert(self@.order.contains(id)) by {
                    assert(self@.order[i as int] == id);
                }
                assert(self@.items.contains_key(id));
            }
            match self.items.get(&id) {
                Some(item) => r.push(item),
                None => {
                    assert(false);
                },
            }
            i = i + 1;
        }
        r
    }
}

impl<T: BoardItem> Scene<T> {
    /// Clears the rebuild flag of the item `id` if it is a stroke: a live
    /// item becomes what its own `mark_stroke_clean` makes of it. Nothing is
    /// logged, no other item changes, and a missing id changes nothing.
    pub fn mark_stroke_clean(&mut self, id: ItemId)
        requires
            old(self).wf(),
        ensures
            final(self).wf(),
            old(self)@.edited_quietly(final(self)@, id),
            old(self)@.items.contains_key(id) ==> exists|m: &mut T|
                #[trigger] call_ensures(T::mark_stroke_clean, (m,), ()) && *m == old(self)@.items[id]
                    && *final(m) == final(self)@.items[id],
            !old(self)@.items.contains_key(id) ==> final(self)@ == old(self)@,
    {
        match self.entry_mut(id) {
            Some(item) => item.mark_stroke_clean(),
            None => {},
        }
    }

    /// Clears the rebuild flag of the item `id` if it is a shape: a live
    /// item becomes what its own `mark_shape_clean` makes of it. Nothing is
    /// logged, no other item changes, and a missing id changes nothing.
    pub fn mark_shape_clean(&mut self, id: ItemId)
        requires
            old(self).wf(),
        ensures
            final(self).wf(),
            old(self)@.edited_quietly(final(self)@, id),
            old(self)@.items.contains_key(id) ==> exists|m: &mut T|
                #[trigger] call_ensures(T::mark_shape_clean, (m,), ()) && *m == old(self)@.items[id]
                    && *final(m) == final(self)@.items[id],
            !old(self)@.items.contains_key(id) ==> final(self)@ == old(self)@,
    {
        match self.entry_mut(id) {
            Some(item) => item.mark_shape_clean(),
            None => {},
        }
    }

    /// Clears the rebuild flag of the item `id` if it is an image: a live
    /// item becomes what its own `mark_image_clean` makes of it. Nothing is
    /// logged, no other item changes, and a missing id changes nothing.
    pub fn mark_image_clean(&mut self, id: ItemId)
        requires
            old(self).wf(),
        ensures
            final(self).wf(),
            old(self)@.edited_quietly(final(self)@, id),
            old(self)@.items.contains_key(id) ==> exists|m: &mut T|
                #[trigger] call_ensures(T::mark_image_clean, (m,), ()) && *m == old(self)@.items[id]
                    && *final(m) == final(self)@.items[id],
            !old(self)@.items.contains_key(id) ==> final(self)@ == old(self)@,
    {
        match self.entry_mut(id) {
            Some(item) => item.mark_image_clean(),
            None => {},
        }
    }
}

} // verus!
