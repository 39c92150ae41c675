//! Undoable edits of the board. Each command knows how to apply itself to a
//! [`Scene`] and how to take itself back.
use crate::scene::{BoardItem, ItemId, Scene, SceneView};
use vstd::prelude::*;

verus! {

/// An entry of a deletion: the id, the item as it was, and its z-position.
pub type Removed<T> = (ItemId, T, usize);

/// Adds one item on top of the board.
pub struct AddItem<T> {
    pub id: ItemId,
    pub item: T,
}

/// Deletes items; undo puts them back at their recorded z-positions.
pub struct DeleteItems<T> {
    pub removed: Vec<Removed<T>>,
}

/// Moves items by one offset.
pub struct MoveItems<O> {
    pub ids: Vec<ItemId>,
    pub delta: O,
}

/// Changes the bounds of an image.
pub struct ResizeImage<B> {
    pub id: ItemId,
    pub before: B,
    pub after: B,
}

/// Changes the pose of a shape.
pub struct TransformShape<P> {
    pub id: ItemId,
    pub before: P,
    pub after: P,
}

/// Clears the whole board; undo restores every item at its z-position.
pub struct ClearAll<T> {
    pub items: Vec<Removed<T>>,
}

/// Every edit the history can hold.
pub enum Command<T: BoardItem> {
    AddItem(AddItem<T>),
    DeleteItems(DeleteItems<T>),
    MoveItems(MoveItems<T::Offset>),
    ResizeImage(ResizeImage<T::Bounds>),
    TransformShape(TransformShape<T::Pose>),
    ClearAll(ClearAll<T>),
}

/// The ids of a list of deletion entries.
pub open spec fn entry_ids<T>(entries: Seq<Removed<T>>) -> Seq<ItemId> {
    entries.map_values(|e: Removed<T>| e.0)
}

/// The recorded z-positions of a list of deletion entries.
pub open spec fn entry_keys<T>(entries: Seq<Removed<T>>) -> Seq<nat> {
    entries.map_values(|e: Removed<T>| e.2 as nat)
}

/// `p` lists the positions `0..keys.len()` ordered by key, equal keys in
/// the order they come in: the order a stable sort by key produces.
pub open spec fn stably_sorts(p: Seq<int>, keys: Seq<nat>) -> bool {
    &&& p.len() == keys.len()
    &&& forall|i: int| 0 <= i < p.len() ==> 0 <= #[trigger] p[i] < keys.len()
    &&& forall|k: int| 0 <= k < keys.len() ==> #[trigger] p.contains(k)
    &&& forall|a: int, b: int|
        #![trigger p[a], p[b]]
        0 <= a < b < p.len() ==> (keys[p[a]] < keys[p[b]] || (keys[p[a]] == keys[p[b]] && p[a]
            < p[b]))
}

/// The entries rearranged by the positions `p`.
pub open spec fn permuted<A>(s: Seq<A>, p: Seq<int>) -> Seq<A> {
    Seq::new(p.len(), |j: int| s[p[j]])
}

/// `b` is `a` after `step` was taken on the item `id`, if it is live:
/// `step(x, y)` says that the item `x` is edited into `y`.
pub open spec fn edit_one<T>(a: Map<ItemId, T>, id: ItemId, b: Map<ItemId, T>, step: spec_fn(T, T) -> bool) -> bool {
    if a.contains_key(id) {
        step(a[id], b[id]) && b == a.insert(id, b[id])
    } else {
        b == a
    }
}

/// `tr` lists the item maps from `pre` to `post`, one edit of `ids` at a
/// time.
pub open spec fn edit_trace<T>(
    pre: Map<ItemId, T>,
    ids: Seq<ItemId>,
    post: Map<ItemId, T>,
    step: spec_fn(T, T) -> bool,
    tr: Seq<Map<ItemId, T>>,
) -> bool {
    &&& tr.len() == ids.len() + 1
    &&& tr[0] == pre
    &&& tr[ids.len() as int] == post
    &&& forall|j: int| 0 <= j < ids.len() ==> #[trigger] edit_one(tr[j], ids[j], tr[j + 1], step)
}

/// `post` is `pre` after `step` was taken on the item of each of `ids` that
/// is live at its turn, in order. Ids that are not live are passed over.
pub open spec fn edits_into<T>(
    pre: Map<ItemId, T>,
    ids: Seq<ItemId>,
    post: Map<ItemId, T>,
    step: spec_fn(T, T) -> bool,
) -> bool {
    exists|tr: Seq<Map<ItemId, T>>| #[trigger] edit_trace(pre, ids, post, step, tr)
}

/// A move of one item: what the item type's `translated` (or, backwards,
/// `translated_back`) makes of it.
pub open spec fn move_step<T: BoardItem>(delta: T::Offset, forward: bool) -> spec_fn(T, T) -> bool {
    if forward {
        |a: T, b: T| call_ensures(T::translated, (a, &delta), b)
    } else {
        |a: T, b: T| call_ensures(T::translated_back, (a, &delta), b)
    }
}

/// Setting an image's bounds: what the item type's `with_image_bounds`
/// makes of the item.
pub open spec fn bounds_step<T: BoardItem>(bounds: T::Bounds) -> spec_fn(T, T) -> bool {
    |a: T, b: T| call_ensures(T::with_image_bounds, (a, &bounds), b)
}

/// Setting a shape's pose: what the item type's `with_shape_pose` makes of
/// the item.
pub open spec fn pose_step<T: BoardItem>(pose: T::Pose) -> spec_fn(T, T) -> bool {
    |a: T, b: T| call_ensures(T::with_shape_pose, (a, &pose), b)
}

impl<T> SceneView<T> {
    /// The state after removing each of `ids`, in order.
    pub open spec fn after_remove_all(self, ids: Seq<ItemId>) -> SceneView<T>
        decreases ids.len(),
    {
        if ids.len() == 0 {
            self
        } else {
            self.after_remove_all(ids.drop_last()).after_remove(ids.last())
        }
    }

    /// The state after inserting `vals[j]` under `ids[j]` at z-position
    /// `zs[j]`, for each `j` in order.
    pub open spec fn after_insert_all(self, ids: Seq<ItemId>, vals: Seq<T>, zs: Seq<nat>) -> SceneView<T>
        decreases ids.len(),
    {
        if ids.len() == 0 {
            self
        } else {
            self.after_insert_all(ids.drop_last(), vals.drop_last(), zs.drop_last()).after_insert_at(
                ids.last(),
                vals.last(),
                zs.last(),
            )
        }
    }

    /// `post` is this state after the items `ids` were handed out for a
    /// geometric edit: the same items and z-order, every item outside `ids`
    /// unchanged, and `ids` appended to the touched log.
    pub open spec fn edited_into(self, post: SceneView<T>, ids: Seq<ItemId>) -> bool {
        &&& post.items.dom() == self.items.dom()
        &&& forall|k: ItemId|
            #![trigger post.items[k]]
            self.items.contains_key(k) && !ids.contains(k) ==> post.items[k] == self.items[k]
        &&& post.order == self.order
        &&& post.next_id == self.next_id
        &&& post.touched == self.touched + ids
        &&& post.inserted == self.inserted
        &&& post.removed == self.removed
    }

    /// `post` is this state after the deletion entries were put back: the
    /// entries, stably sorted by z-position, are inserted one by one, each
    /// with a clone of its recorded item.
    pub open spec fn restored_into(self, post: SceneView<T>, entries: Seq<Removed<T>>) -> bool
        where T: Clone
    {
        exists|p: Seq<int>, vals: Seq<T>|
            {
                &&& stably_sorts(p, entry_keys(entries))
                &&& vals.len() == entries.len()
                &&& forall|j: int|
                    0 <= j < vals.len() ==> cloned::<T>(#[trigger] entries[p[j]].1, vals[j])
                &&& post == self.after_insert_all(
                    permuted(entry_ids(entries), p),
                    vals,
                    permuted(entry_keys(entries), p),
                )
            }
    }
}

impl<T: BoardItem + Clone> Command<T> {
    /// The ids a geometric command hands out for editing.
    pub open spec fn edited_ids(self) -> Seq<ItemId> {
        match self {
            Command::MoveItems(c) => c.ids@,
            Command::ResizeImage(c) => seq![c.id],
            Command::TransformShape(c) => seq![c.id],
            _ => Seq::empty(),
        }
    }

    /// The edit a geometric command takes on each item it names, applied
    /// (`forward`) or taken back: a move by its offset (back by the same
    /// offset), a resize to its bounds after (before), a transform to its
    /// pose after (before).
    pub open spec fn edit_step(self, forward: bool) -> spec_fn(T, T) -> bool {
        match self {
            Command::MoveItems(c) => move_step::<T>(c.delta, forward),
            Command::ResizeImage(c) => bounds_step::<T>(if forward { c.after } else { c.before }),
            Command::TransformShape(c) => pose_step::<T>(if forward { c.after } else { c.before }),
            _ => |a: T, b: T| a == b,
        }
    }

    /// What applying the command does to a board.
    pub open spec fn applied(self, pre: SceneView<T>, post: SceneView<T>) -> bool {
        match self {
            Command::AddItem(c) => exists|v: T|
                cloned::<T>(c.item, v) && post == #[trigger] pre.after_insert(c.id, v),
            Command::DeleteItems(c) => post == pre.after_remove_all(entry_ids(c.removed@)),
            Command::ClearAll(c) => post == pre.after_remove_all(entry_ids(c.items@)),
            _ => {
                &&& pre.edited_into(post, self.edited_ids())
                &&& edits_into(pre.items, self.edited_ids(), post.items, self.edit_step(true))
            },
        }
    }

    /// What taking the command back does to a board.
    pub open spec fn undone(self, pre: SceneView<T>, post: SceneView<T>) -> bool {
        match self {
            Command::AddItem(c) => post == pre.after_remove(c.id),
            Command::DeleteItems(c) => pre.restored_into(post, c.removed@),
            Command::ClearAll(c) => pre.restored_into(post, c.items@),
            _ => {
                &&& pre.edited_into(post, self.edited_ids())
                &&& edits_into(pre.items, self.edited_ids(), post.items, self.edit_step(false))
            },
        }
    }
}

/// The positions `0..keys.len()` in the order of a stable sort by key.
#[verifier::rlimit(40)]
pub fn stable_order_by_key(keys: &Vec<usize>) -> (p: Vec<usize>)
    ensures
        stably_sorts(p@.map_values(|i: usize| i as int), keys@.map_values(|k: usize| k as nat)),
{
    let ghost ks = keys@.map_values(|k: usize| k as nat);
    let mut p: Vec<usize> = Vec::new();
    let mut i: usize = 0;
    while i < keys.len()
        invariant
            0 <= i <= keys.len(),
            ks == keys@.map_values(|k: usize| k as nat),
            p.len() == i,
            forall|a: int| 0 <= a < p.len() ==> #[trigger] p@[a] < i,
            forall|k: usize| k < i ==> #[trigger] p@.contains(k),
            forall|a: int, b: int|
                #![trigger p@[a], p@[b]]
                0 <= a < b < p.len() ==> (keys@[p@[a] as int] < keys@[p@[b] as int] || (keys@[p@[a] as int]
                    == keys@[p@[b] as int] && p@[a] < p@[b])),
        decreases keys.len() - i,
    {
        let k = keys[i];
        let mut pos: usize = 0;
        while pos < p.len() && keys[p[pos]] <= k
            invariant
                0 <= pos <= p.len(),
                p.len() == i,
                i < keys.len(),
                k == keys@[i as int],
                forall|a: int| 0 <= a < p.len() ==> #[trigger] p@[a] < i,
                forall|a: int| 0 <= a < pos ==> keys@[#[trigger] p@[a] as int] <= k,
            decreases p.len() - pos,
        {
            pos = pos + 1;
        }
        let ghost old_p = p@;
        p.insert(pos, i);
        proof {
            old_p.insert_ensures(pos as int, i);
            assert forall|k: usize| k < i + 1 implies #[trigger] p@.contains(k) by {
                if k == i {
                    assert(p@[pos as int] == i);
                } else {
                    assert(old_p.contains(k));
                    let a = choose|a: int| 0 <= a < old_p.len() && old_p[a] == k;
                    if a < pos {
                        assert(p@[a] == k);
                    } else {
                        assert(p@[a + 1] == k);
                    }
                }
            }
            assert forall|a: int, b: int|
                #![trigger p@[a], p@[b]]
                0 <= a < b < p.len() implies (keys@[p@[a] as int] < keys@[p@[b] as int] || (keys@[p@[a] as int]
                    == keys@[p@[b] as int] && p@[a] < p@[b])) by {
                if a < pos && b == pos {
                    assert(keys@[old_p[a] as int] <= k);
                } else if a == pos && b > pos {
                    assert(p@[b] == old_p[b - 1]);
                    if pos < old_p.len() {
                        assert(keys@[old_p[pos as int] as int] > k);
                        if b - 1 > pos {
                            assert(old_p[pos as int] == p@[pos + 1]);
                        }
                    }
                } else if a < pos && b > pos {
                    assert(p@[b] == old_p[b - 1]);
                } else if a > pos {
                    assert(p@[a] == old_p[a - 1]);
                    assert(p@[b] == old_p[b - 1]);
                }
            }
        }
        i = i + 1;
    }
    proof {
        let pp = p@.map_values(|x: usize| x as int);
        assert forall|a: int, b: int|
            #![trigger pp[a], pp[b]]
            0 <= a < b < pp.len() implies (ks[pp[a]] < ks[pp[b]] || (ks[pp[a]] == ks[pp[b]] && pp[a]
                < pp[b])) by {
            assert(pp[a] == p@[a] as int);
            assert(pp[b] == p@[b] as int);
        }
        assert forall|a: int| 0 <= a < pp.len() implies 0 <= #[trigger] pp[a] < ks.len() by {
            assert(pp[a] == p@[a] as int);
        }
        assert forall|k: int| 0 <= k < ks.len() implies #[trigger] pp.contains(k) by {
            assert(p@.contains(k as usize));
            let a = choose|a: int| 0 <= a < p@.len() && p@[a] == k as usize;
            assert(pp[a] == k);
        }
    }
    p
}

/// Removes the item of each entry, in order.
fn remove_entries<T>(entries: &Vec<Removed<T>>, scene: &mut Scene<T>)
    requires
        old(scene).wf(),
    ensures
        final(scene).wf(),
        final(scene)@ == old(scene)@.after_remove_all(entry_ids(entries@)),
{
    let ghost pre = scene@;
    let mut i: usize = 0;
    while i < entries.len()
        invariant
            0 <= i <= entries.len(),
            scene.wf(),
            scene@ == pre.after_remove_all(entry_ids(entries@).take(i as int)),
        decreases entries.len() - i,
    {
        let id = entries[i].0;
        scene.remove(id);
        proof {
            let ids = entry_ids(entries@);
            assert(ids.take(i + 1).drop_last() =~= ids.take(i as int));
            assert(ids.take(i + 1).last() == id);
        }
        i = i + 1;
    }
    proof {
        assert(entry_ids(entries@).take(i as int) =~= entry_ids(entries@));
    }
}

/// Puts the entries back: stably sorted by recorded z-position, each one is
/// inserted with a clone of its recorded item at its recorded position.
fn restore_entries<T: Clone>(entries: &Vec<Removed<T>>, scene: &mut Scene<T>)
    requires
        old(scene).wf(),
    ensures
        final(scene).wf(),
        old(scene)@.restored_into(final(scene)@, entries@),
{
    let ghost pre = scene@;
    let mut keys: Vec<usize> = Vec::new();
    let mut i: usize = 0;
    while i < entries.len()
        invariant
            0 <= i <= entries.len(),
            keys.len() == i,
            forall|a: int| 0 <= a < i ==> #[trigger] keys@[a] == entries@[a].2,
        decreases entries.len() - i,
    {
        keys.push(entries[i].2);
        i = i + 1;
    }
    let order = stable_order_by_key(&keys);
    let ghost p = order@.map_values(|x: usize| x as int);
    let ghost ks = entry_keys(entries@);
    proof {
        assert(keys@.map_values(|k: usize| k as nat) =~= ks);
    }
    let ghost ids_s = permuted(entry_ids(entries@), p);
    let ghost zs_s = permuted(ks, p);
    let ghost mut vals: Seq<T> = Seq::empty();
    let mut j: usize = 0;
    while j < order.len()
        invariant
            0 <= j <= order.len(),
            order.len() == entries.len(),
            p == order@.map_values(|x: usize| x as int),
            stably_sorts(p, ks),
            ks == entry_keys(entries@),
            ids_s == permuted(entry_ids(entries@), p),
            zs_s == permuted(ks, p),
            scene.wf(),
            vals.len() == j,
            forall|a: int| 0 <= a < j ==> cloned::<T>(#[trigger] entries@[p[a]].1, vals[a]),
            scene@ == pre.after_insert_all(ids_s.take(j as int), vals, zs_s.take(j as int)),
        decreases order.len() - j,
    {
        let k = order[j];
        proof {
            assert(p[j as int] == k as int);
            assert(0 <= p[j as int] < ks.len());
        }
        let e = &entries[k];
        let v = e.1.clone();
        scene.insert_at(e.0, v, e.2);
        proof {
            let ghost old_vals = vals;
            vals = vals.push(v);
            assert(ids_s.take(j + 1).drop_last() =~= ids_s.take(j as int));
            assert(zs_s.take(j + 1).drop_last() =~= zs_s.take(j as int));
            assert(vals.drop_last() =~= old_vals);
            assert(ids_s.take(j + 1).last() == e.0);
            assert(zs_s.take(j + 1).last() == e.2 as nat);
            assert forall|a: int| 0 <= a < j + 1 implies cloned::<T>(#[trigger] entries@[p[a]].1, vals[a]) by {
                if a < j {
                    assert(vals[a] == old_vals[a]);
                }
            }
        }
        j = j + 1;
    }
    proof {
        assert(ids_s.take(j as int) =~= ids_s);
        assert(zs_s.take(j as int) =~= zs_s);
        assert(pre.restored_into(scene@, entries@));
    }
}

impl<T: BoardItem + Clone> Command<T> {
    /// Applies the command to the board.
    pub fn apply(&self, scene: &mut Scene<T>)
        requires
            old(scene).wf(),
        ensures
            final(scene).wf(),
            self.applied(old(scene)@, final(scene)@),
    {
        match self {
            Command::AddItem(c) => {
                let ghost pre = scene@;
                let v = c.item.clone();
                scene.insert(c.id, v);
                proof {
                    assert(cloned::<T>(c.item, v));
                    assert(scene@ == pre.after_insert(c.id, v));
                }
            },
            Command::DeleteItems(c) => remove_entries(&c.removed, scene),
            Command::ClearAll(c) => remove_entries(&c.items, scene),
            Command::MoveItems(c) => {
                edit_each(&c.ids, scene, &c.delta, true);
            },
            Command::ResizeImage(c) => set_bounds_of(scene, c.id, &c.after),
            Command::TransformShape(c) => set_pose_of(scene, c.id, &c.after),
        }
    }

    /// Takes the command back.
    pub fn undo(&self, scene: &mut Scene<T>)
        requires
            old(scene).wf(),
        ensures
            final(scene).wf(),
            self.undone(old(scene)@, final(scene)@),
    {
        match self {
            Command::AddItem(c) => scene.remove(c.id),
            Command::DeleteItems(c) => restore_entries(&c.removed, scene),
            Command::ClearAll(c) => restore_entries(&c.items, scene),
            Command::MoveItems(c) => {
                edit_each(&c.ids, scene, &c.delta, false);
            },
            Command::ResizeImage(c) => set_bounds_of(scene, c.id, &c.before),
            Command::TransformShape(c) => set_pose_of(scene, c.id, &c.before),
        }
    }
}

/// Edits the item `id`, if it is live, into what `step` relates it to:
/// the facts a one-item edit leaves, given the edited item `new` of `old`.
proof fn lemma_edit_one<T>(
    pre: SceneView<T>,
    post: SceneView<T>,
    id: ItemId,
    step: spec_fn(T, T) -> bool,
)
    requires
        pre.wf(),
        post.order == pre.order,
        post.next_id == pre.next_id,
        post.touched == pre.touched.push(id),
        post.inserted == pre.inserted,
        post.removed == pre.removed,
        pre.items.contains_key(id) ==> step(pre.items[id], post.items[id]) && post.items == pre.items.insert(
            id,
            post.items[id],
        ),
        !pre.items.contains_key(id) ==> post.items == pre.items,
    ensures
        post.wf(),
        pre.edited_into(post, seq![id]),
        edits_into(pre.items, seq![id], post.items, step),
{
    let tr = seq![pre.items, post.items];
    assert(edit_one(tr[0], seq![id][0], tr[1], step));
    assert(edit_trace(pre.items, seq![id], post.items, step, tr));
    assert(post.touched =~= pre.touched + seq![id]);
    assert(post.items.dom() =~= pre.items.dom());
    assert(seq![id][0] == id);
    assert forall|k: ItemId| #[trigger] post.items.contains_key(k) <==> post.order.contains(k) by {
        assert(post.items.contains_key(k) == pre.items.contains_key(k));
    }
}

/// Gives the item `id`, if it is live, the image bounds `bounds`.
fn set_bounds_of<T: BoardItem>(scene: &mut Scene<T>, id: ItemId, bounds: &T::Bounds)
    requires
        old(scene).wf(),
    ensures
        final(scene).wf(),
        old(scene)@.edited_into(final(scene)@, seq![id]),
        edits_into(old(scene)@.items, seq![id], final(scene)@.items, bounds_step::<T>(*bounds)),
{
    let ghost pre = scene@;
    match scene.take_for_edit(id) {
        Some(item) => {
            let edited = item.with_image_bounds(bounds);
            scene.put_back(id, edited);
            proof {
                assert(scene@.items =~= pre.items.insert(id, edited));
            }
        },
        None => {
            assert(pre.items.remove(id) =~= pre.items);
        },
    }
    proof {
        lemma_edit_one(pre, scene@, id, bounds_step::<T>(*bounds));
    }
}

/// Gives the item `id`, if it is live, the shape pose `pose`.
fn set_pose_of<T: BoardItem>(scene: &mut Scene<T>, id: ItemId, pose: &T::Pose)
    requires
        old(scene).wf(),
    ensures
        final(scene).wf(),
        old(scene)@.edited_into(final(scene)@, seq![id]),
        edits_into(old(scene)@.items, seq![id], final(scene)@.items, pose_step::<T>(*pose)),
{
    let ghost pre = scene@;
    match scene.take_for_edit(id) {
        Some(item) => {
            let edited = item.with_shape_pose(pose);
            scene.put_back(id, edited);
            proof {
                assert(scene@.items =~= pre.items.insert(id, edited));
            }
        },
        None => {
            assert(pre.items.remove(id) =~= pre.items);
        },
    }
    proof {
        lemma_edit_one(pre, scene@, id, pose_step::<T>(*pose));
    }
}

/// Moves each listed item that is on the board, forward by `delta` or back,
/// in the order listed.
fn edit_each<T: BoardItem>(ids: &Vec<ItemId>, scene: &mut Scene<T>, delta: &T::Offset, forward: bool)
    requires
        old(scene).wf(),
    ensures
        final(scene).wf(),
        old(scene)@.edited_into(final(scene)@, ids@),
        edits_into(old(scene)@.items, ids@, final(scene)@.items, move_step::<T>(*delta, forward)),
{
    let ghost pre = scene@;
    let ghost step = move_step::<T>(*delta, forward);
    let ghost mut tr: Seq<Map<ItemId, T>> = seq![pre.items];
    let mut i: usize = 0;
    proof {
        assert(ids@.take(0) =~= Seq::<ItemId>::empty());
        assert(pre.touched + ids@.take(0) =~= pre.touched);
        assert(edit_trace(pre.items, ids@.take(0), scene@.items, step, tr));
    }
    while i < ids.len()
        invariant
            0 <= i <= ids.len(),
            scene.wf(),
            step == move_step::<T>(*delta, forward),
            pre.edited_into(scene@, ids@.take(i as int)),
            edit_trace(pre.items, ids@.take(i as int), scene@.items, step, tr),
        decreases ids.len() - i,
    {
        let id = ids[i];
        let ghost before = scene@;
        match scene.take_for_edit(id) {
            Some(item) => {
                let edited = if forward {
                    item.translated(delta)
                } else {
                    item.translated_back(delta)
                };
                scene.put_back(id, edited);
                proof {
                    assert(scene@.items =~= before.items.insert(id, edited));
                    assert(step(before.items[id], edited));
                }
            },
            None => {
                assert(before.items.remove(id) =~= before.items);
            },
        }
        proof {
            lemma_edit_one(before, scene@, id, step);
            let t = ids@.take(i + 1);
            assert(t =~= ids@.take(i as int).push(id));
            let old_tr = tr;
            tr = tr.push(scene@.items);
            assert(edit_one(before.items, id, scene@.items, step));
            assert forall|j: int| 0 <= j < t.len() implies #[trigger] edit_one(tr[j], t[j], tr[j + 1], step) by {
                if j < i {
                    assert(tr[j] == old_tr[j] && tr[j + 1] == old_tr[j + 1]);
                    assert(t[j] == ids@.take(i as int)[j]);
                }
            }
            assert(edit_trace(pre.items, t, scene@.items, step, tr));
            assert(scene@.touched =~= pre.touched + t);
            assert forall|k: ItemId|
                #![trigger scene@.items[k]]
                pre.items.contains_key(k) && !t.contains(k) implies scene@.items[k] == pre.items[k] by {
                assert(!ids@.take(i as int).contains(k)) by {
                    if ids@.take(i as int).contains(k) {
                        let a = choose|a: int| 0 <= a < i && ids@.take(i as int)[a] == k;
                        assert(t[a] == k);
                    }
                }
                assert(k != id) by {
                    assert(t[i as int] == id);
                }
                assert(before.items[k] == pre.items[k]);
                assert(!seq![id].contains(k)) by {
                    if seq![id].contains(k) {
                        assert(seq![id][0] == k);
                    }
                }
            }
        }
        i = i + 1;
    }
    proof {
        assert(ids@.take(i as int) =~= ids@);
        assert(edit_trace(pre.items, ids@, scene@.items, step, tr));
    }
}

/// Takes the item `id` off the board and returns what a deletion records
/// for it: the id, a clone of the item, and its z-position. Nothing happens
/// when the item is not on the board.
pub fn take_item<T: Clone>(scene: &mut Scene<T>, id: ItemId) -> (r: Option<Removed<T>>)
    requires
        old(scene).wf(),
    ensures
        final(scene).wf(),
        match r {
            Some(e) => {
                &&& old(scene)@.items.contains_key(id)
                &&& e.0 == id
                &&& cloned::<T>(old(scene)@.items[id], e.1)
                &&& old(scene)@.z_index(id) == Some(e.2 as nat)
                &&& final(scene)@ == old(scene)@.after_remove(id)
            },
            None => !old(scene)@.items.contains_key(id) && final(scene)@ == old(scene)@,
        },
{
    let item = match scene.item(id) {
        Some(v) => v.clone(),
        None => return None,
    };
    let z = match scene.z_index_of(id) {
        Some(z) => z,
        None => {
            assert(false);
            0
        },
    };
    proof {
        let v = scene@;
        let zz = choose|i: nat| i < v.order.len() && v.order[i as int] == id
            && forall|j: int| 0 <= j < i ==> v.order[j] != id;
        assert(zz == z as nat) by {
            if zz < z {
                assert(v.order[zz as int] == id);
            } else if zz > z {
                assert(v.order[z as int] == id);
            }
        }
    }
    scene.remove(id);
    Some((id, item, z))
}

/// What clearing the board records: every item in z-order, each with its id,
/// a clone of the item, and its position.
pub fn snapshot_all<T: Clone>(scene: &Scene<T>) -> (r: Vec<Removed<T>>)
    requires
        scene.wf(),
    ensures
        r.len() == scene@.order.len(),
        forall|i: int|
            0 <= i < r.len() ==> {
                &&& (#[trigger] r@[i]).0 == scene@.order[i]
                &&& cloned::<T>(scene@.items[scene@.order[i]], r@[i].1)
                &&& r@[i].2 == i
            },
{
    let ordered = scene.iter_ordered_with_id();
    let mut r: Vec<Removed<T>> = Vec::new();
    let mut i: usize = 0;
    while i < ordered.len()
        invariant
            0 <= i <= ordered.len(),
            ordered.len() == scene@.order.len(),
            forall|a: int|
                0 <= a < ordered.len() ==> (#[trigger] ordered@[a]).0 == scene@.order[a] && *ordered@[a].1
                    == scene@.items[scene@.order[a]],
            r.len() == i,
            forall|a: int|
                0 <= a < i ==> {
                    &&& (#[trigger] r@[a]).0 == scene@.order[a]
                    &&& cloned::<T>(scene@.items[scene@.order[a]], r@[a].1)
                    &&& r@[a].2 == a
                },
        decreases ordered.len() - i,
    {
        let (id, item) = ordered[i];
        let c = item.clone();
        r.push((id, c, i));
        i = i + 1;
    }
    r
}


/// An edit of the one id `id`, live before it, leaves that id live with
/// the item `step` relates the old one to.
proof fn lemma_single_edit<T>(pre: Map<ItemId, T>, id: ItemId, post: Map<ItemId, T>, step: spec_fn(T, T) -> bool)
    requires
        edits_into(pre, seq![id], post, step),
        pre.contains_key(id),
    ensures
        post.contains_key(id),
        step(pre[id], post[id]),
{
    let tr = choose|tr: Seq<Map<ItemId, T>>| #[trigger] edit_trace(pre, seq![id], post, step, tr);
    assert(edit_one(tr[0], seq![id][0], tr[1], step));
    assert(seq![id][0] == id);
}

/// Transforming a live shape gives it what the item type's
/// `with_shape_pose` makes of it with the `after` pose; taking the transform
/// back gives it what `with_shape_pose` makes of that with the `before`
/// pose.
pub proof fn lemma_transform_shape_poses<T: BoardItem + Clone>(
    pre: SceneView<T>,
    mid: SceneView<T>,
    post: SceneView<T>,
    c: TransformShape<T::Pose>,
)
    requires
        pre.items.contains_key(c.id),
        Command::<T>::TransformShape(c).applied(pre, mid),
        Command::<T>::TransformShape(c).undone(mid, post),
    ensures
        mid.items.contains_key(c.id),
        post.items.contains_key(c.id),
        call_ensures(T::with_shape_pose, (pre.items[c.id], &c.after), mid.items[c.id]),
        call_ensures(T::with_shape_pose, (mid.items[c.id], &c.before), post.items[c.id]),
{
    lemma_single_edit(pre.items, c.id, mid.items, pose_step::<T>(c.after));
    lemma_single_edit(mid.items, c.id, post.items, pose_step::<T>(c.before));
}

/// Resizing a live image gives it what the item type's `with_image_bounds`
/// makes of it with the `after` bounds; taking the resize back gives it
/// what `with_image_bounds` makes of that with the `before` bounds.
pub proof fn lemma_resize_image_bounds<T: BoardItem + Clone>(
    pre: SceneView<T>,
    mid: SceneView<T>,
    post: SceneView<T>,
    c: ResizeImage<T::Bounds>,
)
    requires
        pre.items.contains_key(c.id),
        Command::<T>::ResizeImage(c).applied(pre, mid),
        Command::<T>::ResizeImage(c).undone(mid, post),
    ensures
        mid.items.contains_key(c.id),
        post.items.contains_key(c.id),
        call_ensures(T::with_image_bounds, (pre.items[c.id], &c.after), mid.items[c.id]),
        call_ensures(T::with_image_bounds, (mid.items[c.id], &c.before), post.items[c.id]),
{
    lemma_single_edit(pre.items, c.id, mid.items, bounds_step::<T>(c.after));
    lemma_single_edit(mid.items, c.id, post.items, bounds_step::<T>(c.before));
}

/// Moving a live item by itself gives it what the item type's `translated`
/// makes of it with the offset; taking the move back gives it what
/// `translated_back` makes of that with the same offset.
pub proof fn lemma_move_item_offsets<T: BoardItem + Clone>(
    pre: SceneView<T>,
    mid: SceneView<T>,
    post: SceneView<T>,
    c: MoveItems<T::Offset>,
    id: ItemId,
)
    requires
        c.ids@ == seq![id],
        pre.items.contains_key(id),
        Command::<T>::MoveItems(c).applied(pre, mid),
        Command::<T>::MoveItems(c).undone(mid, post),
    ensures
        mid.items.contains_key(id),
        post.items.contains_key(id),
        call_ensures(T::translated, (pre.items[id], &c.delta), mid.items[id]),
        call_ensures(T::translated_back, (mid.items[id], &c.delta), post.items[id]),
{
    lemma_single_edit(pre.items, id, mid.items, move_step::<T>(c.delta, true));
    lemma_single_edit(mid.items, id, post.items, move_step::<T>(c.delta, false));
}

} // verus!
