//! Board-level actions that combine the item store and the history: clearing
//! the board, deleting the selected item, committing an eraser sweep. Each
//! records exactly one command, so one undo takes it back.
use crate::command::{
    entry_ids, entry_keys, permuted, snapshot_all, stable_order_by_key, stably_sorts, take_item, ClearAll,
    Command, DeleteItems, Removed,
};
use crate::restore::{faithful_entries, lemma_clear_empties, lemma_remove_all, lemma_sorted_reinsert_order};
use crate::scene::{lemma_insert_contains, SceneView};
use crate::history::UndoStack;
use crate::scene::{BoardItem, ItemId, Scene};
use vstd::prelude::*;

verus! {

/// Clears the board as one undoable command, recorded on top of the
/// history, leaving no item and an empty z-order behind. An empty board is
/// left alone and nothing is recorded. Returns whether the board was cleared.
pub fn clear_all<T: BoardItem + Clone>(scene: &mut Scene<T>, history: &mut UndoStack<T>) -> (cleared: bool)
    requires
        old(scene).wf(),
        old(history)@.wf(),
    ensures
        final(scene).wf(),
        final(history)@.wf(),
        cleared == (old(scene)@.order.len() > 0),
        !cleared ==> final(scene)@ == old(scene)@ && final(history)@ == old(history)@,
        cleared ==> {
            &&& final(history)@ == old(history)@.after_record(final(history)@.undo.last())
            &&& final(history)@.redo.len() == 0
            &&& final(history)@.undo.last() matches Command::ClearAll(c) && {
                &&& c.items@.len() == old(scene)@.order.len()
                &&& forall|i: int|
                    0 <= i < c.items@.len() ==> {
                        &&& (#[trigger] c.items@[i]).0 == old(scene)@.order[i]
                        &&& cloned::<T>(old(scene)@.items[old(scene)@.order[i]], c.items@[i].1)
                        &&& c.items@[i].2 == i
                    }
                &&& final(scene)@ == old(scene)@.after_remove_all(crate::command::entry_ids(c.items@))
            }
            &&& final(scene)@.order.len() == 0
            &&& final(scene)@.items.dom() == Set::<ItemId>::empty()
        },
{
    let ghost pre = scene@;
    let items = snapshot_all(scene);
    if items.len() == 0 {
        return false;
    }
    proof {
        assert(entry_ids(items@) =~= pre.order);
        lemma_clear_empties(pre);
    }
    let cmd: Command<T> = Command::ClearAll(ClearAll { items });
    history.execute(cmd, scene);
    true
}

/// Deletes the item `id` as one undoable command, recorded on top of the
/// history; the deletion is already on the board when it is recorded. A missing item is left alone and nothing
/// is recorded. Returns whether an item was deleted.
pub fn delete_item<T: BoardItem + Clone>(scene: &mut Scene<T>, history: &mut UndoStack<T>, id: ItemId) -> (deleted:
    bool)
    requires
        old(scene).wf(),
        old(history)@.wf(),
    ensures
        final(scene).wf(),
        final(history)@.wf(),
        deleted == old(scene)@.items.contains_key(id),
        !deleted ==> final(scene)@ == old(scene)@ && final(history)@ == old(history)@,
        deleted ==> {
            &&& final(scene)@ == old(scene)@.after_remove(id)
            &&& final(history)@ == old(history)@.after_record(final(history)@.undo.last())
            &&& final(history)@.redo.len() == 0
            &&& final(history)@.undo.last() matches Command::DeleteItems(c) && {
                &&& c.removed@.len() == 1
                &&& c.removed@[0].0 == id
                &&& cloned::<T>(old(scene)@.items[id], c.removed@[0].1)
                &&& old(scene)@.z_index(id) == Some(c.removed@[0].2 as nat)
            }
        },
{
    match take_item(scene, id) {
        Some(entry) => {
            let mut removed: Vec<Removed<T>> = Vec::new();
            removed.push(entry);
            history.push_already_applied(Command::DeleteItems(DeleteItems { removed }));
            true
        },
        None => false,
    }
}

/// `s0` was a board from which `swept` was taken, entry by entry, to give
/// `cur`, each entry recording the item's position on `s0`.
pub open spec fn swept_from<T>(s0: SceneView<T>, swept: Seq<Removed<T>>, cur: SceneView<T>) -> bool {
    faithful_entries(s0, swept) && s0.after_remove_all(entry_ids(swept)) == cur
}

/// Takes the item `id` off the board during an eraser sweep. `swept` holds
/// what the sweep took so far, each entry with the item's position on the
/// board as it was before the sweep began; the item is added to it with its
/// own such position (its first position in the z-order the sweep started
/// from), so that one undo of the whole sweep puts every item back where it
/// was. Nothing happens when the item is not on the board. Returns whether
/// it was.
pub fn erase_item<T: Clone>(scene: &mut Scene<T>, swept: &mut Vec<Removed<T>>, id: ItemId) -> (taken: bool)
    requires
        old(scene).wf(),
    ensures
        final(scene).wf(),
        taken == old(scene)@.items.contains_key(id),
        !taken ==> final(scene)@ == old(scene)@ && final(swept)@ == old(swept)@,
        taken ==> {
            &&& final(scene)@ == old(scene)@.after_remove(id)
            &&& final(swept)@.len() == old(swept)@.len() + 1
            &&& final(swept)@.drop_last() == old(swept)@
            &&& final(swept)@.last().0 == id
            &&& cloned::<T>(old(scene)@.items[id], final(swept)@.last().1)
        },
        forall|s0: SceneView<T>|
            #![trigger swept_from(s0, old(swept)@, old(scene)@)]
            swept_from(s0, old(swept)@, old(scene)@) && (forall|k: int, k2: int|
                0 <= k < s0.order.len() && 0 <= k2 < s0.order.len() && s0.order[k] == id && s0.order[k2] == id
                    ==> k == k2) ==> swept_from(s0, final(swept)@, final(scene)@),
{
    let item = match scene.item(id) {
        Some(v) => v.clone(),
        None => return false,
    };
    let ghost cur = scene@;
    let ghost old_swept = swept@;
    let ghost n = swept@.len() as int;
    // Rebuild the z-order the sweep started from: put the swept ids back,
    // stably sorted by their recorded positions, as undo would.
    let mut keys: Vec<usize> = Vec::new();
    let mut i: usize = 0;
    while i < swept.len()
        invariant
            0 <= i <= swept.len(),
            keys.len() == i,
            forall|a: int| 0 <= a < i ==> #[trigger] keys@[a] == swept@[a].2,
        decreases swept.len() - i,
    {
        keys.push(swept[i].2);
        i = i + 1;
    }
    let sorted = stable_order_by_key(&keys);
    let ghost p = sorted@.map_values(|x: usize| x as int);
    let ghost ks = entry_keys(swept@);
    proof {
        assert(keys@.map_values(|k: usize| k as nat) =~= ks);
    }
    let ghost ids_s = permuted(entry_ids(swept@), p);
    let ghost zs_s = permuted(ks, p);
    let ghost vals = Seq::new(n as nat, |a: int| swept@[p[a]].1);
    let mut order = scene.order_ids();
    let mut j: usize = 0;
    while j < sorted.len()
        invariant
            0 <= j <= sorted.len(),
            sorted.len() == swept.len(),
            swept@ == old_swept,
            n == swept@.len(),
            p == sorted@.map_values(|x: usize| x as int),
            stably_sorts(p, ks),
            ks == entry_keys(swept@),
            ids_s == permuted(entry_ids(swept@), p),
            zs_s == permuted(ks, p),
            vals == Seq::new(n as nat, |a: int| swept@[p[a]].1),
            order@ == cur.after_insert_all(ids_s.take(j as int), vals.take(j as int), zs_s.take(j as int)).order,
            forall|x: ItemId| cur.order.contains(x) ==> #[trigger] order@.contains(x),
        decreases sorted.len() - j,
    {
        let k = sorted[j];
        proof {
            assert(p[j as int] == k as int);
            assert(0 <= p[j as int] < ks.len());
        }
        let e_id = swept[k].0;
        let e_z = swept[k].2;
        let z = if e_z <= order.len() {
            e_z
        } else {
            order.len()
        };
        let ghost before = order@;
        order.insert(z, e_id);
        proof {
            lemma_insert_contains(before, z as int, e_id);
            let prev = cur.after_insert_all(ids_s.take(j as int), vals.take(j as int), zs_s.take(j as int));
            assert(ids_s.take(j + 1).drop_last() =~= ids_s.take(j as int));
            assert(vals.take(j + 1).drop_last() =~= vals.take(j as int));
            assert(zs_s.take(j + 1).drop_last() =~= zs_s.take(j as int));
            assert(ids_s.take(j + 1).last() == e_id);
            assert(zs_s.take(j + 1).last() == e_z as nat);
            assert(cur.after_insert_all(ids_s.take(j + 1), vals.take(j + 1), zs_s.take(j + 1)) == prev.after_insert_at(
                e_id,
                vals[j as int],
                e_z as nat,
            ));
        }
        j = j + 1;
    }
    // The item's position on that z-order.
    proof {
        assert(cur.order.contains(id));
    }
    let mut o: usize = 0;
    while o < order.len() && order[o] != id
        invariant
            0 <= o <= order.len(),
            order@.contains(id),
            forall|a: int| 0 <= a < o ==> order@[a] != id,
        decreases order.len() - o,
    {
        o = o + 1;
    }
    proof {
        if o == order.len() {
            let a = choose|a: int| 0 <= a < order@.len() && order@[a] == id;
        }
    }
    scene.remove(id);
    let ghost rec = (id, item, o);
    swept.push((id, item, o));
    proof {
        assert(swept@.drop_last() =~= old_swept);
        assert(ids_s.take(n) =~= ids_s);
        assert(vals.take(n) =~= vals);
        assert(zs_s.take(n) =~= zs_s);
        assert(entry_ids(swept@) =~= entry_ids(old_swept).push(id));
        assert forall|s0: SceneView<T>|
            #![trigger swept_from(s0, old_swept, cur)]
            swept_from(s0, old_swept, cur) && (forall|k: int, k2: int|
                0 <= k < s0.order.len() && 0 <= k2 < s0.order.len() && s0.order[k] == id && s0.order[k2] == id
                    ==> k == k2) implies swept_from(s0, swept@, scene@) by {
            lemma_sorted_reinsert_order(s0, old_swept, p, vals);
            assert(order@ == s0.order);
            lemma_remove_all(s0, entry_ids(old_swept));
            assert(!entry_ids(old_swept).contains(id)) by {
                assert(cur.items.contains_key(id));
                if entry_ids(old_swept).contains(id) {
                    assert(entry_ids(old_swept).to_set().contains(id));
                }
            }
            let e = swept@;
            assert(e[n] == (id, item, o));
            assert forall|a: int, b: int|
                #![trigger e[a], e[b]]
                0 <= a < b < e.len() implies e[a].0 != e[b].0 by {
                if b == n {
                    assert(e[a] == old_swept[a]);
                    assert(entry_ids(old_swept)[a] == e[a].0);
                } else {
                    assert(e[a] == old_swept[a] && e[b] == old_swept[b]);
                }
            }
            assert forall|a: int|
                #![trigger e[a]]
                0 <= a < e.len() implies (e[a].2 as int) < s0.order.len() && s0.order[e[a].2 as int] == e[a].0 by {
                if a < n {
                    assert(e[a] == old_swept[a]);
                }
            }
            assert forall|a: int, k: int|
                #![trigger e[a], s0.order[k]]
                0 <= a < e.len() && 0 <= k < s0.order.len() && s0.order[k] == e[a].0 implies k == e[a].2 by {
                if a < n {
                    assert(e[a] == old_swept[a]);
                } else {
                    assert(s0.order[o as int] == id);
                }
            }
            assert(faithful_entries(s0, e));
            assert(s0.after_remove_all(entry_ids(e)) == s0.after_remove_all(entry_ids(old_swept)).after_remove(id)) by {
                assert(entry_ids(e).drop_last() =~= entry_ids(old_swept));
                assert(entry_ids(e).last() == id);
            }
        }
    }
    true
}

/// A sweep starts from the board as it is, with nothing taken yet.
pub proof fn lemma_sweep_starts<T>(s0: SceneView<T>)
    requires
        s0.wf(),
    ensures
        swept_from(s0, Seq::<Removed<T>>::empty(), s0),
{
    assert(entry_ids(Seq::<Removed<T>>::empty()) =~= Seq::<ItemId>::empty());
}

/// Undoing the deletion an eraser sweep recorded puts the board back as it
/// was before the sweep: the same z-order and set of items, the items the
/// sweep did not take unchanged, and each taken item as a clone of the one
/// recorded for it. The sweep's items must each have occurred once.
pub proof fn lemma_sweep_then_undo<T: BoardItem + Clone>(
    s0: SceneView<T>,
    cur: SceneView<T>,
    post: SceneView<T>,
    c: DeleteItems<T>,
)
    requires
        swept_from(s0, c.removed@, cur),
        Command::DeleteItems(c).undone(cur, post),
    ensures
        post.order == s0.order,
        post.items.dom() == s0.items.dom(),
        forall|k: ItemId|
            s0.items.contains_key(k) && !entry_ids(c.removed@).contains(k) ==> #[trigger] post.items[k]
                == s0.items[k],
        forall|i: int|
            0 <= i < c.removed@.len() ==> cloned::<T>(
                c.removed@[i].1,
                #[trigger] post.items[c.removed@[i].0],
            ),
{
    crate::restore::lemma_delete_then_restore(s0, cur, post, c.removed@);
}

/// Records the items an eraser sweep took off the board as one undoable
/// deletion; an empty sweep records nothing. Returns whether anything was
/// recorded.
pub fn commit_erasure<T: BoardItem + Clone>(history: &mut UndoStack<T>, removed: Vec<Removed<T>>) -> (recorded:
    bool)
    requires
        old(history)@.wf(),
    ensures
        final(history)@.wf(),
        recorded == (removed@.len() > 0),
        !recorded ==> final(history)@ == old(history)@,
        recorded ==> final(history)@ == old(history)@.after_record(
            Command::DeleteItems(DeleteItems { removed }),
        ),
{
    if removed.len() == 0 {
        return false;
    }
    history.push_already_applied(Command::DeleteItems(DeleteItems { removed }));
    true
}

} // verus!
