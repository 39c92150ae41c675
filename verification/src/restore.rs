//! What undo gives back: taking back an addition, a deletion or a clear
//! restores the items and the z-order the board had before.
use crate::command::{
    entry_ids, entry_keys, permuted, stably_sorts, AddItem, ClearAll, Command, DeleteItems,
    Removed,
};
use crate::scene::{BoardItem, clamped_index, lemma_without_id, without_id, ItemId, SceneView};
use vstd::prelude::*;

verus! {

broadcast use vstd::seq_lib::lemma_seq_contains_after_push;

/// `s` without the ids in `r`, the rest in order.
pub open spec fn keep_unless(s: Seq<ItemId>, r: Set<ItemId>) -> Seq<ItemId>
    decreases s.len(),
{
    if s.len() == 0 {
        s
    } else if r.contains(s.last()) {
        keep_unless(s.drop_last(), r)
    } else {
        keep_unless(s.drop_last(), r).push(s.last())
    }
}

proof fn lemma_keep_add(a: Seq<ItemId>, b: Seq<ItemId>, r: Set<ItemId>)
    ensures
        keep_unless(a + b, r) == keep_unless(a, r) + keep_unless(b, r),
    decreases b.len(),
{
    if b.len() == 0 {
        assert(a + b =~= a);
        assert(keep_unless(a, r) + keep_unless(b, r) =~= keep_unless(a, r));
    } else {
        lemma_keep_add(a, b.drop_last(), r);
        assert((a + b).drop_last() =~= a + b.drop_last());
        assert((a + b).last() == b.last());
        if !r.contains(b.last()) {
            assert(keep_unless(a, r) + keep_unless(b.drop_last(), r).push(b.last()) =~= (keep_unless(a, r)
                + keep_unless(b.drop_last(), r)).push(b.last()));
        }
    }
}

proof fn lemma_keep_none(s: Seq<ItemId>, r: Set<ItemId>)
    requires
        forall|i: int| 0 <= i < s.len() ==> !r.contains(#[trigger] s[i]),
    ensures
        keep_unless(s, r) == s,
    decreases s.len(),
{
    if s.len() > 0 {
        lemma_keep_none(s.drop_last(), r);
        assert(!r.contains(s[s.len() - 1]));
        assert(s.drop_last().push(s.last()) =~= s);
    }
}

proof fn lemma_keep_agree(s: Seq<ItemId>, r1: Set<ItemId>, r2: Set<ItemId>)
    requires
        forall|i: int| 0 <= i < s.len() ==> r1.contains(#[trigger] s[i]) == r2.contains(s[i]),
    ensures
        keep_unless(s, r1) == keep_unless(s, r2),
    decreases s.len(),
{
    if s.len() > 0 {
        lemma_keep_agree(s.drop_last(), r1, r2);
        assert(r1.contains(s[s.len() - 1]) == r2.contains(s[s.len() - 1]));
    }
}

proof fn lemma_keep_empty(s: Seq<ItemId>)
    ensures
        keep_unless(s, Set::empty()) == s,
{
    lemma_keep_none(s, Set::empty());
}

proof fn lemma_without_keep(s: Seq<ItemId>, r: Set<ItemId>, id: ItemId)
    ensures
        without_id(keep_unless(s, r), id) == keep_unless(s, r.insert(id)),
    decreases s.len(),
{
    if s.len() > 0 {
        lemma_without_keep(s.drop_last(), r, id);
        let k = keep_unless(s.drop_last(), r);
        if !r.contains(s.last()) {
            assert(k.push(s.last()).drop_last() =~= k);
        }
    }
}

/// Removing the ids one by one leaves the order without them, the items
/// without them, and logs them as removed.
pub(crate) proof fn lemma_remove_all<T>(v: SceneView<T>, ids: Seq<ItemId>)
    ensures
        v.after_remove_all(ids).order == keep_unless(v.order, ids.to_set()),
        v.after_remove_all(ids).items == v.items.remove_keys(ids.to_set()),
        v.after_remove_all(ids).next_id == v.next_id,
        v.after_remove_all(ids).touched == v.touched,
        v.after_remove_all(ids).inserted == v.inserted,
        v.after_remove_all(ids).removed == v.removed + ids,
    decreases ids.len(),
{
    if ids.len() == 0 {
        assert(ids.to_set() =~= Set::empty());
        lemma_keep_empty(v.order);
        assert(v.items.remove_keys(ids.to_set()) =~= v.items);
        assert(v.removed + ids =~= v.removed);
    } else {
        let init = ids.drop_last();
        lemma_remove_all(v, init);
        assert(ids =~= init.push(ids.last()));
        assert(ids.to_set() =~= init.to_set().insert(ids.last()));
        lemma_without_keep(v.order, init.to_set(), ids.last());
        assert(v.items.remove_keys(init.to_set()).remove(ids.last()) =~= v.items.remove_keys(
            ids.to_set(),
        ));
        assert(v.removed + init.push(ids.last()) =~= (v.removed + init).push(ids.last()));
    }
}

/// Inserting at a position inside the sequence places the element there.
proof fn lemma_insert_split(s: Seq<ItemId>, z: int, x: ItemId)
    requires
        0 <= z <= s.len(),
    ensures
        s.insert(z, x) == s.take(z) + seq![x] + s.skip(z),
{
    assert(s.insert(z, x) =~= s.take(z) + seq![x] + s.skip(z));
}

/// The preconditions under which a deletion can be taken back exactly: the
/// entries name distinct live items, each occurring once in the z-order,
/// and the position recorded with each entry is its position there.
pub open spec fn faithful_entries<T>(pre: SceneView<T>, entries: Seq<Removed<T>>) -> bool {
    &&& pre.wf()
    &&& forall|i: int, k: int|
        #![trigger entries[i], pre.order[k]]
        0 <= i < entries.len() && 0 <= k < pre.order.len() && pre.order[k] == entries[i].0 ==> k
            == entries[i].2
    &&& forall|a: int, b: int|
        #![trigger entries[a], entries[b]]
        0 <= a < b < entries.len() ==> entries[a].0 != entries[b].0
    &&& forall|i: int|
        #![trigger entries[i]]
        0 <= i < entries.len() ==> {
            &&& (entries[i].2 as int) < pre.order.len()
            &&& pre.order[entries[i].2 as int] == entries[i].0
        }
}

/// One step of putting the entries back: with the ids of `ids_s[j..]` still
/// missing, the order is `order` without them.
proof fn lemma_reinsert_prefix<T>(
    order: Seq<ItemId>,
    mid: SceneView<T>,
    ids_s: Seq<ItemId>,
    vals: Seq<T>,
    zs_s: Seq<nat>,
    j: int,
)
    requires
        forall|a: int, k: int|
            #![trigger ids_s[a], order[k]]
            0 <= a < ids_s.len() && 0 <= k < order.len() && order[k] == ids_s[a] ==> k == zs_s[a],
        mid.order == keep_unless(order, ids_s.to_set()),
        ids_s.len() == vals.len() == zs_s.len(),
        0 <= j <= ids_s.len(),
        forall|a: int| 0 <= a < ids_s.len() ==> #[trigger] zs_s[a] < order.len() && order[zs_s[a] as int]
            == ids_s[a],
        forall|a: int, b: int| 0 <= a < b < ids_s.len() ==> #[trigger] zs_s[a] < #[trigger] zs_s[b],
    ensures
        ({
            let cur = mid.after_insert_all(ids_s.take(j), vals.take(j), zs_s.take(j));
            &&& cur.order == keep_unless(order, ids_s.skip(j).to_set())
            &&& cur.next_id == mid.next_id
            &&& cur.touched == mid.touched
            &&& cur.removed == mid.removed
            &&& forall|k: ItemId| #[trigger] cur.items.contains_key(k) <==> (mid.items.contains_key(k)
                || ids_s.take(j).contains(k))
            &&& forall|a: int| 0 <= a < j ==> cur.items[#[trigger] ids_s[a]] == vals[a]
            &&& forall|k: ItemId|
                !ids_s.take(j).contains(k) ==> #[trigger] cur.items[k] == mid.items[k]
        }),
    decreases j,
{
    if j == 0 {
        assert(ids_s.take(0) =~= Seq::<ItemId>::empty());
        assert(vals.take(0) =~= Seq::<T>::empty());
        assert(zs_s.take(0) =~= Seq::<nat>::empty());
        assert(ids_s.skip(0) =~= ids_s);
    } else {
        let m = j - 1;
        lemma_reinsert_prefix(order, mid, ids_s, vals, zs_s, m);
        let prev = mid.after_insert_all(ids_s.take(m), vals.take(m), zs_s.take(m));
        assert(ids_s.take(j).drop_last() =~= ids_s.take(m));
        assert(vals.take(j).drop_last() =~= vals.take(m));
        assert(zs_s.take(j).drop_last() =~= zs_s.take(m));
        let x = ids_s[m];
        let z = zs_s[m] as int;
        assert(ids_s.take(j).last() == x);
        assert(vals.take(j).last() == vals[m]);
        assert(zs_s.take(j).last() == zs_s[m]);
        let cur = mid.after_insert_all(ids_s.take(j), vals.take(j), zs_s.take(j));
        assert(cur == prev.after_insert_at(x, vals[m], zs_s[m]));
        let rm = ids_s.skip(m).to_set();
        let rj = ids_s.skip(j).to_set();
        // The ids still missing before this step are those after it and `x`.
        assert(ids_s.skip(m) =~= seq![x] + ids_s.skip(j));
        assert(rm =~= rj.insert(x)) by {
            assert forall|y: ItemId| rm.contains(y) <==> rj.insert(x).contains(y) by {
                if rm.contains(y) {
                    let a = choose|a: int| 0 <= a < ids_s.skip(m).len() && ids_s.skip(m)[a] == y;
                    if a > 0 {
                        assert(ids_s.skip(j)[a - 1] == y);
                    }
                }
                if rj.contains(y) {
                    let a = choose|a: int| 0 <= a < ids_s.skip(j).len() && ids_s.skip(j)[a] == y;
                    assert(ids_s.skip(m)[a + 1] == y);
                }
                if y == x {
                    assert(ids_s.skip(m)[0] == y);
                }
            }
        }
        assert(!rj.contains(x)) by {
            if rj.contains(x) {
                let a = choose|a: int| 0 <= a < ids_s.skip(j).len() && ids_s.skip(j)[a] == x;
                let b = j + a;
                assert(ids_s[b] == x);
                assert(zs_s[m] < zs_s[b]);
                assert(order[zs_s[b] as int] == x);
                assert(order[zs_s[b] as int] == ids_s[m]);
            }
        }
        // Everything below position z is present already.
        assert forall|k: int| 0 <= k < z implies !rm.contains(#[trigger] order.take(z)[k]) by {
            assert(order.take(z)[k] == order[k]);
            if rm.contains(order[k]) {
                let a = choose|a: int| 0 <= a < ids_s.skip(m).len() && ids_s.skip(m)[a] == order[k];
                let b = m + a;
                assert(ids_s[b] == order[k]);
                assert(order[k] == ids_s[b]);
                if b > m {
                    assert(zs_s[m] < zs_s[b]);
                }
                assert(zs_s[b] as int == k);
            }
        }
        assert forall|k: int| 0 <= k < z implies !rj.contains(#[trigger] order.take(z)[k]) by {
            assert(!rm.contains(order.take(z)[k]));
        }
        lemma_keep_none(order.take(z), rm);
        lemma_keep_none(order.take(z), rj);
        let tail = order.skip(z + 1);
        assert(order =~= order.take(z) + (seq![x] + tail));
        assert forall|k: int| 0 <= k < tail.len() implies rm.contains(#[trigger] tail[k]) == rj.contains(
            tail[k],
        ) by {
            assert(tail[k] == order[z + 1 + k]);
            assert(order[z] == x);
        }
        lemma_keep_agree(tail, rm, rj);
        lemma_keep_add(order.take(z), seq![x] + tail, rm);
        lemma_keep_add(order.take(z), seq![x] + tail, rj);
        lemma_keep_add(seq![x], tail, rm);
        lemma_keep_add(seq![x], tail, rj);
        assert(seq![x].drop_last() =~= Seq::<ItemId>::empty());
        assert(seq![x].last() == x);
        assert(keep_unless(seq![x].drop_last(), rm) == seq![x].drop_last());
        assert(keep_unless(seq![x].drop_last(), rj) == seq![x].drop_last());
        assert(keep_unless(seq![x], rm) =~= Seq::<ItemId>::empty());
        assert(keep_unless(seq![x], rj) =~= seq![x]);
        let kt = keep_unless(tail, rj);
        assert(prev.order =~= order.take(z) + kt);
        assert(clamped_index(zs_s[m], prev.order.len()) == z);
        lemma_insert_split(prev.order, z, x);
        assert(prev.order.take(z) =~= order.take(z));
        assert(prev.order.skip(z) =~= kt);
        assert(cur.order =~= keep_unless(order, rj));
        // Items.
        assert forall|k: ItemId| #[trigger] cur.items.contains_key(k) <==> (mid.items.contains_key(k)
            || ids_s.take(j).contains(k)) by {
            assert(ids_s.take(j) =~= ids_s.take(m).push(x));
        }
        assert forall|a: int| 0 <= a < j implies cur.items[#[trigger] ids_s[a]] == vals[a] by {
            if a < m {
                assert(ids_s[a] != x) by {
                    assert(zs_s[a] < zs_s[m]);
                    assert(order[zs_s[a] as int] == ids_s[a]);
                }
            }
        }
        assert forall|k: ItemId| !ids_s.take(j).contains(k) implies #[trigger] cur.items[k] == mid.items[k] by {
            assert(ids_s.take(j) =~= ids_s.take(m).push(x));
            assert(!ids_s.take(m).contains(k));
        }
    }
}

/// Deleting items (or clearing the board) and then taking it back gives
/// back the z-order and the set of items exactly; items not in the deletion
/// keep their values, and each deleted item comes back as a clone of the
/// item recorded for it. This holds when the entries are faithful (see
/// [`faithful_entries`]).
pub proof fn lemma_delete_then_restore<T: Clone>(
    pre: SceneView<T>,
    mid: SceneView<T>,
    post: SceneView<T>,
    entries: Seq<Removed<T>>,
)
    requires
        faithful_entries(pre, entries),
        mid == pre.after_remove_all(entry_ids(entries)),
        mid.restored_into(post, entries),
    ensures
        post.order == pre.order,
        post.items.dom() == pre.items.dom(),
        forall|k: ItemId|
            pre.items.contains_key(k) && !entry_ids(entries).contains(k) ==> #[trigger] post.items[k]
                == pre.items[k],
        forall|i: int|
            0 <= i < entries.len() ==> cloned::<T>(entries[i].1, #[trigger] post.items[entries[i].0]),
        post.wf(),
{
    let ids = entry_ids(entries);
    let keys = entry_keys(entries);
    let (p, vals) = choose|p: Seq<int>, vals: Seq<T>|
        {
            &&& stably_sorts(p, entry_keys(entries))
            &&& vals.len() == entries.len()
            &&& forall|j: int|
                0 <= j < vals.len() ==> cloned::<T>(#[trigger] entries[p[j]].1, vals[j])
            &&& post == mid.after_insert_all(
                permuted(entry_ids(entries), p),
                vals,
                permuted(entry_keys(entries), p),
            )
        };
    let n = entries.len() as int;
    let ids_s = permuted(ids, p);
    let zs_s = permuted(keys, p);
    lemma_remove_all(pre, ids);
    // The sorted ids are the same set as the entry ids.
    assert(ids_s.to_set() =~= ids.to_set()) by {
        assert forall|y: ItemId| ids_s.to_set().contains(y) <==> ids.to_set().contains(y) by {
            if ids_s.contains(y) {
                let a = choose|a: int| 0 <= a < ids_s.len() && ids_s[a] == y;
                assert(0 <= p[a] < n);
                assert(ids[p[a]] == y);
            }
            if ids.contains(y) {
                let i = choose|i: int| 0 <= i < ids.len() && ids[i] == y;
                assert(p.contains(i));
                let a = choose|a: int| 0 <= a < p.len() && p[a] == i;
                assert(ids_s[a] == y);
            }
        }
    }
    // Positions are recorded faithfully and strictly increase along the sort.
    assert forall|a: int| 0 <= a < ids_s.len() implies #[trigger] zs_s[a] < pre.order.len()
        && pre.order[zs_s[a] as int] == ids_s[a] by {
        assert(0 <= p[a] < n);
        assert(entries[p[a]] == entries[p[a]]);
    }
    assert forall|a: int, b: int| 0 <= a < b < ids_s.len() implies #[trigger] zs_s[a] < #[trigger] zs_s[b] by {
        assert(0 <= p[a] < n && 0 <= p[b] < n);
        assert(keys[p[a]] < keys[p[b]] || (keys[p[a]] == keys[p[b]] && p[a] < p[b]));
        if keys[p[a]] == keys[p[b]] {
            assert(entries[p[a]] == entries[p[a]] && entries[p[b]] == entries[p[b]]);
            if p[a] < p[b] {
                assert(entries[p[a]].0 != entries[p[b]].0);
            }
        }
    }
    assert forall|a: int, k: int|
        #![trigger ids_s[a], pre.order[k]]
        0 <= a < ids_s.len() && 0 <= k < pre.order.len() && pre.order[k] == ids_s[a] implies k == zs_s[a] by {
        assert(0 <= p[a] < n);
        assert(entries[p[a]] == entries[p[a]]);
        assert(ids_s[a] == entries[p[a]].0);
        assert(zs_s[a] == entries[p[a]].2);
    }
    lemma_reinsert_prefix(pre.order, mid, ids_s, vals, zs_s, n);
    assert(ids_s.take(n) =~= ids_s);
    assert(vals.take(n) =~= vals);
    assert(zs_s.take(n) =~= zs_s);
    assert(ids_s.skip(n).to_set() =~= Set::empty());
    lemma_keep_empty(pre.order);
    // Every entry id is live before the deletion.
    assert forall|k: ItemId| ids.contains(k) implies pre.items.contains_key(k) by {
        let i = choose|i: int| 0 <= i < ids.len() && ids[i] == k;
        assert(entries[i] == entries[i]);
        assert(pre.order[entries[i].2 as int] == k);
    }
    assert(post.items.dom() =~= pre.items.dom()) by {
        assert forall|k: ItemId| post.items.dom().contains(k) <==> pre.items.dom().contains(k) by {
            assert(ids_s.contains(k) <==> ids.contains(k)) by {
                assert(ids_s.to_set().contains(k) == ids.to_set().contains(k));
            }
        }
    }
    assert forall|k: ItemId|
        pre.items.contains_key(k) && !ids.contains(k) implies #[trigger] post.items[k] == pre.items[k] by {
        assert(!ids_s.contains(k)) by {
            assert(ids_s.to_set().contains(k) == ids.to_set().contains(k));
        }
    }
    assert forall|i: int| 0 <= i < entries.len() implies cloned::<T>(
        entries[i].1,
        #[trigger] post.items[entries[i].0],
    ) by {
        assert(p.contains(i));
        let a = choose|a: int| 0 <= a < p.len() && p[a] == i;
        assert(ids_s[a] == entries[i].0);
        assert(post.items[ids_s[a]] == vals[a]);
    }
}

/// Putting faithful entries back in the order of a stable sort by their
/// positions, whatever values they carry, rebuilds the z-order they were
/// deleted from.
pub proof fn lemma_sorted_reinsert_order<T>(
    pre: SceneView<T>,
    entries: Seq<Removed<T>>,
    p: Seq<int>,
    vals: Seq<T>,
)
    requires
        faithful_entries(pre, entries),
        stably_sorts(p, entry_keys(entries)),
        vals.len() == entries.len(),
    ensures
        pre.after_remove_all(entry_ids(entries)).after_insert_all(
            permuted(entry_ids(entries), p),
            vals,
            permuted(entry_keys(entries), p),
        ).order == pre.order,
{
    let ids = entry_ids(entries);
    let keys = entry_keys(entries);
    let n = entries.len() as int;
    let ids_s = permuted(ids, p);
    let zs_s = permuted(keys, p);
    let mid = pre.after_remove_all(ids);
    lemma_remove_all(pre, ids);
    assert(ids_s.to_set() =~= ids.to_set()) by {
        assert forall|y: ItemId| ids_s.to_set().contains(y) <==> ids.to_set().contains(y) by {
            if ids_s.contains(y) {
                let a = choose|a: int| 0 <= a < ids_s.len() && ids_s[a] == y;
                assert(0 <= p[a] < n);
                assert(ids[p[a]] == y);
            }
            if ids.contains(y) {
                let i = choose|i: int| 0 <= i < ids.len() && ids[i] == y;
                assert(p.contains(i));
                let a = choose|a: int| 0 <= a < p.len() && p[a] == i;
                assert(ids_s[a] == y);
            }
        }
    }
    assert forall|a: int| 0 <= a < ids_s.len() implies #[trigger] zs_s[a] < pre.order.len()
        && pre.order[zs_s[a] as int] == ids_s[a] by {
        assert(0 <= p[a] < n);
        assert(entries[p[a]] == entries[p[a]]);
    }
    assert forall|a: int, b: int| 0 <= a < b < ids_s.len() implies #[trigger] zs_s[a] < #[trigger] zs_s[b] by {
        assert(0 <= p[a] < n && 0 <= p[b] < n);
        assert(keys[p[a]] < keys[p[b]] || (keys[p[a]] == keys[p[b]] && p[a] < p[b]));
        if keys[p[a]] == keys[p[b]] {
            assert(entries[p[a]] == entries[p[a]] && entries[p[b]] == entries[p[b]]);
            if p[a] < p[b] {
                assert(entries[p[a]].0 != entries[p[b]].0);
            }
        }
    }
    assert forall|a: int, k: int|
        #![trigger ids_s[a], pre.order[k]]
        0 <= a < ids_s.len() && 0 <= k < pre.order.len() && pre.order[k] == ids_s[a] implies k == zs_s[a] by {
        assert(0 <= p[a] < n);
        assert(entries[p[a]] == entries[p[a]]);
        assert(ids_s[a] == entries[p[a]].0);
        assert(zs_s[a] == entries[p[a]].2);
    }
    lemma_reinsert_prefix(pre.order, mid, ids_s, vals, zs_s, n);
    assert(ids_s.take(n) =~= ids_s);
    assert(vals.take(n) =~= vals);
    assert(zs_s.take(n) =~= zs_s);
    assert(ids_s.skip(n).to_set() =~= Set::empty());
    lemma_keep_empty(pre.order);
}

/// Adding an item under a fresh id and then taking it back gives back the
/// items and the z-order the board had.
pub proof fn lemma_add_then_remove<T: BoardItem + Clone>(
    pre: SceneView<T>,
    mid: SceneView<T>,
    post: SceneView<T>,
    c: AddItem<T>,
)
    requires
        pre.wf(),
        !pre.items.contains_key(c.id),
        Command::AddItem(c).applied(pre, mid),
        Command::AddItem(c).undone(mid, post),
    ensures
        post.items == pre.items,
        post.order == pre.order,
        post.wf(),
{
    let v = choose|v: T| cloned::<T>(c.item, v) && mid == #[trigger] pre.after_insert(c.id, v);
    assert(!pre.order.contains(c.id));
    lemma_without_id(pre.order.push(c.id), c.id);
    lemma_without_id(pre.order, c.id);
    assert(pre.order.push(c.id).drop_last() =~= pre.order);
    assert(post.items =~= pre.items);
}

/// Deleting items and taking the deletion back restores the board (see
/// [`lemma_delete_then_restore`]).
pub proof fn lemma_delete_items_then_undo<T: BoardItem + Clone>(
    pre: SceneView<T>,
    mid: SceneView<T>,
    post: SceneView<T>,
    c: DeleteItems<T>,
)
    requires
        faithful_entries(pre, c.removed@),
        Command::DeleteItems(c).applied(pre, mid),
        Command::DeleteItems(c).undone(mid, post),
    ensures
        post.order == pre.order,
        post.items.dom() == pre.items.dom(),
        forall|k: ItemId|
            pre.items.contains_key(k) && !entry_ids(c.removed@).contains(k) ==> #[trigger] post.items[k]
                == pre.items[k],
        forall|i: int|
            0 <= i < c.removed@.len() ==> cloned::<T>(
                c.removed@[i].1,
                #[trigger] post.items[c.removed@[i].0],
            ),
{
    lemma_delete_then_restore(pre, mid, post, c.removed@);
}

/// Clearing the board and taking the clear back restores the board (see
/// [`lemma_delete_then_restore`]).
pub proof fn lemma_clear_all_then_undo<T: BoardItem + Clone>(
    pre: SceneView<T>,
    mid: SceneView<T>,
    post: SceneView<T>,
    c: ClearAll<T>,
)
    requires
        faithful_entries(pre, c.items@),
        Command::ClearAll(c).applied(pre, mid),
        Command::ClearAll(c).undone(mid, post),
    ensures
        post.order == pre.order,
        post.items.dom() == pre.items.dom(),
        forall|i: int|
            0 <= i < c.items@.len() ==> cloned::<T>(c.items@[i].1, #[trigger] post.items[c.items@[i].0]),
{
    lemma_delete_then_restore(pre, mid, post, c.items@);
}

/// Applying a move, resize or transform and taking it back keeps the set of
/// items and the z-order, and leaves every item the command does not name
/// as it was; the named items are handed out once for each direction.
pub proof fn lemma_edit_then_undo_keeps_layout<T: BoardItem + Clone>(
    pre: SceneView<T>,
    mid: SceneView<T>,
    post: SceneView<T>,
    cmd: Command<T>,
)
    requires
        cmd is MoveItems || cmd is ResizeImage || cmd is TransformShape,
        cmd.applied(pre, mid),
        cmd.undone(mid, post),
    ensures
        post.items.dom() == pre.items.dom(),
        post.order == pre.order,
        post.next_id == pre.next_id,
        forall|k: ItemId|
            pre.items.contains_key(k) && !cmd.edited_ids().contains(k) ==> #[trigger] post.items[k]
                == pre.items[k],
        post.touched == pre.touched + cmd.edited_ids() + cmd.edited_ids(),
        post.inserted == pre.inserted,
        post.removed == pre.removed,
{
    assert forall|k: ItemId|
        pre.items.contains_key(k) && !cmd.edited_ids().contains(k) implies #[trigger] post.items[k]
            == pre.items[k] by {
        assert(mid.items[k] == pre.items[k]);
    }
}

/// What `take_item` records for an item that occurs once in the z-order
/// can be put back exactly.
pub proof fn lemma_taken_entry_is_faithful<T>(pre: SceneView<T>, e: Removed<T>)
    requires
        pre.wf(),
        forall|k: int| 0 <= k < pre.order.len() && #[trigger] pre.order[k] == e.0 ==> k == e.2,
        e.0 == pre.order[e.2 as int],
        (e.2 as int) < pre.order.len(),
    ensures
        faithful_entries(pre, seq![e]),
{
}

/// A snapshot of the whole board (what clearing records), taken from a
/// board whose z-order holds no id twice, can be put back exactly.
pub proof fn lemma_snapshot_is_faithful<T>(pre: SceneView<T>, entries: Seq<Removed<T>>)
    requires
        pre.wf(),
        pre.order.no_duplicates(),
        entries.len() == pre.order.len(),
        forall|i: int|
            0 <= i < entries.len() ==> (#[trigger] entries[i]).0 == pre.order[i] && entries[i].2 == i,
    ensures
        faithful_entries(pre, entries),
{
    assert forall|a: int, b: int|
        #![trigger entries[a], entries[b]]
        0 <= a < b < entries.len() implies entries[a].0 != entries[b].0 by {
        assert(pre.order[a] != pre.order[b]);
    }
}

/// The board's ids are fresh: every live id is below the next id the
/// allocator hands out.
pub open spec fn ids_fresh<T>(v: SceneView<T>) -> bool {
    &&& v.wf()
    &&& v.order.no_duplicates()
    &&& forall|k: ItemId| #[trigger] v.items.contains_key(k) ==> k < v.next_id
}

/// Adding an item under a newly allocated id keeps the ids fresh: the id is
/// not live yet, the z-order still holds no id twice, and every live id
/// stays below the next one.
pub proof fn lemma_alloc_then_insert_fresh<T>(v: SceneView<T>, item: T)
    requires
        ids_fresh(v),
        v.next_id < u64::MAX,
    ensures
        !v.items.contains_key(v.next_id),
        ids_fresh(
            (SceneView { next_id: (v.next_id + 1) as u64, ..v }).after_insert(v.next_id, item),
        ),
{
    let id = v.next_id;
    let w = (SceneView { next_id: (v.next_id + 1) as u64, ..v }).after_insert(id, item);
    assert(!v.items.contains_key(id));
    assert(!v.order.contains(id));
    assert forall|a: int, b: int| 0 <= a < w.order.len() && 0 <= b < w.order.len() && a != b implies w.order[a]
        != w.order[b] by {
        if a < v.order.len() && b < v.order.len() {
        } else if a == v.order.len() {
            assert(v.order[b] != id) by {
                if v.order[b] == id {
                    assert(v.order.contains(id));
                }
            }
        } else {
            assert(v.order[a] != id) by {
                if v.order[a] == id {
                    assert(v.order.contains(id));
                }
            }
        }
    }
}

/// Removing an item keeps the ids fresh.
pub proof fn lemma_remove_keeps_fresh<T>(v: SceneView<T>, id: ItemId)
    requires
        ids_fresh(v),
    ensures
        ids_fresh(v.after_remove(id)),
{
    lemma_without_id(v.order, id);
    lemma_without_id_no_duplicates(v.order, id);
}

/// Taking an id out of a sequence without duplicates leaves none.
proof fn lemma_without_id_no_duplicates(s: Seq<ItemId>, id: ItemId)
    requires
        s.no_duplicates(),
    ensures
        without_id(s, id).no_duplicates(),
    decreases s.len(),
{
    if s.len() > 0 {
        let init = s.drop_last();
        assert(init.no_duplicates()) by {
            assert forall|a: int, b: int| 0 <= a < init.len() && 0 <= b < init.len() && a != b implies init[a]
                != init[b] by {
                assert(s[a] == init[a] && s[b] == init[b]);
            }
        }
        lemma_without_id_no_duplicates(init, id);
        lemma_without_id(init, id);
        if s.last() != id {
            let r = without_id(init, id);
            assert(!init.contains(s.last())) by {
                if init.contains(s.last()) {
                    let a = choose|a: int| 0 <= a < init.len() && init[a] == s.last();
                    assert(s[a] == s[s.len() - 1]);
                }
            }
            assert(!r.contains(s.last()));
            let t = r.push(s.last());
            assert forall|a: int, b: int| 0 <= a < t.len() && 0 <= b < t.len() && a != b implies t[a]
                != t[b] by {
                if a == r.len() {
                    assert(t[b] == r[b]);
                } else if b == r.len() {
                    assert(t[a] == r[a]);
                }
            }
        }
    }
}

/// Removing an item that occurs once in the z-order and inserting it again
/// at the position it had gives back the z-order and the set of items; the
/// item holds the value inserted.
pub proof fn lemma_remove_then_reinsert<T>(pre: SceneView<T>, id: ItemId, v: T, z: nat)
    requires
        pre.wf(),
        z < pre.order.len(),
        pre.order[z as int] == id,
        forall|k: int| 0 <= k < pre.order.len() && #[trigger] pre.order[k] == id ==> k == z,
    ensures
        pre.after_remove(id).after_insert_at(id, v, z).order == pre.order,
        pre.after_remove(id).after_insert_at(id, v, z).items == pre.items.insert(id, v),
        pre.after_remove(id).after_insert_at(id, v, z).items.dom() == pre.items.dom(),
{
    let s = pre.order;
    let zi = z as int;
    let r = Set::<ItemId>::empty().insert(id);
    lemma_without_keep(s, Set::empty(), id);
    lemma_keep_empty(s);
    assert(Set::<ItemId>::empty().insert(id) == r);
    let head = s.take(zi);
    let tail = s.skip(zi + 1);
    assert(s =~= head + (seq![id] + tail));
    assert forall|k: int| 0 <= k < head.len() implies !r.contains(#[trigger] head[k]) by {
        assert(head[k] == s[k]);
    }
    assert forall|k: int| 0 <= k < tail.len() implies !r.contains(#[trigger] tail[k]) by {
        assert(tail[k] == s[zi + 1 + k]);
    }
    lemma_keep_none(head, r);
    lemma_keep_none(tail, r);
    lemma_keep_add(head, seq![id] + tail, r);
    lemma_keep_add(seq![id], tail, r);
    assert(seq![id].drop_last() =~= Seq::<ItemId>::empty());
    assert(seq![id].last() == id);
    assert(keep_unless(seq![id].drop_last(), r) == seq![id].drop_last());
    assert(keep_unless(seq![id], r) =~= Seq::<ItemId>::empty());
    let removed = pre.after_remove(id);
    assert(removed.order =~= head + tail);
    assert(clamped_index(z, removed.order.len()) == z);
    lemma_insert_split(removed.order, zi, id);
    assert(removed.order.take(zi) =~= head);
    assert(removed.order.skip(zi) =~= tail);
    assert(removed.after_insert_at(id, v, z).order =~= s);
    assert(pre.items.contains_key(id)) by {
        assert(pre.order.contains(id));
    }
    assert(removed.after_insert_at(id, v, z).items =~= pre.items.insert(id, v));
}

proof fn lemma_keep_all(s: Seq<ItemId>, r: Set<ItemId>)
    requires
        forall|i: int| 0 <= i < s.len() ==> r.contains(#[trigger] s[i]),
    ensures
        keep_unless(s, r) == Seq::<ItemId>::empty(),
    decreases s.len(),
{
    if s.len() > 0 {
        lemma_keep_all(s.drop_last(), r);
        assert(r.contains(s[s.len() - 1]));
    }
}

/// Removing every id of the z-order empties a well-formed board: no item
/// and an empty z-order are left, whatever ids occur more than once.
pub proof fn lemma_clear_empties<T>(pre: SceneView<T>)
    requires
        pre.wf(),
    ensures
        pre.after_remove_all(pre.order).order == Seq::<ItemId>::empty(),
        pre.after_remove_all(pre.order).items.dom() == Set::<ItemId>::empty(),
{
    lemma_remove_all(pre, pre.order);
    assert forall|i: int| 0 <= i < pre.order.len() implies pre.order.to_set().contains(#[trigger] pre.order[i]) by {
        assert(pre.order.contains(pre.order[i]));
    }
    lemma_keep_all(pre.order, pre.order.to_set());
    assert(pre.items.remove_keys(pre.order.to_set()).dom() =~= Set::<ItemId>::empty()) by {
        assert forall|k: ItemId| !pre.items.remove_keys(pre.order.to_set()).dom().contains(k) by {
            if pre.items.contains_key(k) {
                assert(pre.order.contains(k));
            }
        }
    }
}

proof fn lemma_increasing_lower(p: Seq<int>, a: int)
    requires
        0 <= a < p.len(),
        forall|x: int| 0 <= x < p.len() ==> 0 <= #[trigger] p[x] < p.len(),
        forall|x: int, y: int| 0 <= x < y < p.len() ==> #[trigger] p[x] < #[trigger] p[y],
    ensures
        p[a] >= a,
    decreases a,
{
    if a > 0 {
        lemma_increasing_lower(p, a - 1);
        assert(p[a - 1] < p[a]);
    }
}

proof fn lemma_increasing_upper(p: Seq<int>, a: int)
    requires
        0 <= a < p.len(),
        forall|x: int| 0 <= x < p.len() ==> 0 <= #[trigger] p[x] < p.len(),
        forall|x: int, y: int| 0 <= x < y < p.len() ==> #[trigger] p[x] < #[trigger] p[y],
    ensures
        p[a] <= a,
    decreases p.len() - a,
{
    if a + 1 < p.len() {
        lemma_increasing_upper(p, a + 1);
        assert(p[a] < p[a + 1]);
    }
}

/// Inserting the ids of `order` one by one at their own positions into an
/// empty board rebuilds `order`; each id holds the value inserted last
/// for it.
proof fn lemma_rebuild<T>(mid: SceneView<T>, order: Seq<ItemId>, vals: Seq<T>, zs: Seq<nat>, j: int)
    requires
        mid.order == Seq::<ItemId>::empty(),
        mid.items.dom() == Set::<ItemId>::empty(),
        vals.len() == order.len(),
        zs.len() == order.len(),
        forall|a: int| 0 <= a < zs.len() ==> #[trigger] zs[a] == a,
        0 <= j <= order.len(),
    ensures
        ({
            let cur = mid.after_insert_all(order.take(j), vals.take(j), zs.take(j));
            &&& cur.order == order.take(j)
            &&& forall|k: ItemId| #[trigger] cur.items.contains_key(k) <==> order.take(j).contains(k)
            &&& forall|a: int|
                0 <= a < j && (forall|b: int| a < b < j ==> order[b] != order[a]) ==> #[trigger] cur.items[order[a]]
                    == vals[a]
        }),
    decreases j,
{
    if j == 0 {
        assert(order.take(0) =~= Seq::<ItemId>::empty());
        assert(vals.take(0) =~= Seq::<T>::empty());
        assert(zs.take(0) =~= Seq::<nat>::empty());
        assert forall|k: ItemId| !mid.items.contains_key(k) by {
            assert(!mid.items.dom().contains(k));
        }
    } else {
        let m = j - 1;
        lemma_rebuild(mid, order, vals, zs, m);
        let prev = mid.after_insert_all(order.take(m), vals.take(m), zs.take(m));
        assert(order.take(j).drop_last() =~= order.take(m));
        assert(vals.take(j).drop_last() =~= vals.take(m));
        assert(zs.take(j).drop_last() =~= zs.take(m));
        assert(order.take(j).last() == order[m]);
        assert(vals.take(j).last() == vals[m]);
        assert(zs.take(j).last() == zs[m]);
        let cur = mid.after_insert_all(order.take(j), vals.take(j), zs.take(j));
        assert(cur == prev.after_insert_at(order[m], vals[m], zs[m]));
        assert(zs[m] == m);
        assert(clamped_index(zs[m], prev.order.len()) == m);
        assert(cur.order =~= order.take(j));
        assert forall|k: ItemId| #[trigger] cur.items.contains_key(k) <==> order.take(j).contains(k) by {
            assert(order.take(j) =~= order.take(m).push(order[m]));
        }
        assert forall|a: int|
            0 <= a < j && (forall|b: int| a < b < j ==> order[b] != order[a]) implies #[trigger] cur.items[order[a]]
                == vals[a] by {
            if a < m {
                assert(order[m] != order[a]);
            }
        }
    }
}

/// Clearing the board (recording each item with its position, as
/// `clear_all` does) and then undoing gives back its z-order and its set of
/// items, on every board; each item comes back as a clone of the snapshot
/// taken at its last position in the z-order, which is its only position
/// when no id occurs twice.
pub proof fn lemma_clear_then_undo_restores<T: BoardItem + Clone>(
    pre: SceneView<T>,
    mid: SceneView<T>,
    post: SceneView<T>,
    c: ClearAll<T>,
)
    requires
        pre.wf(),
        c.items@.len() == pre.order.len(),
        forall|i: int|
            0 <= i < c.items@.len() ==> {
                &&& (#[trigger] c.items@[i]).0 == pre.order[i]
                &&& cloned::<T>(pre.items[pre.order[i]], c.items@[i].1)
                &&& c.items@[i].2 == i
            },
        mid == pre.after_remove_all(entry_ids(c.items@)),
        Command::ClearAll(c).undone(mid, post),
    ensures
        post.order == pre.order,
        post.items.dom() == pre.items.dom(),
        post.wf(),
        forall|i: int|
            0 <= i < pre.order.len() && (forall|b: int| i < b < pre.order.len() ==> pre.order[b] != pre.order[i])
                ==> cloned::<T>(c.items@[i].1, #[trigger] post.items[pre.order[i]]),
{
    let entries = c.items@;
    let n = entries.len() as int;
    let ids = entry_ids(entries);
    let keys = entry_keys(entries);
    assert(ids =~= pre.order);
    lemma_clear_empties(pre);
    let (p, vals) = choose|p: Seq<int>, vals: Seq<T>|
        {
            &&& stably_sorts(p, entry_keys(entries))
            &&& vals.len() == entries.len()
            &&& forall|j: int|
                0 <= j < vals.len() ==> cloned::<T>(#[trigger] entries[p[j]].1, vals[j])
            &&& post == mid.after_insert_all(
                permuted(entry_ids(entries), p),
                vals,
                permuted(entry_keys(entries), p),
            )
        };
    assert forall|x: int| 0 <= x < n implies #[trigger] keys[x] == x by {
        assert(entries[x].2 == x);
    }
    assert forall|x: int, y: int| 0 <= x < y < p.len() implies #[trigger] p[x] < #[trigger] p[y] by {
        assert(0 <= p[x] < n && 0 <= p[y] < n);
        assert(keys[p[x]] == p[x] && keys[p[y]] == p[y]);
    }
    assert forall|a: int| 0 <= a < p.len() implies #[trigger] p[a] == a by {
        lemma_increasing_lower(p, a);
        lemma_increasing_upper(p, a);
    }
    let ids_s = permuted(ids, p);
    let zs_s = permuted(keys, p);
    assert(ids_s =~= pre.order) by {
        assert forall|a: int| 0 <= a < n implies ids_s[a] == pre.order[a] by {
            assert(p[a] == a);
        }
    }
    assert forall|a: int| 0 <= a < zs_s.len() implies #[trigger] zs_s[a] == a by {
        assert(p[a] == a);
    }
    lemma_rebuild(mid, pre.order, vals, zs_s, n);
    assert(pre.order.take(n) =~= pre.order);
    assert(vals.take(n) =~= vals);
    assert(zs_s.take(n) =~= zs_s);
    assert(post.items.dom() =~= pre.items.dom()) by {
        assert forall|k: ItemId| post.items.dom().contains(k) <==> pre.items.dom().contains(k) by {
            assert(pre.items.contains_key(k) <==> pre.order.contains(k));
        }
    }
    assert forall|i: int|
        0 <= i < pre.order.len() && (forall|b: int| i < b < pre.order.len() ==> pre.order[b] != pre.order[i])
            implies cloned::<T>(c.items@[i].1, #[trigger] post.items[pre.order[i]]) by {
        assert(p[i] == i);
        assert(post.items[pre.order[i]] == vals[i]);
    }
}

} // verus!
