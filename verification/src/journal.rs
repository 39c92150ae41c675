//! The crash-recovery journal. A journal file is one version byte followed by
//! records, each a little-endian `u32` length and that many payload bytes
//! (one serialized [`JournalEvent`] per record). Reading stops at the first
//! record that is cut short, so a write torn by a crash costs only the
//! records from that point on.
use crate::command::{entry_ids, permuted, stably_sorts, Command, Removed};
use crate::history::{HistoryView, UndoStack};
use crate::scene::{empty_scene, lemma_without_id, BoardItem, ItemId, Scene, SceneView};
use vstd::prelude::*;

verus! {

/// The only journal version this program writes and reads.
pub const JOURNAL_VERSION: u8 = 1;

/// One entry of the journal: a command was done, or the history moved.
pub enum JournalEvent<C> {
    Do(C),
    Undo,
    Redo,
}

/// The four little-endian bytes of `n`.
pub open spec fn le_bytes(n: nat) -> Seq<u8> {
    seq![
        (n % 256) as u8,
        ((n / 256) % 256) as u8,
        ((n / 65536) % 256) as u8,
        ((n / 16777216) % 256) as u8,
    ]
}

/// The number whose little-endian bytes are the first four of `b`.
pub open spec fn le_value(b: Seq<u8>) -> int {
    b[0] + 256 * b[1] + 65536 * b[2] + 16777216 * b[3]
}

/// The bytes of one record: the payload's length, then the payload.
pub open spec fn record_bytes(payload: Seq<u8>) -> Seq<u8> {
    le_bytes(payload.len()) + payload
}

/// The records at the start of `s`, up to the first one that is cut short.
pub open spec fn parse_records(s: Seq<u8>) -> Seq<Seq<u8>>
    decreases s.len(),
{
    if s.len() < 4 {
        Seq::empty()
    } else {
        let len = le_value(s);
        if s.len() - 4 < len {
            Seq::empty()
        } else {
            seq![s.subrange(4, 4 + len)] + parse_records(s.skip(4 + len))
        }
    }
}

/// The payloads a journal file holds: none if the version byte is missing
/// or wrong.
pub open spec fn parse_journal(file: Seq<u8>) -> Seq<Seq<u8>> {
    if file.len() == 0 || file[0] != JOURNAL_VERSION {
        Seq::empty()
    } else {
        parse_records(file.skip(1))
    }
}

/// The bytes of several records, one after the other.
pub open spec fn records_bytes(payloads: Seq<Seq<u8>>) -> Seq<u8>
    decreases payloads.len(),
{
    if payloads.len() == 0 {
        Seq::empty()
    } else {
        record_bytes(payloads[0]) + records_bytes(payloads.skip(1))
    }
}

/// The byte values of a list of byte buffers.
pub open spec fn buffers_view(v: Seq<Vec<u8>>) -> Seq<Seq<u8>> {
    v.map_values(|b: Vec<u8>| b@)
}

/// Decoding the four bytes written for `n` gives back `n`.
pub proof fn lemma_le_roundtrip(n: nat)
    requires
        n < 0x1_0000_0000,
    ensures
        le_value(le_bytes(n)) == n,
{
    let b0 = n % 256;
    let q0 = n / 256;
    let b1 = q0 % 256;
    let q1 = q0 / 256;
    let b2 = q1 % 256;
    let q2 = q1 / 256;
    assert(n == b0 + 256 * q0) by (nonlinear_arith)
        requires
            b0 == n % 256,
            q0 == n / 256,
    ;
    assert(q0 == b1 + 256 * q1) by (nonlinear_arith)
        requires
            b1 == q0 % 256,
            q1 == q0 / 256,
    ;
    assert(q1 == b2 + 256 * q2) by (nonlinear_arith)
        requires
            b2 == q1 % 256,
            q2 == q1 / 256,
    ;
    assert(q0 == n / 256);
    assert(q1 == n / 65536) by (nonlinear_arith)
        requires
            q0 == n / 256,
            q1 == q0 / 256,
    ;
    assert(q2 == n / 16777216) by (nonlinear_arith)
        requires
            q1 == n / 65536,
            q2 == q1 / 256,
    ;
    assert(q2 < 256) by (nonlinear_arith)
        requires
            q2 == n / 16777216,
            n < 0x1_0000_0000,
    ;
    assert(q2 % 256 == q2);
}

/// The bytes of one record, for a payload shorter than 2^32 bytes.
pub fn encode_record(payload: &[u8]) -> (out: Vec<u8>)
    requires
        payload@.len() < 0x1_0000_0000,
    ensures
        out@ == record_bytes(payload@),
{
    let n = payload.len();
    let mut out: Vec<u8> = Vec::new();
    out.push((n % 256) as u8);
    out.push(((n / 256) % 256) as u8);
    out.push(((n / 65536) % 256) as u8);
    out.push(((n / 16777216) % 256) as u8);
    let mut i: usize = 0;
    while i < payload.len()
        invariant
            0 <= i <= payload@.len(),
            n == payload@.len(),
            out@ == le_bytes(n as nat) + payload@.take(i as int),
        decreases payload.len() - i,
    {
        out.push(payload[i]);
        proof {
            assert(payload@.take(i + 1) =~= payload@.take(i as int).push(payload@[i as int]));
            assert(le_bytes(n as nat) + payload@.take(i + 1) =~= (le_bytes(n as nat) + payload@.take(
                i as int,
            )).push(payload@[i as int]));
        }
        i = i + 1;
    }
    proof {
        assert(payload@.take(i as int) =~= payload@);
    }
    out
}

/// Splits the bytes of a journal file into the payloads of its records,
/// stopping at a missing or wrong version byte and at the first record that
/// is cut short.
pub fn decode_journal(file: &[u8]) -> (records: Vec<Vec<u8>>)
    ensures
        buffers_view(records@) == parse_journal(file@),
{
    let mut records: Vec<Vec<u8>> = Vec::new();
    if file.len() == 0 || file[0] != JOURNAL_VERSION {
        proof {
            assert(buffers_view(records@) =~= Seq::<Seq<u8>>::empty());
        }
        return records;
    }
    let flen = file.len();
    let mut pos: usize = 1;
    while pos < flen
        invariant
            flen == file@.len(),
            1 <= pos <= file@.len(),
            file@.len() > 0 && file@[0] == JOURNAL_VERSION,
            buffers_view(records@) + parse_records(file@.skip(pos as int)) == parse_records(
                file@.skip(1),
            ),
        ensures
            buffers_view(records@) == parse_records(file@.skip(1)),
        decreases file.len() - pos,
    {
        let rest = flen - pos;
        if rest < 4 {
            proof {
                let s = file@.skip(pos as int);
                assert(parse_records(s) =~= Seq::<Seq<u8>>::empty());
                assert(buffers_view(records@) + parse_records(s) =~= buffers_view(records@));
            }
            break;
        }
        let len: usize = file[pos] as usize + 256 * (file[pos + 1] as usize) + 65536 * (
        file[pos + 2] as usize) + 16777216 * (file[pos + 3] as usize);
        let ghost s = file@.skip(pos as int);
        proof {
            assert(s[0] == file@[pos as int] && s[1] == file@[pos + 1] && s[2] == file@[pos + 2]
                && s[3] == file@[pos + 3]);
            assert(len == le_value(s));
        }
        if rest - 4 < len {
            proof {
                assert(parse_records(s) =~= Seq::<Seq<u8>>::empty());
                assert(buffers_view(records@) + parse_records(s) =~= buffers_view(records@));
            }
            break;
        }
        let mut payload: Vec<u8> = Vec::new();
        let start = pos + 4;
        let mut i: usize = 0;
        while i < len
            invariant
                0 <= i <= len,
                flen == file@.len(),
                start + len <= flen,
                payload@ == file@.subrange(start as int, start + i),
            decreases len - i,
        {
            assert(start + i < file@.len());
            payload.push(file[start + i]);
            proof {
                assert(file@.subrange(start as int, start + i + 1) =~= file@.subrange(
                    start as int,
                    start + i,
                ).push(file@[start + i]));
            }
            i = i + 1;
        }
        let ghost before = records@;
        records.push(payload);
        proof {
            assert(s.subrange(4, 4 + len) =~= file@.subrange(start as int, start + len));
            assert(s.skip(4 + len) =~= file@.skip(pos + 4 + len));
            assert(parse_records(s) == seq![s.subrange(4, 4 + len)] + parse_records(s.skip(4 + len)));
            assert(buffers_view(records@) =~= buffers_view(before).push(payload@));
            assert(buffers_view(before).push(payload@) + parse_records(s.skip(4 + len))
                =~= buffers_view(before) + (seq![s.subrange(4, 4 + len)] + parse_records(
                s.skip(4 + len),
            )));
        }
        pos = pos + 4 + len;
    }
    records
}

/// Reading back what was written gives back the records: a journal made of
/// the version byte and the records of `payloads` holds exactly `payloads`.
pub proof fn lemma_journal_roundtrip(payloads: Seq<Seq<u8>>)
    requires
        forall|i: int| 0 <= i < payloads.len() ==> #[trigger] payloads[i].len() < 0x1_0000_0000,
    ensures
        parse_journal(seq![JOURNAL_VERSION] + records_bytes(payloads)) == payloads,
{
    let file = seq![JOURNAL_VERSION] + records_bytes(payloads);
    assert(file.skip(1) =~= records_bytes(payloads));
    lemma_records_roundtrip(payloads);
}

/// Parsing the bytes of several records gives back their payloads.
pub proof fn lemma_records_roundtrip(payloads: Seq<Seq<u8>>)
    requires
        forall|i: int| 0 <= i < payloads.len() ==> #[trigger] payloads[i].len() < 0x1_0000_0000,
    ensures
        parse_records(records_bytes(payloads)) == payloads,
    decreases payloads.len(),
{
    if payloads.len() == 0 {
        assert(parse_records(Seq::<u8>::empty()) =~= Seq::<Seq<u8>>::empty());
    } else {
        let p = payloads[0];
        let rest = payloads.skip(1);
        assert forall|i: int| 0 <= i < rest.len() implies #[trigger] rest[i].len() < 0x1_0000_0000 by {
            assert(rest[i] == payloads[i + 1]);
        }
        lemma_records_roundtrip(rest);
        lemma_parse_one(p, records_bytes(rest));
        assert(records_bytes(payloads) == record_bytes(p) + records_bytes(rest));
        assert(seq![p] + rest =~= payloads);
    }
}

/// A record followed by more bytes parses as its payload followed by what
/// the rest parses as.
proof fn lemma_parse_one(p: Seq<u8>, tail: Seq<u8>)
    requires
        p.len() < 0x1_0000_0000,
    ensures
        parse_records(record_bytes(p) + tail) == seq![p] + parse_records(tail),
{
    let s = record_bytes(p) + tail;
    let hdr = le_bytes(p.len());
    lemma_le_roundtrip(p.len());
    assert(s =~= hdr + p + tail);
    assert(s[0] == hdr[0] && s[1] == hdr[1] && s[2] == hdr[2] && s[3] == hdr[3]);
    assert(le_value(s) == p.len());
    assert(s.subrange(4, 4 + p.len() as int) =~= p);
    assert(s.skip(4 + p.len() as int) =~= tail);
}

/// A journal cut anywhere (a write torn by a crash) still reads as a prefix
/// of what the whole journal holds: only records at the end can be lost.
pub proof fn lemma_torn_prefix(s: Seq<u8>, k: int)
    requires
        0 <= k <= s.len(),
    ensures
        parse_records(s).take(parse_records(s.take(k)).len() as int) == parse_records(s.take(k)),
        parse_records(s.take(k)).len() <= parse_records(s).len(),
    decreases s.len(),
{
    let t = s.take(k);
    if t.len() < 4 {
        assert(parse_records(t) =~= Seq::<Seq<u8>>::empty());
        assert(parse_records(s).take(0) =~= Seq::<Seq<u8>>::empty());
    } else {
        assert(le_value(t) == le_value(s));
        let len = le_value(s);
        if t.len() - 4 < len {
            assert(parse_records(t) =~= Seq::<Seq<u8>>::empty());
            assert(parse_records(s).take(0) =~= Seq::<Seq<u8>>::empty());
        } else {
            let r = 4 + len;
            assert(t.subrange(4, r) =~= s.subrange(4, r));
            assert(t.skip(r) =~= s.skip(r).take(k - r));
            lemma_torn_prefix(s.skip(r), k - r);
            let pt = parse_records(t.skip(r));
            let ps = parse_records(s.skip(r));
            assert(parse_records(t) == seq![s.subrange(4, r)] + pt);
            assert(parse_records(s) == seq![s.subrange(4, r)] + ps);
            assert((seq![s.subrange(4, r)] + ps).take(1 + pt.len() as int) =~= seq![s.subrange(4, r)] + ps.take(
                pt.len() as int,
            ));
        }
    }
}

/// Appending a record to a journal whose bytes all parse adds exactly that
/// record.
pub proof fn lemma_append_record(prefix: Seq<Seq<u8>>, payload: Seq<u8>)
    requires
        forall|i: int| 0 <= i < prefix.len() ==> #[trigger] prefix[i].len() < 0x1_0000_0000,
        payload.len() < 0x1_0000_0000,
    ensures
        parse_records(records_bytes(prefix) + record_bytes(payload)) == prefix.push(payload),
{
    lemma_records_bytes_push(prefix, payload);
    let all = prefix.push(payload);
    assert forall|i: int| 0 <= i < all.len() implies #[trigger] all[i].len() < 0x1_0000_0000 by {
        if i < prefix.len() {
            assert(all[i] == prefix[i]);
        }
    }
    lemma_records_roundtrip(all);
}

proof fn lemma_records_bytes_push(prefix: Seq<Seq<u8>>, payload: Seq<u8>)
    ensures
        records_bytes(prefix.push(payload)) == records_bytes(prefix) + record_bytes(payload),
    decreases prefix.len(),
{
    if prefix.len() == 0 {
        let one = prefix.push(payload);
        assert(one.skip(1) =~= Seq::<Seq<u8>>::empty());
        assert(one[0] == payload);
        assert(records_bytes(one.skip(1)) == Seq::<u8>::empty());
        assert(records_bytes(one) =~= record_bytes(payload));
        assert(records_bytes(prefix) + record_bytes(payload) =~= record_bytes(payload));
    } else {
        lemma_records_bytes_push(prefix.skip(1), payload);
        assert(prefix.push(payload).skip(1) =~= prefix.skip(1).push(payload));
        assert(prefix.push(payload)[0] == prefix[0]);
        assert(record_bytes(prefix[0]) + (records_bytes(prefix.skip(1)) + record_bytes(payload)) =~= (
        record_bytes(prefix[0]) + records_bytes(prefix.skip(1))) + record_bytes(payload));
    }
}

/// The history after the events, starting from an empty one.
pub open spec fn history_after<C>(events: Seq<JournalEvent<C>>) -> HistoryView<C>
    decreases events.len(),
{
    if events.len() == 0 {
        HistoryView { undo: Seq::empty(), redo: Seq::empty() }
    } else {
        let h = history_after(events.drop_last());
        match events.last() {
            JournalEvent::Do(c) => h.after_record(c),
            JournalEvent::Undo => h.after_undo(),
            JournalEvent::Redo => h.after_redo(),
        }
    }
}

/// What one event does to the board, given the history before it.
pub open spec fn replay_step<T: BoardItem + Clone>(
    event: JournalEvent<Command<T>>,
    h: HistoryView<Command<T>>,
    pre: SceneView<T>,
    post: SceneView<T>,
) -> bool {
    match event {
        JournalEvent::Do(c) => c.applied(pre, post),
        JournalEvent::Undo => if h.undo.len() == 0 {
            post == pre
        } else {
            h.undo.last().undone(pre, post)
        },
        JournalEvent::Redo => if h.redo.len() == 0 {
            post == pre
        } else {
            h.redo.last().applied(pre, post)
        },
    }
}

/// `trace` is a run of the board through the events from an empty board.
pub open spec fn replays_through<T: BoardItem + Clone>(
    events: Seq<JournalEvent<Command<T>>>,
    trace: Seq<SceneView<T>>,
) -> bool {
    &&& trace.len() == events.len() + 1
    &&& trace[0] == empty_scene::<T>()
    &&& forall|i: int|
        0 <= i < events.len() ==> replay_step(
            #[trigger] events[i],
            history_after(events.take(i)),
            trace[i],
            trace[i + 1],
        )
}

/// Every id a command names.
pub open spec fn command_ids<T: BoardItem>(c: Command<T>) -> Seq<ItemId> {
    match c {
        Command::AddItem(a) => seq![a.id],
        Command::DeleteItems(d) => entry_ids(d.removed@),
        Command::ClearAll(x) => entry_ids(x.items@),
        Command::MoveItems(m) => m.ids@,
        Command::ResizeImage(r) => seq![r.id],
        Command::TransformShape(t) => seq![t.id],
    }
}

/// The event is a done command that names the id `k`.
pub open spec fn names<T: BoardItem>(e: JournalEvent<Command<T>>, k: ItemId) -> bool {
    match e {
        JournalEvent::Do(c) => command_ids(c).contains(k),
        _ => false,
    }
}

/// The smallest id the allocator may hand out once `id` is taken: the next
/// one, or the last id when `id` is the last.
pub open spec fn past(id: ItemId) -> ItemId {
    if id < u64::MAX {
        (id + 1) as u64
    } else {
        u64::MAX
    }
}

/// `bound` is the least id past every id the events name: no named id's
/// `past` exceeds it, and it is 0 or the `past` of a named id.
pub open spec fn id_bound_of<T: BoardItem>(events: Seq<JournalEvent<Command<T>>>, bound: ItemId) -> bool {
    &&& forall|j: int, k: ItemId| 0 <= j < events.len() && #[trigger] names(events[j], k) ==> past(k) <= bound
    &&& bound == 0 || exists|j: int, k: ItemId|
        0 <= j < events.len() && #[trigger] names(events[j], k) && bound == past(k)
}

/// The command `c` is among the undo or the redo stack.
pub open spec fn in_history<C>(h: HistoryView<C>, c: C) -> bool {
    h.undo.contains(c) || h.redo.contains(c)
}

/// One of the first `n` events names `k`.
pub open spec fn named_before<T: BoardItem>(events: Seq<JournalEvent<Command<T>>>, n: int, k: ItemId) -> bool {
    exists|j: int| 0 <= j < n && #[trigger] names(events[j], k)
}

/// One of the first `n` events is the done command `c`.
pub open spec fn done_before<C>(events: Seq<JournalEvent<C>>, n: int, c: C) -> bool {
    exists|j: int| 0 <= j < n && #[trigger] events[j] == JournalEvent::Do(c)
}

proof fn lemma_remove_all_dom<T>(v: SceneView<T>, ids: Seq<ItemId>)
    ensures
        forall|k: ItemId| #[trigger] v.after_remove_all(ids).items.contains_key(k) ==> v.items.contains_key(k),
    decreases ids.len(),
{
    if ids.len() > 0 {
        lemma_remove_all_dom(v, ids.drop_last());
        let prev = v.after_remove_all(ids.drop_last());
        assert(v.after_remove_all(ids) == prev.after_remove(ids.last()));
        assert forall|k: ItemId| #[trigger] v.after_remove_all(ids).items.contains_key(k) implies v.items.contains_key(
            k,
        ) by {
            assert(prev.items.contains_key(k));
        }
    }
}

proof fn lemma_insert_all_dom<T>(v: SceneView<T>, ids: Seq<ItemId>, vals: Seq<T>, zs: Seq<nat>)
    ensures
        forall|k: ItemId| #[trigger] v.after_insert_all(ids, vals, zs).items.contains_key(k) ==> v.items.contains_key(k)
            || ids.contains(k),
    decreases ids.len(),
{
    if ids.len() > 0 {
        lemma_insert_all_dom(v, ids.drop_last(), vals.drop_last(), zs.drop_last());
        assert forall|k: ItemId| ids.drop_last().contains(k) implies ids.contains(k) by {
            let a = choose|a: int| 0 <= a < ids.drop_last().len() && ids.drop_last()[a] == k;
            assert(ids[a] == k);
        }
        assert(ids[ids.len() - 1] == ids.last());
        let prev = v.after_insert_all(ids.drop_last(), vals.drop_last(), zs.drop_last());
        assert(v.after_insert_all(ids, vals, zs) == prev.after_insert_at(ids.last(), vals.last(), zs.last()));
        assert forall|k: ItemId| #[trigger] v.after_insert_all(ids, vals, zs).items.contains_key(k) implies v.items.contains_key(
            k,
        ) || ids.contains(k) by {
            if k != ids.last() {
                assert(prev.items.contains_key(k));
            }
        }
    }
}

/// A board after a command (applied or taken back) holds only items it held
/// before or items the command names.
proof fn lemma_command_ids_cover<T: BoardItem + Clone>(
    cmd: Command<T>,
    forward: bool,
    pre: SceneView<T>,
    post: SceneView<T>,
)
    requires
        forward ==> cmd.applied(pre, post),
        !forward ==> cmd.undone(pre, post),
    ensures
        forall|k: ItemId| #[trigger] post.items.contains_key(k) ==> pre.items.contains_key(k) || command_ids(
            cmd,
        ).contains(k),
{
    match cmd {
        Command::AddItem(c) => {
            assert(seq![c.id][0] == c.id);
        },
        Command::DeleteItems(c) => {
            if forward {
                lemma_remove_all_dom(pre, entry_ids(c.removed@));
            } else {
                lemma_restored_ids(pre, post, c.removed@);
            }
        },
        Command::ClearAll(c) => {
            if forward {
                lemma_remove_all_dom(pre, entry_ids(c.items@));
            } else {
                lemma_restored_ids(pre, post, c.items@);
            }
        },
        _ => {},
    }
}

proof fn lemma_restored_ids<T: Clone>(pre: SceneView<T>, post: SceneView<T>, entries: Seq<Removed<T>>)
    requires
        pre.restored_into(post, entries),
    ensures
        forall|k: ItemId| #[trigger] post.items.contains_key(k) ==> pre.items.contains_key(k) || entry_ids(
            entries,
        ).contains(k),
{
    let (p, vals) = choose|p: Seq<int>, vals: Seq<T>|
        {
            &&& stably_sorts(p, crate::command::entry_keys(entries))
            &&& vals.len() == entries.len()
            &&& forall|j: int| 0 <= j < vals.len() ==> cloned::<T>(#[trigger] entries[p[j]].1, vals[j])
            &&& post == pre.after_insert_all(
                permuted(entry_ids(entries), p),
                vals,
                permuted(crate::command::entry_keys(entries), p),
            )
        };
    let ids_s = permuted(entry_ids(entries), p);
    lemma_insert_all_dom(pre, ids_s, vals, permuted(crate::command::entry_keys(entries), p));
    assert forall|k: ItemId| ids_s.contains(k) implies entry_ids(entries).contains(k) by {
        let a = choose|a: int| 0 <= a < ids_s.len() && ids_s[a] == k;
        assert(0 <= p[a] < entries.len());
        assert(entry_ids(entries)[p[a]] == k);
    }
}

/// What one event does to the history keeps every command in it a command
/// that was in it before or the one the event does.
proof fn lemma_history_members<C>(h: HistoryView<C>, e: JournalEvent<C>, c: C)
    requires
        in_history(
            match e {
                JournalEvent::Do(d) => h.after_record(d),
                JournalEvent::Undo => h.after_undo(),
                JournalEvent::Redo => h.after_redo(),
            },
            c,
        ),
    ensures
        in_history(h, c) || e == JournalEvent::Do(c),
{
    match e {
        JournalEvent::Do(d) => {
            let u = h.undo.push(d);
            if u.len() > crate::history::UNDO_STACK_LIMIT {
                let t = u.subrange(1, u.len() as int);
                if t.contains(c) {
                    let a = choose|a: int| 0 <= a < t.len() && t[a] == c;
                    assert(u[a + 1] == c);
                }
            }
            if u.contains(c) && c != d {
                let a = choose|a: int| 0 <= a < u.len() && u[a] == c;
                assert(h.undo[a] == c);
            }
        },
        JournalEvent::Undo => {
            if h.undo.len() > 0 {
                let n = h.after_undo();
                if n.undo.contains(c) {
                    let a = choose|a: int| 0 <= a < n.undo.len() && n.undo[a] == c;
                    assert(h.undo[a] == c);
                }
                if n.redo.contains(c) {
                    let a = choose|a: int| 0 <= a < n.redo.len() && n.redo[a] == c;
                    if a < h.redo.len() {
                        assert(h.redo[a] == c);
                    } else {
                        assert(h.undo[h.undo.len() - 1] == c);
                    }
                }
            }
        },
        JournalEvent::Redo => {
            if h.redo.len() > 0 {
                let n = h.after_redo();
                if n.redo.contains(c) {
                    let a = choose|a: int| 0 <= a < n.redo.len() && n.redo[a] == c;
                    assert(h.redo[a] == c);
                }
                if n.undo.contains(c) {
                    let a = choose|a: int| 0 <= a < n.undo.len() && n.undo[a] == c;
                    if a < h.undo.len() {
                        assert(h.undo[a] == c);
                    } else {
                        assert(h.redo[h.redo.len() - 1] == c);
                    }
                }
            }
        },
    }
}

/// Raises `bound` to past `id`.
fn raise_bound(bound: ItemId, id: ItemId) -> (r: ItemId)
    ensures
        r == if past(id) > bound {
            past(id)
        } else {
            bound
        },
{
    let p = if id < u64::MAX {
        id + 1
    } else {
        u64::MAX
    };
    if p > bound {
        p
    } else {
        bound
    }
}

/// Raises `bound` to past every id in `ids`.
fn raise_past_ids(ids: &Vec<ItemId>, bound: ItemId) -> (r: ItemId)
    ensures
        r >= bound,
        forall|k: ItemId| ids@.contains(k) ==> past(k) <= r,
        r == bound || exists|k: ItemId| ids@.contains(k) && r == past(k),
{
    let mut b = bound;
    let mut i: usize = 0;
    while i < ids.len()
        invariant
            0 <= i <= ids.len(),
            b >= bound,
            forall|a: int| 0 <= a < i ==> past(#[trigger] ids@[a]) <= b,
            b == bound || exists|a: int| 0 <= a < i && b == past(#[trigger] ids@[a]),
        decreases ids.len() - i,
    {
        b = raise_bound(b, ids[i]);
        i = i + 1;
    }
    proof {
        assert forall|k: ItemId| ids@.contains(k) implies past(k) <= b by {
            let a = choose|a: int| 0 <= a < ids@.len() && ids@[a] == k;
        }
        if b != bound {
            let a = choose|a: int| 0 <= a < i && b == past(#[trigger] ids@[a]);
            assert(ids@.contains(ids@[a]));
        }
    }
    b
}

/// Raises `bound` to past the id of every deletion entry.
fn raise_past_entries<T>(entries: &Vec<Removed<T>>, bound: ItemId) -> (r: ItemId)
    ensures
        r >= bound,
        forall|k: ItemId| entry_ids(entries@).contains(k) ==> past(k) <= r,
        r == bound || exists|k: ItemId| entry_ids(entries@).contains(k) && r == past(k),
{
    let ghost ids = entry_ids(entries@);
    let mut b = bound;
    let mut i: usize = 0;
    while i < entries.len()
        invariant
            0 <= i <= entries.len(),
            ids == entry_ids(entries@),
            b >= bound,
            forall|a: int| 0 <= a < i ==> past(#[trigger] ids[a]) <= b,
            b == bound || exists|a: int| 0 <= a < i && b == past(#[trigger] ids[a]),
        decreases entries.len() - i,
    {
        assert(ids[i as int] == entries@[i as int].0);
        b = raise_bound(b, entries[i].0);
        i = i + 1;
    }
    proof {
        assert forall|k: ItemId| ids.contains(k) implies past(k) <= b by {
            let a = choose|a: int| 0 <= a < ids.len() && ids[a] == k;
        }
        if b != bound {
            let a = choose|a: int| 0 <= a < i && b == past(#[trigger] ids[a]);
            assert(ids.contains(ids[a]));
        }
    }
    b
}

/// Raises `bound` to past every id the command names.
fn raise_past_command<T: BoardItem>(c: &Command<T>, bound: ItemId) -> (r: ItemId)
    ensures
        r >= bound,
        forall|k: ItemId| command_ids(*c).contains(k) ==> past(k) <= r,
        r == bound || exists|k: ItemId| command_ids(*c).contains(k) && r == past(k),
{
    match c {
        Command::AddItem(a) => {
            let r = raise_bound(bound, a.id);
            proof {
                assert(seq![a.id][0] == a.id);
                assert forall|k: ItemId| seq![a.id].contains(k) implies k == a.id by {
                    let i = choose|i: int| 0 <= i < 1 && seq![a.id][i] == k;
                }
            }
            r
        },
        Command::DeleteItems(d) => raise_past_entries(&d.removed, bound),
        Command::ClearAll(x) => raise_past_entries(&x.items, bound),
        Command::MoveItems(m) => raise_past_ids(&m.ids, bound),
        Command::ResizeImage(x) => {
            let r = raise_bound(bound, x.id);
            proof {
                assert(seq![x.id][0] == x.id);
                assert forall|k: ItemId| seq![x.id].contains(k) implies k == x.id by {
                    let i = choose|i: int| 0 <= i < 1 && seq![x.id][i] == k;
                }
            }
            r
        },
        Command::TransformShape(x) => {
            let r = raise_bound(bound, x.id);
            proof {
                assert(seq![x.id][0] == x.id);
                assert forall|k: ItemId| seq![x.id].contains(k) implies k == x.id by {
                    let i = choose|i: int| 0 <= i < 1 && seq![x.id][i] == k;
                }
            }
            r
        },
    }
}

/// The least id past every id the events name.
fn id_bound<T: BoardItem>(events: &Vec<JournalEvent<Command<T>>>) -> (r: ItemId)
    ensures
        id_bound_of(events@, r),
{
    let mut b: ItemId = 0;
    let mut j: usize = 0;
    while j < events.len()
        invariant
            0 <= j <= events.len(),
            id_bound_of(events@.take(j as int), b),
        decreases events.len() - j,
    {
        let ghost prev = events@.take(j as int);
        let ghost b0 = b;
        match &events[j] {
            JournalEvent::Do(c) => {
                b = raise_past_command(c, b);
            },
            _ => {},
        }
        proof {
            let now = events@.take(j + 1);
            assert forall|x: int| 0 <= x < j implies now[x] == prev[x] by {}
            assert(now[j as int] == events@[j as int]);
            assert forall|x: int, k: ItemId| 0 <= x < now.len() && #[trigger] names(now[x], k) implies past(k)
                <= b by {
                if x < j {
                    assert(names(prev[x], k));
                }
            }
            if b != 0 {
                if b == b0 {
                    let (x, k) = choose|x: int, k: ItemId| 0 <= x < prev.len() && #[trigger] names(prev[x], k) && b0 == past(k);
                    assert(names(now[x], k));
                } else {
                    let k = choose|k: ItemId| command_ids(events@[j as int]->Do_0).contains(k) && b == past(k);
                    assert(names(now[j as int], k));
                }
            }
        }
        j = j + 1;
    }
    proof {
        assert(events@.take(j as int) =~= events@);
    }
    b
}

/// Every step of a replay keeps the allocator's next id: commands never
/// allocate.
proof fn lemma_trace_keeps_next_id<T: BoardItem + Clone>(
    evs: Seq<JournalEvent<Command<T>>>,
    trace: Seq<SceneView<T>>,
    n: int,
)
    requires
        0 <= n <= evs.len(),
        trace.len() >= n + 1,
        trace[0] == empty_scene::<T>(),
        forall|i: int|
            0 <= i < n ==> replay_step(#[trigger] evs[i], history_after(evs.take(i)), trace[i], trace[i + 1]),
    ensures
        trace[n].next_id == 0,
    decreases n,
{
    if n > 0 {
        lemma_trace_keeps_next_id(evs, trace, n - 1);
        let i = n - 1;
        assert(replay_step(evs[i], history_after(evs.take(i)), trace[i], trace[i + 1]));
        lemma_step_keeps_next_id(evs[i], history_after(evs.take(i)), trace[i], trace[i + 1]);
    }
}

proof fn lemma_step_keeps_next_id<T: BoardItem + Clone>(
    e: JournalEvent<Command<T>>,
    h: HistoryView<Command<T>>,
    pre: SceneView<T>,
    post: SceneView<T>,
)
    requires
        replay_step(e, h, pre, post),
    ensures
        post.next_id == pre.next_id,
{
    let cmd = match e {
        JournalEvent::Do(c) => c,
        JournalEvent::Undo => h.undo.last(),
        JournalEvent::Redo => h.redo.last(),
    };
    let forward = !(e is Undo);
    if (e is Undo && h.undo.len() == 0) || (e is Redo && h.redo.len() == 0) {
    } else {
        lemma_command_keeps_next_id(cmd, forward, pre, post);
    }
}

proof fn lemma_command_keeps_next_id<T: BoardItem + Clone>(
    cmd: Command<T>,
    forward: bool,
    pre: SceneView<T>,
    post: SceneView<T>,
)
    requires
        forward ==> cmd.applied(pre, post),
        !forward ==> cmd.undone(pre, post),
    ensures
        post.next_id == pre.next_id,
{
    match cmd {
        Command::DeleteItems(c) => {
            if forward {
                lemma_remove_all_next_id(pre, entry_ids(c.removed@));
            } else {
                lemma_restored_next_id(pre, post, c.removed@);
            }
        },
        Command::ClearAll(c) => {
            if forward {
                lemma_remove_all_next_id(pre, entry_ids(c.items@));
            } else {
                lemma_restored_next_id(pre, post, c.items@);
            }
        },
        _ => {},
    }
}

proof fn lemma_remove_all_next_id<T>(v: SceneView<T>, ids: Seq<ItemId>)
    ensures
        v.after_remove_all(ids).next_id == v.next_id,
    decreases ids.len(),
{
    if ids.len() > 0 {
        lemma_remove_all_next_id(v, ids.drop_last());
    }
}

proof fn lemma_insert_all_next_id<T>(v: SceneView<T>, ids: Seq<ItemId>, vals: Seq<T>, zs: Seq<nat>)
    ensures
        v.after_insert_all(ids, vals, zs).next_id == v.next_id,
    decreases ids.len(),
{
    if ids.len() > 0 {
        lemma_insert_all_next_id(v, ids.drop_last(), vals.drop_last(), zs.drop_last());
    }
}

proof fn lemma_restored_next_id<T: Clone>(pre: SceneView<T>, post: SceneView<T>, entries: Seq<Removed<T>>)
    requires
        pre.restored_into(post, entries),
    ensures
        post.next_id == pre.next_id,
{
    let (p, vals) = choose|p: Seq<int>, vals: Seq<T>|
        {
            &&& stably_sorts(p, crate::command::entry_keys(entries))
            &&& vals.len() == entries.len()
            &&& forall|j: int| 0 <= j < vals.len() ==> cloned::<T>(#[trigger] entries[p[j]].1, vals[j])
            &&& post == pre.after_insert_all(
                permuted(entry_ids(entries), p),
                vals,
                permuted(crate::command::entry_keys(entries), p),
            )
        };
    lemma_insert_all_next_id(pre, permuted(entry_ids(entries), p), vals, permuted(crate::command::entry_keys(entries), p));
}

/// One replayed event keeps two facts: every live item is named by an
/// event replayed so far, and every command in the history is one of the
/// commands done so far.
proof fn lemma_replay_step_ids<T: BoardItem + Clone>(
    evs: Seq<JournalEvent<Command<T>>>,
    done: int,
    h: HistoryView<Command<T>>,
    h2: HistoryView<Command<T>>,
    pre: SceneView<T>,
    post: SceneView<T>,
)
    requires
        0 <= done < evs.len(),
        h2 == (match evs[done] {
            JournalEvent::Do(d) => h.after_record(d),
            JournalEvent::Undo => h.after_undo(),
            JournalEvent::Redo => h.after_redo(),
        }),
        replay_step(evs[done], h, pre, post),
        forall|k: ItemId| #[trigger] pre.items.contains_key(k) ==> named_before(evs, done, k),
        forall|c: Command<T>| #[trigger] in_history(h, c) ==> done_before(evs, done, c),
    ensures
        forall|k: ItemId| #[trigger] post.items.contains_key(k) ==> named_before(evs, done + 1, k),
        forall|c: Command<T>| #[trigger] in_history(h2, c) ==> done_before(evs, done + 1, c),
{
    let e = evs[done];
    assert forall|c: Command<T>| #[trigger] in_history(h2, c) implies done_before(evs, done + 1, c) by {
        lemma_history_members(h, e, c);
        if in_history(h, c) {
            let j = choose|j: int| 0 <= j < done && #[trigger] evs[j] == JournalEvent::Do(c);
            assert(evs[j] == JournalEvent::Do(c));
        } else {
            assert(evs[done] == JournalEvent::Do(c));
        }
    }
    // The command the event runs, and where it comes from.
    let skip = (e is Undo && h.undo.len() == 0) || (e is Redo && h.redo.len() == 0);
    if !skip {
        let cmd = match e {
            JournalEvent::Do(c) => c,
            JournalEvent::Undo => h.undo.last(),
            JournalEvent::Redo => h.redo.last(),
        };
        let forward = !(e is Undo);
        lemma_command_ids_cover(cmd, forward, pre, post);
        let src: int = if e is Do {
            done
        } else {
            if e is Undo {
                assert(h.undo.contains(h.undo.last())) by {
                    assert(h.undo[h.undo.len() - 1] == h.undo.last());
                }
            } else {
                assert(h.redo.contains(h.redo.last())) by {
                    assert(h.redo[h.redo.len() - 1] == h.redo.last());
                }
            }
            assert(in_history(h, cmd));
            choose|j: int| 0 <= j < done && #[trigger] evs[j] == JournalEvent::Do(cmd)
        };
        assert(0 <= src <= done && evs[src] == JournalEvent::Do(cmd));
        assert forall|k: ItemId| #[trigger] post.items.contains_key(k) implies named_before(evs, done + 1, k) by {
            if pre.items.contains_key(k) {
                let j = choose|j: int| 0 <= j < done && #[trigger] names(evs[j], k);
                assert(names(evs[j], k));
            } else {
                assert(command_ids(cmd).contains(k));
                assert(names(evs[src], k));
            }
        }
    } else {
        assert(post == pre);
        assert forall|k: ItemId| #[trigger] post.items.contains_key(k) implies named_before(evs, done + 1, k) by {
            let j = choose|j: int| 0 <= j < done && #[trigger] names(evs[j], k);
            assert(names(evs[j], k));
        }
    }
}

/// Rebuilds the board and its history from the journal's events: each done
/// command is executed, each undo and redo replayed, in order, starting from
/// an empty board. The id allocator then resumes past every id the journal
/// names, so that an item drawn after a restart gets an id no live item has.
pub fn replay<T: BoardItem + Clone>(events: Vec<JournalEvent<Command<T>>>) -> (r: (Scene<T>, UndoStack<T>))
    ensures
        r.0.wf(),
        r.1@ == history_after(events@),
        r.1@.wf(),
        exists|trace: Seq<SceneView<T>>|
            replays_through(events@, trace) && r.0@ == (SceneView {
                next_id: r.0@.next_id,
                ..trace[events@.len() as int]
            }),
        id_bound_of(events@, r.0@.next_id),
        forall|k: ItemId| #[trigger] r.0@.items.contains_key(k) ==> named_before(events@, events@.len() as int, k),
        r.0@.next_id < u64::MAX ==> !r.0@.items.contains_key(r.0@.next_id),
{
    let ghost evs = events@;
    let bound = id_bound(&events);
    let mut pending: Vec<JournalEvent<Command<T>>> = Vec::new();
    let mut events = events;
    while events.len() > 0
        invariant
            events@.len() + pending@.len() == evs.len(),
            events@ == evs.take(events@.len() as int),
            forall|i: int| 0 <= i < pending@.len() ==> #[trigger] pending@[i] == evs[evs.len() - 1 - i],
        decreases events.len(),
    {
        let ghost before = events@;
        match events.pop() {
            Some(e) => {
                proof {
                    assert(e == evs[before.len() - 1]);
                    assert(events@ =~= evs.take(events@.len() as int));
                }
                pending.push(e);
            },
            None => {},
        }
    }
    let mut scene = Scene::new();
    let mut stack = UndoStack::new();
    let ghost mut trace: Seq<SceneView<T>> = seq![scene@];
    let ghost mut done: int = 0;
    proof {
        assert(stack@ == history_after(evs.take(0))) by {
            assert(evs.take(0) =~= Seq::<JournalEvent<Command<T>>>::empty());
        }
    }
    while pending.len() > 0
        invariant
            pending@.len() + done == evs.len(),
            forall|i: int| 0 <= i < pending@.len() ==> #[trigger] pending@[i] == evs[evs.len() - 1 - i],
            0 <= done <= evs.len(),
            scene.wf(),
            stack@ == history_after(evs.take(done)),
            stack@.wf(),
            trace.len() == done + 1,
            trace[0] == empty_scene::<T>(),
            trace[done] == scene@,
            forall|k: ItemId| #[trigger] scene@.items.contains_key(k) ==> named_before(evs, done, k),
            forall|c: Command<T>| #[trigger] in_history(stack@, c) ==> done_before(evs, done, c),
            forall|i: int|
                0 <= i < done ==> replay_step(
                    #[trigger] evs[i],
                    history_after(evs.take(i)),
                    trace[i],
                    trace[i + 1],
                ),
        decreases pending.len(),
    {
        let ghost h = stack@;
        let ghost pre = scene@;
        match pending.pop() {
            Some(e) => {
                proof {
                    assert(evs[done] == e);
                    assert(evs.take(done + 1).drop_last() =~= evs.take(done));
                    assert(evs.take(done + 1).last() == e);
                }
                match e {
                    JournalEvent::Do(c) => {
                        stack.execute(c, &mut scene);
                    },
                    JournalEvent::Undo => {
                        stack.undo(&mut scene);
                    },
                    JournalEvent::Redo => {
                        stack.redo(&mut scene);
                    },
                }
                proof {
                    trace = trace.push(scene@);
                    assert(replay_step(evs[done], h, pre, scene@));
                    lemma_replay_step_ids(evs, done, h, stack@, pre, scene@);
                    done = done + 1;
                }
            },
            None => {},
        }
    }
    proof {
        assert(evs.take(done) =~= evs);
        assert(replays_through(evs, trace));
    }
    let ghost last = scene@;
    scene.reserve_ids_below(bound);
    proof {
        assert(last.next_id == 0) by {
            lemma_trace_keeps_next_id(evs, trace, done);
        }
        assert(scene@.next_id == bound);
        if bound < u64::MAX && scene@.items.contains_key(bound) {
            let j = choose|j: int| 0 <= j < done && #[trigger] names(evs[j], bound);
            assert(past(bound) <= bound);
        }
    }
    (scene, stack)
}

} // verus!
