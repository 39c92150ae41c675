use hwboard::actions::{clear_all, commit_erasure, delete_item, erase_item};
use hwboard::command::{
    snapshot_all, take_item, AddItem, ClearAll, Command, DeleteItems, MoveItems, ResizeImage, TransformShape,
};
use hwboard::history::{UndoStack, UNDO_STACK_LIMIT};
use hwboard::journal::{replay, JournalEvent};
use hwboard::scene::{BoardItem, ItemId, Scene};

#[derive(Debug, Clone, PartialEq)]
struct Dot {
    name: &'static str,
    x: f64,
    y: f64,
    w: f64,
    dirty: bool,
}

fn dot(name: &'static str) -> Dot {
    Dot { name, x: 0.0, y: 0.0, w: 1.0, dirty: true }
}

impl BoardItem for Dot {
    type Offset = [f64; 2];
    type Bounds = f64;
    type Pose = f64;
    fn translated(mut self, delta: &[f64; 2]) -> Self {
        self.x += delta[0];
        self.y += delta[1];
        self
    }
    fn translated_back(mut self, delta: &[f64; 2]) -> Self {
        self.x -= delta[0];
        self.y -= delta[1];
        self
    }
    fn with_image_bounds(mut self, bounds: &f64) -> Self {
        self.w = *bounds;
        self
    }
    fn with_shape_pose(mut self, pose: &f64) -> Self {
        self.w = -*pose;
        self
    }
    fn mark_stroke_clean(&mut self) {
        self.dirty = false;
    }
    fn mark_shape_clean(&mut self) {}
    fn mark_image_clean(&mut self) {}
}

fn ids(scene: &Scene<Dot>) -> Vec<ItemId> {
    scene.iter_ordered_with_id().into_iter().map(|(id, _)| id).collect()
}

fn names(scene: &Scene<Dot>) -> Vec<&'static str> {
    scene.iter_ordered().into_iter().map(|d| d.name).collect()
}

fn board_abc() -> Scene<Dot> {
    let mut s = Scene::new();
    for n in ["a", "b", "c"] {
        let id = s.alloc_id();
        s.insert(id, dot(n));
    }
    s
}

#[test]
fn alloc_id_counts_up_from_zero() {
    let mut s: Scene<Dot> = Scene::new();
    assert_eq!(s.alloc_id(), 0);
    assert_eq!(s.alloc_id(), 1);
    assert_eq!(s.alloc_id(), 2);
}

#[test]
fn insert_puts_items_on_top() {
    let s = board_abc();
    assert_eq!(ids(&s), vec![0, 1, 2]);
    assert_eq!(names(&s), vec!["a", "b", "c"]);
    assert_eq!(s.item(1).map(|d| d.name), Some("b"));
    assert!(s.item(7).is_none());
}

#[test]
fn insert_at_places_and_clamps() {
    let mut s = board_abc();
    s.insert_at(10, dot("x"), 1);
    assert_eq!(ids(&s), vec![0, 10, 1, 2]);
    s.insert_at(11, dot("y"), 99);
    assert_eq!(ids(&s), vec![0, 10, 1, 2, 11]);
    assert_eq!(s.z_index_of(11), Some(4));
    assert_eq!(s.z_index_of(10), Some(1));
    assert_eq!(s.z_index_of(42), None);
}

#[test]
fn remove_takes_every_occurrence_and_logs() {
    let mut s = board_abc();
    s.insert(1, dot("b2"));
    assert_eq!(ids(&s), vec![0, 1, 2, 1]);
    assert_eq!(s.item(1).map(|d| d.name), Some("b2"));
    s.remove(1);
    assert_eq!(ids(&s), vec![0, 2]);
    assert!(s.item(1).is_none());
    s.remove(99);
    assert_eq!(s.take_removed(), vec![1, 99]);
    assert_eq!(s.take_removed(), Vec::<ItemId>::new());
    assert_eq!(s.take_inserted(), vec![0, 1, 2, 1]);
}

#[test]
fn reverse_order_lists_top_first() {
    let s = board_abc();
    let rev: Vec<ItemId> = s.iter_ordered_with_id_rev().into_iter().map(|(id, _)| id).collect();
    assert_eq!(rev, vec![2, 1, 0]);
}

#[test]
fn item_mut_logs_touched_even_when_missing() {
    let mut s = board_abc();
    if let Some(d) = s.item_mut(1) {
        d.x = 5.0;
    }
    assert!(s.item_mut(77).is_none());
    assert_eq!(s.item(1).unwrap().x, 5.0);
    assert_eq!(s.take_touched(), vec![1, 77]);
    assert_eq!(ids(&s), vec![0, 1, 2]);
}

#[test]
fn mark_clean_logs_nothing() {
    let mut s = board_abc();
    s.mark_stroke_clean(0);
    s.mark_shape_clean(1);
    s.mark_image_clean(2);
    assert!(!s.item(0).unwrap().dirty);
    assert!(s.item(1).unwrap().dirty);
    assert_eq!(s.take_touched(), Vec::<ItemId>::new());
}

#[test]
fn add_item_then_undo_restores() {
    let mut s = board_abc();
    let cmd: Command<Dot> = Command::AddItem(AddItem { id: 9, item: dot("n") });
    cmd.apply(&mut s);
    assert_eq!(ids(&s), vec![0, 1, 2, 9]);
    cmd.undo(&mut s);
    assert_eq!(ids(&s), vec![0, 1, 2]);
    assert!(s.item(9).is_none());
}

#[test]
fn delete_items_then_undo_restores_order() {
    let mut s = board_abc();
    let entries = vec![(2, dot("c"), 2), (0, dot("a"), 0)];
    let cmd: Command<Dot> = Command::DeleteItems(DeleteItems { removed: entries });
    cmd.apply(&mut s);
    assert_eq!(ids(&s), vec![1]);
    cmd.undo(&mut s);
    assert_eq!(ids(&s), vec![0, 1, 2]);
    assert_eq!(names(&s), vec!["a", "b", "c"]);
}

#[test]
fn eraser_style_positions_can_reorder() {
    // Positions recorded after earlier removals (as an eraser sweep does)
    // are not positions in the board as it was; undo inserts by the recorded
    // positions, stably sorted.
    let mut s = board_abc();
    let entries = vec![(1, dot("b"), 1), (2, dot("c"), 1)];
    let cmd: Command<Dot> = Command::DeleteItems(DeleteItems { removed: entries });
    cmd.apply(&mut s);
    cmd.undo(&mut s);
    assert_eq!(ids(&s), vec![0, 2, 1]);
}

#[test]
fn clear_all_then_undo_restores() {
    let mut s = board_abc();
    let snapshot: Vec<(ItemId, Dot, usize)> = s
        .iter_ordered_with_id()
        .into_iter()
        .enumerate()
        .map(|(i, (id, d))| (id, d.clone(), i))
        .collect();
    let cmd: Command<Dot> = Command::ClearAll(ClearAll { items: snapshot });
    cmd.apply(&mut s);
    assert!(ids(&s).is_empty());
    cmd.undo(&mut s);
    assert_eq!(names(&s), vec!["a", "b", "c"]);
}

#[test]
fn move_items_moves_present_items_and_back() {
    let mut s = board_abc();
    let cmd: Command<Dot> = Command::MoveItems(MoveItems { ids: vec![0, 5, 2], delta: [2.0, 3.0] });
    cmd.apply(&mut s);
    assert_eq!((s.item(0).unwrap().x, s.item(0).unwrap().y), (2.0, 3.0));
    assert_eq!(s.item(1).unwrap().x, 0.0);
    assert_eq!(s.take_touched(), vec![0, 5, 2]);
    cmd.undo(&mut s);
    assert_eq!((s.item(2).unwrap().x, s.item(2).unwrap().y), (0.0, 0.0));
}

#[test]
fn move_then_undo_keeps_layout_and_others() {
    let mut s = board_abc();
    s.take_touched();
    let cmd: Command<Dot> = Command::MoveItems(MoveItems { ids: vec![1], delta: [5.0, -1.0] });
    cmd.apply(&mut s);
    cmd.undo(&mut s);
    assert_eq!(ids(&s), vec![0, 1, 2]);
    assert_eq!(s.item(0).unwrap(), &dot("a"));
    assert_eq!(s.item(2).unwrap(), &dot("c"));
    assert_eq!(s.take_touched(), vec![1, 1]);
    assert!(s.take_inserted().len() == 3 && s.take_removed().is_empty());
}

#[test]
fn resize_and_transform_set_before_and_after() {
    let mut s = board_abc();
    let resize: Command<Dot> = Command::ResizeImage(ResizeImage { id: 1, before: 1.0, after: 4.0 });
    resize.apply(&mut s);
    assert_eq!(s.item(1).unwrap().w, 4.0);
    resize.undo(&mut s);
    assert_eq!(s.item(1).unwrap().w, 1.0);
    let pose: Command<Dot> = Command::TransformShape(TransformShape { id: 2, before: 1.0, after: 3.0 });
    pose.apply(&mut s);
    assert_eq!(s.item(2).unwrap().w, -3.0);
    assert_eq!(s.take_touched(), vec![1, 1, 2]);
}

#[test]
fn history_undo_redo_moves_commands() {
    let mut s: Scene<Dot> = Scene::new();
    let mut h: UndoStack<Dot> = UndoStack::new();
    h.execute(Command::AddItem(AddItem { id: 0, item: dot("a") }), &mut s);
    h.execute(Command::AddItem(AddItem { id: 1, item: dot("b") }), &mut s);
    assert_eq!(ids(&s), vec![0, 1]);
    assert!(h.undo(&mut s));
    assert_eq!(ids(&s), vec![0]);
    assert!(h.redo(&mut s));
    assert_eq!(ids(&s), vec![0, 1]);
    assert!(!h.redo(&mut s));
    assert!(h.undo(&mut s));
    assert!(h.undo(&mut s));
    assert!(!h.undo(&mut s));
    assert!(ids(&s).is_empty());
}

#[test]
fn execute_clears_redo() {
    let mut s: Scene<Dot> = Scene::new();
    let mut h: UndoStack<Dot> = UndoStack::new();
    h.execute(Command::AddItem(AddItem { id: 0, item: dot("a") }), &mut s);
    h.undo(&mut s);
    h.execute(Command::AddItem(AddItem { id: 1, item: dot("b") }), &mut s);
    assert!(!h.redo(&mut s));
    assert_eq!(ids(&s), vec![1]);
}

#[test]
fn push_already_applied_records_without_applying() {
    let mut s = board_abc();
    let mut h: UndoStack<Dot> = UndoStack::new();
    s.remove(1);
    h.push_already_applied(Command::DeleteItems(DeleteItems { removed: vec![(1, dot("b"), 1)] }));
    assert_eq!(ids(&s), vec![0, 2]);
    h.undo(&mut s);
    assert_eq!(ids(&s), vec![0, 1, 2]);
}

#[test]
fn history_keeps_at_most_the_limit() {
    let mut s: Scene<Dot> = Scene::new();
    let mut h: UndoStack<Dot> = UndoStack::new();
    for i in 0..(UNDO_STACK_LIMIT as u64 + 5) {
        h.execute(Command::AddItem(AddItem { id: i, item: dot("d") }), &mut s);
    }
    let mut undone = 0;
    while h.undo(&mut s) {
        undone += 1;
    }
    assert_eq!(undone, UNDO_STACK_LIMIT);
    assert_eq!(ids(&s), vec![0, 1, 2, 3, 4]);
}

#[test]
fn replay_rebuilds_board_and_history() {
    let events: Vec<JournalEvent<Command<Dot>>> = vec![
        JournalEvent::Do(Command::AddItem(AddItem { id: 0, item: dot("a") })),
        JournalEvent::Do(Command::AddItem(AddItem { id: 1, item: dot("b") })),
        JournalEvent::Undo,
        JournalEvent::Do(Command::AddItem(AddItem { id: 2, item: dot("c") })),
        JournalEvent::Redo,
        JournalEvent::Undo,
        JournalEvent::Redo,
    ];
    let (mut s, mut h) = replay(events);
    assert_eq!(ids(&s), vec![0, 2]);
    assert!(h.undo(&mut s));
    assert!(h.undo(&mut s));
    assert!(!h.undo(&mut s));
    assert!(ids(&s).is_empty());
}

#[test]
fn replay_resumes_ids_past_the_journal() {
    let events: Vec<JournalEvent<Command<Dot>>> = vec![
        JournalEvent::Do(Command::AddItem(AddItem { id: 0, item: dot("a") })),
        JournalEvent::Do(Command::AddItem(AddItem { id: 7, item: dot("b") })),
        JournalEvent::Do(Command::DeleteItems(DeleteItems { removed: vec![(7, dot("b"), 1)] })),
        JournalEvent::Do(Command::MoveItems(MoveItems { ids: vec![3], delta: [1.0, 1.0] })),
    ];
    let (mut s, _h) = replay(events);
    assert_eq!(ids(&s), vec![0]);
    assert_eq!(s.next_id(), 8);
    assert_eq!(s.alloc_id(), 8);
}

#[test]
fn replay_of_nothing_is_empty() {
    let (s, _h) = replay::<Dot>(Vec::new());
    assert!(ids(&s).is_empty());
}

#[test]
fn take_item_records_clone_and_position() {
    let mut s = board_abc();
    let e = take_item(&mut s, 1).unwrap();
    assert_eq!((e.0, e.1.name, e.2), (1, "b", 1));
    assert_eq!(ids(&s), vec![0, 2]);
    assert!(take_item(&mut s, 1).is_none());
    assert_eq!(s.take_removed(), vec![1]);
}

#[test]
fn snapshot_lists_every_item_with_position() {
    let s = board_abc();
    let snap = snapshot_all(&s);
    let got: Vec<(ItemId, &str, usize)> = snap.iter().map(|(id, d, z)| (*id, d.name, *z)).collect();
    assert_eq!(got, vec![(0, "a", 0), (1, "b", 1), (2, "c", 2)]);
}

#[test]
fn clear_all_action_is_one_undo() {
    let mut s = board_abc();
    let mut h: UndoStack<Dot> = UndoStack::new();
    assert!(clear_all(&mut s, &mut h));
    assert!(ids(&s).is_empty());
    assert!(!clear_all(&mut s, &mut h));
    assert!(h.undo(&mut s));
    assert_eq!(names(&s), vec!["a", "b", "c"]);
    assert!(!h.undo(&mut s));
}

#[test]
fn clear_and_undo_with_a_repeated_id() {
    let mut s: Scene<Dot> = Scene::new();
    s.insert(0, dot("a"));
    s.insert(1, dot("b"));
    s.insert(0, dot("c"));
    assert_eq!(ids(&s), vec![0, 1, 0]);
    let mut h: UndoStack<Dot> = UndoStack::new();
    assert!(clear_all(&mut s, &mut h));
    assert!(ids(&s).is_empty());
    assert!(s.item(0).is_none() && s.item(1).is_none());
    assert!(h.undo(&mut s));
    assert_eq!(ids(&s), vec![0, 1, 0]);
    assert_eq!(names(&s), vec!["c", "b", "c"]);
}

#[test]
fn delete_and_undo_beside_a_repeated_id() {
    let mut s: Scene<Dot> = Scene::new();
    s.insert(0, dot("a"));
    s.insert(1, dot("b"));
    s.insert(0, dot("c"));
    let mut h: UndoStack<Dot> = UndoStack::new();
    assert!(delete_item(&mut s, &mut h, 1));
    assert_eq!(ids(&s), vec![0, 0]);
    assert!(h.undo(&mut s));
    assert_eq!(ids(&s), vec![0, 1, 0]);
}

#[test]
fn remove_then_reinsert_at_same_position() {
    let mut s = board_abc();
    let z = s.z_index_of(1).unwrap();
    let item = s.item(1).unwrap().clone();
    s.remove(1);
    s.insert_at(1, item, z);
    assert_eq!(ids(&s), vec![0, 1, 2]);
    assert_eq!(names(&s), vec!["a", "b", "c"]);
}

#[test]
fn board_actions_keep_earlier_history() {
    let mut s: Scene<Dot> = Scene::new();
    let mut h: UndoStack<Dot> = UndoStack::new();
    h.execute(Command::AddItem(AddItem { id: 0, item: dot("a") }), &mut s);
    h.execute(Command::AddItem(AddItem { id: 1, item: dot("b") }), &mut s);
    assert!(delete_item(&mut s, &mut h, 0));
    assert!(clear_all(&mut s, &mut h));
    assert!(ids(&s).is_empty());
    assert!(h.undo(&mut s));
    assert_eq!(ids(&s), vec![1]);
    assert!(h.undo(&mut s));
    assert_eq!(ids(&s), vec![0, 1]);
    assert!(h.undo(&mut s));
    assert_eq!(ids(&s), vec![0]);
    assert!(h.undo(&mut s));
    assert!(ids(&s).is_empty());
    assert!(!h.undo(&mut s));
}

#[test]
fn eraser_sweep_undo_restores_order() {
    let mut s = board_abc();
    let mut h: UndoStack<Dot> = UndoStack::new();
    let mut swept = Vec::new();
    assert!(erase_item(&mut s, &mut swept, 1));
    assert!(erase_item(&mut s, &mut swept, 2));
    assert!(!erase_item(&mut s, &mut swept, 2));
    assert_eq!(ids(&s), vec![0]);
    let positions: Vec<usize> = swept.iter().map(|e| e.2).collect();
    assert_eq!(positions, vec![1, 2]);
    assert!(commit_erasure(&mut h, swept));
    assert!(h.undo(&mut s));
    assert_eq!(ids(&s), vec![0, 1, 2]);
    assert_eq!(names(&s), vec!["a", "b", "c"]);
}

#[test]
fn eraser_sweep_top_down_undo_restores_order() {
    let mut s = board_abc();
    let mut h: UndoStack<Dot> = UndoStack::new();
    let mut swept = Vec::new();
    assert!(erase_item(&mut s, &mut swept, 0));
    assert!(erase_item(&mut s, &mut swept, 2));
    assert!(erase_item(&mut s, &mut swept, 1));
    let positions: Vec<usize> = swept.iter().map(|e| e.2).collect();
    assert_eq!(positions, vec![0, 2, 1]);
    assert!(ids(&s).is_empty());
    assert!(commit_erasure(&mut h, swept));
    assert!(h.undo(&mut s));
    assert_eq!(names(&s), vec!["a", "b", "c"]);
}

#[test]
fn delete_item_action_is_one_undo() {
    let mut s = board_abc();
    let mut h: UndoStack<Dot> = UndoStack::new();
    assert!(delete_item(&mut s, &mut h, 1));
    assert!(!delete_item(&mut s, &mut h, 1));
    assert_eq!(ids(&s), vec![0, 2]);
    assert!(h.undo(&mut s));
    assert_eq!(ids(&s), vec![0, 1, 2]);
    assert!(h.redo(&mut s));
    assert_eq!(ids(&s), vec![0, 2]);
}

#[test]
fn commit_erasure_records_only_nonempty_sweeps() {
    let mut s = board_abc();
    let mut h: UndoStack<Dot> = UndoStack::new();
    assert!(!commit_erasure(&mut h, Vec::new()));
    assert!(!h.undo(&mut s));
    let mut swept = Vec::new();
    swept.push(take_item(&mut s, 2).unwrap());
    swept.push(take_item(&mut s, 0).unwrap());
    assert!(commit_erasure(&mut h, swept));
    assert_eq!(ids(&s), vec![1]);
    assert!(h.undo(&mut s));
    assert_eq!(ids(&s), vec![0, 1, 2]);
}
