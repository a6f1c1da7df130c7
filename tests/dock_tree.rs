use dock_tree::{DockError, DockTree, DropZone, Node, Orientation, Placement, Rect, RATIO_SCALE};

const A: u64 = 1;
const B: u64 = 2;
const C: u64 = 3;
const D: u64 = 4;

fn tree_ab() -> DockTree {
    DockTree::with_panes(&vec![A, B]).unwrap()
}

fn half(orientation: Orientation, before: bool) -> Placement {
    Placement::Split { orientation, ratio: RATIO_SCALE / 2, before }
}

#[test]
fn scenario_insert_remove_split_layout() {
    let mut t = tree_ab();
    assert_eq!(t.active_pane(0), Some(A));
    assert_eq!(t.insert(C, 0, Placement::Tab(2)), Ok(()));
    assert_eq!(t.group_panes(0), Some(vec![A, B, C]));
    assert_eq!(t.active_pane(0), Some(A));
    assert!(t.remove(A));
    assert_eq!(t.group_panes(0), Some(vec![B, C]));
    assert_eq!(t.active_pane(0), Some(B));
    assert_eq!(t.move_pane(C, 0, half(Orientation::Vertical, false)), Ok(()));
    assert_eq!(t.root_split(), Some((Orientation::Vertical, RATIO_SCALE / 2)));
    assert_eq!(t.group_ids(), vec![0, 1]);
    assert_eq!(t.group_panes(0), Some(vec![B]));
    assert_eq!(t.group_panes(1), Some(vec![C]));
    let layout = t.compute_layout(Rect::new(0, 0, 200, 100));
    assert_eq!(layout, vec![(B, Rect::new(0, 0, 200, 50)), (C, Rect::new(0, 50, 200, 50))]);
}

#[test]
fn horizontal_split_divides_width() {
    let mut t = DockTree::with_panes(&vec![A]).unwrap();
    let p = Placement::Split { orientation: Orientation::Horizontal, ratio: RATIO_SCALE / 4, before: true };
    assert_eq!(t.insert(B, 0, p), Ok(()));
    let layout = t.compute_layout(Rect::new(10, 20, 100, 40));
    assert_eq!(layout, vec![(B, Rect::new(10, 20, 25, 40)), (A, Rect::new(35, 20, 75, 40))]);
}

#[test]
fn layout_rounds_down_and_covers_all() {
    let mut t = DockTree::with_panes(&vec![A]).unwrap();
    let p = Placement::Split { orientation: Orientation::Horizontal, ratio: RATIO_SCALE / 3, before: false };
    assert_eq!(t.insert(B, 0, p), Ok(()));
    let layout = t.compute_layout(Rect::new(0, 0, 10, 5));
    assert_eq!(layout, vec![(A, Rect::new(0, 0, 3, 5)), (B, Rect::new(3, 0, 7, 5))]);
}

#[test]
fn layout_partitions_viewport() {
    let mut t = DockTree::with_panes(&vec![A, B]).unwrap();
    assert_eq!(t.insert(C, 0, half(Orientation::Horizontal, false)), Ok(()));
    assert_eq!(t.insert(D, 1, Placement::Split { orientation: Orientation::Vertical, ratio: 300_000, before: true }), Ok(()));
    let vp = Rect::new(5, 7, 37, 23);
    let layout = t.compute_layout(vp);
    let mut ids: Vec<u64> = layout.iter().map(|e| e.0).collect();
    ids.sort();
    assert_eq!(ids, vec![A, B, C, D]);
    let mut rects: Vec<Rect> = Vec::new();
    for g in t.group_ids() {
        let p = t.group_panes(g).unwrap()[0];
        rects.push(layout.iter().find(|e| e.0 == p).unwrap().1);
    }
    for px in 0..50u32 {
        for py in 0..40u32 {
            let n = rects.iter().filter(|r| r.contains_point(px, py)).count();
            let inside = vp.contains_point(px, py);
            assert_eq!(n, if inside { 1 } else { 0 });
        }
    }
}

#[test]
fn insert_then_remove_restores_shape() {
    let mut t = tree_ab();
    let before = t.compute_layout(Rect::new(0, 0, 64, 64));
    assert_eq!(t.insert(C, 0, Placement::Tab(0)), Ok(()));
    assert_eq!(t.active_pane(0), Some(A));
    assert!(t.remove(C));
    assert_eq!(t.group_panes(0), Some(vec![A, B]));
    assert_eq!(t.active_pane(0), Some(A));
    assert_eq!(t.insert(C, 0, half(Orientation::Horizontal, true)), Ok(()));
    assert!(t.remove(C));
    assert_eq!(t.root_split(), None);
    assert_eq!(t.group_ids(), vec![0]);
    assert_eq!(t.compute_layout(Rect::new(0, 0, 64, 64)), before);
}

#[test]
fn removing_last_pane_collapses_splits() {
    let mut t = DockTree::with_panes(&vec![A]).unwrap();
    assert_eq!(t.insert(B, 0, half(Orientation::Horizontal, false)), Ok(()));
    assert_eq!(t.insert(C, 1, half(Orientation::Vertical, false)), Ok(()));
    assert_eq!(t.group_ids(), vec![0, 1, 2]);
    assert!(t.remove(C));
    assert_eq!(t.group_ids(), vec![0, 1]);
    assert_eq!(t.root_split(), Some((Orientation::Horizontal, RATIO_SCALE / 2)));
    assert!(t.remove(A));
    assert_eq!(t.group_ids(), vec![1]);
    assert_eq!(t.root_split(), None);
    assert!(t.remove(B));
    assert!(t.is_empty());
    assert_eq!(t.compute_layout(Rect::new(0, 0, 10, 10)), vec![]);
}

#[test]
fn split_ratios_sum_to_one() {
    let mut t = DockTree::with_panes(&vec![A]).unwrap();
    assert_eq!(t.insert(B, 0, Placement::Split { orientation: Orientation::Horizontal, ratio: 1, before: false }), Ok(()));
    let (_, r) = t.root_split().unwrap();
    assert!(r > 0 && r < RATIO_SCALE);
    assert_eq!(r + (RATIO_SCALE - r), RATIO_SCALE);
    let bad = Placement::Split { orientation: Orientation::Horizontal, ratio: RATIO_SCALE, before: false };
    assert_eq!(t.insert(C, 0, bad), Err(DockError::InvalidRatio));
    let zero = Placement::Split { orientation: Orientation::Vertical, ratio: 0, before: false };
    assert_eq!(t.move_pane(A, 1, zero), Err(DockError::InvalidRatio));
    assert_eq!(t.group_of(A), Some(0));
}

#[test]
fn move_keeps_pane_exactly_once() {
    let mut t = DockTree::with_panes(&vec![A, B]).unwrap();
    assert_eq!(t.insert(C, 0, half(Orientation::Horizontal, false)), Ok(()));
    assert_eq!(t.move_pane(A, 1, Placement::Tab(0)), Ok(()));
    let layout = t.compute_layout(Rect::new(0, 0, 100, 100));
    assert_eq!(layout.iter().filter(|e| e.0 == A).count(), 1);
    assert_eq!(t.group_panes(1), Some(vec![A, C]));
    assert_eq!(t.group_of(A), Some(1));
    // moving the only pane of a group into that same group is refused
    let mut single = DockTree::with_panes(&vec![A]).unwrap();
    assert_eq!(single.move_pane(A, 0, Placement::Tab(0)), Err(DockError::InvalidTarget));
    assert_eq!(single.group_panes(0), Some(vec![A]));
}

#[test]
fn errors_leave_tree_unchanged() {
    let mut t = tree_ab();
    assert_eq!(t.insert(C, 9, Placement::Tab(0)), Err(DockError::InvalidTarget));
    assert_eq!(t.insert(A, 0, Placement::Tab(0)), Err(DockError::DuplicatePane));
    assert_eq!(t.move_pane(D, 0, Placement::Tab(0)), Err(DockError::NotFound));
    assert_eq!(t.set_active(0, D), Err(DockError::NotFound));
    assert_eq!(t.set_active(7, A), Err(DockError::InvalidTarget));
    assert!(!t.remove(D));
    assert_eq!(t.group_panes(0), Some(vec![A, B]));
    assert_eq!(DockTree::with_panes(&vec![A, A]).err(), Some(DockError::DuplicatePane));
}

#[test]
fn set_active_and_tab_index_past_end() {
    let mut t = tree_ab();
    assert_eq!(t.set_active(0, B), Ok(()));
    assert_eq!(t.active_pane(0), Some(B));
    assert_eq!(t.insert(C, 0, Placement::Tab(0)), Ok(()));
    assert_eq!(t.active_pane(0), Some(B));
    assert_eq!(t.insert(D, 0, Placement::Tab(100)), Ok(()));
    assert_eq!(t.group_panes(0), Some(vec![C, A, B, D]));
    assert!(t.remove(B));
    assert_eq!(t.active_pane(0), Some(C));
}

#[test]
fn hit_test_finds_group_and_zone() {
    let mut t = DockTree::with_panes(&vec![A]).unwrap();
    assert_eq!(t.insert(B, 0, half(Orientation::Horizontal, false)), Ok(()));
    let vp = Rect::new(0, 0, 200, 100);
    let h = t.hit_test(vp, 150, 50).unwrap();
    assert_eq!(h.group, 1);
    assert_eq!(h.rect, Rect::new(100, 0, 100, 100));
    assert_eq!(h.zone, DropZone::Center);
    assert_eq!(t.hit_test(vp, 5, 50).unwrap().zone, DropZone::Left);
    assert_eq!(t.hit_test(vp, 99, 50).unwrap().zone, DropZone::Right);
    assert_eq!(t.hit_test(vp, 50, 3).unwrap().zone, DropZone::Top);
    assert_eq!(t.hit_test(vp, 50, 90).unwrap().zone, DropZone::Bottom);
    assert_eq!(t.hit_test(vp, 200, 50), None);
    assert_eq!(DockTree::new().hit_test(vp, 1, 1), None);
}

#[test]
fn empty_tree_has_no_layout() {
    let t = DockTree::with_panes(&vec![]).unwrap();
    assert!(t.is_empty());
    assert!(!t.contains_pane(A));
    assert_eq!(t.compute_layout(Rect::new(0, 0, 5, 5)), vec![]);
}

fn group(id: u64, panes: Vec<u64>, active: usize) -> Box<Node> {
    Box::new(Node::Group { id, panes, active })
}

#[test]
fn restore_keeps_layout_and_drops_unknown_panes() {
    let stored = Node::Split {
        orientation: Orientation::Horizontal,
        ratio: 400_000,
        first: group(3, vec![A, B], 1),
        second: group(8, vec![C], 0),
    };
    let t = DockTree::restore(stored, &vec![A, B]);
    assert_eq!(t.group_ids(), vec![3]);
    assert_eq!(t.group_panes(3), Some(vec![A, B]));
    assert_eq!(t.active_pane(3), Some(B));
    assert_eq!(t.root_split(), None);
    let mut t = t;
    assert_eq!(t.insert(D, 3, half(Orientation::Vertical, false)), Ok(()));
    assert_eq!(t.group_ids(), vec![3, 9]);
}

#[test]
fn restore_keeps_split_when_all_known() {
    let stored = Node::Split {
        orientation: Orientation::Vertical,
        ratio: 250_000,
        first: group(0, vec![A], 0),
        second: group(1, vec![B, C], 1),
    };
    let t = DockTree::restore(stored, &vec![C, B, A]);
    assert_eq!(t.root_split(), Some((Orientation::Vertical, 250_000)));
    assert_eq!(t.compute_layout(Rect::new(0, 0, 8, 100)), vec![
        (A, Rect::new(0, 0, 8, 25)),
        (B, Rect::new(0, 25, 8, 75)),
        (C, Rect::new(0, 25, 8, 75)),
    ]);
}

#[test]
fn restore_falls_back_on_malformed_layout() {
    let bad_ratio = Node::Split {
        orientation: Orientation::Vertical,
        ratio: 0,
        first: group(0, vec![A], 0),
        second: group(1, vec![B], 0),
    };
    let t = DockTree::restore(bad_ratio, &vec![B, A, B]);
    assert_eq!(t.group_ids(), vec![0]);
    assert_eq!(t.group_panes(0), Some(vec![B, A]));
    assert_eq!(t.active_pane(0), Some(B));
    let repeated = Node::Split {
        orientation: Orientation::Vertical,
        ratio: 1,
        first: group(0, vec![A], 0),
        second: group(1, vec![A], 0),
    };
    let t = DockTree::restore(repeated, &vec![C]);
    assert_eq!(t.group_panes(0), Some(vec![C]));
    let bad_active = Node::Group { id: 5, panes: vec![A], active: 1 };
    assert!(DockTree::restore(bad_active, &vec![]).is_empty());
}

#[test]
fn zero_sized_viewport_gives_empty_rects() {
    let mut t = tree_ab();
    assert_eq!(t.insert(C, 0, half(Orientation::Horizontal, false)), Ok(()));
    let layout = t.compute_layout(Rect::new(4, 4, 0, 0));
    assert_eq!(layout, vec![
        (A, Rect::new(4, 4, 0, 0)),
        (B, Rect::new(4, 4, 0, 0)),
        (C, Rect::new(4, 4, 0, 0)),
    ]);
    assert_eq!(t.hit_test(Rect::new(4, 4, 0, 0), 4, 4), None);
}
