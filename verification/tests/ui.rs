use kexplore::model::{node_from_items, ItemData, Node, NodeArena, NodeId};
use kexplore::ui::{path_nodes, register_click, release_click, row_click, Action, DragKind, DragState, FrameOut, RowEffect};

type N = Node<(), ()>;

fn dir(names: usize) -> N {
    let data = (0..names).map(|k| ItemData { name: vec![b'a' + k as u8], is_dir: true }).collect();
    node_from_items(b"/".to_vec(), data, (), ())
}

fn open(arena: &mut NodeArena<N>, parent: NodeId, row: usize, rows: usize) -> NodeId {
    let mut n = dir(rows);
    n.parent = Some((parent, row));
    let id = arena.insert(n);
    arena.get_mut(parent).unwrap().items[row].child = Some(id);
    id
}

#[test]
fn drag_kind_names_its_node() {
    let mut a: NodeArena<u8> = NodeArena::new();
    let id = a.insert(0);
    assert_eq!(DragKind::Node(id).node(), Some(id));
    assert_eq!(DragKind::Resize(id).node(), Some(id));
    assert_eq!(DragKind::Pan.node(), None);
}

#[test]
fn actions_compare_by_target() {
    let mut a: NodeArena<u8> = NodeArena::new();
    let x = a.insert(0);
    let y = a.insert(1);
    assert_eq!(Action::Row { node: x, item: 1 }, Action::Row { node: x, item: 1 });
    assert_ne!(Action::Row { node: x, item: 1 }, Action::Row { node: y, item: 1 });
    assert_ne!(Action::CloseNode { node: x }, Action::ResizePreview { node: x });
    let out = FrameOut { animating: true };
    assert!(out.animating);
}

#[test]
fn route_is_selection_ancestors_and_open_child() {
    let mut a: NodeArena<N> = NodeArena::new();
    let root = a.insert(dir(2));
    let b = open(&mut a, root, 1, 3);
    let c = open(&mut a, b, 2, 1);
    let side = open(&mut a, root, 0, 0);
    let route = path_nodes(&a, Some((b, 2)));
    assert_eq!(route.len(), 3);
    assert!(route.contains(&root) && route.contains(&b) && route.contains(&c));
    assert!(!route.contains(&side));
    // A row with no open child adds nothing.
    let r2 = path_nodes(&a, Some((b, 0)));
    assert_eq!(r2.len(), 2);
    assert!(path_nodes(&a, None).is_empty());
}

#[test]
fn route_of_a_closed_node_is_just_it() {
    let mut a: NodeArena<N> = NodeArena::new();
    let root = a.insert(dir(1));
    let b = open(&mut a, root, 0, 0);
    a.close_recursive(b);
    assert_eq!(path_nodes(&a, Some((b, 0))), vec![b]);
}

#[test]
fn second_click_on_same_target_is_double() {
    let mut a: NodeArena<u8> = NodeArena::new();
    let x = a.insert(0);
    let row = Action::Row { node: x, item: 0 };
    let mut last = None;
    assert!(!register_click(&mut last, row, 1000));
    assert_eq!(last, Some((row, 1000)));
    assert!(register_click(&mut last, row, 1399));
    assert_eq!(last, None);
    // A third click starts afresh.
    assert!(!register_click(&mut last, row, 1450));
    // Too slow, or another target: single clicks.
    assert!(!register_click(&mut last, row, 1850));
    assert!(!register_click(&mut last, Action::UrlBar, 1851));
    assert_eq!(last, Some((Action::UrlBar, 1851)));
}

#[test]
fn row_clicks_start_the_right_work() {
    assert_eq!(row_click(true, true, false, false, false, b"/d"), RowEffect::Scan);
    assert_eq!(row_click(true, true, false, true, false, b"/d"), RowEffect::Nothing);
    assert_eq!(row_click(true, true, true, false, false, b"/d"), RowEffect::Nothing);
    assert_eq!(row_click(false, true, false, false, false, b"/d"), RowEffect::Nothing);
    assert_eq!(row_click(true, false, false, false, false, b"/a.txt"), RowEffect::OpenWith);
    assert_eq!(row_click(false, false, false, false, false, b"/a.PNG"), RowEffect::Preview);
    assert_eq!(row_click(false, false, true, false, false, b"/a.png"), RowEffect::Nothing);
    assert_eq!(row_click(false, false, false, false, true, b"/a.png"), RowEffect::Nothing);
    assert_eq!(row_click(false, false, false, false, false, b"/a.txt"), RowEffect::Nothing);
}

#[test]
fn presses_become_drags_only_after_moving() {
    let mut a: NodeArena<N> = NodeArena::new();
    let id = a.insert(dir(1));
    let p = DragState::press(Some(DragKind::Node(id)));
    assert_eq!(p, DragState::Pending(DragKind::Node(id)));
    assert!(p.shows_hover());
    assert_eq!(p.dragged(), None);
    let m = p.moved_far();
    assert_eq!(m, DragState::Node(id));
    assert!(!m.shows_hover());
    assert_eq!(m.dragged(), Some(id));
    assert_eq!(m.moved_far(), m);
    assert_eq!(DragState::press(Some(DragKind::Resize(id))).moved_far(), DragState::Resize(id));
    let canvas = DragState::press(None);
    assert_eq!(canvas, DragState::Pending(DragKind::Pan));
    assert_eq!(canvas.moved_far(), DragState::Pan);
    assert!(!DragState::Pan.shows_hover());
    assert_eq!(DragState::Pan.dragged(), None);
    assert!(DragState::Idle.shows_hover());
}

#[test]
fn releases_make_clicks_and_releases_over_nothing_forget() {
    let mut last = None;
    assert_eq!(release_click(&mut last, Some(Action::FocusRoot), 1000), Some((Action::FocusRoot, false)));
    assert_eq!(release_click(&mut last, Some(Action::FocusRoot), 1300), Some((Action::FocusRoot, true)));
    // A consumed double does not seed the next one.
    assert_eq!(release_click(&mut last, Some(Action::FocusRoot), 1400), Some((Action::FocusRoot, false)));
    assert_eq!(release_click(&mut last, None, 1450), None);
    assert_eq!(last, None);
    assert_eq!(release_click(&mut last, Some(Action::FocusRoot), 1500), Some((Action::FocusRoot, false)));
    assert_eq!(release_click(&mut last, Some(Action::FocusRoot), 1900), Some((Action::FocusRoot, false)));
}
