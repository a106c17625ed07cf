use kexplore::model::{node_from_items, preview_node, sort_by_name, ItemData, Node, NodeArena, NodeId};

type N = Node<u32, u8>;

fn item(name: &[u8], is_dir: bool) -> ItemData {
    ItemData { name: name.to_vec(), is_dir }
}

fn dir(path: &str, names: &[&str]) -> N {
    let data = names.iter().map(|n| item(n.as_bytes(), true)).collect();
    node_from_items(path.as_bytes().to_vec(), data, 0u32, 0u8)
}

/// Open row `row` of `parent` as a child node named `path`.
fn open(arena: &mut NodeArena<N>, parent: NodeId, row: usize, path: &str, names: &[&str]) -> NodeId {
    let mut n = dir(path, names);
    n.parent = Some((parent, row));
    let id = arena.insert(n);
    arena.get_mut(parent).unwrap().items[row].child = Some(id);
    id
}

#[test]
fn insert_then_get_returns_the_node() {
    let mut a: NodeArena<u32> = NodeArena::new();
    let x = a.insert(7);
    let y = a.insert(9);
    assert_eq!(a.get(x), Some(&7));
    assert_eq!(a.get(y), Some(&9));
    assert!(x != y);
}

#[test]
fn stale_ids_stay_dead_after_slot_reuse() {
    let mut a: NodeArena<u32> = NodeArena::new();
    let x = a.insert(1);
    assert_eq!(a.remove(x), Some(1));
    assert_eq!(a.get(x), None);
    assert_eq!(a.remove(x), None);
    let y = a.insert(2);
    // The slot was reused under a new generation.
    assert!(x != y);
    assert_eq!(a.get(x), None);
    assert_eq!(a.get(y), Some(&2));
    assert!(a.get_mut(x).is_none());
}

#[test]
fn get_mut_writes_through() {
    let mut a: NodeArena<u32> = NodeArena::new();
    let x = a.insert(1);
    *a.get_mut(x).unwrap() = 5;
    assert_eq!(a.get(x), Some(&5));
}

#[test]
fn ids_lists_each_live_node_once() {
    let mut a: NodeArena<u32> = NodeArena::new();
    let x = a.insert(1);
    let y = a.insert(2);
    let z = a.insert(3);
    a.remove(y);
    let ids = a.iter();
    assert_eq!(ids.len(), 2);
    assert!(ids.contains(&x) && ids.contains(&z));
    assert!(a.can_insert());
}

#[test]
fn node_from_items_builds_rows_in_order() {
    let n: N = node_from_items(b"/tmp".to_vec(), vec![item(b"a", true), item(b"b\xff", false)], 3u32, 1u8);
    assert_eq!(n.path, b"/tmp".to_vec());
    assert!(n.parent.is_none());
    assert!(n.preview.is_none());
    assert_eq!(n.geom, 3);
    assert_eq!(n.items.len(), 2);
    assert_eq!(n.items[0].name, b"a".to_vec());
    assert_eq!(n.items[0].display, "a");
    assert!(n.items[0].is_dir);
    assert_eq!(n.items[1].display, "b\u{FFFD}");
    assert!(!n.items[1].is_dir);
    assert!(n.items.iter().all(|it| it.child.is_none() && !it.scanning && !it.preview_loading && it.rect == 1));
}

#[test]
fn close_recursive_takes_the_subtree_and_unlinks_it() {
    let mut a: NodeArena<N> = NodeArena::new();
    let root = a.insert(dir("/", &["home", "etc"]));
    let home = open(&mut a, root, 0, "/home", &["u"]);
    let u = open(&mut a, home, 0, "/home/u", &["x"]);
    let etc = open(&mut a, root, 1, "/etc", &[]);
    a.close_recursive(home);
    assert!(a.get(home).is_none());
    assert!(a.get(u).is_none());
    assert!(a.get(etc).is_some());
    let r = a.get(root).unwrap();
    assert!(r.items[0].child.is_none());
    assert_eq!(r.items[1].child, Some(etc));
    // Closing a closed node does nothing.
    a.close_recursive(home);
    assert!(a.get(root).is_some());
}

#[test]
fn preview_node_hangs_off_its_row() {
    let mut a: NodeArena<N> = NodeArena::new();
    let root = a.insert(dir("/", &["p.png"]));
    let p: N = preview_node(b"/p.png".to_vec(), (root, 0), 4, 640, 480, 0u32, false);
    assert_eq!(p.parent, Some((root, 0)));
    assert!(p.items.is_empty());
    let pv = p.preview.unwrap();
    assert_eq!((pv.tex, pv.img_w, pv.img_h, pv.pinned), (4, 640, 480, false));
}

#[test]
fn scan_results_sort_by_raw_name_bytes() {
    let items = vec![item(b"b", false), item(b"B", true), item(b"a", false), item(b"ab", true), item(b"\xc3\xa9", false), item(b"", false)];
    let sorted = sort_by_name(items);
    let names: Vec<Vec<u8>> = sorted.iter().map(|i| i.name.clone()).collect();
    assert_eq!(names, vec![b"".to_vec(), b"B".to_vec(), b"a".to_vec(), b"ab".to_vec(), b"b".to_vec(), b"\xc3\xa9".to_vec()]);
    assert!(sorted[1].is_dir && sorted[3].is_dir && !sorted[0].is_dir);
}

/// Open row `row` of `parent` as an image preview.
fn peek(arena: &mut NodeArena<N>, parent: NodeId, row: usize, pinned: bool) -> NodeId {
    let n: N = preview_node(b"/p/img.png".to_vec(), (parent, row), 3, 10, 20, 0u32, pinned);
    let id = arena.insert(n);
    arena.get_mut(parent).unwrap().items[row].child = Some(id);
    id
}

#[test]
fn moving_the_selection_closes_unpinned_previews_only() {
    let mut a: NodeArena<N> = NodeArena::new();
    let root = a.insert(dir("/p", &["a", "b", "c", "d"]));
    let sub = open(&mut a, root, 0, "/p/a", &["x"]);
    let loose = peek(&mut a, root, 1, false);
    let pinned = peek(&mut a, root, 2, true);
    let kept = peek(&mut a, root, 3, false);
    let listed = a.transient_previews(Some(kept));
    assert_eq!(listed, vec![loose]);
    a.close_transients(Some(kept));
    assert!(a.get(loose).is_none());
    assert_eq!(a.get(root).unwrap().items[1].child, None);
    assert!(a.get(pinned).is_some());
    assert!(a.get(kept).is_some());
    assert!(a.get(sub).is_some());
    a.close_transients(None);
    assert!(a.get(kept).is_none());
    assert!(a.get(pinned).is_some());
    assert_eq!(a.iter().len(), 3);
}

#[test]
fn scan_results_apply_only_to_waiting_rows() {
    let mut a: NodeArena<N> = NodeArena::new();
    let root = a.insert(dir("/", &["home", "tmp"]));
    assert!(!a.finish_scan(root, 0));
    a.get_mut(root).unwrap().items[0].scanning = true;
    assert!(!a.finish_scan(root, 5));
    assert!(a.finish_scan(root, 0));
    assert!(!a.get(root).unwrap().items[0].scanning);
    assert!(!a.finish_scan(root, 0));
    let child = a.attach_child(root, 0, dir("/home", &["u"])).unwrap();
    assert_eq!(a.get(root).unwrap().items[0].child, Some(child));
    assert_eq!(a.get(child).unwrap().parent, Some((root, 0)));
    assert_eq!(a.get(child).unwrap().path, b"/home".to_vec());
    assert_eq!(a.attach_child(root, 9, dir("/x", &[])), None);
    a.get_mut(child).unwrap().items[0].scanning = true;
    a.close_recursive(child);
    assert!(!a.finish_scan(child, 0));
    assert_eq!(a.attach_child(child, 0, dir("/home/u", &[])), None);
}

#[test]
fn previews_attach_only_for_the_current_selection() {
    let mut a: NodeArena<N> = NodeArena::new();
    let root = a.insert(dir("/p", &["a.png", "b.png"]));
    a.get_mut(root).unwrap().items[1].preview_loading = true;
    a.finish_preview(root, 1);
    assert!(!a.get(root).unwrap().items[1].preview_loading);
    a.finish_preview(root, 7);
    assert!(a.preview_wanted(Some((root, 1)), root, 1));
    assert!(!a.preview_wanted(Some((root, 0)), root, 1));
    assert!(!a.preview_wanted(None, root, 1));
    assert!(!a.preview_wanted(Some((root, 4)), root, 4));
    peek(&mut a, root, 1, false);
    assert!(!a.preview_wanted(Some((root, 1)), root, 1));
}

#[test]
fn closing_a_preview_takes_what_hangs_below_it() {
    let mut a: NodeArena<N> = NodeArena::new();
    let root = a.insert(dir("/p", &["a", "b"]));
    let mut pv: N = preview_node(b"/p/b".to_vec(), (root, 1), 3, 10, 20, 0u32, false);
    pv.items = dir("/p/b", &["inner"]).items;
    let pid = a.insert(pv);
    a.get_mut(root).unwrap().items[1].child = Some(pid);
    let below = open(&mut a, pid, 0, "/p/b/inner", &[]);
    a.close_transients(None);
    assert!(a.get(pid).is_none());
    assert!(a.get(below).is_none());
    assert!(a.get(root).is_some());
    assert_eq!(a.get(root).unwrap().items[1].child, None);
}

#[test]
fn the_most_recently_freed_slot_is_reused_first() {
    let mut a: NodeArena<u32> = NodeArena::new();
    let x = a.insert(1);
    let y = a.insert(2);
    let z = a.insert(3);
    a.remove(x);
    a.remove(z);
    let w = a.insert(4);
    // w took z's slot (freed last) under a new generation; x's slot is next.
    assert!(w != z && w != x);
    assert_eq!(a.get(w), Some(&4));
    assert_eq!(a.get(z), None);
    let v = a.insert(5);
    assert!(v != x);
    assert_eq!(a.get(x), None);
    assert_eq!(a.get(y), Some(&2));
    let u = a.insert(6);
    assert_eq!(a.iter().len(), 4);
    assert!(u != v && u != w && u != y);
}

#[test]
fn starting_work_marks_the_row() {
    let mut a: NodeArena<N> = NodeArena::new();
    let root = a.insert(dir("/", &["d", "f.png"]));
    a.begin_scan(root, 0);
    assert!(a.get(root).unwrap().items[0].scanning);
    a.begin_preview(root, 1);
    assert!(a.get(root).unwrap().items[1].preview_loading);
    a.begin_scan(root, 9);
    assert!(a.finish_scan(root, 0));
    assert!(a.can_insert());
}
