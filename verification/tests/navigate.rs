use kexplore::model::{node_from_items, ItemData, Node};
use kexplore::navigate::{item_named, route_components};

fn names(v: &[&str]) -> Vec<Vec<u8>> {
    v.iter().map(|s| s.as_bytes().to_vec()).collect()
}

#[test]
fn route_from_root_lists_directory_names() {
    assert_eq!(route_components(b"/home/u", b"/"), Some(names(&["home", "u"])));
    assert_eq!(route_components(b"/home/u/", b"/"), Some(names(&["home", "u"])));
    assert_eq!(route_components(b"//home/./u//x", b"/"), Some(names(&["home", "u", "x"])));
    assert_eq!(route_components(b"/", b"/"), Some(vec![]));
}

#[test]
fn parent_components_are_skipped_not_resolved() {
    assert_eq!(route_components(b"/home/../etc", b"/"), Some(names(&["home", "etc"])));
}

#[test]
fn targets_outside_the_base_have_no_route() {
    assert_eq!(route_components(b"home", b"/"), None);
    assert_eq!(route_components(b"/usr2/lib", b"/usr"), None);
    assert_eq!(route_components(b"/usr/lib", b"/usr"), Some(names(&["lib"])));
    assert_eq!(route_components(b"/usr", b"/usr/lib"), None);
    assert_eq!(route_components(b"./a", b"."), Some(names(&["a"])));
}

#[test]
fn rows_are_found_by_exact_name() {
    let data = vec![
        ItemData { name: b"Docs".to_vec(), is_dir: true },
        ItemData { name: b"docs".to_vec(), is_dir: true },
        ItemData { name: b"docs".to_vec(), is_dir: false },
    ];
    let n: Node<(), ()> = node_from_items(b"/".to_vec(), data, (), ());
    assert_eq!(item_named(&n.items, b"docs"), Some(1));
    assert_eq!(item_named(&n.items, b"Docs"), Some(0));
    assert_eq!(item_named(&n.items, b"doc"), None);
}
