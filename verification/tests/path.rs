use rprosody::path::ElementPath;
use rprosody::tree::ElementStore;

#[test]
fn element_path_new_derefs_to_root() {
    let p = ElementPath::new();
    let mut store = ElementStore::new();
    let root = store.new_element(None, "root".to_owned());
    let root_ref = p.deref_on(&store, root);
    assert_eq!(store.element(root).localname, store.element(root_ref.unwrap()).localname);
}

#[test]
fn element_path_down_to_ref_to_children() {
    let mut p = ElementPath::new();
    let mut store = ElementStore::new();
    let root = store.new_element(None, "root".to_owned());
    let body = store.tag(root, None, "body".to_owned(), None);
    store.text(body, "foobar".to_owned());
    p.down(0);
    let node_ref = p.deref_on(&store, root);
    assert_eq!("body", store.element(node_ref.unwrap()).localname);
}

#[test]
fn element_path_up_to_go_back() {
    let mut p = ElementPath::new();
    let mut store = ElementStore::new();
    let root = store.new_element(None, "root".to_owned());
    let body = store.tag(root, None, "body".to_owned(), None);
    store.text(body, "foobar".to_owned());
    p.down(0);
    p.up();
    let root_ref = p.deref_on(&store, root);
    assert_eq!(store.element(root).localname, store.element(root_ref.unwrap()).localname);
}

#[test]
fn element_path_down_to_ref_to_text_is_none() {
    let mut p = ElementPath::new();
    let mut store = ElementStore::new();
    let root = store.new_element(None, "root".to_owned());
    let body = store.tag(root, None, "body".to_owned(), None);
    store.text(body, "foobar".to_owned());
    p.down(0);
    p.down(0);
    assert!(p.deref_on(&store, root).is_none());
}

#[test]
fn element_path_depth_and_reset() {
    let mut p = ElementPath::new();
    assert_eq!(p.depth(), 0);
    p.down(3);
    p.down(1);
    assert_eq!(p.depth(), 2);
    p.reset();
    assert_eq!(p.depth(), 0);
    p.up();
    assert_eq!(p.depth(), 0);
}
