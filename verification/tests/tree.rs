use rprosody::tree::{Children, Element, ElementPtr, ElementStore, InsertError, MapElementsError, Node};

fn prep_message(store: &mut ElementStore) -> ElementPtr {
    let msg = store.new_element(None, "message".to_owned());
    let body = store.tag(msg, None, "body".to_owned(), None);
    store.text(body, "Hello World!".to_owned());
    store.tag(msg, None, "delay".to_owned(), None);
    msg
}

fn child_ptr(store: &ElementStore, p: ElementPtr, i: usize) -> ElementPtr {
    store.element(p).children.get(i).unwrap().as_element_ptr().unwrap()
}

#[test]
fn tree_node_as_text_on_text() {
    assert_eq!(Node::Text("foobar".to_owned()).as_text(), Some(&"foobar".to_owned()));
}

#[test]
fn tree_node_as_element_on_text() {
    assert!(Node::Text("foobar".to_owned()).as_element_ptr().is_none());
}

#[test]
fn tree_children_new() {
    let c = Children::new();
    assert!(c.len() == 0);
    assert!(c.is_empty());
}

#[test]
fn tree_children_push_text() {
    let mut c = Children::new();
    c.push(Node::Text("foobar".to_owned()));
    assert!(c.len() == 1);
    assert!(!c.is_empty());
    assert_eq!(c.get(0).unwrap().as_text(), Some(&"foobar".to_owned()));
}

#[test]
fn tree_children_push_element() {
    let mut store = ElementStore::new();
    let el = store.new_element(None, "el".to_owned());
    let mut c = Children::new();
    c.push(Node::Element(el));
    assert!(c.len() == 1);
    assert!(!c.is_empty());
    let p = c.get(0).unwrap().as_element_ptr().unwrap();
    assert_eq!(store.element(p).localname, "el");
}

#[test]
fn tree_children_element_view_empty_for_texts() {
    let mut c = Children::new();
    c.push(Node::Text("foo".to_owned()));
    c.push(Node::Text("bar".to_owned()));
    c.push(Node::Text("baz".to_owned()));
    assert!(c.len() == 3);
    let view = c.element_view();
    assert!(view.len() == 0);
    assert!(view.is_empty());
}

#[test]
fn tree_children_element_view_mixed() {
    let mut store = ElementStore::new();
    let e1 = store.new_element(None, "el1".to_owned());
    let e2 = store.new_element(None, "el2".to_owned());
    let e3 = store.new_element(None, "el3".to_owned());
    let mut c = Children::new();
    c.push(Node::Element(e1));
    c.push(Node::Text("foo".to_owned()));
    c.push(Node::Element(e2));
    c.push(Node::Text("bar".to_owned()));
    c.push(Node::Element(e3));
    c.push(Node::Text("baz".to_owned()));
    assert!(c.len() == 6);
    let view = c.element_view();
    assert_eq!(view.len(), 3);
    assert_eq!(view.get_index(0), Some(0));
    assert_eq!(view.get_index(1), Some(2));
    assert_eq!(view.get_index(2), Some(4));
}

#[test]
fn tree_element_new() {
    let mut store = ElementStore::new();
    let el = store.new_element(None, "message".to_owned());
    assert_eq!(store.element(el).localname, "message");
    assert!(store.element(el).children.is_empty());
    assert!(store.element(el).attr.is_empty());
}

#[test]
fn tree_element_tag() {
    let mut store = ElementStore::new();
    let el = store.new_element(None, "message".to_owned());
    let body = store.tag(el, None, "body".to_owned(), None);
    assert_eq!(store.element(body).nsuri, None);
    assert_eq!(store.element(body).localname, "body");
    assert!(store.element(body).attr.is_empty());
    assert!(store.element(body).children.is_empty());
    assert_eq!(store.element(el).children.len(), 1);
    assert_eq!(store.element(el).children.element_view().len(), 1);
    assert_eq!(store.element(child_ptr(&store, el, 0)).localname, "body");
}

#[test]
fn element_tag_inherits_nsuri_from_parent() {
    let mut store = ElementStore::new();
    let el = store.new_element(Some("uri:foobar".to_owned()), "message".to_owned());
    let body = store.tag(el, None, "body".to_owned(), None);
    assert_eq!(store.element(body).nsuri, Some("uri:foobar".to_owned()));
    assert_eq!(store.element(body).localname, "body");
    assert!(store.element(body).attr.is_empty());
    assert!(store.element(body).children.is_empty());
    assert_eq!(store.element(el).children.len(), 1);
    assert_eq!(store.element(el).children.element_view().len(), 1);
    assert_eq!(store.element(child_ptr(&store, el, 0)).localname, "body");
}

#[test]
fn tree_element_push_rejects_self_insertion() {
    let mut store = ElementStore::new();
    let el = store.new_element(None, "message".to_owned());
    let n = Node::Element(el);
    assert_eq!(store.push(el, n), Err(InsertError::NodeIsSelf));
    assert_eq!(store.element(el).children.len(), 0);
}

#[test]
fn tree_element_push_rejects_parent_insertion() {
    let mut store = ElementStore::new();
    let root = prep_message(&mut store);
    let act_on = child_ptr(&store, root, 1);
    let n = Node::Element(root);
    assert_eq!(store.push(act_on, n), Err(InsertError::LoopDetected));
    assert_eq!(store.element(act_on).children.len(), 0);
}

#[test]
fn tree_element_push_rejects_root_insertion_at_child() {
    let mut store = ElementStore::new();
    let root = store.new_element(None, "root".to_owned());
    let child = store.tag(root, None, "child".to_owned(), None);
    let push_result = store.push(child, Node::Element(root));
    assert_eq!(push_result, Err(InsertError::LoopDetected));
    assert_eq!(store.element(child).children.len(), 0);
}

#[test]
fn tree_element_push_allows_adding_freestanding_element() {
    let mut store = ElementStore::new();
    let msg = store.new_element(None, "message".to_owned());
    let body = store.new_element(None, "body".to_owned());
    store.text(body, "foobar".to_owned());
    store.push(msg, Node::Element(body)).unwrap();
    assert_eq!(store.element(msg).children.len(), 1);
    assert!(ElementPtr::ptr_eq(&body, &child_ptr(&store, msg, 0)));
}

#[test]
fn tree_element_push_allows_adding_child_element_of_unrelated_tree() {
    let mut store = ElementStore::new();
    let msg = store.new_element(None, "message".to_owned());
    let body = store.new_element(None, "body".to_owned());
    store.text(body, "foobar".to_owned());
    store.push(msg, Node::Element(body)).unwrap();
    assert_eq!(store.element(msg).children.len(), 1);
    assert!(ElementPtr::ptr_eq(&body, &child_ptr(&store, msg, 0)));
}

#[test]
fn tree_element_map_elements_allows_identity_transform() {
    let mut store = ElementStore::new();
    let el = prep_message(&mut store);
    assert_eq!(store.element(el).children.len(), 2);
    store.map_elements::<(), _>(el, |c| Ok(Some(c))).unwrap();
    assert_eq!(store.element(el).children.len(), 2);
}

#[test]
fn tree_element_map_elements_rejects_self_insertion() {
    let mut store = ElementStore::new();
    let el = prep_message(&mut store);
    assert_eq!(store.element(el).children.len(), 2);
    let map_result = store.map_elements::<(), _>(el, |_| Ok(Some(el)));
    assert_eq!(map_result, Err(MapElementsError::Insert(InsertError::NodeIsSelf)));
}

#[test]
fn tree_element_map_elements_rejects_insertion_of_parent_at_child() {
    let mut store = ElementStore::new();
    let root = prep_message(&mut store);
    let act_on = child_ptr(&store, root, 1);
    store.tag(act_on, None, "dummy".to_owned(), None);
    assert_eq!(store.element(root).children.len(), 2);
    assert_eq!(store.element(act_on).children.len(), 1);
    let map_result = store.map_elements::<(), _>(act_on, |_| Ok(Some(root)));
    assert_eq!(map_result, Err(MapElementsError::Insert(InsertError::LoopDetected)));
    assert_eq!(store.element(root).children.len(), 2);
    assert_eq!(store.element(act_on).children.len(), 1);
}

#[test]
fn tree_element_map_elements_clear() {
    let mut store = ElementStore::new();
    let el = prep_message(&mut store);
    assert_eq!(store.element(el).children.len(), 2);
    store.map_elements::<(), _>(el, |_| Ok(None)).unwrap();
    assert_eq!(store.element(el).children.len(), 0);
}

#[test]
fn tree_element_map_elements_removed_elements_are_orphaned() {
    let mut store = ElementStore::new();
    let el = prep_message(&mut store);
    assert_eq!(store.element(el).children.len(), 2);
    let _child = child_ptr(&store, el, 0);
    store.map_elements::<(), _>(el, |_| Ok(None)).unwrap();
    assert_eq!(store.element(el).children.len(), 0);
}

#[test]
fn tree_element_map_elements_removed_elements_can_be_reinserted() {
    let mut store = ElementStore::new();
    let el = prep_message(&mut store);
    assert_eq!(store.element(el).children.len(), 2);
    let child = child_ptr(&store, el, 0);
    store.map_elements::<(), _>(el, |_| Ok(None)).unwrap();
    assert_eq!(store.element(el).children.len(), 0);
    assert!(store.push(el, Node::Element(child)).is_ok());
}

#[test]
fn tree_element_text() {
    let mut store = ElementStore::new();
    let el = store.new_element(None, "message".to_owned());
    let body = store.tag(el, None, "body".to_owned(), None);
    store.text(body, "Hello World!".to_owned());
    assert_eq!(store.element(body).children.len(), 1);
    assert_eq!(store.element(body).children.element_view().len(), 0);
    assert_eq!(store.element(body).children.get(0).unwrap().as_text().unwrap(), "Hello World!");
}

#[test]
fn tree_element_protect_is_recursive() {
    let mut store = ElementStore::new();
    let el = store.new_element(None, "message".to_owned());
    store.tag(el, None, "body".to_owned(), None);
    assert!(!store.is_protected(el));
    assert!(!store.is_protected(child_ptr(&store, el, 0)));
    store.protect(el).unwrap();
    assert!(store.is_protected(el));
    assert!(store.is_protected(child_ptr(&store, el, 0)));
}

#[test]
fn tree_element_protect_prohibits_push() {
    let mut store = ElementStore::new();
    let el = store.new_element(None, "message".to_owned());
    store.tag(el, None, "body".to_owned(), None);
    store.protect(el).unwrap();
    let delay = store.new_element(None, "delay".to_owned());
    let new_node = Node::Element(delay);
    assert_eq!(store.element(el).children.len(), 1);
    assert_eq!(store.push(el, new_node), Err(InsertError::Protected));
    assert_eq!(store.element(el).children.len(), 1);
}

#[test]
fn tree_element_protect_prohibits_map_elements() {
    let mut store = ElementStore::new();
    let el = store.new_element(None, "message".to_owned());
    store.tag(el, None, "body".to_owned(), None);
    store.protect(el).unwrap();
    assert_eq!(
        store.map_elements::<(), _>(el, |_| Ok(None)),
        Err(MapElementsError::Insert(InsertError::Protected))
    );
    assert_eq!(store.element(el).children.len(), 1);
}

#[test]
fn tree_element_protect_allows_tag_and_protects_it() {
    let mut store = ElementStore::new();
    let el = store.new_element(None, "message".to_owned());
    store.protect(el).unwrap();
    store.tag(el, None, "body".to_owned(), None);
    assert_eq!(store.element(el).children.len(), 1);
    assert!(store.is_protected(child_ptr(&store, el, 0)));
}

#[test]
fn tree_element_protect_allows_text() {
    let mut store = ElementStore::new();
    let el = store.new_element(None, "message".to_owned());
    store.protect(el).unwrap();
    store.text(el, "foobar2342".to_owned());
    assert_eq!(store.element(el).children.len(), 1);
}

#[test]
fn tree_element_unprotected_elements_can_be_inserted_into_separate_trees() {
    let mut store = ElementStore::new();
    let p1 = store.new_element(None, "message".to_owned());
    let p2 = store.new_element(None, "message".to_owned());
    let sig = store.new_element(None, "signature".to_owned());
    store.push(p1, Node::Element(sig)).unwrap();
    store.push(p2, Node::Element(sig)).unwrap();
    assert_eq!(store.element(p1).children.len(), 1);
    assert_eq!(store.element(p2).children.len(), 1);
    assert!(ElementPtr::ptr_eq(&child_ptr(&store, p1, 0), &child_ptr(&store, p2, 0)));
    assert!(ElementPtr::ptr_eq(&child_ptr(&store, p1, 0), &sig));
}

#[test]
fn tree_element_protected_elements_can_be_inserted_into_separate_trees() {
    let mut store = ElementStore::new();
    let p1 = store.new_element(None, "message".to_owned());
    let p2 = store.new_element(None, "message".to_owned());
    let sig = store.new_element(None, "signature".to_owned());
    store.protect(sig).unwrap();
    store.push(p1, Node::Element(sig)).unwrap();
    store.push(p2, Node::Element(sig)).unwrap();
    assert_eq!(store.element(p1).children.len(), 1);
    assert_eq!(store.element(p2).children.len(), 1);
    assert!(ElementPtr::ptr_eq(&child_ptr(&store, p1, 0), &child_ptr(&store, p2, 0)));
    assert!(ElementPtr::ptr_eq(&child_ptr(&store, p1, 0), &sig));
}

#[test]
fn tree_deep_clone_is_structurally_equal_and_unprotected() {
    let mut store = ElementStore::new();
    let el = prep_message(&mut store);
    store.protect(el).unwrap();
    let copy = store.deep_clone(el);
    assert!(store.structural_eq(copy, el));
    assert!(!store.is_protected(copy));
    assert!(!store.is_protected(child_ptr(&store, copy, 0)));
    assert!(store.is_protected(el));
}

#[test]
fn tree_structural_eq_ignores_protection_and_spots_differences() {
    let mut store = ElementStore::new();
    let a = prep_message(&mut store);
    let b = prep_message(&mut store);
    store.protect(b).unwrap();
    assert!(store.structural_eq(a, b));
    store.text(a, "extra".to_owned());
    assert!(!store.structural_eq(a, b));
}

#[test]
fn tree_get_text_concatenates_texts_only() {
    let mut store = ElementStore::new();
    let el = store.new_element(None, "body".to_owned());
    store.text(el, "Hello ".to_owned());
    store.text(el, "World".to_owned());
    assert_eq!(store.get_text(el).unwrap(), "Hello World");
    store.tag(el, None, "x".to_owned(), None);
    assert!(store.get_text(el).is_none());
}

#[test]
fn tree_map_elements_surfaces_external_error() {
    let mut store = ElementStore::new();
    let el = prep_message(&mut store);
    let map_result = store.map_elements::<u32, _>(el, |_| Err(17u32));
    assert_eq!(map_result, Err(MapElementsError::External(17u32)));
    assert_eq!(store.element(el).children.len(), 2);
}
