use rprosody::fake_xpath::find;
use rprosody::stanza::Stanza;
use rprosody::tree::{ElementPtr, ElementStore, Node};

const TEST_XMLNS: &str = "urn:uuid:81b8253b-ba8c-4c91-8d3a-f2c6c10c7bfe";

fn build_tree() -> Stanza {
    let mut st = Stanza::new(None, "root".to_owned(), None);
    let root = st.root_ptr();
    st.store.set_attr(root, "foo".to_owned(), "bar".to_owned());
    st.tag(None, "child1".to_owned(), None);
    st.tag(None, "nested1".to_owned(), None);
    st.text("Hello World from nested1!".to_owned());
    st.up();
    st.tag(None, "nested2".to_owned(), None);
    st.text("Hello World from nested2!".to_owned());
    st.reset();
    let child2 = st.tag(Some(TEST_XMLNS.to_owned()), "child2".to_owned(), None).unwrap();
    st.store.set_attr(child2, "attr2".to_owned(), "value2".to_owned());
    st
}

fn child(store: &ElementStore, p: ElementPtr, i: usize) -> ElementPtr {
    store.element(p).children.get(i).unwrap().as_element_ptr().unwrap()
}

#[test]
fn fake_xpath_find_direct_child() {
    let st = build_tree();
    let root = st.root_ptr();
    let result = find(&st.store, root, "child1");
    assert!(result.is_some());
    let result = result.unwrap().as_element_ptr().unwrap();
    assert!(ElementPtr::ptr_eq(&result, &child(&st.store, root, 0)));
}

#[test]
fn fake_xpath_find_direct_child_with_ns() {
    let st = build_tree();
    let root = st.root_ptr();
    let result = find(&st.store, root, format!("{{{}}}child2", TEST_XMLNS).as_str());
    assert!(result.is_some());
    let result = result.unwrap().as_element_ptr().unwrap();
    assert!(ElementPtr::ptr_eq(&result, &child(&st.store, root, 1)));
}

#[test]
fn fake_xpath_find_nested_child() {
    let st = build_tree();
    let root = st.root_ptr();
    let result = find(&st.store, root, "child1/nested2");
    assert!(result.is_some());
    let result = result.unwrap().as_element_ptr().unwrap();
    let nested2 = child(&st.store, child(&st.store, root, 0), 1);
    assert!(ElementPtr::ptr_eq(&result, &nested2));
}

#[test]
fn fake_xpath_find_attribute() {
    let st = build_tree();
    let root = st.root_ptr();
    let result = find(&st.store, root, format!("{{{}}}child2@attr2", TEST_XMLNS).as_str());
    assert!(result.is_some());
    match result.unwrap() {
        Node::Text(t) => assert_eq!(t, "value2"),
        _ => panic!("expected text"),
    }
}

#[test]
fn fake_xpath_find_text() {
    let st = build_tree();
    let root = st.root_ptr();
    let result = find(&st.store, root, "child1/nested2#");
    assert!(result.is_some());
    match result.unwrap() {
        Node::Text(t) => assert_eq!(t, "Hello World from nested2!"),
        _ => panic!("expected text"),
    }
}

#[test]
fn fake_xpath_find_missing_child_is_none() {
    let st = build_tree();
    let root = st.root_ptr();
    assert!(find(&st.store, root, "nothere").is_none());
    assert!(find(&st.store, root, "child1/nothere#").is_none());
    assert!(find(&st.store, root, "@nothere").is_none());
}
