use rprosody::stanza::Stanza;
use rprosody::tree::ElementPtr;

fn nth_child(st: &Stanza, p: ElementPtr, i: usize) -> ElementPtr {
    st.store.element(p).children.get(i).unwrap().as_element_ptr().unwrap()
}

#[test]
fn stanza_stanza_new_cursor_at_root() {
    let st = Stanza::new(None, "message".to_owned(), None);
    let root = st.try_deref();
    assert!(root.is_some());
    let root = root.unwrap();
    assert_eq!(st.store.element(root).localname, "message");
}

#[test]
fn stanza_stanza_tag_descends() {
    let mut st = Stanza::new(None, "message".to_owned(), None);
    let body = st.tag(None, "body".to_owned(), None);
    assert!(body.is_some());
    let body = body.unwrap();
    let body_derefd = st.try_deref();
    assert!(body_derefd.is_some());
    let body_derefd = body_derefd.unwrap();
    assert!(ElementPtr::ptr_eq(&body, &body_derefd));
}

#[test]
fn stanza_stanza_text_does_not_descend() {
    let mut st = Stanza::new(None, "body".to_owned(), None);
    st.text("foo".to_owned());
    let root = st.try_deref();
    assert!(root.is_some());
    let root = root.unwrap();
    assert_eq!(st.store.element(root).localname, "body");
}

#[test]
fn stanza_stanza_tag_inserts_at_cursor() {
    let mut st = Stanza::new(None, "iq".to_owned(), None);
    st.tag(None, "query".to_owned(), None);
    st.tag(None, "item".to_owned(), None);
    let root = st.root_ptr();
    assert_eq!(st.store.element(root).children.len(), 1);
    let query = nth_child(&st, root, 0);
    assert_eq!(st.store.element(query).children.len(), 1);
    let item = nth_child(&st, query, 0);
    assert_eq!(st.store.element(item).children.len(), 0);
}

#[test]
fn stanza_stanza_up_moves_cursor() {
    let mut st = Stanza::new(None, "message".to_owned(), None);
    let body = st.tag(None, "body".to_owned(), None).unwrap();
    st.store.text(body, "Hello World!".to_owned());
    st.up();
    let root_derefd = st.try_deref();
    assert!(root_derefd.is_some());
    let root_derefd = root_derefd.unwrap();
    assert!(ElementPtr::ptr_eq(&st.root_ptr(), &root_derefd));
}

#[test]
fn stanza_stanza_reset_moves_cursor() {
    let mut st = Stanza::new(None, "iq".to_owned(), None);
    st.tag(None, "query".to_owned(), None);
    st.tag(None, "extra".to_owned(), None);
    st.reset();
    st.tag(None, "error".to_owned(), None);
    assert_eq!(st.root().children.len(), 2);
}

#[test]
fn stanza_is_at_top_tracks_depth() {
    let mut st = Stanza::new(None, "iq".to_owned(), None);
    assert!(st.is_at_top());
    st.tag(None, "query".to_owned(), None);
    assert!(!st.is_at_top());
    st.up();
    assert!(st.is_at_top());
}

#[test]
fn stanza_deep_clone_is_equal_and_unprotected() {
    let mut st = Stanza::new(None, "message".to_owned(), None);
    st.tag(None, "body".to_owned(), None);
    st.text("hi".to_owned());
    st.store.protect(st.root_ptr()).unwrap();
    let copy = st.deep_clone();
    assert!(copy.is_at_top());
    assert_eq!(copy.store.element(copy.root_ptr()).localname, "message");
    assert!(!copy.store.is_protected(copy.root_ptr()));
    let body = nth_child(&copy, copy.root_ptr(), 0);
    assert!(!copy.store.is_protected(body));
    assert_eq!(copy.store.get_text(body).unwrap(), "hi");
}
