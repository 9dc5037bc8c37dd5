use rprosody::attrstr::AttributeMap;
use rprosody::tree::{ElementPtr, ElementStore};
use rprosody::xmpp::{
    extract_error, extract_error_info, find_first_child, make_error_reply, make_reply,
    ElementSelector, XMLNS_XMPP_STANZAS,
};

fn mkerrorattr(typename: &str) -> AttributeMap {
    let mut result = AttributeMap::new();
    result.insert("type".to_owned(), typename.to_owned());
    result
}

fn child(store: &ElementStore, p: ElementPtr, i: usize) -> ElementPtr {
    store.element(p).children.get(i).unwrap().as_element_ptr().unwrap()
}

#[test]
fn xmpp_elementselector_match_by_name() {
    let sel = ElementSelector::select_inside_xmlns(None, Some("foo".to_owned()), None);
    assert!(sel.select_str("foo", &None));
    assert!(!sel.select_str("bar", &None));
}

#[test]
fn xmpp_elementselector_match_by_parent_xmlns() {
    let sel = ElementSelector::select_inside_xmlns(Some("urn:foo".to_owned()), None, None);
    assert!(sel.select_str("foo", &Some("urn:foo".to_owned())));
    assert!(sel.select_str("foo", &None));
    assert!(!sel.select_str("foo", &Some("urn:bar".to_owned())));
}

#[test]
fn xmpp_elementselector_match_by_absent_parent_xmlns() {
    let sel = ElementSelector::select_inside_xmlns(None, None, None);
    assert!(!sel.select_str("foo", &Some("urn:foo".to_owned())));
    assert!(sel.select_str("foo", &None));
    assert!(!sel.select_str("foo", &Some("urn:bar".to_owned())));
}

#[test]
fn xmpp_elementselector_match_by_explicit_xmlns() {
    let sel = ElementSelector::select_inside_xmlns(
        Some("urn:foo".to_owned()),
        None,
        Some("urn:bar".to_owned()),
    );
    assert!(!sel.select_str("foo", &Some("urn:foo".to_owned())));
    assert!(!sel.select_str("foo", &None));
    assert!(sel.select_str("foo", &Some("urn:bar".to_owned())));
}

#[test]
fn xmpp_elementselector_match_by_name_and_xmlns() {
    let sel = ElementSelector::select_inside_xmlns(
        Some("jabber:client".to_owned()),
        Some("message".to_owned()),
        Some("jabber:client".to_owned()),
    );
    assert!(sel.select_str("message", &Some("jabber:client".to_owned())));
    assert!(sel.select_str("message", &None));
    assert!(!sel.select_str("message", &Some("urn:server".to_owned())));
    assert!(!sel.select_str("iq", &Some("jabber:client".to_owned())));
    assert!(!sel.select_str("iq", &None));
    assert!(!sel.select_str("iq", &Some("jabber:server".to_owned())));
}

#[test]
fn xmpp_extract_error_info_extracts_type_and_defaults_to_undef_condition() {
    let mut store = ElementStore::new();
    let e = store.new_element_with_attr(None, "error".to_owned(), Some(mkerrorattr("error type")));
    let (type_, condition, text, extra) = extract_error_info(&store, e).unwrap();
    assert_eq!(type_, "error type");
    assert_eq!(condition, "undefined-condition");
    assert!(text.is_none());
    assert!(extra.is_none());
}

#[test]
fn xmpp_extract_error_info_extracts_type_and_condition() {
    let mut store = ElementStore::new();
    let e = store.new_element_with_attr(None, "error".to_owned(), Some(mkerrorattr("error type")));
    store.tag(e, Some(XMLNS_XMPP_STANZAS.to_owned()), "random-condition".to_owned(), None);
    let (type_, condition, text, extra) = extract_error_info(&store, e).unwrap();
    assert_eq!(type_, "error type");
    assert_eq!(condition, "random-condition");
    assert!(text.is_none());
    assert!(extra.is_none());
}

#[test]
fn xmpp_extract_error_info_extracts_text() {
    let mut store = ElementStore::new();
    let e = store.new_element_with_attr(None, "error".to_owned(), Some(mkerrorattr("error type")));
    store.tag(e, Some(XMLNS_XMPP_STANZAS.to_owned()), "random-condition".to_owned(), None);
    let t = store.tag(e, Some(XMLNS_XMPP_STANZAS.to_owned()), "text".to_owned(), None);
    store.text(t, "foobar 2342".to_owned());
    let (type_, condition, text, extra) = extract_error_info(&store, e).unwrap();
    assert_eq!(type_, "error type");
    assert_eq!(condition, "random-condition");
    assert_eq!(text.unwrap(), "foobar 2342");
    assert!(extra.is_none());
}

#[test]
fn xmpp_extract_error_info_extracts_application_defined_condition_el() {
    let mut store = ElementStore::new();
    let e = store.new_element_with_attr(None, "error".to_owned(), Some(mkerrorattr("error type")));
    store.tag(e, Some(XMLNS_XMPP_STANZAS.to_owned()), "random-condition".to_owned(), None);
    let t = store.tag(e, Some(XMLNS_XMPP_STANZAS.to_owned()), "text".to_owned(), None);
    store.text(t, "foobar 2342".to_owned());
    let appdef_el = store.tag(
        e,
        Some("urn:uuid:5cf726d1-5be8-44bb-b14a-62880f783ac9".to_owned()),
        "appdefcond".to_owned(),
        None,
    );
    let (type_, condition, text, extra) = extract_error_info(&store, e).unwrap();
    assert_eq!(type_, "error type");
    assert_eq!(condition, "random-condition");
    assert_eq!(text.unwrap(), "foobar 2342");
    assert!(ElementPtr::ptr_eq(&extra.unwrap(), &appdef_el));
}

#[test]
fn xmpp_extract_error_from_stanza() {
    let mut store = ElementStore::new();
    let st = store.new_element(Some("jabber:client".to_owned()), "message".to_owned());
    let e = store.tag(st, None, "error".to_owned(), Some(mkerrorattr("wait")));
    store.tag(e, Some(XMLNS_XMPP_STANZAS.to_owned()), "remote-server-not-found".to_owned(), None);
    let (type_, condition, text, extra) = extract_error(&store, st).unwrap();
    assert_eq!(type_, "wait");
    assert_eq!(condition, "remote-server-not-found");
    assert!(text.is_none());
    assert!(extra.is_none());
}

#[test]
fn xmpp_make_error_reply_sets_error_type() {
    let mut store = ElementStore::new();
    let st = store.new_element(None, "message".to_owned());
    let reply = make_error_reply(
        &mut store,
        st,
        "cancel".to_owned(),
        "undefined-condition".to_owned(),
        None,
        None,
    );
    assert!(reply.is_ok());
    let reply = reply.unwrap();
    assert_eq!(store.get_attr(reply, "type").unwrap(), "error");
    let err = child(&store, reply, 0);
    assert_eq!(store.get_attr(err, "type").unwrap(), "cancel");
}

#[test]
fn xmpp_extract_error_can_extract_from_make_error_reply_result() {
    let mut store = ElementStore::new();
    let st = store.new_element(None, "message".to_owned());
    let reply = make_error_reply(
        &mut store,
        st,
        "cancel".to_owned(),
        "some-condition".to_owned(),
        Some("error text".to_owned()),
        Some("origin".to_owned()),
    );
    assert!(reply.is_ok());
    let (type_, condition, text, extra) = extract_error(&store, reply.unwrap()).unwrap();
    assert_eq!(type_, "cancel");
    assert_eq!(condition, "some-condition");
    assert!(text.is_some());
    assert_eq!(text.unwrap(), "error text");
    assert!(extra.is_none());
}

#[test]
fn xmpp_extract_error_can_extract_from_make_error_reply_result_with_appinfo() {
    let mut store = ElementStore::new();
    let st = store.new_element(None, "message".to_owned());
    let reply = make_error_reply(
        &mut store,
        st,
        "cancel".to_owned(),
        "some-condition".to_owned(),
        Some("error text".to_owned()),
        Some("origin".to_owned()),
    );
    assert!(reply.is_ok());
    let reply = reply.unwrap();
    let err = child(&store, reply, 0);
    let custom_condition = store.tag(
        err,
        Some("urn:uuid:23d5821c-0141-418c-aa94-665ae2649b7c".to_owned()),
        "custom-condition".to_owned(),
        None,
    );
    let (type_, condition, text, extra) = extract_error(&store, reply).unwrap();
    assert_eq!(type_, "cancel");
    assert_eq!(condition, "some-condition");
    assert!(text.is_some());
    assert_eq!(text.unwrap(), "error text");
    assert!(extra.is_some());
    assert!(ElementPtr::ptr_eq(&extra.unwrap(), &custom_condition));
}

#[test]
fn xmpp_make_reply_swaps_addresses_and_keeps_id() {
    let mut store = ElementStore::new();
    let mut attr = AttributeMap::new();
    attr.insert("id".to_owned(), "i1".to_owned());
    attr.insert("from".to_owned(), "a@x".to_owned());
    attr.insert("to".to_owned(), "b@y".to_owned());
    attr.insert("type".to_owned(), "chat".to_owned());
    let st = store.new_element_with_attr(None, "message".to_owned(), Some(attr));
    let reply = make_reply(&mut store, st);
    assert_eq!(store.get_attr(reply, "id").unwrap(), "i1");
    assert_eq!(store.get_attr(reply, "to").unwrap(), "a@x");
    assert_eq!(store.get_attr(reply, "from").unwrap(), "b@y");
    assert_eq!(store.get_attr(reply, "type").unwrap(), "chat");
    assert_eq!(store.element(reply).children.len(), 0);
    assert!(store.element(reply).nsuri.is_none());
}

#[test]
fn xmpp_make_reply_forces_result_type_for_iq() {
    let mut store = ElementStore::new();
    let mut attr = AttributeMap::new();
    attr.insert("type".to_owned(), "get".to_owned());
    let st = store.new_element_with_attr(None, "iq".to_owned(), Some(attr));
    let reply = make_reply(&mut store, st);
    assert_eq!(store.get_attr(reply, "type").unwrap(), "result");
}

#[test]
fn xmpp_make_error_reply_refuses_error_stanzas() {
    let mut store = ElementStore::new();
    let st = store.new_element_with_attr(None, "message".to_owned(), Some(mkerrorattr("error")));
    let reply = make_error_reply(
        &mut store,
        st,
        "cancel".to_owned(),
        "undefined-condition".to_owned(),
        None,
        None,
    );
    assert!(reply.is_err());
}

#[test]
fn xmpp_find_first_child_honours_name_and_ns() {
    let mut store = ElementStore::new();
    let st = store.new_element(Some("jabber:client".to_owned()), "message".to_owned());
    store.tag(st, None, "body".to_owned(), None);
    let err = store.tag(st, None, "error".to_owned(), None);
    let found = find_first_child(&store, st, Some("error".to_owned()), None).unwrap();
    assert!(ElementPtr::ptr_eq(&found, &err));
    assert!(find_first_child(&store, st, Some("missing".to_owned()), None).is_none());
}
