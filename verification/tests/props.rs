use rprosody::attr::AttributePath;
use rprosody::attrstr::AttrName;
use rprosody::stanza::Stanza;
use rprosody::tree::{ElementPtr, ElementStore};
use rprosody::xml::{head_as_str, Formatter};
use rprosody::xmpp::make_error_reply;
use rprosody::xmppstream::{Error, StreamConfig, StreamEvent, XMPPStream};

fn child(store: &ElementStore, p: ElementPtr, i: usize) -> ElementPtr {
    store.element(p).children.get(i).unwrap().as_element_ptr().unwrap()
}

#[test]
fn attrname_try_from_keeps_accepted_plain_keys() {
    for s in ["id", "xmlns:stream", "urn:x\u{1}local", "a-b.c"] {
        let a = AttrName::try_from(s).unwrap();
        assert_eq!(a.as_string(), s);
    }
}

#[test]
fn attrname_try_from_rewrites_xml_prefix() {
    let a = AttrName::try_from("xml:lang").unwrap();
    assert_eq!(a.as_string(), "http://www.w3.org/XML/1998/namespace\u{1}lang");
}

#[test]
fn attrname_try_from_rejects_ill_formed_keys() {
    assert!(AttrName::try_from("").is_err());
    assert!(AttrName::try_from("0bad").is_err());
    assert!(AttrName::try_from("ns\u{1}").is_err());
    assert!(AttrName::try_from("urn:x\u{1}0bad").is_err());
    assert!(AttrName::try_from("xml:0bad").is_err());
    assert!(AttrName::try_from("xmlns:0bad").is_err());
}

#[test]
fn attrname_compose_and_decompose_are_inverse() {
    let a = AttrName::compose(Some("urn:test"), "local");
    let (ns, local) = a.decompose();
    assert_eq!(ns.unwrap(), "urn:test");
    assert_eq!(local, "local");
    let b = AttrName::local_only("bare");
    let (ns2, local2) = b.decompose();
    assert!(ns2.is_none());
    assert_eq!(local2, "bare");
}

#[test]
fn handles_alias_the_same_element() {
    let mut store = ElementStore::new();
    let a = store.new_element(None, "message".to_owned());
    let b = a;
    store.set_attr(a, "id".to_owned(), "x".to_owned());
    assert_eq!(store.get_attr(b, "id").unwrap(), "x");
    store.text(b, "t".to_owned());
    assert_eq!(store.element(a).children.len(), 1);
}

#[test]
fn error_reply_has_expected_wire_form() {
    let mut store = ElementStore::new();
    let mut attr = rprosody::attrstr::AttributeMap::new();
    attr.insert("type".to_owned(), "chat".to_owned());
    let st = store.new_element_with_attr(None, "message".to_owned(), Some(attr));
    let reply = make_error_reply(
        &mut store,
        st,
        "cancel".to_owned(),
        "service-unavailable".to_owned(),
        Some("nope".to_owned()),
        None,
    )
    .unwrap();
    let fmt = Formatter { indent: None, initial_level: 0 };
    let s = fmt.format(&store, reply);
    assert_eq!(
        s,
        "<message type='error'><error type='cancel'><service-unavailable xmlns='urn:ietf:params:xml:ns:xmpp-stanzas'/><text xmlns='urn:ietf:params:xml:ns:xmpp-stanzas'>nope</text></error></message>"
    );
    let (type_, condition, text, extra) = rprosody::xmpp::extract_error(&store, reply).unwrap();
    assert_eq!(type_, "cancel");
    assert_eq!(condition, "service-unavailable");
    assert_eq!(text.unwrap(), "nope");
    assert!(extra.is_none());
}

#[test]
fn serialized_stanza_parses_back_to_an_equal_tree() {
    // build a stanza, serialize it in compact mode, feed it to a fresh
    // stream behind a synthesized header, and compare the result
    let mut st = Stanza::new(None, "message".to_owned(), None);
    let root = st.root_ptr();
    st.store.set_attr(root, "type".to_owned(), "chat".to_owned());
    let body = st.tag(None, "body".to_owned(), None).unwrap();
    st.store.text(body, "hello <world> & 'friends'".to_owned());
    st.reset();
    st.tag(Some("urn:test".to_owned()), "extra".to_owned(), None);

    let fmt = Formatter { indent: None, initial_level: 0 };
    let wire = fmt.format(&st.store, root);

    let mut header_store = ElementStore::new();
    let mut hattr = rprosody::attrstr::AttributeMap::new();
    hattr.insert("xmlns:stream".to_owned(), "http://etherx.jabber.org/streams".to_owned());
    let hdr = header_store.new_element_with_attr(None, "stream:stream".to_owned(), Some(hattr));
    let mut head = head_as_str(&header_store, hdr);
    head = head.replace("<stream:stream", "<stream:stream xmlns='jabber:client'");

    let mut s = XMPPStream::new(StreamConfig::c2s());
    s.feed(head.as_bytes()).unwrap();
    s.feed(wire.as_bytes()).unwrap();
    s.read().unwrap().unwrap();
    let ev = s.read().unwrap().unwrap();
    match ev {
        StreamEvent::Stanza(parsed) => {
            let proot = parsed.root_ptr();
            assert_eq!(parsed.store.element(proot).localname, "message");
            assert_eq!(parsed.store.get_attr(proot, "type").unwrap(), "chat");
            let pbody = child(&parsed.store, proot, 0);
            assert_eq!(
                parsed.store.get_text(pbody).unwrap(),
                "hello <world> & 'friends'"
            );
            let pextra = child(&parsed.store, proot, 1);
            assert_eq!(parsed.store.element(pextra).nsuri.as_ref().unwrap(), "urn:test");
            // structural comparison against the original, element by element
            assert_eq!(
                parsed.store.element(proot).children.len(),
                st.store.element(root).children.len()
            );
        },
        _ => panic!("unexpected event"),
    }
}

#[test]
fn invalid_stream_header_is_reported() {
    let data = &b"<?xml version='1.0'?><nostream xmlns='wrong'><iq/>"[..];
    let mut s = XMPPStream::new(StreamConfig::c2s());
    s.feed(data).unwrap();
    let e = s.read().err().unwrap();
    match e {
        Error::InvalidStreamHeader => {},
        _ => panic!("unexpected error"),
    }
}

#[test]
fn stream_header_with_unknown_attribute_is_invalid() {
    let data = &b"<?xml version='1.0'?><stream:stream xmlns:stream='http://etherx.jabber.org/streams' xmlns='jabber:client' hacky='1'><iq/>"[..];
    let mut s = XMPPStream::new(StreamConfig::c2s());
    s.feed(data).unwrap();
    let e = s.read().err().unwrap();
    match e {
        Error::InvalidStreamHeader => {},
        _ => panic!("unexpected error"),
    }
}

#[test]
fn feed_over_limit_fails_and_poisons() {
    let mut s = XMPPStream::new(StreamConfig::c2s());
    s.stanza_limit = Some(8);
    let e = s.feed(&b"0123456789"[..]).err().unwrap();
    match e {
        Error::StanzaLimitExceeded => {},
        _ => panic!("unexpected error"),
    }
    assert_eq!(s.pending_bytes(), 0);
}

#[test]
fn protected_fragment_under_two_parents_stays_shared() {
    let mut store = ElementStore::new();
    let frag = store.new_element(None, "prototype".to_owned());
    store.text(frag, "canned".to_owned());
    store.protect(frag).unwrap();
    let p1 = store.new_element(None, "a".to_owned());
    let p2 = store.new_element(None, "b".to_owned());
    store.push(p1, rprosody::tree::Node::Element(frag)).unwrap();
    store.push(p2, rprosody::tree::Node::Element(frag)).unwrap();
    store.text(frag, "more".to_owned());
    let c1 = child(&store, p1, 0);
    let c2 = child(&store, p2, 0);
    assert!(ElementPtr::ptr_eq(&c1, &c2));
    assert_eq!(store.element(c1).children.len(), 2);
}

#[test]
fn attribute_path_reads_and_writes_at_cursor() {
    let mut st = Stanza::new(None, "message".to_owned(), None);
    st.tag(None, "body".to_owned(), None);
    let mut ap = AttributePath::wrap(st);
    ap.set("id".to_owned(), "b1".to_owned());
    assert_eq!(ap.get("id".to_owned()).unwrap(), "b1");
    assert!(ap.get("missing".to_owned()).is_none());
    ap.0.up();
    assert!(ap.get("id".to_owned()).is_none());
    ap.set("top".to_owned(), "t".to_owned());
    assert_eq!(ap.get("top".to_owned()).unwrap(), "t");
}

#[test]
fn stanza_down_addresses_existing_children() {
    let mut st = Stanza::new(None, "iq".to_owned(), None);
    st.tag(None, "query".to_owned(), None);
    st.reset();
    st.down(0);
    let q = st.try_deref().unwrap();
    assert_eq!(st.store.element(q).localname, "query");
    st.reset();
    st.down(7);
    assert!(st.try_deref().is_none());
}

#[test]
fn element_view_get_returns_the_element_children_in_order() {
    let mut store = ElementStore::new();
    let el = store.new_element(None, "root".to_owned());
    store.text(el, "a".to_owned());
    let c1 = store.tag(el, None, "one".to_owned(), None);
    store.text(el, "b".to_owned());
    let c2 = store.tag(el, None, "two".to_owned(), None);
    let view = store.element(el).children.element_view();
    assert_eq!(view.len(), 2);
    assert!(ElementPtr::ptr_eq(&view.get(0).unwrap(), &c1));
    assert!(ElementPtr::ptr_eq(&view.get(1).unwrap(), &c2));
    assert_eq!(view.get_index(0), Some(1));
    assert_eq!(view.get_index(1), Some(3));
    assert!(view.get(2).is_none());
}
