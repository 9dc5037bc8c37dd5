use rprosody::stanza::Stanza;
use rprosody::tree::{ElementPtr, ElementStore};
use rprosody::xmppstream::{Error, StreamConfig, StreamEvent, XMLNS_STREAMS, XmlError, XMPPStream};

fn child(store: &ElementStore, p: ElementPtr, i: usize) -> ElementPtr {
    store.element(p).children.get(i).unwrap().as_element_ptr().unwrap()
}

fn root_of(st: &Stanza) -> ElementPtr {
    st.root_ptr()
}

#[test]
fn xmppstream_read_stream_header() {
    let data = &b"<?xml version='1.0'?><stream:stream id='foobar2342' from='capulet.example' to='montague.example' xml:lang='en' xmlns:stream='http://etherx.jabber.org/streams' xmlns='jabber:server' version='1.0'><iq/>"[..];
    let mut s = XMPPStream::new(StreamConfig::s2s());
    s.feed(data).unwrap();
    assert_eq!(s.pending_bytes(), data.len());
    let ev = s.read().unwrap().unwrap();
    assert_eq!(s.pending_bytes(), 5);
    match ev {
        StreamEvent::Opened { id, from, to, lang, version } => {
            assert_eq!(id.unwrap(), "foobar2342");
            assert_eq!(from.unwrap(), "capulet.example");
            assert_eq!(to.unwrap(), "montague.example");
            assert_eq!(lang.unwrap(), "en");
            assert_eq!(version.unwrap(), "1.0");
        },
        _ => panic!("unexpected event"),
    }
}

#[test]
fn xmppstream_returns_wouldblock_on_insufficient_data() {
    let data = &b"<?xml version='1.0'?><stream:stream id='foobar2342' from='capulet.example' to='montague.example' xml:lang='en' xmlns:stream='http://etherx.jabber.org/streams' xmlns='jabber:server'"[..];
    let mut s = XMPPStream::new(StreamConfig::s2s());
    s.feed(data).unwrap();
    match s.read() {
        Err(Error::ParserError(XmlError::WouldBlock)) => {},
        other => panic!("unexpected result: {:?}", other.is_ok()),
    }
}

#[test]
fn xmppstream_read_stanza_with_attributes_and_child() {
    let data = &b"<?xml version='1.0'?><stream:stream xmlns:stream='http://etherx.jabber.org/streams' xmlns='jabber:server' version='1.0'><iq id='foobar2342' from='juliet@capulet.example' to='romeo@montague.example' type='get'><query xmlns='http://jabber.org/protocol/disco#info'/></iq>"[..];
    let mut s = XMPPStream::new(StreamConfig::s2s());
    s.feed(data).unwrap();
    assert_eq!(s.pending_bytes(), data.len());
    s.read().unwrap().unwrap();
    assert_eq!(s.pending_bytes(), 148);
    let ev = s.read().unwrap().unwrap();
    assert_eq!(s.pending_bytes(), 0);
    match ev {
        StreamEvent::Stanza(st) => {
            let root = root_of(&st);
            assert_eq!(st.store.element(root).localname, "iq");
            assert_eq!(st.store.get_attr(root, "id").unwrap(), "foobar2342");
            assert_eq!(st.store.get_attr(root, "from").unwrap(), "juliet@capulet.example");
            assert_eq!(st.store.get_attr(root, "to").unwrap(), "romeo@montague.example");
            assert_eq!(st.store.get_attr(root, "type").unwrap(), "get");
            assert!(st.store.get_attr(root, "xmlns").is_none());
            assert!(st.store.element(root).nsuri.is_none());
            let q = child(&st.store, root, 0);
            assert_eq!(
                st.store.element(q).nsuri.as_ref().unwrap(),
                "http://jabber.org/protocol/disco#info"
            );
            assert_eq!(st.store.element(q).localname, "query");
            assert_eq!(st.store.element(q).attr.len(), 0);
        },
        _ => panic!("unexpected event"),
    }
}

#[test]
fn xmppstream_read_stanza_with_attributes_and_child_and_text() {
    let data = &b"<?xml version='1.0'?><stream:stream xmlns:stream='http://etherx.jabber.org/streams' xmlns='jabber:server' version='1.0'><message id='foobar2342' from='juliet@capulet.example' to='romeo@montague.example'><body>oh romeo I don\xe2\x80\x99t know my lines!</body></message>"[..];
    let mut s = XMPPStream::new(StreamConfig::s2s());
    s.feed(data).unwrap();
    s.read().unwrap().unwrap();
    let ev = s.read().unwrap().unwrap();
    match ev {
        StreamEvent::Stanza(st) => {
            let root = root_of(&st);
            assert_eq!(st.store.element(root).localname, "message");
            assert_eq!(st.store.get_attr(root, "id").unwrap(), "foobar2342");
            assert_eq!(st.store.get_attr(root, "from").unwrap(), "juliet@capulet.example");
            assert_eq!(st.store.get_attr(root, "to").unwrap(), "romeo@montague.example");
            let body = child(&st.store, root, 0);
            assert_eq!(st.store.element(body).localname, "body");
            assert!(st.store.get_attr(body, "xmlns").is_none());
            assert!(st.store.element(body).nsuri.is_none());
            assert_eq!(st.store.get_text(body).unwrap(), "oh romeo I don\u{2019}t know my lines!");
        },
        _ => panic!("unexpected event"),
    }
}

#[test]
fn xmppstream_read_stanza_sets_stream_xmlns_on_children_below_foreign_ns() {
    let data = &b"<?xml version='1.0'?><stream:stream xmlns:stream='http://etherx.jabber.org/streams' xmlns='jabber:client' version='1.0'><message id='foobar2342' from='juliet@capulet.example' to='romeo@montague.example'><forwarded xmlns='carbons'><message xmlns='jabber:client'></message></forwarded></message>"[..];
    let mut s = XMPPStream::new(StreamConfig::c2s());
    s.feed(data).unwrap();
    s.read().unwrap().unwrap();
    let ev = s.read().unwrap().unwrap();
    match ev {
        StreamEvent::Stanza(st) => {
            let root = root_of(&st);
            assert_eq!(st.store.element(root).localname, "message");
            let fwd = child(&st.store, root, 0);
            let msg = child(&st.store, fwd, 0);
            assert_eq!(st.store.element(msg).nsuri.as_ref().unwrap(), "jabber:client");
            assert_eq!(st.store.element(msg).localname, "message");
            assert_eq!(st.store.element(msg).attr.len(), 0);
        },
        _ => panic!("unexpected event"),
    }
}

#[test]
fn xmppstream_footer() {
    let data = &b"<?xml version='1.0'?><stream:stream xmlns:stream='http://etherx.jabber.org/streams' xmlns='jabber:client' version='1.0'></stream:stream>"[..];
    let mut s = XMPPStream::new(StreamConfig::c2s());
    s.feed(data).unwrap();
    s.read().unwrap().unwrap();
    let ev = s.read().unwrap().unwrap();
    match ev {
        StreamEvent::Closed => {},
        _ => panic!("unexpected event"),
    }
}

#[test]
fn xmppstream_maps_xml_attributes() {
    let data = &b"<?xml version='1.0'?><stream:stream xmlns:stream='http://etherx.jabber.org/streams' xmlns='jabber:client' version='1.0'><iq xml:lang='en'/>"[..];
    let mut s = XMPPStream::new(StreamConfig::c2s());
    s.feed(data).unwrap();
    s.read().unwrap().unwrap();
    let ev = s.read().unwrap().unwrap();
    match ev {
        StreamEvent::Stanza(st) => {
            let root = root_of(&st);
            assert_eq!(st.store.element(root).localname, "iq");
            assert_eq!(st.store.get_attr(root, "xml:lang").unwrap(), "en");
            assert!(
                st.store
                    .get_attr(root, "http://www.w3.org/XML/1998/namespace\u{1}lang")
                    .is_none()
            );
        },
        _ => panic!("unexpected event"),
    }
}

#[test]
fn xmppstream_accepts_and_ignores_stream_level_whitespace() {
    let data = &b"<?xml version='1.0'?><stream:stream xmlns:stream='http://etherx.jabber.org/streams' xmlns='jabber:client' version='1.0'>    <iq/>"[..];
    let mut s = XMPPStream::new(StreamConfig::c2s());
    s.feed(data).unwrap();
    s.read().unwrap().unwrap();
    let ev = s.read().unwrap().unwrap();
    match ev {
        StreamEvent::Stanza(st) => {
            let root = root_of(&st);
            assert_eq!(st.store.element(root).localname, "iq");
        },
        _ => panic!("unexpected event"),
    }
}

#[test]
fn xmppstream_rejects_stream_level_text() {
    let data = &b"<?xml version='1.0'?><stream:stream xmlns:stream='http://etherx.jabber.org/streams' xmlns='jabber:client' version='1.0'>    foobar<iq/>"[..];
    let mut s = XMPPStream::new(StreamConfig::c2s());
    s.feed(data).unwrap();
    s.read().unwrap().unwrap();
    let e = s.read().err().unwrap();
    match e {
        Error::TextAtStreamLevel => {},
        other => panic!("unexpected error: {:?}", matches!(other, Error::TextAtStreamLevel)),
    }
}

#[test]
fn xmppstream_enforces_stanza_size_limit() {
    let data = &b"<?xml version='1.0'?><stream:stream xmlns:stream='http://etherx.jabber.org/streams' xmlns='jabber:client' version='1.0'><iq id='foobar2342' from='juliet@capulet.example' to='romeo@montague.example' type='get'>"[..];
    let mut s = XMPPStream::new(StreamConfig::c2s());
    s.feed(data).unwrap();
    s.read().unwrap().unwrap();
    s.stanza_limit = Some(32);
    let e = s.read().err().unwrap();
    match e {
        Error::StanzaLimitExceeded => {},
        _ => panic!("unexpected error"),
    }
}

#[test]
fn xmppstream_rejects_additional_data_or_read_after_poison_error() {
    let data = &b"<?xml version='1.0'?><stream:stream xmlns:stream='http://etherx.jabber.org/streams' xmlns='jabber:client' version='1.0'><iq id='foobar2342' from='juliet@capulet.example' to='romeo@montague.example' type='get'>"[..];
    let mut s = XMPPStream::new(StreamConfig::c2s());
    s.feed(data).unwrap();
    s.read().unwrap().unwrap();
    s.stanza_limit = Some(32);
    s.read().err().unwrap();
    let e = s.feed(&b"</iq>"[..]).err().unwrap();
    match e {
        Error::StanzaLimitExceeded => {},
        _ => panic!("unexpected error"),
    }
    let e = s.read().err().unwrap();
    match e {
        Error::StanzaLimitExceeded => {},
        _ => panic!("unexpected error"),
    }
}

#[test]
fn xmppstream_rejects_additional_data_after_xml_error() {
    let data = &b"<?xml version='1.0'?><stream:streamxmlns:stream='http://etherx.jabber.org/streams' xmlns='jabber:client' version='1.0'><iq id='foobar2342' from='juliet@capulet.example' to='romeo@montague.example' type='get'>"[..];
    let mut s = XMPPStream::new(StreamConfig::c2s());
    s.feed(data).unwrap();
    let e = s.read().err().unwrap();
    match e {
        Error::ParserError(_) => {},
        _ => panic!("unexpected error"),
    }
    let e = s.feed(&b"</iq>"[..]).err().unwrap();
    match e {
        Error::ParserError(_) => {},
        _ => panic!("unexpected error"),
    }
}

#[test]
fn xmppstream_drops_buffered_data_after_xml_error() {
    let data = &b"<?xml version='1.0'?><stream:streamxmlns:stream='http://etherx.jabber.org/streams' xmlns='jabber:client'><iq id='foobar2342' from='juliet@capulet.example' to='romeo@montague.example' type='get'>"[..];
    let mut s = XMPPStream::new(StreamConfig::c2s());
    s.feed(data).unwrap();
    s.read().err().unwrap();
    assert_eq!(s.pending_bytes(), 0);
    s.feed(&b"foo"[..]).err().unwrap();
    assert_eq!(s.pending_bytes(), 0);
}

#[test]
fn xmppstream_read_stream_error() {
    let data = &b"<?xml version='1.0'?><stream:stream xmlns:stream='http://etherx.jabber.org/streams' xmlns='jabber:server' version='1.0'><stream:error><not-well-formed xmlns='urn:ietf:params:xml:ns:xmpp-streams'/></stream:error>"[..];
    let mut s = XMPPStream::new(StreamConfig::s2s());
    s.feed(data).unwrap();
    assert_eq!(s.pending_bytes(), data.len());
    s.read().unwrap().unwrap();
    let ev = s.read().unwrap().unwrap();
    match ev {
        StreamEvent::Error(st) => {
            let root = root_of(&st);
            assert_eq!(st.store.element(root).nsuri.as_ref().unwrap(), XMLNS_STREAMS);
            assert_eq!(st.store.element(root).localname, "error");
            let e = child(&st.store, root, 0);
            assert_eq!(
                st.store.element(e).nsuri.as_ref().unwrap(),
                "urn:ietf:params:xml:ns:xmpp-streams"
            );
            assert_eq!(st.store.element(e).localname, "not-well-formed");
        },
        _ => panic!("unexpected event"),
    }
}

#[test]
fn xmppstream_read_stanza_with_complex_namespacing() {
    let data = &b"<?xml version='1.0'?><stream:stream xmlns:stream='streamns' xmlns='stanzans'><x xmlns:a='b'><y xmlns:a='c'><a:z/></y><a:z/></x>"[..];
    let mut s = XMPPStream::new(StreamConfig {
        default_namespace: "stanzans".to_owned(),
        stream_namespace: "streamns".to_owned(),
        stream_localname: "stream".to_owned(),
        error_localname: "error".to_owned(),
    });
    s.feed(data).unwrap();
    assert_eq!(s.pending_bytes(), data.len());
    s.read().unwrap().unwrap();
    let ev = s.read().unwrap().unwrap();
    match ev {
        StreamEvent::Stanza(st) => {
            let root = root_of(&st);
            assert_eq!(st.store.element(root).localname, "x");
            assert!(st.store.element(root).nsuri.is_none());
            let c = child(&st.store, root, 0);
            assert!(st.store.element(c).nsuri.is_none());
            assert_eq!(st.store.element(c).localname, "y");
            let cc = child(&st.store, c, 0);
            assert_eq!(st.store.element(cc).nsuri.as_ref().unwrap(), "c");
            assert_eq!(st.store.element(cc).localname, "z");
            let c2 = child(&st.store, root, 1);
            assert_eq!(st.store.element(c2).nsuri.as_ref().unwrap(), "b");
            assert_eq!(st.store.element(c2).localname, "z");
        },
        _ => panic!("unexpected event"),
    }
}
