use rprosody::attrstr::AttributeMap;
use rprosody::tree::ElementStore;
use rprosody::xml::{escape, head_as_str, usize_to_string, Formatter};

#[test]
fn escape_plain() {
    let mut buf = String::new();
    escape(&mut buf, "foobar 2342");
    assert_eq!(buf, "foobar 2342");
}

#[test]
fn escape_apos_begin() {
    let mut buf = String::new();
    escape(&mut buf, "'foobar 2342");
    assert_eq!(buf, "&apos;foobar 2342");
}

#[test]
fn escape_apos_end() {
    let mut buf = String::new();
    escape(&mut buf, "foobar 2342'");
    assert_eq!(buf, "foobar 2342&apos;");
}

#[test]
fn escape_double_apos() {
    let mut buf = String::new();
    escape(&mut buf, "foobar''2342");
    assert_eq!(buf, "foobar&apos;&apos;2342");
}

#[test]
fn escape_ampersand() {
    let mut buf = String::new();
    escape(&mut buf, "foobar&2342");
    assert_eq!(buf, "foobar&amp;2342");
}

#[test]
fn escape_quot() {
    let mut buf = String::new();
    escape(&mut buf, "foobar\"2342");
    assert_eq!(buf, "foobar&quot;2342");
}

#[test]
fn escape_lt() {
    let mut buf = String::new();
    escape(&mut buf, "foobar<2342");
    assert_eq!(buf, "foobar&lt;2342");
}

#[test]
fn escape_gt() {
    let mut buf = String::new();
    escape(&mut buf, "foobar>2342");
    assert_eq!(buf, "foobar&gt;2342");
}

#[test]
fn format_escapes_text_nodes() {
    let mut store = ElementStore::new();
    let el = store.new_element(None, "foo".to_owned());
    store.text(el, "&bar;<baz/>fnord\"'".to_owned());
    let fmt = Formatter { indent: None, initial_level: 0 };
    let s = fmt.format(&store, el);
    assert_eq!(s, "<foo>&amp;bar;&lt;baz/&gt;fnord&quot;&apos;</foo>");
}

#[test]
fn format_escapes_attribute_values() {
    let mut store = ElementStore::new();
    let mut attr = AttributeMap::new();
    attr.insert("moo".to_owned(), "&bar;<baz/>fnord\"'".to_owned());
    let el = store.new_element_with_attr(None, "foo".to_owned(), Some(attr));
    let fmt = Formatter { indent: None, initial_level: 0 };
    let s = fmt.format(&store, el);
    assert_eq!(s, "<foo moo='&amp;bar;&lt;baz/&gt;fnord&quot;&apos;'/>");
}

#[test]
fn format_handles_namespaces() {
    let mut store = ElementStore::new();
    let el = store.new_element(Some("uri:foo".to_owned()), "foo".to_owned());
    store.tag(el, Some("uri:foo".to_owned()), "child".to_owned(), None);
    store.tag(el, Some("uri:bar".to_owned()), "child".to_owned(), None);
    let fmt = Formatter { indent: None, initial_level: 0 };
    let s = fmt.format(&store, el);
    assert_eq!(s, "<foo xmlns='uri:foo'><child/><child xmlns='uri:bar'/></foo>");
}

#[test]
fn format_reasserts_parent_namespace_on_plain_children() {
    let mut store = ElementStore::new();
    let el = store.new_element(Some("uri:foo".to_owned()), "foo".to_owned());
    let child = store.new_element(None, "child".to_owned());
    store.push(el, rprosody::tree::Node::Element(child)).unwrap();
    let fmt = Formatter { indent: None, initial_level: 0 };
    let s = fmt.format(&store, el);
    assert_eq!(s, "<foo xmlns='uri:foo'><child xmlns='uri:foo'/></foo>");
}

#[test]
fn format_namespaced_attribute_gets_synthetic_prefix() {
    let mut store = ElementStore::new();
    let mut attr = AttributeMap::new();
    attr.insert("urn:x\u{1}a".to_owned(), "v".to_owned());
    let el = store.new_element_with_attr(None, "foo".to_owned(), Some(attr));
    let fmt = Formatter { indent: None, initial_level: 0 };
    let s = fmt.format(&store, el);
    assert_eq!(s, "<foo xmlns:prosody-tmp-ns0='urn:x' prosody-tmp-ns0:a='v'/>");
}

#[test]
fn head_as_str_emits_open_tag_only() {
    let mut store = ElementStore::new();
    let mut attr = AttributeMap::new();
    attr.insert("id".to_owned(), "x1".to_owned());
    let el = store.new_element_with_attr(Some("uri:s".to_owned()), "stream".to_owned(), Some(attr));
    store.tag(el, None, "child".to_owned(), None);
    let s = head_as_str(&store, el);
    assert_eq!(s, "<stream xmlns='uri:s' id='x1'>");
}

#[test]
fn usize_to_string_writes_decimal() {
    assert_eq!(usize_to_string(0), "0");
    assert_eq!(usize_to_string(7), "7");
    assert_eq!(usize_to_string(10), "10");
    assert_eq!(usize_to_string(90217), "90217");
}

#[test]
fn format_indented_splits_children_on_lines() {
    let mut store = ElementStore::new();
    let el = store.new_element(None, "foo".to_owned());
    store.tag(el, None, "a".to_owned(), None);
    store.tag(el, None, "b".to_owned(), None);
    let fmt = Formatter { indent: Some("  ".to_owned()), initial_level: 0 };
    let s = fmt.format(&store, el);
    assert_eq!(s, "<foo>\n  <a/>\n  <b/>\n</foo>");
}

#[test]
fn format_indented_skips_whitespace_only_texts() {
    let mut store = ElementStore::new();
    let el = store.new_element(None, "foo".to_owned());
    store.tag(el, None, "a".to_owned(), None);
    store.text(el, "   ".to_owned());
    store.tag(el, None, "b".to_owned(), None);
    let fmt = Formatter { indent: Some("  ".to_owned()), initial_level: 0 };
    let s = fmt.format(&store, el);
    assert_eq!(s, "<foo>\n  <a/>\n  <b/>\n</foo>");
}
