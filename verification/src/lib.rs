//! A verified core for a stanza-oriented XMPP streaming engine: an element
//! tree model with protection and cycle checks, XMPP reply/error helpers, a
//! small path-query language, an XML serializer, and a byte-fed incremental
//! stream engine.
pub mod strutil;
pub mod validation;
pub mod attrstr;
pub mod tree;
pub mod path;
pub mod stanza;
pub mod attr;
pub mod xmpp;
pub mod xml;
pub mod fake_xpath;
pub mod rxml_shim;
pub mod xmppstream;
