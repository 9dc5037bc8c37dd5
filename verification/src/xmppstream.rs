//! The byte-fed XMPP stream engine: an incremental XML reader drives a
//! state machine that validates the stream header, assembles stanza trees,
//! enforces a per-stanza size limit, and poisons itself on the first
//! protocol violation.
//!
//! The low-level XML reader is rxml's `Parser`; every call into it goes
//! through a trusted wrapper that hands plain values to the verified logic.
use vstd::prelude::*;

use crate::attrstr;
use crate::attrstr::AttributeMap;
use crate::stanza::Stanza;
use crate::strutil;
use crate::tree;
use crate::rxml_shim;
use crate::rxml_shim::{RawStep, XmlEvent};
use crate::validation;
use crate::xml;

verus! {

/// The default stream namespace.
pub const XMLNS_STREAMS: &'static str = "http://etherx.jabber.org/streams";

/// A low-level XML failure: the reader needs more bytes, or the document is
/// not well formed.
#[derive(Debug, Clone, PartialEq, Eq)]
pub enum XmlError {
    WouldBlock,
    Parse(String),
}

/// A stream error. All but the transient would-block signal poison the
/// stream.
#[derive(Debug, Clone, PartialEq, Eq)]
pub enum Error {
    ParserError(XmlError),
    StanzaLimitExceeded,
    InvalidStreamHeader,
    InvalidTopLevelElement,
    TextAtStreamLevel,
}

impl Error {
    /// An equal copy of the error.
    pub fn duplicate(&self) -> (r: Error)
        ensures
            r == self,
    {
        match self {
            Error::ParserError(x) => Error::ParserError(
                match x {
                    XmlError::WouldBlock => XmlError::WouldBlock,
                    XmlError::Parse(m) => XmlError::Parse(m.clone()),
                },
            ),
            Error::StanzaLimitExceeded => Error::StanzaLimitExceeded,
            Error::InvalidStreamHeader => Error::InvalidStreamHeader,
            Error::InvalidTopLevelElement => Error::InvalidTopLevelElement,
            Error::TextAtStreamLevel => Error::TextAtStreamLevel,
        }
    }

    /// True for the transient would-block signal, which does not poison.
    pub open spec fn is_would_block(self) -> bool {
        self == Error::ParserError(XmlError::WouldBlock)
    }
}

/// An event surfaced to the embedder.
pub enum StreamEvent {
    Opened {
        lang: Option<String>,
        from: Option<String>,
        to: Option<String>,
        id: Option<String>,
        version: Option<String>,
    },
    Stanza(Stanza),
    Error(Stanza),
    Closed,
}

/// Configuration of a stream: the stream namespace and local name, the
/// default namespace of stanzas, and the local name of stream errors.
#[derive(Debug, Clone)]
pub struct StreamConfig {
    pub stream_namespace: String,
    pub default_namespace: String,
    pub stream_localname: String,
    pub error_localname: String,
}

impl StreamConfig {
    /// The client-to-server configuration.
    pub fn c2s() -> (r: StreamConfig)
        ensures
            r.stream_namespace@ == XMLNS_STREAMS@,
            r.default_namespace@ == "jabber:client"@,
            r.stream_localname@ == "stream"@,
            r.error_localname@ == "error"@,
    {
        StreamConfig {
            stream_namespace: XMLNS_STREAMS.to_owned(),
            default_namespace: "jabber:client".to_owned(),
            stream_localname: "stream".to_owned(),
            error_localname: "error".to_owned(),
        }
    }

    /// The server-to-server configuration.
    pub fn s2s() -> (r: StreamConfig)
        ensures
            r.stream_namespace@ == XMLNS_STREAMS@,
            r.default_namespace@ == "jabber:server"@,
            r.stream_localname@ == "stream"@,
            r.error_localname@ == "error"@,
    {
        StreamConfig {
            stream_namespace: XMLNS_STREAMS.to_owned(),
            default_namespace: "jabber:server".to_owned(),
            stream_localname: "stream".to_owned(),
            error_localname: "error".to_owned(),
        }
    }
}

/// The attribute key under which a parsed attribute is stored: `xml:`
/// prefixed inside the XML namespace, namespace-qualified storage form
/// otherwise, bare when unnamespaced.
pub open spec fn attr_key_of(ns: Seq<char>, local: Seq<char>) -> Seq<char> {
    if ns.len() == 0 {
        local
    } else if ns == attrstr::XMLNS_XML@ {
        seq!['x', 'm', 'l', ':'] + local
    } else {
        ns + seq!['\u{1}'] + local
    }
}

/// Converts parsed attribute triples to an attribute mapping in order.
#[verifier::loop_isolation(false)]
fn convert_start_attrs(attrs: &Vec<(String, String, String)>) -> (r: AttributeMap)
    requires
        forall|i: int|
            0 <= i < attrs@.len() ==> {
                &&& attrstr::valid_ncname((#[trigger] attrs@[i]).1@)
                &&& validation::valid_cdata(attrs@[i].0@)
            },
    ensures
        r.wf(),
        forall|i: int|
            0 <= i < attrs@.len() && (forall|j: int|
                i < j < attrs@.len() ==> attr_key_of((#[trigger] attrs@[j]).0@, attrs@[j].1@)
                    != attr_key_of(attrs@[i].0@, attrs@[i].1@)) ==> #[trigger] r.spec_get(
                attr_key_of(attrs@[i].0@, attrs@[i].1@),
            ) == Some(attrs@[i].2@),
{
    let mut out = AttributeMap::new();
    let mut i: usize = 0;
    while i < attrs.len()
        invariant
            i <= attrs@.len(),
            out.wf(),
            forall|j: int|
                0 <= j < i && (forall|j2: int|
                    j < j2 < i ==> attr_key_of((#[trigger] attrs@[j2]).0@, attrs@[j2].1@)
                        != attr_key_of(attrs@[j].0@, attrs@[j].1@)) ==> #[trigger] out.spec_get(
                    attr_key_of(attrs@[j].0@, attrs@[j].1@),
                ) == Some(attrs@[j].2@),
        decreases attrs@.len() - i,
    {
        let ns = &attrs[i].0;
        let local = &attrs[i].1;
        let value = attrs[i].2.clone();
        let key: attrstr::AttrName;
        if ns.as_str().is_empty() {
            key = attrstr::AttrName::local_only(local.as_str());
        } else if strutil::str_eq(ns.as_str(), attrstr::XMLNS_XML) {
            let mut k = String::new();
            vstd::string::StringExecFns::append(&mut k, "xml:");
            vstd::string::StringExecFns::append(&mut k, local.as_str());
            proof {
                reveal_strlit("xml:");
                assert("xml:"@ =~= seq!['x', 'm', 'l', ':']);
                lemma_xml_prefixed_valid(local@);
                assert(k@ =~= attr_key_of(attrs@[i as int].0@, attrs@[i as int].1@));
            }
            key = attrstr::AttrName(k);
        } else {
            key = attrstr::AttrName::compose(Some(ns.as_str()), local.as_str());
        }
        proof {
            assert(key.0@ == attr_key_of(attrs@[i as int].0@, attrs@[i as int].1@));
        }
        out.insert(key.as_string(), value);
        i = i + 1;
    }
    out
}

/// An `xml:`-prefixed name is itself a well-formed attribute key in bare
/// form.
proof fn lemma_xml_prefixed_valid(local: Seq<char>)
    requires
        attrstr::valid_ncname(local),
    ensures
        validation::valid_name(seq!['x', 'm', 'l', ':'] + local),
        attrstr::valid_attr_storage(seq!['x', 'm', 'l', ':'] + local),
{
    let s = seq!['x', 'm', 'l', ':'] + local;
    assert(validation::valid_name_start_char('x'));
    assert forall|i: int| 1 <= i < s.len() implies validation::valid_name_char(#[trigger] s[i]) by {
        if i >= 4 {
            assert(s[i] == local[i - 4]);
            if i == 4 {
                validation::lemma_start_is_name_char(s[i]);
            }
        }
    }
    attrstr::lemma_name_no_delim(s);
}

/// What one processing step decides: keep reading, or surface an event.
pub enum ProcResult {
    NeedMore,
    Event(StreamEvent),
}

/// The byte-fed XMPP stream.
///
/// The fields are public so that the contracts can speak of the whole
/// state; an embedder is expected to drive the stream through its methods
/// only, as writing `err` or `buf` directly would bypass the poisoning
/// discipline the contracts describe.
pub struct XMPPStream {
    pub p: rxml::Parser,
    pub buf: Vec<u8>,
    pub consumed: usize,
    pub is_open: bool,
    pub stanza: Option<Stanza>,
    pub stanza_size: usize,
    pub pending_bytes: usize,
    pub stanza_limit: Option<usize>,
    pub non_streamns_depth: usize,
    pub cfg: StreamConfig,
    pub err: Option<Error>,
    pub eof: bool,
}

impl XMPPStream {
    /// The unread part of the buffer is addressable and any stanza under
    /// construction is a well-formed tree.
    pub open spec fn wf(self) -> bool {
        &&& self.consumed <= self.buf@.len()
        &&& match self.stanza {
            Option::Some(st) => st.wf(),
            Option::None => true,
        }
    }

    /// The parsing state the byte-accounting paths leave alone: everything
    /// except the error slot, the byte counters, the buffer and the
    /// end-of-input mark.
    pub open spec fn same_machine(self, other: XMPPStream) -> bool {
        &&& self.is_open == other.is_open
        &&& self.stanza == other.stanza
        &&& self.stanza_size == other.stanza_size
        &&& self.stanza_limit == other.stanza_limit
        &&& self.cfg == other.cfg
        &&& self.non_streamns_depth == other.non_streamns_depth
    }

    /// A fresh, unopened stream.
    pub fn new(cfg: StreamConfig) -> (r: XMPPStream)
        ensures
            r.wf(),
            r.err is None,
            r.pending_bytes == 0,
            r.stanza_limit is None,
            r.is_open == false,
            r.stanza is None,
            r.cfg == cfg,
            r.non_streamns_depth == 0,
            r.stanza_size == 0,
            r.eof == false,
            r.consumed == 0,
            r.buf@.len() == 0,
    {
        XMPPStream {
            p: rxml_shim::parser_new(),
            buf: Vec::new(),
            consumed: 0,
            is_open: false,
            stanza: None,
            stanza_size: 0,
            pending_bytes: 0,
            stanza_limit: None,
            non_streamns_depth: 0,
            cfg,
            err: None,
            eof: false,
        }
    }

    /// The bytes fed but not yet retired by an emitted event.
    pub fn pending_bytes(&self) -> (r: usize)
        ensures
            r == self.pending_bytes,
    {
        self.pending_bytes
    }

    /// The configuration of this stream.
    pub fn cfg(&self) -> (r: &StreamConfig)
        ensures
            r == self.cfg,
    {
        &self.cfg
    }

    /// Hints the reader to release interned temporaries; the observable
    /// stream state is untouched.
    pub fn release_temporaries(&mut self)
        requires
            old(self).wf(),
        ensures
            final(self).wf(),
            old(self).same_machine(*final(self)),
            final(self).err == old(self).err,
            final(self).pending_bytes == old(self).pending_bytes,
            final(self).buf == old(self).buf,
            final(self).consumed == old(self).consumed,
            final(self).eof == old(self).eof,
    {
        rxml_shim::parser_release_temporaries(&mut self.p);
    }

    /// Marks the end of input: the reader sees end-of-file once the buffer
    /// runs out.
    pub fn feed_eof(&mut self)
        requires
            old(self).wf(),
        ensures
            final(self).wf(),
            final(self).eof == true,
            final(self).err == old(self).err,
            final(self).pending_bytes == old(self).pending_bytes,
            final(self).buf == old(self).buf,
            final(self).consumed == old(self).consumed,
            old(self).same_machine(*final(self)),
    {
        self.eof = true;
    }

    /// Accepts bytes from the wire. A poisoned stream returns its stored
    /// error; a feed that pushes the pending bytes over the stanza limit
    /// poisons the stream with `StanzaLimitExceeded`.
    pub fn feed(&mut self, data: &[u8]) -> (r: Result<(), Error>)
        requires
            old(self).wf(),
        ensures
            final(self).wf(),
            old(self).same_machine(*final(self)),
            final(self).eof == old(self).eof,
            match r {
                Result::Ok(()) => {
                    &&& old(self).err is None
                    &&& final(self).err is None
                    &&& final(self).pending_bytes == old(self).pending_bytes + data@.len()
                    &&& (old(self).stanza_limit matches Some(l) ==> final(self).pending_bytes
                        <= l)
                    &&& final(self).buf@ == old(self).buf@ + data@
                    &&& final(self).consumed == old(self).consumed
                },
                Result::Err(e) => {
                    if old(self).err is Some {
                        &&& e == old(self).err.unwrap()
                        &&& *final(self) == *old(self)
                    } else {
                        &&& e == Error::StanzaLimitExceeded
                        &&& (old(self).pending_bytes + data@.len() > usize::MAX || (old(self).stanza_limit matches Some(l) && old(self).pending_bytes + data@.len()
                            > l))
                        &&& final(self).err == Some(Error::StanzaLimitExceeded)
                        &&& final(self).pending_bytes == 0
                        &&& final(self).buf@.len() == 0
                        &&& final(self).consumed == 0
                    }
                },
            },
    {
        match &self.err {
            Some(e) => {
                return Err(e.duplicate());
            },
            None => {},
        }
        if data.len() > usize::MAX - self.pending_bytes {
            self.poison(Error::StanzaLimitExceeded);
            return Err(Error::StanzaLimitExceeded);
        }
        let new_pending = self.pending_bytes + data.len();
        match self.stanza_limit {
            Some(v) => {
                if v < new_pending {
                    self.poison(Error::StanzaLimitExceeded);
                    return Err(Error::StanzaLimitExceeded);
                }
            },
            None => {},
        }
        self.pending_bytes = new_pending;
        self.buf.extend_from_slice(data);
        Ok(())
    }

    /// Records the terminal error, discards buffered bytes, and zeroes the
    /// pending-byte account.
    fn poison(&mut self, e: Error)
        requires
            old(self).wf(),
        ensures
            final(self).wf(),
            final(self).err == Some(e),
            final(self).pending_bytes == 0,
            final(self).buf@.len() == 0,
            final(self).consumed == 0,
            old(self).same_machine(*final(self)),
            final(self).eof == old(self).eof,
    {
        self.err = Some(e);
        self.pending_bytes = 0;
        self.buf.clear();
        self.consumed = 0;
    }
}

} // verus!

verus! {

/// The accumulated stream-header fields: id, lang, from, to, version.
pub struct HdrAcc {
    pub id: Option<Seq<char>>,
    pub lang: Option<Seq<char>>,
    pub from: Option<Seq<char>>,
    pub to: Option<Seq<char>>,
    pub version: Option<Seq<char>>,
}

/// Folds the header attributes in order; any attribute outside the
/// permitted set makes the header invalid.
pub open spec fn hdr_fold(attrs: Seq<(String, String, String)>, acc: HdrAcc) -> Option<HdrAcc>
    decreases attrs.len(),
{
    if attrs.len() == 0 {
        Some(acc)
    } else {
        let a = attrs[0];
        if a.0@ =~= Seq::<char>::empty() && a.1@ == "id"@ {
            hdr_fold(attrs.drop_first(), HdrAcc { id: Some(a.2@), ..acc })
        } else if a.0@ == attrstr::XMLNS_XML@ && a.1@ == "lang"@ {
            hdr_fold(attrs.drop_first(), HdrAcc { lang: Some(a.2@), ..acc })
        } else if a.0@ =~= Seq::<char>::empty() && a.1@ == "from"@ {
            hdr_fold(attrs.drop_first(), HdrAcc { from: Some(a.2@), ..acc })
        } else if a.0@ =~= Seq::<char>::empty() && a.1@ == "to"@ {
            hdr_fold(attrs.drop_first(), HdrAcc { to: Some(a.2@), ..acc })
        } else if a.0@ =~= Seq::<char>::empty() && a.1@ == "version"@ {
            hdr_fold(attrs.drop_first(), HdrAcc { version: Some(a.2@), ..acc })
        } else {
            None
        }
    }
}

/// The fold is a left fold.
proof fn lemma_hdr_fold_push(attrs: Seq<(String, String, String)>, a: (String, String, String), acc: HdrAcc)
    ensures
        hdr_fold(attrs.push(a), acc) == match hdr_fold(attrs, acc) {
            Option::Some(m) => hdr_fold(seq![a], m),
            Option::None => None::<HdrAcc>,
        },
    decreases attrs.len(),
{
    reveal_with_fuel(hdr_fold, 3);
    if attrs.len() == 0 {
        assert(attrs.push(a)[0] == a);
        assert(attrs.push(a).drop_first() =~= Seq::<(String, String, String)>::empty());
        assert(seq![a][0] == a);
        assert(seq![a].drop_first() =~= Seq::<(String, String, String)>::empty());
    } else {
        assert(attrs.push(a)[0] == attrs[0]);
        assert(attrs.push(a).drop_first() =~= attrs.drop_first().push(a));
        let h = attrs[0];
        if h.0@ =~= Seq::<char>::empty() && h.1@ == "id"@ {
            lemma_hdr_fold_push(attrs.drop_first(), a, HdrAcc { id: Some(h.2@), ..acc });
        } else if h.0@ == attrstr::XMLNS_XML@ && h.1@ == "lang"@ {
            lemma_hdr_fold_push(attrs.drop_first(), a, HdrAcc { lang: Some(h.2@), ..acc });
        } else if h.0@ =~= Seq::<char>::empty() && h.1@ == "from"@ {
            lemma_hdr_fold_push(attrs.drop_first(), a, HdrAcc { from: Some(h.2@), ..acc });
        } else if h.0@ =~= Seq::<char>::empty() && h.1@ == "to"@ {
            lemma_hdr_fold_push(attrs.drop_first(), a, HdrAcc { to: Some(h.2@), ..acc });
        } else if h.0@ =~= Seq::<char>::empty() && h.1@ == "version"@ {
            lemma_hdr_fold_push(attrs.drop_first(), a, HdrAcc { version: Some(h.2@), ..acc });
        }
    }
}

/// Once the fold has failed on a prefix, the whole fold fails.
proof fn lemma_hdr_fold_none_extends(attrs: Seq<(String, String, String)>, j: int, acc: HdrAcc)
    requires
        0 <= j <= attrs.len(),
        hdr_fold(attrs.take(j), acc) is None,
    ensures
        hdr_fold(attrs, acc) is None,
    decreases attrs.len() - j,
{
    if j < attrs.len() {
        assert(attrs.take(j + 1) =~= attrs.take(j).push(attrs[j]));
        lemma_hdr_fold_push(attrs.take(j), attrs[j], acc);
        lemma_hdr_fold_none_extends(attrs, j + 1, acc);
    } else {
        assert(attrs.take(j) =~= attrs);
    }
}

/// The view of an optional string.
pub open spec fn ov(x: Option<String>) -> Option<Seq<char>> {
    match x {
        Option::Some(v) => Some(v@),
        Option::None => None,
    }
}

/// True when the text holds a character that is not ASCII whitespace.
pub open spec fn has_nonspace(s: Seq<char>) -> bool {
    exists|i: int| 0 <= i < s.len() && !is_ascii_space(#[trigger] s[i])
}

/// The ASCII whitespace characters.
pub open spec fn is_ascii_space(c: char) -> bool {
    c == ' ' || c == '\t' || c == '\n' || c == '\r' || c == '\u{c}'
}

/// Scans for a character that is not ASCII whitespace.
#[verifier::loop_isolation(false)]
fn scan_nonspace(s: &str) -> (r: bool)
    ensures
        r == has_nonspace(s@),
{
    let cs = strutil::str_chars(s);
    let mut i: usize = 0;
    while i < cs.len()
        invariant
            i <= s@.len(),
            cs@ == s@,
            forall|j: int| 0 <= j < i ==> is_ascii_space(#[trigger] s@[j]),
        decreases s@.len() - i,
    {
        let c = cs[i];
        if !(c == ' ' || c == '\t' || c == '\n' || c == '\r' || c == '\u{c}') {
            return true;
        }
        i = i + 1;
    }
    false
}

/// A parser-produced event: names are XML names without colons, namespace
/// URIs, attribute values and text are character data.
pub open spec fn event_valid(ev: XmlEvent) -> bool {
    match ev {
        XmlEvent::Start { len, ns, local, attrs } => {
            &&& attrstr::valid_ncname(local@)
            &&& validation::valid_cdata(ns@)
            &&& forall|i: int|
                0 <= i < attrs@.len() ==> {
                    &&& attrstr::valid_ncname((#[trigger] attrs@[i]).1@)
                    &&& validation::valid_cdata(attrs@[i].0@)
                    &&& validation::valid_cdata(attrs@[i].2@)
                }
        },
        XmlEvent::Text { len, text } => validation::valid_cdata(text@),
        _ => true,
    }
}

/// The namespace a stanza element stores, given the raw namespace, the
/// configured default, and the current depth counter: the default
/// namespace is stripped at stream-child depth, everything else is kept.
pub open spec fn stored_ns(ns: Seq<char>, default_ns: Seq<char>, depth: nat) -> Option<Seq<char>> {
    if ns.len() == 0 {
        None
    } else if ns == default_ns && depth == 0 {
        None
    } else {
        Some(ns)
    }
}

impl XMPPStream {
    /// Processes one XML event: drives the state machine of the stream and
    /// decides whether an event is surfaced.
    #[verifier::loop_isolation(false)]
    #[verifier::rlimit(80)]
    pub fn proc_event(&mut self, ev: XmlEvent) -> (r: Result<ProcResult, Error>)
        requires
            old(self).wf(),
            event_valid(ev),
        ensures
            final(self).wf(),
            final(self).cfg == old(self).cfg,
            final(self).err == old(self).err,
            final(self).stanza_limit == old(self).stanza_limit,
            r matches Err(e) ==> !e.is_would_block(),
            final(self).buf == old(self).buf,
            final(self).consumed == old(self).consumed,
            final(self).eof == old(self).eof,
            // the XML declaration is consumed silently
            ev matches XmlEvent::Decl { len } ==> {
                &&& r matches Ok(ProcResult::NeedMore)
                &&& final(self).pending_bytes == if old(self).pending_bytes >= len {
                    old(self).pending_bytes - len
                } else {
                    0int
                }
                &&& final(self).is_open == old(self).is_open
                &&& final(self).stanza == old(self).stanza
                &&& final(self).stanza_size == old(self).stanza_size
                &&& final(self).non_streamns_depth == old(self).non_streamns_depth
            },
            // the first element must be the configured stream header
            (ev matches XmlEvent::Start { len, ns, local, attrs } && !old(self).is_open) ==> {
                let hdr = hdr_fold(
                    ev->Start_attrs@,
                    HdrAcc { id: None, lang: None, from: None, to: None, version: None },
                );
                if ev->Start_ns@ != old(self).cfg.stream_namespace@ || ev->Start_local@ != old(self).cfg.stream_localname@ || hdr is None {
                    &&& r == Result::<ProcResult, Error>::Err(Error::InvalidStreamHeader)
                    &&& final(self).is_open == false
                    &&& final(self).pending_bytes == old(self).pending_bytes
                    &&& final(self).stanza == old(self).stanza
                    &&& final(self).stanza_size == old(self).stanza_size
                    &&& final(self).non_streamns_depth == old(self).non_streamns_depth
                } else {
                    &&& final(self).is_open == true
                    &&& final(self).stanza == old(self).stanza
                    &&& final(self).stanza_size == old(self).stanza_size
                    &&& final(self).non_streamns_depth == old(self).non_streamns_depth
                    &&& final(self).pending_bytes == if old(self).pending_bytes >= ev->Start_len {
                        old(self).pending_bytes - ev->Start_len
                    } else {
                        0int
                    }
                    &&& r matches Ok(ProcResult::Event(StreamEvent::Opened { lang, from, to, id, version }))
                        && ov(id) == hdr.unwrap().id && ov(lang) == hdr.unwrap().lang && ov(from)
                        == hdr.unwrap().from && ov(to) == hdr.unwrap().to && ov(version)
                        == hdr.unwrap().version
                }
            },
            // an element inside the open stream starts or extends a stanza
            (ev matches XmlEvent::Start { len, ns, local, attrs } && old(self).is_open) ==> {
                &&& final(self).is_open
                &&& final(self).pending_bytes == old(self).pending_bytes
                &&& final(self).non_streamns_depth == if stored_ns(
                    ev->Start_ns@,
                    old(self).cfg.default_namespace@,
                    old(self).non_streamns_depth as nat,
                ) is Some && old(self).non_streamns_depth < usize::MAX {
                    old(self).non_streamns_depth + 1
                } else {
                    old(self).non_streamns_depth as int
                }
                &&& (r is Err ==> final(self).stanza == old(self).stanza && final(self).stanza_size
                    == old(self).stanza_size)
                &&& (r is Err ==> {
                    ||| (r == Result::<ProcResult, Error>::Err(Error::StanzaLimitExceeded) && old(self).stanza is Some && old(self).stanza_size + ev->Start_len > usize::MAX)
                    ||| ((r matches Err(Error::ParserError(XmlError::Parse(_)))) && old(self).non_streamns_depth == usize::MAX && stored_ns(
                        ev->Start_ns@,
                        old(self).cfg.default_namespace@,
                        old(self).non_streamns_depth as nat,
                    ) is Some)
                })
                &&& (r is Ok ==> (r matches Ok(ProcResult::NeedMore)) && final(self).stanza is Some)
                &&& (old(self).stanza is None && r is Ok ==> {
                    let st = final(self).stanza.unwrap();
                    &&& final(self).stanza_size == ev->Start_len
                    &&& st.root.0 == 0
                    &&& st.store@.len() == 1
                    &&& st.cursor.0@ =~= Seq::<usize>::empty()
                    &&& st.store@[0].children.all@ =~= Seq::<crate::tree::Node>::empty()
                    &&& st.store@[0].protected == false
                    &&& st.store@[st.root.0 as int].localname@ == ev->Start_local@
                    &&& xml::ns_view(st.store@[st.root.0 as int].nsuri) == stored_ns(
                        ev->Start_ns@,
                        old(self).cfg.default_namespace@,
                        old(self).non_streamns_depth as nat,
                    )
                    &&& forall|i: int|
                        0 <= i < ev->Start_attrs@.len() && (forall|j: int|
                            i < j < ev->Start_attrs@.len() ==> attr_key_of(
                                (#[trigger] ev->Start_attrs@[j]).0@,
                                ev->Start_attrs@[j].1@,
                            ) != attr_key_of(ev->Start_attrs@[i].0@, ev->Start_attrs@[i].1@))
                            ==> #[trigger] st.store@[st.root.0 as int].attr.spec_get(
                            attr_key_of(ev->Start_attrs@[i].0@, ev->Start_attrs@[i].1@),
                        ) == Some(ev->Start_attrs@[i].2@)
                })
                &&& (old(self).stanza is Some && r is Ok ==> {
                    &&& final(self).stanza_size == old(self).stanza_size + ev->Start_len
                    &&& final(self).stanza.unwrap().root == old(self).stanza.unwrap().root
                    &&& (old(self).stanza.unwrap().spec_deref() is None ==> final(self).stanza
                        == old(self).stanza)
                    &&& (old(self).stanza.unwrap().spec_deref() matches Some(par) ==> {
                        &&& final(self).stanza.unwrap().store@.len() == old(
                            self,
                        ).stanza.unwrap().store@.len() + 1
                        &&& final(self).stanza.unwrap().store@[old(self).stanza.unwrap().store@.len() as int].localname@
                            == ev->Start_local@
                        &&& xml::ns_view(
                            final(self).stanza.unwrap().store@[old(self).stanza.unwrap().store@.len() as int].nsuri,
                        ) == match stored_ns(
                            ev->Start_ns@,
                            old(self).cfg.default_namespace@,
                            old(self).non_streamns_depth as nat,
                        ) {
                            Option::Some(u) => Some(u),
                            Option::None => xml::ns_view(
                                old(self).stanza.unwrap().store@[par].nsuri,
                            ),
                        }
                        &&& final(self).stanza.unwrap().store@[old(self).stanza.unwrap().store@.len() as int].children.all@
                            =~= Seq::<crate::tree::Node>::empty()
                        &&& final(self).stanza.unwrap().store@[par].children.all@ == old(self).stanza.unwrap().store@[par].children.all@.push(
                            crate::tree::Node::Element(
                                crate::tree::ElementPtr(
                                    old(self).stanza.unwrap().store@.len() as usize,
                                ),
                            ),
                        )
                        &&& final(self).stanza.unwrap().cursor.0@ == old(self).stanza.unwrap().cursor.0@.push(
                            old(self).stanza.unwrap().store@[par].children.all@.len() as usize,
                        )
                        &&& forall|i: int|
                            0 <= i < old(self).stanza.unwrap().store@.len() && i != par
                                ==> #[trigger] final(self).stanza.unwrap().store@[i] == old(self).stanza.unwrap().store@[i]
                        &&& forall|i: int|
                            0 <= i < ev->Start_attrs@.len() && (forall|j: int|
                                i < j < ev->Start_attrs@.len() ==> attr_key_of(
                                    (#[trigger] ev->Start_attrs@[j]).0@,
                                    ev->Start_attrs@[j].1@,
                                ) != attr_key_of(ev->Start_attrs@[i].0@, ev->Start_attrs@[i].1@))
                                ==> #[trigger] final(self).stanza.unwrap().store@[old(self).stanza.unwrap().store@.len() as int].attr.spec_get(
                                attr_key_of(ev->Start_attrs@[i].0@, ev->Start_attrs@[i].1@),
                            ) == Some(ev->Start_attrs@[i].2@)
                    })
                })
            },
            // text is whitespace keepalive at stream level, content inside
            // a stanza
            ev matches XmlEvent::Text { len, text } ==> {
                if old(self).stanza is None {
                    &&& final(self).stanza == old(self).stanza
                    &&& final(self).stanza_size == old(self).stanza_size
                    &&& final(self).is_open == old(self).is_open
                    &&& final(self).non_streamns_depth == old(self).non_streamns_depth
                    &&& final(self).pending_bytes == if old(self).pending_bytes >= ev->Text_len {
                        old(self).pending_bytes - ev->Text_len
                    } else {
                        0int
                    }
                    &&& (r is Err <==> has_nonspace(ev->Text_text@))
                    &&& (r == Result::<ProcResult, Error>::Err(Error::TextAtStreamLevel)
                        <==> has_nonspace(ev->Text_text@))
                    &&& (r is Ok ==> r matches Ok(ProcResult::NeedMore))
                } else {
                    &&& (r is Ok ==> (r matches Ok(ProcResult::NeedMore)) && final(self).stanza
                        is Some && final(self).stanza_size == old(self).stanza_size
                        + ev->Text_len)
                    &&& (r is Ok ==> (old(self).stanza.unwrap().spec_deref() matches Some(par)
                        ==> final(self).stanza.unwrap().store@[par].children.all@ == old(
                        self,
                    ).stanza.unwrap().store@[par].children.all@.push(
                        crate::tree::Node::Text(ev->Text_text),
                    )))
                    &&& (r is Err ==> r == Result::<ProcResult, Error>::Err(
                        Error::StanzaLimitExceeded,
                    ) && old(self).stanza_size + ev->Text_len > usize::MAX && final(self).stanza
                        == old(self).stanza && final(self).stanza_size == old(self).stanza_size)
                    &&& final(self).pending_bytes == old(self).pending_bytes
                    &&& final(self).is_open == old(self).is_open
                    &&& final(self).non_streamns_depth == old(self).non_streamns_depth
                }
            },
            // an end tag closes the stream, emits a finished stanza, or
            // pops the cursor
            ev matches XmlEvent::End { len } ==> {
                &&& final(self).is_open == old(self).is_open
                &&& if old(self).stanza is None {
                    &&& r matches Ok(ProcResult::Event(StreamEvent::Closed))
                    &&& final(self).stanza == old(self).stanza
                    &&& final(self).stanza_size == old(self).stanza_size
                    &&& final(self).non_streamns_depth == old(self).non_streamns_depth
                    &&& final(self).pending_bytes == if old(self).pending_bytes >= ev->End_len {
                        old(self).pending_bytes - ev->End_len
                    } else {
                        0int
                    }
                } else {
                    &&& (r is Err ==> r == Result::<ProcResult, Error>::Err(
                        Error::StanzaLimitExceeded,
                    ) && old(self).stanza_size + ev->End_len > usize::MAX && final(self).stanza
                        == old(self).stanza && final(self).stanza_size == old(self).stanza_size
                        && final(self).non_streamns_depth == old(self).non_streamns_depth
                        && final(self).pending_bytes == old(self).pending_bytes)
                    &&& (r is Ok ==> final(self).non_streamns_depth == if old(self).non_streamns_depth >= 1 {
                        old(self).non_streamns_depth - 1
                    } else {
                        0int
                    })
                    &&& (r is Ok ==> {
                        let grown = (old(self).stanza_size + ev->End_len) as usize;
                        if old(self).stanza.unwrap().cursor.0@.len() == 0 {
                            let st = old(self).stanza.unwrap();
                            let is_err = st.store@[st.root.0 as int].localname@ == old(self).cfg.error_localname@ && (xml::ns_view(st.store@[st.root.0 as int].nsuri)
                                matches Some(u) && u == old(self).cfg.stream_namespace@);
                            &&& final(self).stanza is None
                            &&& final(self).pending_bytes == if old(self).pending_bytes >= grown {
                                old(self).pending_bytes - grown
                            } else {
                                0int
                            }
                            &&& (is_err ==> (r matches Ok(
                                ProcResult::Event(StreamEvent::Error(st2)),
                            ) && st2 == st))
                            &&& (!is_err ==> (r matches Ok(
                                ProcResult::Event(StreamEvent::Stanza(st2)),
                            ) && st2 == st))
                        } else {
                            &&& r matches Ok(ProcResult::NeedMore)
                            &&& final(self).stanza is Some
                            &&& final(self).stanza_size == grown
                            &&& final(self).pending_bytes == old(self).pending_bytes
                            &&& final(self).stanza.unwrap().store == old(self).stanza.unwrap().store
                            &&& final(self).stanza.unwrap().root == old(self).stanza.unwrap().root
                            &&& final(self).stanza.unwrap().cursor.0@ == old(self).stanza.unwrap().cursor.0@.drop_last()
                        }
                    })
                }
            },
    {
        match ev {
            XmlEvent::Decl { len } => {
                self.pending_bytes = sat_sub(self.pending_bytes, len);
                Ok(ProcResult::NeedMore)
            },
            XmlEvent::Start { len, ns, local, attrs } => {
                if !self.is_open {
                    // stream header
                    if !strutil::str_eq(ns.as_str(), self.cfg.stream_namespace.as_str()) {
                        return Err(Error::InvalidStreamHeader);
                    }
                    if !strutil::str_eq(local.as_str(), self.cfg.stream_localname.as_str()) {
                        return Err(Error::InvalidStreamHeader);
                    }
                    let mut id: Option<String> = None;
                    let mut lang: Option<String> = None;
                    let mut from: Option<String> = None;
                    let mut to: Option<String> = None;
                    let mut version: Option<String> = None;
                    let ghost init = HdrAcc {
                        id: None,
                        lang: None,
                        from: None,
                        to: None,
                        version: None,
                    };
                    let mut i: usize = 0;
                    proof {
                        assert(attrs@.take(0) =~= Seq::<(String, String, String)>::empty());
                    }
                    while i < attrs.len()
                        invariant
                            i <= attrs@.len(),
                            hdr_fold(attrs@.take(i as int), init) == Some(
                                HdrAcc {
                                    id: ov(id),
                                    lang: ov(lang),
                                    from: ov(from),
                                    to: ov(to),
                                    version: ov(version),
                                },
                            ),
                        decreases attrs@.len() - i,
                    {
                        proof {
                            assert(attrs@.take(i + 1) =~= attrs@.take(i as int).push(
                                attrs@[i as int],
                            ));
                            lemma_hdr_fold_push(
                                attrs@.take(i as int),
                                attrs@[i as int],
                                init,
                            );
                            reveal_with_fuel(hdr_fold, 3);
                        }
                        let ans = &attrs[i].0;
                        let alocal = &attrs[i].1;
                        if ans.as_str().is_empty() && strutil::str_eq(alocal.as_str(), "id") {
                            id = Some(attrs[i].2.clone());
                        } else if strutil::str_eq(ans.as_str(), attrstr::XMLNS_XML)
                            && strutil::str_eq(alocal.as_str(), "lang") {
                            lang = Some(attrs[i].2.clone());
                        } else if ans.as_str().is_empty() && strutil::str_eq(
                            alocal.as_str(),
                            "from",
                        ) {
                            from = Some(attrs[i].2.clone());
                        } else if ans.as_str().is_empty() && strutil::str_eq(alocal.as_str(), "to") {
                            to = Some(attrs[i].2.clone());
                        } else if ans.as_str().is_empty() && strutil::str_eq(
                            alocal.as_str(),
                            "version",
                        ) {
                            version = Some(attrs[i].2.clone());
                        } else {
                            proof {
                                assert(hdr_fold(attrs@.take(i + 1), init) is None);
                                lemma_hdr_fold_none_extends(attrs@, i + 1, init);
                            }
                            return Err(Error::InvalidStreamHeader);
                        }
                        i = i + 1;
                    }
                    proof {
                        assert(attrs@.take(attrs@.len() as int) =~= attrs@);
                    }
                    self.is_open = true;
                    self.pending_bytes = sat_sub(self.pending_bytes, len);
                    rxml_shim::parser_release_temporaries(&mut self.p);
                    return Ok(
                        ProcResult::Event(StreamEvent::Opened { lang, from, id, to, version }),
                    );
                }
                // an element of a stanza
                let nsopt: Option<String>;
                if ns.as_str().is_empty() {
                    nsopt = None;
                } else if strutil::str_eq(ns.as_str(), self.cfg.default_namespace.as_str())
                    && self.non_streamns_depth == 0 {
                    nsopt = None;
                } else {
                    if self.non_streamns_depth == usize::MAX {
                        return Err(
                            Error::ParserError(XmlError::Parse("nested too deep".to_owned())),
                        );
                    }
                    self.non_streamns_depth = self.non_streamns_depth + 1;
                    nsopt = Some(ns);
                }
                let converted = convert_start_attrs(&attrs);
                match &self.stanza {
                    Some(_) => {
                        if len > usize::MAX - self.stanza_size {
                            return Err(Error::StanzaLimitExceeded);
                        }
                        self.stanza_size = self.stanza_size + len;
                        let ghost gconv = converted;
                        let mut st = self.stanza.take().unwrap();
                        let ghost st0 = st;
                        let tagged = st.tag(nsopt, local, Some(converted));
                        proof {
                            if tagged is Some {
                                let fresh = st0.store@.len() as int;
                                assert(st.store@[fresh].attr@ == gconv@);
                                assert forall|i: int|
                                    0 <= i < attrs@.len() && (forall|j: int|
                                        i < j < attrs@.len() ==> attr_key_of(
                                            (#[trigger] attrs@[j]).0@,
                                            attrs@[j].1@,
                                        ) != attr_key_of(attrs@[i].0@, attrs@[i].1@))
                                    implies #[trigger] st.store@[fresh].attr.spec_get(
                                    attr_key_of(attrs@[i].0@, attrs@[i].1@),
                                ) == Some(attrs@[i].2@) by {
                                    assert(gconv.spec_get(attr_key_of(attrs@[i].0@, attrs@[i].1@))
                                        == Some(attrs@[i].2@));
                                }
                            }
                        }
                        self.stanza = Some(st);
                        Ok(ProcResult::NeedMore)
                    },
                    None => {
                        let ghost gconv = converted;
                        let st = Stanza::new(nsopt, local, Some(converted));
                        proof {
                            assert(st.store@[st.root.0 as int].attr@ == gconv@);
                            assert forall|i: int|
                                0 <= i < attrs@.len() && (forall|j: int|
                                    i < j < attrs@.len() ==> attr_key_of(
                                        (#[trigger] attrs@[j]).0@,
                                        attrs@[j].1@,
                                    ) != attr_key_of(attrs@[i].0@, attrs@[i].1@))
                                implies #[trigger] st.store@[st.root.0 as int].attr.spec_get(
                                attr_key_of(attrs@[i].0@, attrs@[i].1@),
                            ) == Some(attrs@[i].2@) by {
                                assert(gconv.spec_get(attr_key_of(attrs@[i].0@, attrs@[i].1@))
                                    == Some(attrs@[i].2@));
                            }
                        }
                        self.stanza = Some(st);
                        self.stanza_size = len;
                        Ok(ProcResult::NeedMore)
                    },
                }
            },
            XmlEvent::Text { len, text } => {
                match &self.stanza {
                    None => {
                        self.pending_bytes = sat_sub(self.pending_bytes, len);
                        if scan_nonspace(text.as_str()) {
                            Err(Error::TextAtStreamLevel)
                        } else {
                            rxml_shim::parser_release_temporaries(&mut self.p);
                            Ok(ProcResult::NeedMore)
                        }
                    },
                    Some(_) => {
                        if len > usize::MAX - self.stanza_size {
                            return Err(Error::StanzaLimitExceeded);
                        }
                        self.stanza_size = self.stanza_size + len;
                        let mut st = self.stanza.take().unwrap();
                        let _ = st.text(text);
                        self.stanza = Some(st);
                        Ok(ProcResult::NeedMore)
                    },
                }
            },
            XmlEvent::End { len } => {
                match &self.stanza {
                    None => {
                        self.pending_bytes = sat_sub(self.pending_bytes, len);
                        Ok(ProcResult::Event(StreamEvent::Closed))
                    },
                    Some(_) => {
                        if len > usize::MAX - self.stanza_size {
                            return Err(Error::StanzaLimitExceeded);
                        }
                        self.stanza_size = self.stanza_size + len;
                        self.non_streamns_depth = sat_sub(self.non_streamns_depth, 1);
                        let at_top = match &self.stanza {
                            Some(st) => st.is_at_top(),
                            None => false,
                        };
                        if at_top {
                            let st = self.stanza.take().unwrap();
                            self.pending_bytes = sat_sub(self.pending_bytes, self.stanza_size);
                            let is_err = strutil::str_eq(
                                st.root().localname.as_str(),
                                self.cfg.error_localname.as_str(),
                            ) && match &st.root().nsuri {
                                Some(u) => strutil::str_eq(
                                    u.as_str(),
                                    self.cfg.stream_namespace.as_str(),
                                ),
                                None => false,
                            };
                            rxml_shim::parser_release_temporaries(&mut self.p);
                            if is_err {
                                Ok(ProcResult::Event(StreamEvent::Error(st)))
                            } else {
                                Ok(ProcResult::Event(StreamEvent::Stanza(st)))
                            }
                        } else {
                            let mut st = self.stanza.take().unwrap();
                            st.up();
                            self.stanza = Some(st);
                            Ok(ProcResult::NeedMore)
                        }
                    },
                }
            },
        }
    }

    /// Reads the next stream event: an event, nothing when the input is
    /// exhausted, the transient would-block signal, or an error, which
    /// poisons the stream.
    pub fn read(&mut self) -> (r: Result<Option<StreamEvent>, Error>)
        requires
            old(self).wf(),
        ensures
            final(self).wf(),
            final(self).eof == old(self).eof,
            final(self).cfg == old(self).cfg,
            final(self).stanza_limit == old(self).stanza_limit,
            old(self).err matches Some(e) ==> r == Result::<Option<StreamEvent>, Error>::Err(e)
                && *final(self) == *old(self),
            old(self).err is None ==> match r {
                Result::Ok(_) => final(self).err is None,
                Result::Err(e) => if e.is_would_block() {
                    &&& final(self).err is None
                    &&& (final(self).stanza_limit matches Some(l) ==> final(self).pending_bytes
                        < l)
                } else {
                    &&& final(self).err == Some(e)
                    &&& final(self).pending_bytes == 0
                    &&& final(self).buf@.len() == 0
                    &&& final(self).consumed == 0
                },
            },
    {
        match &self.err {
            Some(e) => {
                return Err(e.duplicate());
            },
            None => {},
        }
        let mut stall: usize = usize::MAX;
        loop
            invariant
                self.wf(),
                self.err is None,
                old(self).err is None,
                self.eof == old(self).eof,
                self.cfg == old(self).cfg,
                self.stanza_limit == old(self).stanza_limit,
            decreases self.buf@.len() - self.consumed, stall,
        {
            let blen = self.buf.len();
            let (step, n) = rxml_shim::parser_parse(&mut self.p, &self.buf, self.consumed, self.eof);
            self.consumed = self.consumed + n;
            if n > 0 {
                stall = usize::MAX;
            } else {
                if stall == 0 {
                    let e = Error::ParserError(XmlError::Parse("reader made no progress".to_owned()));
                    self.poison(e.duplicate());
                    return Err(e);
                }
                stall = stall - 1;
            }
            match step {
                RawStep::NeedMore => {
                    if n == 0 {
                        match self.stanza_limit {
                            Some(limit) => {
                                if self.pending_bytes >= limit {
                                    self.poison(Error::StanzaLimitExceeded);
                                    return Err(Error::StanzaLimitExceeded);
                                }
                            },
                            None => {},
                        }
                        return Err(Error::ParserError(XmlError::WouldBlock));
                    }
                },
                RawStep::Eof => {
                    return Ok(None);
                },
                RawStep::Failed(msg) => {
                    let e = Error::ParserError(XmlError::Parse(msg));
                    self.poison(e.duplicate());
                    return Err(e);
                },
                RawStep::Event(raw) => {
                    let ev = rxml_shim::convert_event(raw);
                    match self.proc_event(ev) {
                        Ok(ProcResult::NeedMore) => {},
                        Ok(ProcResult::Event(out)) => {
                            return Ok(Some(out));
                        },
                        Err(e) => {
                            self.poison(e.duplicate());
                            return Err(e);
                        },
                    }
                },
            }
        }
    }
}

/// Saturating subtraction on byte counters.
pub fn sat_sub(a: usize, b: usize) -> (r: usize)
    ensures
        r == if a >= b {
            a - b
        } else {
            0int
        },
{
    if a >= b {
        a - b
    } else {
        0
    }
}

} // verus!

