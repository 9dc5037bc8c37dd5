//! XMPP helpers: building replies and error replies, selecting child
//! elements by name and namespace, and extracting stanza error information.
use vstd::prelude::*;

use crate::attrstr::AttributeMap;
use crate::strutil;
use crate::tree;
use crate::tree::{child_handles, Element, ElementPtr, ElementStore, Node};
use crate::validation;

verus! {

/// The namespace URI of stanza error conditions.
pub const XMLNS_XMPP_STANZAS: &'static str = "urn:ietf:params:xml:ns:xmpp-stanzas";

/// The attribute keys and fixed values the reply builders use are
/// well-formed XML names and character data.
pub proof fn lemma_reply_literals()
    ensures
        validation::valid_name("id"@),
        validation::valid_name("to"@),
        validation::valid_name("from"@),
        validation::valid_name("type"@),
        validation::valid_name("error"@),
        validation::valid_name("by"@),
        validation::valid_name("text"@),
        validation::valid_name("undefined-condition"@),
        validation::valid_cdata(XMLNS_XMPP_STANZAS@),
        crate::attrstr::valid_attr_storage("id"@),
        crate::attrstr::valid_attr_storage("to"@),
        crate::attrstr::valid_attr_storage("from"@),
        crate::attrstr::valid_attr_storage("type"@),
        crate::attrstr::valid_attr_storage("by"@),
        "id"@ != "to"@ && "id"@ != "from"@ && "id"@ != "type"@ && "id"@ != "by"@,
        "to"@ != "from"@ && "to"@ != "type"@ && "to"@ != "by"@,
        "from"@ != "type"@ && "from"@ != "by"@,
        "type"@ != "by"@,
{
    reveal_strlit("id");
    reveal_strlit("to");
    reveal_strlit("from");
    reveal_strlit("type");
    reveal_strlit("error");
    reveal_strlit("by");
    reveal_strlit("text");
    reveal_strlit("undefined-condition");
    reveal_strlit("urn:ietf:params:xml:ns:xmpp-stanzas");
    assert(validation::valid_name("id"@)) by {
        assert forall|i: int| 1 <= i < "id"@.len() implies validation::valid_name_char(
            #[trigger] "id"@[i],
        ) by {}
    }
    assert(validation::valid_name("to"@)) by {
        assert forall|i: int| 1 <= i < "to"@.len() implies validation::valid_name_char(
            #[trigger] "to"@[i],
        ) by {}
    }
    assert(validation::valid_name("from"@)) by {
        assert forall|i: int| 1 <= i < "from"@.len() implies validation::valid_name_char(
            #[trigger] "from"@[i],
        ) by {}
    }
    assert(validation::valid_name("type"@)) by {
        assert forall|i: int| 1 <= i < "type"@.len() implies validation::valid_name_char(
            #[trigger] "type"@[i],
        ) by {}
    }
    assert(validation::valid_name("error"@)) by {
        assert forall|i: int| 1 <= i < "error"@.len() implies validation::valid_name_char(
            #[trigger] "error"@[i],
        ) by {}
    }
    assert(validation::valid_name("by"@)) by {
        assert forall|i: int| 1 <= i < "by"@.len() implies validation::valid_name_char(
            #[trigger] "by"@[i],
        ) by {}
    }
    assert(validation::valid_name("text"@)) by {
        assert forall|i: int| 1 <= i < "text"@.len() implies validation::valid_name_char(
            #[trigger] "text"@[i],
        ) by {}
    }
    assert(validation::valid_name("undefined-condition"@)) by {
        assert forall|i: int|
            1 <= i < "undefined-condition"@.len() implies validation::valid_name_char(
            #[trigger] "undefined-condition"@[i],
        ) by {}
    }
    assert(validation::valid_cdata(XMLNS_XMPP_STANZAS@)) by {
        assert forall|i: int|
            0 <= i < XMLNS_XMPP_STANZAS@.len() implies validation::valid_cdata_char(
            #[trigger] XMLNS_XMPP_STANZAS@[i],
        ) by {}
    }
    crate::attrstr::lemma_name_no_delim("id"@);
    crate::attrstr::lemma_name_no_delim("to"@);
    crate::attrstr::lemma_name_no_delim("from"@);
    crate::attrstr::lemma_name_no_delim("type"@);
    crate::attrstr::lemma_name_no_delim("by"@);
    assert("id"@[0] == 'i' && "to"@[0] == 't' && "from"@[0] == 'f' && "type"@[0] == 't' && "by"@[0]
        == 'b');
    assert("to"@[1] == 'o' && "type"@[1] == 'y');
    assert("id"@.len() == 2 && "to"@.len() == 2 && "from"@.len() == 4 && "type"@.len() == 4
        && "by"@.len() == 2);
}

/// Builds the reply skeleton for a stanza element: same local name, no
/// namespace, `id` kept, `from` and `to` swapped, and for `iq` stanzas a
/// fixed `type` of `result`.
pub fn make_reply(store: &mut ElementStore, el: ElementPtr) -> (r: ElementPtr)
    requires
        old(store).wf(),
        old(store).valid(el),
    ensures
        final(store).wf(),
        tree::extends(old(store)@, final(store)@),
        final(store)@.len() == old(store)@.len() + 1,
        r.0 == old(store)@.len(),
        final(store)@[r.0 as int].localname == old(store)@[el.0 as int].localname,
        final(store)@[r.0 as int].nsuri is None,
        final(store)@[r.0 as int].children.all@ =~= Seq::<Node>::empty(),
        final(store)@[r.0 as int].protected == false,
        final(store)@[r.0 as int].attr.spec_get("id"@) == old(store)@[el.0 as int].attr.spec_get(
            "id"@,
        ),
        final(store)@[r.0 as int].attr.spec_get("to"@) == old(store)@[el.0 as int].attr.spec_get(
            "from"@,
        ),
        final(store)@[r.0 as int].attr.spec_get("from"@) == old(store)@[el.0 as int].attr.spec_get(
            "to"@,
        ),
        final(store)@[r.0 as int].attr.spec_get("type"@) == if old(store)@[el.0 as int].localname@
            == "iq"@ {
            Some("result"@)
        } else {
            old(store)@[el.0 as int].attr.spec_get("type"@)
        },
        forall|k: Seq<char>|
            k != "id"@ && k != "to"@ && k != "from"@ && k != "type"@
                ==> #[trigger] final(store)@[r.0 as int].attr.spec_get(k) is None,
{
    proof {
        lemma_reply_literals();
        reveal_strlit("id");
        reveal_strlit("to");
        reveal_strlit("from");
        reveal_strlit("type");
    }
    let mut attr = AttributeMap::new();
    proof {
        assert("id"@ != "to"@ && "id"@ != "from"@ && "id"@ != "type"@ && "to"@ != "from"@ && "to"@
            != "type"@ && "from"@ != "type"@) by {
            assert("id"@[0] == 'i' && "to"@[0] == 't' && "from"@[0] == 'f' && "type"@[0] == 't');
            assert("to"@[1] == 'o' && "type"@[1] == 'y');
            assert("id"@.len() == 2 && "to"@.len() == 2 && "from"@.len() == 4 && "type"@.len()
                == 4);
        }
        assert forall|k: Seq<char>| attr.spec_get(k) is None by {
            assert(crate::attrstr::find_key(attr@, k) == -1);
        }
    }
    match store.get_attr(el, "id") {
        Some(v) => {
            attr.insert("id".to_owned(), v.clone());
        },
        None => {},
    }
    match store.get_attr(el, "from") {
        Some(v) => {
            attr.insert("to".to_owned(), v.clone());
        },
        None => {},
    }
    match store.get_attr(el, "to") {
        Some(v) => {
            attr.insert("from".to_owned(), v.clone());
        },
        None => {},
    }
    if strutil::str_eq(store.element(el).localname.as_str(), "iq") {
        attr.insert("type".to_owned(), "result".to_owned());
    } else {
        match store.get_attr(el, "type") {
            Some(v) => {
                attr.insert("type".to_owned(), v.clone());
            },
            None => {},
        }
    }
    let name = store.element(el).localname.clone();
    proof {
        assert(tree::wf_element(store@.len() as int, store@[el.0 as int]));
        assert(attr.spec_get("id"@) == store@[el.0 as int].attr.spec_get("id"@));
        assert(attr.spec_get("to"@) == store@[el.0 as int].attr.spec_get("from"@));
        assert(attr.spec_get("from"@) == store@[el.0 as int].attr.spec_get("to"@));
        assert(attr.spec_get("type"@) == if store@[el.0 as int].localname@ == "iq"@ {
            Some("result"@)
        } else {
            store@[el.0 as int].attr.spec_get("type"@)
        });
    }
    proof {
        assert forall|k: Seq<char>|
            k != "id"@ && k != "to"@ && k != "from"@ && k != "type"@ implies attr.spec_get(
            k,
        ) is None by {
            crate::attrstr::lemma_find_key(attr@, k);
            if crate::attrstr::find_key(attr@, k) >= 0 {
                let i = crate::attrstr::find_key(attr@, k);
                assert(attr@[i].0@ == k);
                assert(attr@[i].0@ == "id"@ || attr@[i].0@ == "to"@ || attr@[i].0@ == "from"@
                    || attr@[i].0@ == "type"@);
                assert(false);
            }
        }
    }
    let ghost attrv = attr;
    let r = store.new_element_with_attr(None, name, Some(attr));
    proof {
        assert(store@[r.0 as int].attr@ == attrv@);
        assert forall|k: Seq<char>|
            k != "id"@ && k != "to"@ && k != "from"@ && k != "type"@ implies #[trigger] store@[r.0 as int].attr.spec_get(
            k,
        ) is None by {
            assert(store@[r.0 as int].attr.spec_get(k) == attrv.spec_get(k));
            assert(attrv.spec_get(k) is None);
        }
    }
    r
}

/// A predicate over (local-name, namespace) pairs of candidate elements,
/// built from a parent's default namespace and optional name / namespace
/// filters.
#[derive(Debug)]
pub struct ElementSelector {
    pub filter_by_name: bool,
    pub name: Option<String>,
    pub allow_absent_xmlns: bool,
    pub match_xmlns: bool,
    pub nsuri: Option<String>,
}

impl ElementSelector {
    /// The option fields are set whenever the flags demand them.
    pub open spec fn wf(self) -> bool {
        &&& (self.filter_by_name ==> self.name is Some)
        &&& (self.match_xmlns ==> self.nsuri is Some)
    }

    /// The match semantics on a candidate (local-name, namespace) pair.
    pub open spec fn spec_select(self, name: Seq<char>, ns: Option<Seq<char>>) -> bool {
        if self.filter_by_name && name != self.name.unwrap()@ {
            false
        } else {
            match ns {
                Option::Some(x) => self.match_xmlns && self.nsuri.unwrap()@ == x,
                Option::None => self.allow_absent_xmlns,
            }
        }
    }

    /// Builds a selector given the parent's default namespace.
    pub fn select_inside_xmlns(
        default_xmlns: Option<String>,
        name: Option<String>,
        xmlns: Option<String>,
    ) -> (r: ElementSelector)
        ensures
            r.wf(),
            r.filter_by_name == (name is Some),
            name matches Some(n) ==> r.name matches Some(rn) && rn == n,
            match (xmlns, default_xmlns) {
                (Option::Some(ns), Option::Some(d)) => {
                    &&& r.allow_absent_xmlns == (d@ == ns@)
                    &&& r.match_xmlns
                    &&& r.nsuri matches Some(u) && u == ns
                },
                (Option::Some(ns), Option::None) => {
                    &&& !r.allow_absent_xmlns
                    &&& r.match_xmlns
                    &&& r.nsuri matches Some(u) && u == ns
                },
                (Option::None, Option::Some(d)) => {
                    &&& r.allow_absent_xmlns
                    &&& r.match_xmlns
                    &&& r.nsuri matches Some(u) && u == d
                },
                (Option::None, Option::None) => r.allow_absent_xmlns && !r.match_xmlns && r.nsuri
                    is None,
            },
    {
        let (filter_by_name, name) = match name {
            Some(n) => (true, Some(n)),
            None => (false, None),
        };
        let (allow_absent_xmlns, match_xmlns, nsuri) = match xmlns {
            Some(ns) => match default_xmlns {
                Some(default_ns) => (
                    strutil::str_eq(default_ns.as_str(), ns.as_str()),
                    true,
                    Some(ns),
                ),
                None => (false, true, Some(ns)),
            },
            None => match default_xmlns {
                Some(d) => (true, true, Some(d)),
                None => (true, false, None),
            },
        };
        ElementSelector { filter_by_name, name, allow_absent_xmlns, match_xmlns, nsuri }
    }

    /// Builds a selector whose default namespace is the parent element's.
    pub fn select_inside_parent(
        store: &ElementStore,
        parent: ElementPtr,
        name: Option<String>,
        xmlns: Option<String>,
    ) -> (r: ElementSelector)
        requires
            store.valid(parent),
        ensures
            r.wf(),
            r.filter_by_name == (name is Some),
            name matches Some(n) ==> r.name matches Some(rn) && rn == n,
            match (xmlns, store@[parent.0 as int].nsuri) {
                (Option::Some(ns), Option::Some(d)) => {
                    &&& r.allow_absent_xmlns == (d@ == ns@)
                    &&& r.match_xmlns
                    &&& r.nsuri matches Some(u) && u == ns
                },
                (Option::Some(ns), Option::None) => {
                    &&& !r.allow_absent_xmlns
                    &&& r.match_xmlns
                    &&& r.nsuri matches Some(u) && u == ns
                },
                (Option::None, Option::Some(d)) => {
                    &&& r.allow_absent_xmlns
                    &&& r.match_xmlns
                    &&& r.nsuri matches Some(u) && u@ == d@
                },
                (Option::None, Option::None) => r.allow_absent_xmlns && !r.match_xmlns && r.nsuri
                    is None,
            },
    {
        let default_xmlns = match &store.element(parent).nsuri {
            Some(d) => Some(d.clone()),
            None => None,
        };
        Self::select_inside_xmlns(default_xmlns, name, xmlns)
    }

    /// Applies the selector to a bare (name, namespace) pair.
    pub fn select_str(&self, name: &str, xmlns: &Option<String>) -> (r: bool)
        requires
            self.wf(),
        ensures
            r == self.spec_select(
                name@,
                match xmlns {
                    Option::Some(x) => Some(x@),
                    Option::None => None::<Seq<char>>,
                },
            ),
    {
        if self.filter_by_name {
            let want = match &self.name {
                Some(n) => n,
                None => {
                    proof {
                        assert(false);
                    }
                    return false;
                },
            };
            if !strutil::str_eq(name, want.as_str()) {
                return false;
            }
        }
        match xmlns {
            Some(x) => match &self.nsuri {
                Some(u) => self.match_xmlns && strutil::str_eq(u.as_str(), x.as_str()),
                None => {
                    proof {
                        if self.match_xmlns {
                            assert(false);
                        }
                    }
                    false
                },
            },
            None => self.allow_absent_xmlns,
        }
    }

    /// Applies the selector to an element of the store.
    pub fn select(&self, store: &ElementStore, el: ElementPtr) -> (r: bool)
        requires
            self.wf(),
            store.valid(el),
        ensures
            r == self.spec_select(
                store@[el.0 as int].localname@,
                match store@[el.0 as int].nsuri {
                    Option::Some(x) => Some(x@),
                    Option::None => None::<Seq<char>>,
                },
            ),
    {
        self.select_str(store.element(el).localname.as_str(), &store.element(el).nsuri)
    }

    /// The first handle among `hs` whose element the selector accepts.
    pub open spec fn spec_first_match(self, s: Seq<Element>, hs: Seq<ElementPtr>) -> Option<
        ElementPtr,
    >
        decreases hs.len(),
    {
        if hs.len() == 0 {
            None
        } else if tree::valid_id(s, hs[0].0 as int) && self.spec_select(
            s[hs[0].0 as int].localname@,
            match s[hs[0].0 as int].nsuri {
                Option::Some(x) => Some(x@),
                Option::None => None::<Seq<char>>,
            },
        ) {
            Some(hs[0])
        } else {
            self.spec_first_match(s, hs.drop_first())
        }
    }

    /// Scans the element children of `parent` and returns the first one the
    /// selector accepts.
    #[verifier::loop_isolation(false)]
    pub fn find_first_child(&self, store: &ElementStore, parent: ElementPtr) -> (r: Option<
        ElementPtr,
    >)
        requires
            self.wf(),
            store.wf(),
            store.valid(parent),
        ensures
            r == self.spec_first_match(
                store@,
                child_handles(store@[parent.0 as int].children.all@),
            ),
    {
        let hs = store.element(parent).children.iter_children();
        let ghost hseq = child_handles(store@[parent.0 as int].children.all@);
        proof {
            lemma_child_handles_valid(store@, parent.0 as int);
            assert(hseq.skip(0) =~= hseq);
        }
        let mut i: usize = 0;
        while i < hs.len()
            invariant
                i <= hseq.len(),
                hs@ == hseq,
                self.spec_first_match(store@, hseq) == self.spec_first_match(
                    store@,
                    hseq.skip(i as int),
                ),
                forall|j: int| 0 <= j < hseq.len() ==> tree::valid_id(store@, (#[trigger] hseq[j]).0 as int),
            decreases hseq.len() - i,
        {
            proof {
                assert(hseq.skip(i as int)[0] == hseq[i as int]);
                assert(hseq.skip(i as int).drop_first() =~= hseq.skip(i + 1));
            }
            if self.select(store, hs[i]) {
                return Some(hs[i]);
            }
            i = i + 1;
        }
        proof {
            assert(hseq.skip(hseq.len() as int).len() == 0);
        }
        None
    }
}

/// Every handle among an element's children is a valid handle.
pub proof fn lemma_child_handles_valid(s: Seq<Element>, parent: int)
    requires
        tree::wf_local(s),
        tree::valid_id(s, parent),
    ensures
        forall|j: int|
            0 <= j < child_handles(s[parent].children.all@).len() ==> tree::valid_id(
                s,
                (#[trigger] child_handles(s[parent].children.all@)[j]).0 as int,
            ),
{
    assert(tree::wf_element(s.len() as int, s[parent]));
    lemma_child_handles_are_nodes(s.len() as int, s[parent].children.all@);
}

/// Handles listed for a node sequence point below the store length when the
/// nodes are well formed.
proof fn lemma_child_handles_are_nodes(n: int, nodes: Seq<Node>)
    requires
        forall|j: int| 0 <= j < nodes.len() ==> tree::wf_node(n, #[trigger] nodes[j]),
    ensures
        forall|j: int|
            0 <= j < child_handles(nodes).len() ==> (#[trigger] child_handles(nodes)[j]).0 < n,
    decreases nodes.len(),
{
    if nodes.len() > 0 {
        assert forall|j: int|
            0 <= j < nodes.drop_last().len() implies tree::wf_node(
            n,
            #[trigger] nodes.drop_last()[j],
        ) by {
            assert(nodes.drop_last()[j] == nodes[j]);
        }
        lemma_child_handles_are_nodes(n, nodes.drop_last());
        let rest = child_handles(nodes.drop_last());
        assert forall|j: int|
            0 <= j < child_handles(nodes).len() implies (#[trigger] child_handles(nodes)[j]).0
            < n by {
            if j < rest.len() {
                assert(child_handles(nodes)[j] == rest[j]);
            } else {
                assert(nodes.last() is Element);
                assert(tree::wf_node(n, nodes[nodes.len() - 1]));
            }
        }
    }
}

/// Match semantics spelled out over plain values: an optional name filter,
/// an optional namespace filter, and the parent's default namespace.
pub open spec fn spec_match(
    default_ns: Option<Seq<char>>,
    namef: Option<Seq<char>>,
    nsf: Option<Seq<char>>,
    cname: Seq<char>,
    cns: Option<Seq<char>>,
) -> bool {
    &&& (namef matches Some(n) ==> cname == n)
    &&& match cns {
        Option::Some(x) => match nsf {
            Option::Some(u) => x == u,
            Option::None => default_ns matches Some(d) && x == d,
        },
        Option::None => match nsf {
            Option::Some(u) => default_ns matches Some(d) && d == u,
            Option::None => true,
        },
    }
}

/// The first handle whose element matches, over plain values.
pub open spec fn spec_first_matching_child(
    s: Seq<Element>,
    hs: Seq<ElementPtr>,
    default_ns: Option<Seq<char>>,
    namef: Option<Seq<char>>,
    nsf: Option<Seq<char>>,
) -> Option<ElementPtr>
    decreases hs.len(),
{
    if hs.len() == 0 {
        None
    } else if tree::valid_id(s, hs[0].0 as int) && spec_match(
        default_ns,
        namef,
        nsf,
        s[hs[0].0 as int].localname@,
        match s[hs[0].0 as int].nsuri {
            Option::Some(x) => Some(x@),
            Option::None => None::<Seq<char>>,
        },
    ) {
        Some(hs[0])
    } else {
        spec_first_matching_child(s, hs.drop_first(), default_ns, namef, nsf)
    }
}

/// The view of an optional string.
pub open spec fn opt_view(x: Option<String>) -> Option<Seq<char>> {
    match x {
        Option::Some(v) => Some(v@),
        Option::None => None,
    }
}

/// A selector built by `select_inside_xmlns` selects exactly what
/// `spec_match` says.
proof fn lemma_selector_matches(
    sel: ElementSelector,
    default_ns: Option<Seq<char>>,
    namef: Option<Seq<char>>,
    nsf: Option<Seq<char>>,
    s: Seq<Element>,
    hs: Seq<ElementPtr>,
)
    requires
        sel.wf(),
        sel.filter_by_name == (namef is Some),
        namef matches Some(n) ==> sel.name matches Some(rn) && rn@ == n,
        match (nsf, default_ns) {
            (Option::Some(ns), Option::Some(d)) => {
                &&& sel.allow_absent_xmlns == (d == ns)
                &&& sel.match_xmlns
                &&& sel.nsuri matches Some(u) && u@ == ns
            },
            (Option::Some(ns), Option::None) => {
                &&& !sel.allow_absent_xmlns
                &&& sel.match_xmlns
                &&& sel.nsuri matches Some(u) && u@ == ns
            },
            (Option::None, Option::Some(d)) => {
                &&& sel.allow_absent_xmlns
                &&& sel.match_xmlns
                &&& sel.nsuri matches Some(u) && u@ == d
            },
            (Option::None, Option::None) => sel.allow_absent_xmlns && !sel.match_xmlns,
        },
    ensures
        sel.spec_first_match(s, hs) == spec_first_matching_child(s, hs, default_ns, namef, nsf),
    decreases hs.len(),
{
    if hs.len() > 0 {
        lemma_selector_matches(sel, default_ns, namef, nsf, s, hs.drop_first());
    }
}

/// Builds a selector from the parent's namespace and returns its first
/// matching child element.
pub fn find_first_child(
    store: &ElementStore,
    el: ElementPtr,
    name: Option<String>,
    xmlns: Option<String>,
) -> (r: Option<ElementPtr>)
    requires
        store.wf(),
        store.valid(el),
    ensures
        r == spec_first_matching_child(
            store@,
            child_handles(store@[el.0 as int].children.all@),
            opt_view(store@[el.0 as int].nsuri),
            opt_view(name),
            opt_view(xmlns),
        ),
{
    let ghost gname = opt_view(name);
    let ghost gns = opt_view(xmlns);
    let selector = ElementSelector::select_inside_parent(store, el, name, xmlns);
    let r = selector.find_first_child(store, el);
    proof {
        lemma_selector_matches(
            selector,
            opt_view(store@[el.0 as int].nsuri),
            gname,
            gns,
            store@,
            child_handles(store@[el.0 as int].children.all@),
        );
    }
    r
}

} // verus!

verus! {

/// True when the element has no element children, so its text content is
/// defined.
pub open spec fn text_only(e: Element) -> bool {
    forall|j: int| 0 <= j < e.children.all@.len() ==> !((#[trigger] e.children.all@[j]) is Element)
}

/// Walks the children of an `<error/>` element in order, carrying the
/// condition (last URN child that is not `<text/>` wins), the text (last
/// URN `<text/>` child wins), and the application-defined extra (last
/// foreign-namespace child wins).
pub open spec fn err_fold(
    s: Seq<Element>,
    hs: Seq<ElementPtr>,
    cond: Seq<char>,
    text: Option<Seq<char>>,
    app: Option<ElementPtr>,
) -> (Seq<char>, Option<Seq<char>>, Option<ElementPtr>)
    decreases hs.len(),
{
    if hs.len() == 0 {
        (cond, text, app)
    } else {
        let h = hs[0];
        if !tree::valid_id(s, h.0 as int) {
            err_fold(s, hs.drop_first(), cond, text, app)
        } else {
            let e = s[h.0 as int];
            match e.nsuri {
                Option::Some(ns) => if ns@ == XMLNS_XMPP_STANZAS@ {
                    if e.localname@ == "text"@ {
                        let t = if text_only(e) {
                            Some(tree::texts_concat(e.children.all@))
                        } else {
                            None
                        };
                        err_fold(s, hs.drop_first(), cond, t, app)
                    } else {
                        err_fold(s, hs.drop_first(), e.localname@, text, app)
                    }
                } else {
                    err_fold(s, hs.drop_first(), cond, text, Some(h))
                },
                Option::None => err_fold(s, hs.drop_first(), cond, text, app),
            }
        }
    }
}

/// The walk is a left fold: one more handle applies one more step.
proof fn lemma_err_fold_push(
    s: Seq<Element>,
    hs: Seq<ElementPtr>,
    h: ElementPtr,
    cond: Seq<char>,
    text: Option<Seq<char>>,
    app: Option<ElementPtr>,
)
    ensures
        err_fold(s, hs.push(h), cond, text, app) == {
            let acc = err_fold(s, hs, cond, text, app);
            err_fold(s, seq![h], acc.0, acc.1, acc.2)
        },
    decreases hs.len(),
{
    if hs.len() == 0 {
        assert(hs.push(h)[0] == h);
        assert(hs.push(h).drop_first() =~= Seq::<ElementPtr>::empty());
        assert(seq![h].drop_first() =~= Seq::<ElementPtr>::empty());
        assert(seq![h][0] == h);
    } else {
        assert(hs.push(h)[0] == hs[0]);
        assert(hs.push(h).drop_first() =~= hs.drop_first().push(h));
        let e = s[hs[0].0 as int];
        if tree::valid_id(s, hs[0].0 as int) {
            match e.nsuri {
                Option::Some(ns) => if ns@ == XMLNS_XMPP_STANZAS@ {
                    if e.localname@ == "text"@ {
                        let t = if text_only(e) {
                            Some(tree::texts_concat(e.children.all@))
                        } else {
                            None
                        };
                        lemma_err_fold_push(s, hs.drop_first(), h, cond, t, app);
                    } else {
                        lemma_err_fold_push(s, hs.drop_first(), h, e.localname@, text, app);
                    }
                } else {
                    lemma_err_fold_push(s, hs.drop_first(), h, cond, text, Some(hs[0]));
                },
                Option::None => {
                    lemma_err_fold_push(s, hs.drop_first(), h, cond, text, app);
                },
            }
        } else {
            lemma_err_fold_push(s, hs.drop_first(), h, cond, text, app);
        }
    }
}

/// Extracts (type, condition, text, application-defined extra) out of an
/// `<error/>` element. Nothing is returned when the `type` attribute is
/// missing.
#[verifier::loop_isolation(false)]
pub fn extract_error_info(store: &ElementStore, el: ElementPtr) -> (r: Option<
    (String, String, Option<String>, Option<ElementPtr>),
>)
    requires
        store.wf(),
        store.valid(el),
    ensures
        match r {
            Option::None => store@[el.0 as int].attr.spec_get("type"@) is None,
            Option::Some(tcxa) => {
                &&& store@[el.0 as int].attr.spec_get("type"@) == Some(tcxa.0@)
                &&& {
                    let acc = err_fold(
                        store@,
                        child_handles(store@[el.0 as int].children.all@),
                        "undefined-condition"@,
                        None,
                        None,
                    );
                    &&& tcxa.1@ == acc.0
                    &&& opt_view(tcxa.2) == acc.1
                    &&& tcxa.3 == acc.2
                }
            },
        },
{
    let type_ = match store.get_attr(el, "type") {
        Some(v) => v.clone(),
        None => {
            return None;
        },
    };
    let mut condition: String = "undefined-condition".to_owned();
    let mut text: Option<String> = None;
    let mut appdef: Option<ElementPtr> = None;
    let hs = store.element(el).children.iter_children();
    let ghost hseq = child_handles(store@[el.0 as int].children.all@);
    proof {
        lemma_child_handles_valid(store@, el.0 as int);
        assert(hseq.take(0) =~= Seq::<ElementPtr>::empty());
    }
    let mut i: usize = 0;
    while i < hs.len()
        invariant
            i <= hseq.len(),
            hs@ == hseq,
            forall|j: int| 0 <= j < hseq.len() ==> tree::valid_id(store@, (#[trigger] hseq[j]).0 as int),
            (condition@, opt_view(text), appdef) == err_fold(
                store@,
                hseq.take(i as int),
                "undefined-condition"@,
                None,
                None,
            ),
        decreases hseq.len() - i,
    {
        let h = hs[i];
        let ghost acc0 = (condition@, opt_view(text), appdef);
        proof {
            assert(hseq.take(i + 1) =~= hseq.take(i as int).push(hseq[i as int]));
            lemma_err_fold_push(
                store@,
                hseq.take(i as int),
                hseq[i as int],
                "undefined-condition"@,
                None,
                None,
            );
            assert(seq![hseq[i as int]][0] == hseq[i as int]);
            assert(seq![hseq[i as int]].drop_first() =~= Seq::<ElementPtr>::empty());
        }
        proof {
            reveal_with_fuel(err_fold, 3);
        }
        let ghost stepped = err_fold(store@, seq![hseq[i as int]], acc0.0, acc0.1, acc0.2);
        match &store.element(h).nsuri {
            Some(ns) => {
                if strutil::str_eq(ns.as_str(), XMLNS_XMPP_STANZAS) {
                    if strutil::str_eq(store.element(h).localname.as_str(), "text") {
                        text = store.get_text(h);
                        proof {
                            if text_only(store@[h.0 as int]) {
                                assert(opt_view(text) == Some(
                                    tree::texts_concat(store@[h.0 as int].children.all@),
                                ));
                            } else {
                                let j = choose|j: int|
                                    0 <= j < store@[h.0 as int].children.all@.len() && (
                                    #[trigger] store@[h.0 as int].children.all@[j]) is Element;
                                assert(text is None);
                            }
                            assert((condition@, opt_view(text), appdef) == stepped);
                        }
                    } else {
                        condition = store.element(h).localname.clone();
                        proof {
                            assert((condition@, opt_view(text), appdef) == stepped);
                        }
                    }
                } else {
                    appdef = Some(h);
                    proof {
                        assert((condition@, opt_view(text), appdef) == stepped);
                    }
                }
            },
            None => {
                proof {
                    assert((condition@, opt_view(text), appdef) == stepped);
                }
            },
        }
        i = i + 1;
    }
    proof {
        assert(hseq.take(hseq.len() as int) =~= hseq);
    }
    Some((type_, condition, text, appdef))
}

/// Finds the `<error/>` child of a stanza (under the stanza's default
/// namespace rules) and extracts its error information.
pub fn extract_error(store: &ElementStore, st: ElementPtr) -> (r: Option<
    (String, String, Option<String>, Option<ElementPtr>),
>)
    requires
        store.wf(),
        store.valid(st),
    ensures
        match spec_first_matching_child(
            store@,
            child_handles(store@[st.0 as int].children.all@),
            opt_view(store@[st.0 as int].nsuri),
            Some("error"@),
            None,
        ) {
            Option::None => r is None,
            Option::Some(e) => tree::valid_id(store@, e.0 as int) && match r {
                Option::None => store@[e.0 as int].attr.spec_get("type"@) is None,
                Option::Some(tcxa) => {
                    &&& store@[e.0 as int].attr.spec_get("type"@) == Some(tcxa.0@)
                    &&& {
                        let acc = err_fold(
                            store@,
                            child_handles(store@[e.0 as int].children.all@),
                            "undefined-condition"@,
                            None,
                            None,
                        );
                        &&& tcxa.1@ == acc.0
                        &&& opt_view(tcxa.2) == acc.1
                        &&& tcxa.3 == acc.2
                    }
                },
            },
        },
{
    let error_child = match find_first_child(store, st, Some("error".to_owned()), None) {
        Some(e) => e,
        None => {
            return None;
        },
    };
    proof {
        lemma_first_match_valid(
            store@,
            child_handles(store@[st.0 as int].children.all@),
            opt_view(store@[st.0 as int].nsuri),
            Some("error"@),
            None,
        );
    }
    extract_error_info(store, error_child)
}

/// A found first match is one of the handles, hence valid when they all
/// are.
pub proof fn lemma_first_match_valid(
    s: Seq<Element>,
    hs: Seq<ElementPtr>,
    default_ns: Option<Seq<char>>,
    namef: Option<Seq<char>>,
    nsf: Option<Seq<char>>,
)
    ensures
        spec_first_matching_child(s, hs, default_ns, namef, nsf) matches Some(e) ==> tree::valid_id(
            s,
            e.0 as int,
        ),
    decreases hs.len(),
{
    if hs.len() > 0 {
        lemma_first_match_valid(s, hs.drop_first(), default_ns, namef, nsf);
    }
}

/// Builds an error reply: the reply skeleton with `type='error'` and an
/// `<error/>` child carrying the condition in the stanza-error namespace
/// and, when given, a `<text/>` child. Refuses to reply to a stanza that is
/// itself of type `error`.
pub fn make_error_reply(
    store: &mut ElementStore,
    st: ElementPtr,
    type_: String,
    condition: String,
    text: Option<String>,
    by: Option<String>,
) -> (r: Result<ElementPtr, String>)
    requires
        old(store).wf(),
        old(store).valid(st),
        crate::attrstr::valid_ncname(condition@),
        match text {
            Option::Some(t) => validation::valid_cdata(t@),
            Option::None => true,
        },
    ensures
        final(store).wf(),
        r is Err <==> old(store)@[st.0 as int].attr.spec_get("type"@) == Some("error"@),
        r is Err ==> final(store)@ == old(store)@,
        match r {
            Result::Err(_) => true,
            Result::Ok(reply) => {
                let s0 = old(store)@;
                let s1 = final(store)@;
                let err = ElementPtr((s0.len() + 1) as usize);
                let cond = ElementPtr((s0.len() + 2) as usize);
                let textel = ElementPtr((s0.len() + 3) as usize);
                &&& reply.0 == s0.len()
                &&& s1.len() == s0.len() + (if text is Some {
                    4int
                } else {
                    3int
                })
                &&& tree::extends(s0, s1)
                // the reply skeleton
                &&& s1[reply.0 as int].localname == s0[st.0 as int].localname
                &&& s1[reply.0 as int].nsuri is None
                &&& s1[reply.0 as int].attr.spec_get("id"@) == s0[st.0 as int].attr.spec_get("id"@)
                &&& s1[reply.0 as int].attr.spec_get("to"@) == s0[st.0 as int].attr.spec_get(
                    "from"@,
                )
                &&& s1[reply.0 as int].attr.spec_get("from"@) == s0[st.0 as int].attr.spec_get(
                    "to"@,
                )
                &&& s1[reply.0 as int].attr.spec_get("type"@) == Some("error"@)
                &&& s1[reply.0 as int].children.all@ =~= seq![Node::Element(err)]
                // the error child
                &&& s1[err.0 as int].localname@ == "error"@
                &&& s1[err.0 as int].nsuri is None
                &&& s1[err.0 as int].attr.spec_get("type"@) == Some(type_@)
                &&& s1[err.0 as int].attr.spec_get("by"@) == match by {
                    Option::Some(b) => Some(b@),
                    Option::None => None::<Seq<char>>,
                }
                &&& s1[err.0 as int].children.all@ =~= if text is Some {
                    seq![Node::Element(cond), Node::Element(textel)]
                } else {
                    seq![Node::Element(cond)]
                }
                // no attribute beyond the ones named above
                &&& (forall|k: Seq<char>|
                    k != "id"@ && k != "to"@ && k != "from"@ && k != "type"@
                        ==> #[trigger] s1[reply.0 as int].attr.spec_get(k) is None)
                &&& (forall|k: Seq<char>|
                    k != "type"@ && k != "by"@ ==> #[trigger] s1[err.0 as int].attr.spec_get(
                        k,
                    ) is None)
                &&& (by is None ==> s1[err.0 as int].attr.spec_get("by"@) is None)
                &&& s1[cond.0 as int].attr@.len() == 0
                &&& (text is Some ==> s1[textel.0 as int].attr@.len() == 0)
                // the condition child
                &&& s1[cond.0 as int].localname@ == condition@
                &&& s1[cond.0 as int].nsuri matches Some(u) && u@ == XMLNS_XMPP_STANZAS@
                &&& s1[cond.0 as int].children.all@ =~= Seq::<Node>::empty()
                // the text child
                &&& match text {
                    Option::Some(t) => {
                        &&& s1[textel.0 as int].localname@ == "text"@
                        &&& s1[textel.0 as int].nsuri matches Some(u) && u@ == XMLNS_XMPP_STANZAS@
                        &&& s1[textel.0 as int].children.all@ =~= seq![Node::Text(t)]
                    },
                    Option::None => true,
                }
            },
        },
{
    proof {
        lemma_reply_literals();
    }
    match store.get_attr(st, "type") {
        Some(v) => {
            if strutil::str_eq(v.as_str(), "error") {
                return Err(
                    "bad argument to make_error_reply: got stanza of type error which must not be replied to".to_owned(),
                );
            }
        },
        None => {},
    }
    let reply = make_reply(store, st);
    store.set_attr(reply, "type".to_owned(), "error".to_owned());
    let err = store.tag(reply, None, "error".to_owned(), None);
    store.set_attr(err, "type".to_owned(), type_);
    match by {
        Some(b) => {
            store.set_attr(err, "by".to_owned(), b);
        },
        None => {},
    }
    let _cond = store.tag(err, Some(XMLNS_XMPP_STANZAS.to_owned()), condition, None);
    match text {
        Some(t) => {
            let text_el = store.tag(err, Some(XMLNS_XMPP_STANZAS.to_owned()), "text".to_owned(), None);
            store.text(text_el, t);
        },
        None => {},
    }
    Ok(reply)
}

} // verus!
