//! A compact child-navigation language over element trees:
//! `{namespace}name/name#` walks named children, `#` takes the text
//! content, and a leading `@attr` reads an attribute of the current
//! element.
use vstd::prelude::*;

use crate::strutil;
use crate::tree;
use crate::tree::{Element, ElementPtr, ElementStore, Node};
use crate::validation;
use crate::xmpp;

verus! {

/// What a query returns: text (an attribute value or text content) or an
/// element handle.
pub enum Found {
    Text(Seq<char>),
    Elem(ElementPtr),
}

/// First index of a segment delimiter (`#`, `@` or `/`), or -1.
pub open spec fn find_break(s: Seq<char>) -> int
    decreases s.len(),
{
    if s.len() == 0 {
        -1
    } else if s[0] == '#' || s[0] == '@' || s[0] == '/' {
        0
    } else {
        let r = find_break(s.drop_first());
        if r < 0 {
            -1
        } else {
            r + 1
        }
    }
}

proof fn lemma_find_break(s: Seq<char>)
    ensures
        find_break(s) >= -1,
        find_break(s) == -1 ==> (forall|i: int|
            0 <= i < s.len() ==> s[i] != '#' && s[i] != '@' && s[i] != '/'),
        find_break(s) >= 0 ==> {
            &&& find_break(s) < s.len()
            &&& (s[find_break(s)] == '#' || s[find_break(s)] == '@' || s[find_break(s)] == '/')
            &&& forall|i: int|
                0 <= i < find_break(s) ==> s[i] != '#' && s[i] != '@' && s[i] != '/'
        },
    decreases s.len(),
{
    if s.len() > 0 && !(s[0] == '#' || s[0] == '@' || s[0] == '/') {
        lemma_find_break(s.drop_first());
        assert forall|i: int| 1 <= i < s.len() implies s.drop_first()[i - 1] == s[i] by {}
    }
}

/// First index of `}` in the sequence, or -1.
pub open spec fn find_close(s: Seq<char>) -> int
    decreases s.len(),
{
    if s.len() == 0 {
        -1
    } else if s[0] == '}' {
        0
    } else {
        let r = find_close(s.drop_first());
        if r < 0 {
            -1
        } else {
            r + 1
        }
    }
}

proof fn lemma_find_close(s: Seq<char>)
    ensures
        find_close(s) >= -1,
        find_close(s) == -1 ==> (forall|i: int| 0 <= i < s.len() ==> s[i] != '}'),
        find_close(s) >= 0 ==> {
            &&& find_close(s) < s.len()
            &&& s[find_close(s)] == '}'
            &&& forall|i: int| 0 <= i < find_close(s) ==> s[i] != '}'
        },
    decreases s.len(),
{
    if s.len() > 0 && s[0] != '}' {
        lemma_find_close(s.drop_first());
        assert forall|i: int| 1 <= i < s.len() implies s.drop_first()[i - 1] == s[i] by {}
    }
}

/// The evaluation of a path on an element: attribute shortcut, optional
/// namespace selector, one child-selection step, then text extraction,
/// element result, or recursion on the remainder.
pub open spec fn spec_find(s: Seq<Element>, root: int, path: Seq<char>) -> Option<Found>
    decreases path.len(),
{
    if !tree::valid_id(s, root) {
        None
    } else if path.len() >= 1 && path[0] == '@' {
        match s[root].attr.spec_get(path.skip(1)) {
            Option::Some(v) => Some(Found::Text(v)),
            Option::None => None,
        }
    } else {
        let consumed = if path.len() >= 1 && path[0] == '{' && find_close(path) >= 0 {
            find_close(path) + 1
        } else {
            0int
        };
        let xmlns = if consumed > 0 {
            Some(path.subrange(1, consumed - 1))
        } else {
            None
        };
        if xmlns matches Some(u) && !validation::valid_cdata(u) {
            None
        } else {
            let work = path.skip(consumed);
            let b = find_break(work);
            let name = if b >= 0 {
                work.take(b)
            } else {
                work
            };
            let rest = if b < 0 {
                Seq::<char>::empty()
            } else if work[b] == '/' {
                work.skip(b + 1)
            } else {
                work.skip(b)
            };
            match xmpp::spec_first_matching_child(
                s,
                tree::child_handles(s[root].children.all@),
                xmpp::opt_view(s[root].nsuri),
                Some(name),
                xmlns,
            ) {
                Option::None => None,
                Option::Some(child) => {
                    if rest =~= seq!['#'] {
                        if xmpp::text_only(s[child.0 as int]) {
                            Some(Found::Text(tree::texts_concat(s[child.0 as int].children.all@)))
                        } else {
                            None
                        }
                    } else if rest.len() == 0 {
                        Some(Found::Elem(child))
                    } else if rest.len() < path.len() {
                        spec_find(s, child.0 as int, rest)
                    } else {
                        None
                    }
                },
            }
        }
    }
}

/// Evaluates a path query on the element `root`.
#[verifier::loop_isolation(false)]
#[verifier::rlimit(60)]
pub fn find(store: &ElementStore, root: ElementPtr, path: &str) -> (r: Option<Node>)
    requires
        store.wf(),
        store.valid(root),
    ensures
        match (r, spec_find(store@, root.0 as int, path@)) {
            (Option::None, Option::None) => true,
            (Option::Some(n), Option::Some(f)) => match (n, f) {
                (Node::Text(t), Found::Text(tv)) => t@ == tv,
                (Node::Element(p), Found::Elem(q)) => p == q && store.valid(p),
                _ => false,
            },
            _ => false,
        },
    decreases path@.len(),
{
    let cs = strutil::str_chars(path);
    let n = cs.len();
    if n >= 1 && cs[0] == '@' {
        let key = strutil::chars_range_to_string(&cs, 1, n);
        proof {
            assert(key@ =~= path@.skip(1));
        }
        match store.get_attr(root, key.as_str()) {
            Some(v) => {
                return Some(Node::Text(v.clone()));
            },
            None => {
                return None;
            },
        }
    }
    let mut consumed: usize = 0;
    let mut xmlns: Option<String> = None;
    if n >= 1 && cs[0] == '{' {
        match find_close_exec(&cs) {
            Some(e) => {
                proof {
                    lemma_find_close(path@);
                }
                let u = strutil::chars_range_to_string(&cs, 1, e);
                proof {
                    assert(u@ =~= path@.subrange(1, find_close(path@) + 1 - 1));
                }
                if !crate::attrstr::check_xml_cdata_ok(u.as_str()) {
                    return None;
                }
                xmlns = Some(u);
                consumed = e + 1;
            },
            None => {},
        }
    }
    let ghost consumed_spec = consumed as int;
    let ghost work = path@.skip(consumed_spec);
    let b = find_break_range(&cs, consumed);
    proof {
        lemma_find_break(work);
        assert forall|i: int| 0 <= i < work.len() implies work[i] == path@[consumed_spec + i] by {}
    }
    let (name, rest_start) = match b {
        Some(bpos) => {
            let name = strutil::chars_range_to_string(&cs, consumed, bpos);
            if cs[bpos] == '/' {
                (name, bpos + 1)
            } else {
                (name, bpos)
            }
        },
        None => {
            let name = strutil::chars_range_to_string(&cs, consumed, n);
            (name, n)
        },
    };
    proof {
        let bs = find_break(work);
        if bs >= 0 {
            assert(name@ =~= work.take(bs));
        } else {
            assert(name@ =~= work);
        }
    }
    let ghost rest_spec = {
        let bs = find_break(work);
        if bs < 0 {
            Seq::<char>::empty()
        } else if work[bs] == '/' {
            work.skip(bs + 1)
        } else {
            work.skip(bs)
        }
    };
    let child = match xmpp::find_first_child(store, root, Some(name), xmlns) {
        Some(c) => c,
        None => {
            return None;
        },
    };
    proof {
        xmpp::lemma_first_match_valid(
            store@,
            tree::child_handles(store@[root.0 as int].children.all@),
            xmpp::opt_view(store@[root.0 as int].nsuri),
            Some(name@),
            xmpp::opt_view(xmlns),
        );
    }
    let rest = strutil::chars_range_to_string(&cs, rest_start, n);
    proof {
        assert(rest@ =~= rest_spec);
    }
    if strutil::str_eq(rest.as_str(), "#") {
        proof {
            reveal_strlit("#");
            assert("#"@ =~= seq!['#']);
            assert(rest_spec =~= seq!['#']);
        }
        match store.get_text(child) {
            Some(t) => {
                return Some(Node::Text(t));
            },
            None => {
                return None;
            },
        }
    }
    proof {
        reveal_strlit("#");
        assert("#"@ =~= seq!['#']);
        if rest_spec =~= seq!['#'] {
            assert(rest@ == "#"@);
            assert(false);
        }
    }
    if rest.as_str().is_empty() {
        return Some(Node::Element(child));
    }
    proof {
        lemma_matched_name_nonempty(
            store@,
            tree::child_handles(store@[root.0 as int].children.all@),
            xmpp::opt_view(store@[root.0 as int].nsuri),
            name@,
            xmpp::opt_view(xmlns),
            child,
        );
        assert(rest_spec.len() < path@.len());
    }
    find(store, child, rest.as_str())
}

/// First `}` of the character vector.
#[verifier::loop_isolation(false)]
fn find_close_exec(cs: &Vec<char>) -> (r: Option<usize>)
    ensures
        match r {
            Option::Some(d) => find_close(cs@) == d,
            Option::None => find_close(cs@) == -1,
        },
{
    let mut i: usize = 0;
    while i < cs.len()
        invariant
            i <= cs@.len(),
            forall|j: int| 0 <= j < i ==> cs@[j] != '}',
        decreases cs@.len() - i,
    {
        if cs[i] == '}' {
            proof {
                lemma_find_close_at(cs@, i as int);
            }
            return Some(i);
        }
        i = i + 1;
    }
    proof {
        lemma_find_close(cs@);
    }
    None
}

proof fn lemma_find_close_at(s: Seq<char>, d: int)
    requires
        0 <= d < s.len(),
        s[d] == '}',
        forall|i: int| 0 <= i < d ==> s[i] != '}',
    ensures
        find_close(s) == d,
    decreases d,
{
    if d > 0 {
        assert forall|i: int| 0 <= i < d - 1 implies s.drop_first()[i] != '}' by {
            assert(s.drop_first()[i] == s[i + 1]);
        }
        assert(s.drop_first()[d - 1] == s[d]);
        lemma_find_close_at(s.drop_first(), d - 1);
    }
}

/// First break character at or after `from`, as an index into the whole
/// vector; its position inside the suffix equals `find_break` of the
/// suffix.
#[verifier::loop_isolation(false)]
fn find_break_range(cs: &Vec<char>, from: usize) -> (r: Option<usize>)
    requires
        from <= cs@.len(),
    ensures
        match r {
            Option::Some(d) => from <= d < cs@.len() && find_break(cs@.skip(from as int)) == d
                - from,
            Option::None => find_break(cs@.skip(from as int)) == -1,
        },
{
    let ghost suffix = cs@.skip(from as int);
    let mut i: usize = from;
    while i < cs.len()
        invariant
            from <= i <= cs@.len(),
            forall|j: int| 0 <= j < i - from ==> suffix[j] != '#' && suffix[j] != '@' && suffix[j] != '/',
        decreases cs@.len() - i,
    {
        proof {
            assert(suffix[i - from] == cs@[i as int]);
        }
        let c = cs[i];
        if c == '#' || c == '@' || c == '/' {
            proof {
                lemma_find_break_at(suffix, i - from);
            }
            return Some(i);
        }
        i = i + 1;
    }
    proof {
        lemma_find_break(suffix);
    }
    None
}

proof fn lemma_find_break_at(s: Seq<char>, d: int)
    requires
        0 <= d < s.len(),
        s[d] == '#' || s[d] == '@' || s[d] == '/',
        forall|i: int| 0 <= i < d ==> s[i] != '#' && s[i] != '@' && s[i] != '/',
    ensures
        find_break(s) == d,
    decreases d,
{
    if d > 0 {
        assert forall|i: int|
            0 <= i < d - 1 implies s.drop_first()[i] != '#' && s.drop_first()[i] != '@'
            && s.drop_first()[i] != '/' by {
            assert(s.drop_first()[i] == s[i + 1]);
        }
        assert(s.drop_first()[d - 1] == s[d]);
        lemma_find_break_at(s.drop_first(), d - 1);
    }
}

/// A child matched under a name filter carries that name, which under
/// well-formedness is non-empty.
proof fn lemma_matched_name_nonempty(
    s: Seq<Element>,
    hs: Seq<ElementPtr>,
    default_ns: Option<Seq<char>>,
    name: Seq<char>,
    nsf: Option<Seq<char>>,
    child: ElementPtr,
)
    requires
        tree::wf_local(s),
        xmpp::spec_first_matching_child(s, hs, default_ns, Some(name), nsf) == Some(child),
    ensures
        name.len() > 0,
    decreases hs.len(),
{
    if hs.len() > 0 {
        if tree::valid_id(s, hs[0].0 as int) && xmpp::spec_match(
            default_ns,
            Some(name),
            nsf,
            s[hs[0].0 as int].localname@,
            match s[hs[0].0 as int].nsuri {
                Option::Some(x) => Some(x@),
                Option::None => None::<Seq<char>>,
            },
        ) {
            assert(tree::wf_element(s.len() as int, s[hs[0].0 as int]));
            assert(s[hs[0].0 as int].localname@ == name);
        } else {
            lemma_matched_name_nonempty(s, hs.drop_first(), default_ns, name, nsf, child);
        }
    }
}

} // verus!
