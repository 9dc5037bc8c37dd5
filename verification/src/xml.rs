//! XML serialization: canonical escaping, attribute emission with synthetic
//! prefixes for namespaced keys, and an element formatter that reconstructs
//! namespace declarations from the parent context.
use vstd::prelude::*;

use crate::attrstr::find_delim;
use crate::strutil;
use crate::tree;
use crate::tree::{Element, ElementStore, ElementPtr, Node};

verus! {

/// The canonical escape of one character.
pub open spec fn escaped_char(c: char) -> Seq<char> {
    if c == '"' {
        seq!['&', 'q', 'u', 'o', 't', ';']
    } else if c == '\'' {
        seq!['&', 'a', 'p', 'o', 's', ';']
    } else if c == '<' {
        seq!['&', 'l', 't', ';']
    } else if c == '>' {
        seq!['&', 'g', 't', ';']
    } else if c == '&' {
        seq!['&', 'a', 'm', 'p', ';']
    } else {
        seq![c]
    }
}

/// The canonical escape of a string.
pub open spec fn escaped(s: Seq<char>) -> Seq<char>
    decreases s.len(),
{
    if s.len() == 0 {
        Seq::empty()
    } else {
        escaped_char(s[0]) + escaped(s.drop_first())
    }
}

/// One more character extends the escape at the end.
pub proof fn lemma_escaped_take(s: Seq<char>, i: int)
    requires
        0 <= i < s.len(),
    ensures
        escaped(s.take(i + 1)) == escaped(s.take(i)) + escaped_char(s[i]),
    decreases i,
{
    if i == 0 {
        assert(s.take(1)[0] == s[0]);
        assert(s.take(1).drop_first() =~= s.take(0));
        assert(escaped(s.take(0)) =~= Seq::<char>::empty());
        assert(escaped_char(s[0]) + Seq::<char>::empty() =~= escaped_char(s[0]));
        assert(Seq::<char>::empty() + escaped_char(s[0]) =~= escaped_char(s[0]));
    } else {
        lemma_escaped_take(s.drop_first(), i - 1);
        assert(s.take(i + 1)[0] == s[0]);
        assert(s.take(i + 1).drop_first() =~= s.drop_first().take(i));
        assert(s.take(i)[0] == s[0]);
        assert(s.take(i).drop_first() =~= s.drop_first().take(i - 1));
        assert(s.drop_first()[i - 1] == s[i]);
        assert(escaped_char(s[0]) + (escaped(s.drop_first().take(i - 1)) + escaped_char(s[i]))
            =~= (escaped_char(s[0]) + escaped(s.drop_first().take(i - 1))) + escaped_char(s[i]));
    }
}

/// The escape sequences spelled as string literals.
proof fn lemma_escape_literals()
    ensures
        "&quot;"@ == seq!['&', 'q', 'u', 'o', 't', ';'],
        "&apos;"@ == seq!['&', 'a', 'p', 'o', 's', ';'],
        "&lt;"@ == seq!['&', 'l', 't', ';'],
        "&gt;"@ == seq!['&', 'g', 't', ';'],
        "&amp;"@ == seq!['&', 'a', 'm', 'p', ';'],
{
    reveal_strlit("&quot;");
    reveal_strlit("&apos;");
    reveal_strlit("&lt;");
    reveal_strlit("&gt;");
    reveal_strlit("&amp;");
    assert("&quot;"@ =~= seq!['&', 'q', 'u', 'o', 't', ';']);
    assert("&apos;"@ =~= seq!['&', 'a', 'p', 'o', 's', ';']);
    assert("&lt;"@ =~= seq!['&', 'l', 't', ';']);
    assert("&gt;"@ =~= seq!['&', 'g', 't', ';']);
    assert("&amp;"@ =~= seq!['&', 'a', 'm', 'p', ';']);
}

/// Appends the canonical escape of `val` to `out`.
#[verifier::loop_isolation(false)]
pub fn escape(out: &mut String, val: &str)
    ensures
        final(out)@ == old(out)@ + escaped(val@),
{
    let cs = strutil::str_chars(val);
    let ghost base = out@;
    proof {
        assert(base + escaped(val@.take(0)) =~= base);
    }
    let mut i: usize = 0;
    while i < cs.len()
        invariant
            i <= val@.len(),
            cs@ == val@,
            out@ == base + escaped(val@.take(i as int)),
        decreases val@.len() - i,
    {
        let c = cs[i];
        proof {
            lemma_escaped_take(val@, i as int);
            lemma_escape_literals();
        }
        if c == '"' {
            vstd::string::StringExecFns::append(out, "&quot;");
        } else if c == '\'' {
            vstd::string::StringExecFns::append(out, "&apos;");
        } else if c == '<' {
            vstd::string::StringExecFns::append(out, "&lt;");
        } else if c == '>' {
            vstd::string::StringExecFns::append(out, "&gt;");
        } else if c == '&' {
            vstd::string::StringExecFns::append(out, "&amp;");
        } else {
            strutil::push_char(out, c);
            proof {
                assert(escaped_char(c) =~= seq![c]);
                assert(base + escaped(val@.take(i as int)) + seq![c] =~= base + (escaped(
                    val@.take(i as int),
                ) + escaped_char(c)));
            }
        }
        proof {
            assert(base + escaped(val@.take(i as int)) + escaped_char(c) =~= base + (escaped(
                val@.take(i as int),
            ) + escaped_char(c)));
        }
        i = i + 1;
    }
    proof {
        assert(val@.take(val@.len() as int) =~= val@);
    }
}

/// A single-quoted, escaped attribute value.
pub open spec fn quoted(s: Seq<char>) -> Seq<char> {
    seq!['\''] + escaped(s) + seq!['\'']
}

/// Appends `'escaped'` to `out`.
pub fn attr_escape_value(out: &mut String, val: &str)
    ensures
        final(out)@ == old(out)@ + quoted(val@),
{
    strutil::push_char(out, '\'');
    escape(out, val);
    strutil::push_char(out, '\'');
    proof {
        assert(old(out)@ + quoted(val@) =~= ((old(out)@ + seq!['\'']) + escaped(val@)).push('\''));
    }
}

/// The decimal digit characters of `n`.
pub open spec fn dec_str(n: nat) -> Seq<char>
    decreases n,
{
    if n < 10 {
        seq![dec_digit(n)]
    } else {
        dec_str(n / 10).push(dec_digit(n % 10))
    }
}

/// One decimal digit as a character.
pub open spec fn dec_digit(d: nat) -> char {
    if d == 0 {
        '0'
    } else if d == 1 {
        '1'
    } else if d == 2 {
        '2'
    } else if d == 3 {
        '3'
    } else if d == 4 {
        '4'
    } else if d == 5 {
        '5'
    } else if d == 6 {
        '6'
    } else if d == 7 {
        '7'
    } else if d == 8 {
        '8'
    } else {
        '9'
    }
}

/// Writes `n` in decimal.
pub fn usize_to_string(n: usize) -> (r: String)
    ensures
        r@ == dec_str(n as nat),
{
    let mut digits: Vec<char> = Vec::new();
    let mut m = n;
    proof {
        assert(dec_str(n as nat) + digits@ =~= dec_str(n as nat));
    }
    loop
        invariant
            dec_str(n as nat) == dec_str(m as nat) + digits@,
        ensures
            m < 10,
            dec_str(n as nat) == dec_str(m as nat) + digits@,
        decreases m,
    {
        proof {
            if m >= 10 {
                assert(dec_str(m as nat) =~= dec_str((m as nat) / 10).push(
                    dec_digit((m as nat) % 10),
                ));
                assert(dec_str((m / 10) as nat) + (seq![dec_digit((m as nat) % 10)] + digits@)
                    =~= dec_str(m as nat) + digits@);
            }
        }
        if m < 10 {
            break ;
        }
        let d = m % 10;
        let c = digit_char(d);
        digits.insert(0, c);
        m = m / 10;
    }
    let c0 = digit_char(m);
    let mut r = String::new();
    strutil::push_char(&mut r, c0);
    proof {
        assert(dec_str(m as nat) =~= seq![dec_digit(m as nat)]);
        assert(r@ =~= dec_str(m as nat));
    }
    let mut i: usize = 0;
    while i < digits.len()
        invariant
            i <= digits@.len(),
            m < 10,
            dec_str(n as nat) == dec_str(m as nat) + digits@,
            r@ == dec_str(m as nat) + digits@.take(i as int),
        decreases digits@.len() - i,
    {
        strutil::push_char(&mut r, digits[i]);
        proof {
            assert(dec_str(m as nat) + digits@.take(i + 1) =~= (dec_str(m as nat) + digits@.take(
                i as int,
            )).push(digits@[i as int]));
        }
        i = i + 1;
    }
    proof {
        assert(digits@.take(digits@.len() as int) =~= digits@);
    }
    r
}

/// One decimal digit as an executable character.
fn digit_char(d: usize) -> (r: char)
    requires
        d < 10,
    ensures
        r == dec_digit(d as nat),
{
    if d == 0 {
        '0'
    } else if d == 1 {
        '1'
    } else if d == 2 {
        '2'
    } else if d == 3 {
        '3'
    } else if d == 4 {
        '4'
    } else if d == 5 {
        '5'
    } else if d == 6 {
        '6'
    } else if d == 7 {
        '7'
    } else if d == 8 {
        '8'
    } else {
        '9'
    }
}

/// The synthetic prefix used for the `nsid`-th namespaced attribute.
pub open spec fn tmp_prefix(nsid: nat) -> Seq<char> {
    seq!['p', 'r', 'o', 's', 'o', 'd', 'y', '-', 't', 'm', 'p', '-', 'n', 's'] + dec_str(nsid)
}

/// What one attribute contributes to the output, and the next prefix
/// counter: a bare key becomes ` key='value'`; a key in storage form gets a
/// fresh prefix, declared inline.
pub open spec fn attr_chunk(name: Seq<char>, val: Seq<char>, nsid: nat) -> (Seq<char>, nat) {
    let d = find_delim(name);
    if d >= 0 {
        (
            seq![' '] + seq!['x', 'm', 'l', 'n', 's', ':'] + tmp_prefix(nsid) + seq!['='] + quoted(
                name.take(d),
            ) + seq![' '] + tmp_prefix(nsid) + seq![':'] + name.skip(d + 1) + seq!['='] + quoted(
                val,
            ),
            nsid + 1,
        )
    } else {
        (seq![' '] + name + seq!['='] + quoted(val), nsid)
    }
}

/// Appends one attribute; namespaced keys get a synthetic prefix.
#[verifier::loop_isolation(false)]
pub fn attr_escape(out: &mut String, name: &str, val: &str, nsid: &mut usize)
    requires
        *old(nsid) < usize::MAX,
    ensures
        final(out)@ == old(out)@ + attr_chunk(name@, val@, *old(nsid) as nat).0,
        *final(nsid) == attr_chunk(name@, val@, *old(nsid) as nat).1,
{
    proof {
        reveal_strlit("prosody-tmp-ns");
        reveal_strlit("xmlns:");
        assert("prosody-tmp-ns"@ =~= seq![
            'p',
            'r',
            'o',
            's',
            'o',
            'd',
            'y',
            '-',
            't',
            'm',
            'p',
            '-',
            'n',
            's',
        ]);
        assert("xmlns:"@ =~= seq!['x', 'm', 'l', 'n', 's', ':']);
    }
    let cs = strutil::str_chars(name);
    let nlen = cs.len();
    match crate::attrstr::find_delim_exec(&cs) {
        Some(d) => {
            proof {
                crate::attrstr::lemma_find_delim(name@);
                assert(d < nlen);
            }
            let xmlns = strutil::chars_range_to_string(&cs, 0, d);
            let local = strutil::chars_range_to_string(&cs, d + 1, nlen);
            let prefix = usize_to_string(*nsid);
            strutil::push_char(out, ' ');
            vstd::string::StringExecFns::append(out, "xmlns:");
            vstd::string::StringExecFns::append(out, "prosody-tmp-ns");
            vstd::string::StringExecFns::append(out, prefix.as_str());
            strutil::push_char(out, '=');
            attr_escape_value(out, xmlns.as_str());
            strutil::push_char(out, ' ');
            vstd::string::StringExecFns::append(out, "prosody-tmp-ns");
            vstd::string::StringExecFns::append(out, prefix.as_str());
            strutil::push_char(out, ':');
            vstd::string::StringExecFns::append(out, local.as_str());
            strutil::push_char(out, '=');
            attr_escape_value(out, val);
            *nsid = *nsid + 1;
            proof {
                assert(xmlns@ =~= name@.take(d as int));
                assert(local@ =~= name@.skip(d + 1));
                assert(final(out)@ =~= old(out)@ + attr_chunk(name@, val@, *old(nsid) as nat).0);
            }
        },
        None => {
            strutil::push_char(out, ' ');
            vstd::string::StringExecFns::append(out, name);
            strutil::push_char(out, '=');
            attr_escape_value(out, val);
            proof {
                assert(final(out)@ =~= old(out)@ + attr_chunk(name@, val@, *old(nsid) as nat).0);
            }
        },
    }
}

/// What a whole attribute list contributes, in order.
pub open spec fn attrs_chunk(entries: Seq<(String, String)>, nsid: nat) -> (Seq<char>, nat)
    decreases entries.len(),
{
    if entries.len() == 0 {
        (Seq::empty(), nsid)
    } else {
        let first = attr_chunk(entries[0].0@, entries[0].1@, nsid);
        let rest = attrs_chunk(entries.drop_first(), first.1);
        (first.0 + rest.0, rest.1)
    }
}

/// Appending one attribute at the end extends the chunk at the end.
proof fn lemma_attrs_chunk_take(entries: Seq<(String, String)>, i: int, nsid: nat)
    requires
        0 <= i < entries.len(),
    ensures
        ({
            let upto = attrs_chunk(entries.take(i), nsid);
            let one = attr_chunk(entries[i].0@, entries[i].1@, upto.1);
            attrs_chunk(entries.take(i + 1), nsid) == (upto.0 + one.0, one.1)
        }),
    decreases i,
{
    if i == 0 {
        assert(entries.take(1)[0] == entries[0]);
        assert(entries.take(1).drop_first() =~= entries.take(0));
        let one = attr_chunk(entries[0].0@, entries[0].1@, nsid);
        assert(attrs_chunk(entries.take(0), one.1).0 =~= Seq::<char>::empty());
        assert(one.0 + Seq::<char>::empty() =~= one.0);
        assert(Seq::<char>::empty() + one.0 =~= one.0);
    } else {
        let first = attr_chunk(entries[0].0@, entries[0].1@, nsid);
        assert(entries.take(i + 1)[0] == entries[0]);
        assert(entries.take(i)[0] == entries[0]);
        assert(entries.take(i + 1).drop_first() =~= entries.drop_first().take(i));
        assert(entries.take(i).drop_first() =~= entries.drop_first().take(i - 1));
        assert(entries.drop_first()[i - 1] == entries[i]);
        lemma_attrs_chunk_take(entries.drop_first(), i - 1, first.1);
        let upto = attrs_chunk(entries.drop_first().take(i - 1), first.1);
        let one = attr_chunk(entries[i].0@, entries[i].1@, upto.1);
        assert(first.0 + (upto.0 + one.0) =~= (first.0 + upto.0) + one.0);
    }
}

/// Appends every attribute of the mapping, in storage order.
#[verifier::loop_isolation(false)]
pub fn attrs_escape(out: &mut String, attr: &crate::attrstr::AttributeMap, nsid: &mut usize)
    requires
        attr@.len() <= usize::MAX - *old(nsid),
    ensures
        final(out)@ == old(out)@ + attrs_chunk(attr@, *old(nsid) as nat).0,
        *final(nsid) == attrs_chunk(attr@, *old(nsid) as nat).1,
{
    let ghost base = out@;
    let ghost n0 = *nsid as nat;
    let mut i: usize = 0;
    proof {
        assert(base + attrs_chunk(attr@.take(0), n0).0 =~= base);
        lemma_attrs_chunk_bound(attr@.take(0), n0);
    }
    while i < attr.len()
        invariant
            i <= attr@.len(),
            out@ == base + attrs_chunk(attr@.take(i as int), n0).0,
            *nsid as nat == attrs_chunk(attr@.take(i as int), n0).1,
            attrs_chunk(attr@.take(i as int), n0).1 <= n0 + i,
        decreases attr@.len() - i,
    {
        proof {
            lemma_attrs_chunk_take(attr@, i as int, n0);
        }
        let name = attr.key_at(i).clone();
        let val = attr.value_at(i).clone();
        attr_escape(out, name.as_str(), val.as_str(), nsid);
        proof {
            assert(base + attrs_chunk(attr@.take(i as int), n0).0 + attr_chunk(
                attr@[i as int].0@,
                attr@[i as int].1@,
                attrs_chunk(attr@.take(i as int), n0).1,
            ).0 =~= base + attrs_chunk(attr@.take(i + 1), n0).0);
        }
        i = i + 1;
    }
    proof {
        assert(attr@.take(attr@.len() as int) =~= attr@);
    }
}

/// The prefix counter grows by at most one per attribute.
proof fn lemma_attrs_chunk_bound(entries: Seq<(String, String)>, nsid: nat)
    ensures
        attrs_chunk(entries, nsid).1 <= nsid + entries.len(),
    decreases entries.len(),
{
    if entries.len() > 0 {
        let first = attr_chunk(entries[0].0@, entries[0].1@, nsid);
        lemma_attrs_chunk_bound(entries.drop_first(), first.1);
    }
}

} // verus!

verus! {

/// The view of an optional namespace string.
pub open spec fn ns_view(x: Option<String>) -> Option<Seq<char>> {
    match x {
        Option::Some(v) => Some(v@),
        Option::None => None,
    }
}

/// A plain `xmlns='…'` attribute.
pub open spec fn xmlns_chunk(u: Seq<char>) -> Seq<char> {
    seq![' ', 'x', 'm', 'l', 'n', 's', '='] + quoted(u)
}

/// What the element's namespace declaration emits, and which namespace its
/// children then inherit. An element whose namespace differs from the
/// context redeclares it; an element with an absent namespace under a
/// non-empty context re-emits the context's URI, matching prosody's
/// physical representation.
pub open spec fn ns_chunk(nsuri: Option<Seq<char>>, parent_ns: Option<Seq<char>>) -> (
    Seq<char>,
    Option<Seq<char>>,
) {
    if nsuri == parent_ns {
        (Seq::empty(), nsuri)
    } else {
        match nsuri {
            Option::Some(u) => (xmlns_chunk(u), Some(u)),
            Option::None => match parent_ns {
                Option::Some(p) => (xmlns_chunk(p), Some(p)),
                Option::None => (Seq::empty(), None),
            },
        }
    }
}

/// The compact (unindented) serialization of the element in a namespace
/// context.
pub open spec fn xml_compact(s: Seq<Element>, id: int, parent_ns: Option<Seq<char>>) -> Seq<char>
    decreases tree::height(s, id), s[id].children.all@.len() + 1,
    when tree::wf_local(s) && tree::acyclic(s) && tree::valid_id(s, id)
    via xml_compact_decreases
{
    let e = s[id];
    let nsr = ns_chunk(ns_view(e.nsuri), parent_ns);
    let head = seq!['<'] + e.localname@ + nsr.0 + attrs_chunk(e.attr@, 0).0;
    if e.children.all@.len() == 0 {
        head + seq!['/', '>']
    } else {
        head + seq!['>'] + xml_nodes(s, id, nsr.1, e.children.all@.len() as int) + seq!['<', '/']
            + e.localname@ + seq!['>']
    }
}

/// The concatenated serialization of the first `k` children.
pub open spec fn xml_nodes(s: Seq<Element>, id: int, assumed: Option<Seq<char>>, k: int) -> Seq<
    char,
>
    decreases tree::height(s, id), k,
    when tree::wf_local(s) && tree::acyclic(s) && tree::valid_id(s, id) && k
        <= s[id].children.all@.len()
    via xml_nodes_decreases
{
    if k <= 0 {
        Seq::empty()
    } else {
        xml_nodes(s, id, assumed, k - 1) + match s[id].children.all@[k - 1] {
            Node::Text(t) => escaped(t@),
            Node::Element(c) => xml_compact(s, c.0 as int, assumed),
        }
    }
}

#[via_fn]
proof fn xml_compact_decreases(s: Seq<Element>, id: int, parent_ns: Option<Seq<char>>) {
}

#[via_fn]
proof fn xml_nodes_decreases(s: Seq<Element>, id: int, assumed: Option<Seq<char>>, k: int) {
    if k > 0 {
        match s[id].children.all@[k - 1] {
            Node::Element(c) => {
                assert(tree::is_edge(s, id, c.0 as int));
                tree::lemma_height_child_lt(s, id, c.0 as int);
            },
            _ => {},
        }
    }
}

/// The literals of the serializer, spelled out.
proof fn lemma_xml_literals()
    ensures
        "xmlns"@ == seq!['x', 'm', 'l', 'n', 's'],
        "/>"@ == seq!['/', '>'],
        "</"@ == seq!['<', '/'],
        crate::attrstr::find_delim(seq!['x', 'm', 'l', 'n', 's']) == -1,
{
    reveal_strlit("xmlns");
    reveal_strlit("/>");
    reveal_strlit("</");
    assert("xmlns"@ =~= seq!['x', 'm', 'l', 'n', 's']);
    assert("/>"@ =~= seq!['/', '>']);
    assert("</"@ =~= seq!['<', '/']);
    assert forall|i: int|
        0 <= i < seq!['x', 'm', 'l', 'n', 's'].len() implies seq!['x', 'm', 'l', 'n', 's'][i]
        != '\u{1}' by {}
    crate::attrstr::lemma_find_delim(seq!['x', 'm', 'l', 'n', 's']);
    if crate::attrstr::find_delim(seq!['x', 'm', 'l', 'n', 's']) >= 0 {
        assert(false);
    }
}

/// Emits the `xmlns` declaration for URI `u`.
fn emit_xmlns(out: &mut String, u: &str)
    ensures
        final(out)@ == old(out)@ + xmlns_chunk(u@),
{
    let mut nsid: usize = 0;
    proof {
        lemma_xml_literals();
    }
    attr_escape(out, "xmlns", u, &mut nsid);
    proof {
        assert(attr_chunk("xmlns"@, u@, 0).0 =~= xmlns_chunk(u@));
    }
}

/// Emits the start of an element's tag: `<name`, the namespace
/// declaration the context calls for, and the attributes. Returns the
/// namespace the children inherit.
#[verifier::rlimit(60)]
fn emit_tag_open(
    store: &ElementStore,
    id: ElementPtr,
    parent_ns: &Option<String>,
    out: &mut String,
) -> (assumed: Option<String>)
    requires
        store.wf(),
        store.valid(id),
    ensures
        final(out)@ == old(out)@ + seq!['<'] + store@[id.0 as int].localname@ + ns_chunk(
            ns_view(store@[id.0 as int].nsuri),
            ns_view(*parent_ns),
        ).0 + attrs_chunk(store@[id.0 as int].attr@, 0).0,
        ns_view(assumed) == ns_chunk(ns_view(store@[id.0 as int].nsuri), ns_view(*parent_ns)).1,
{
    proof {
        assert(tree::wf_element(store@.len() as int, store@[id.0 as int]));
    }
    let ghost e = store@[id.0 as int];
    let ghost nsr = ns_chunk(ns_view(e.nsuri), ns_view(*parent_ns));
    strutil::push_char(out, '<');
    vstd::string::StringExecFns::append(out, store.element(id).localname.as_str());
    // namespace declaration and the namespace the children inherit
    let assumed: Option<String> = match (&store.element(id).nsuri, parent_ns) {
        (Some(u), Some(p)) => {
            if strutil::str_eq(u.as_str(), p.as_str()) {
                Some(u.clone())
            } else {
                emit_xmlns(out, u.as_str());
                Some(u.clone())
            }
        },
        (Some(u), None) => {
            emit_xmlns(out, u.as_str());
            Some(u.clone())
        },
        (None, Some(p)) => {
            emit_xmlns(out, p.as_str());
            Some(p.clone())
        },
        (None, None) => None,
    };
    proof {
        assert(ns_view(assumed) == nsr.1);
        assert(out@ == old(out)@ + seq!['<'] + e.localname@ + nsr.0);
    }
    let mut nsid: usize = 0;
    let attr_count = store.element(id).attr.len();
    proof {
        assert(store@[id.0 as int].attr@.len() == attr_count);
    }
    attrs_escape(out, &store.element(id).attr, &mut nsid);
    assumed
}

/// Writes the compact serialization of the element under the given
/// namespace context.
#[verifier::loop_isolation(false)]
#[verifier::rlimit(80)]
pub fn format_compact(
    store: &ElementStore,
    id: ElementPtr,
    parent_ns: &Option<String>,
    out: &mut String,
)
    requires
        store.wf(),
        store.valid(id),
    ensures
        final(out)@ == old(out)@ + xml_compact(store@, id.0 as int, ns_view(*parent_ns)),
    decreases tree::height(store@, id.0 as int),
{
    proof {
        lemma_xml_literals();
        assert(tree::wf_element(store@.len() as int, store@[id.0 as int]));
    }
    let ghost e = store@[id.0 as int];
    let ghost nsr = ns_chunk(ns_view(e.nsuri), ns_view(*parent_ns));
    let assumed = emit_tag_open(store, id, parent_ns, out);
    let ghost head = old(out)@ + seq!['<'] + e.localname@ + nsr.0 + attrs_chunk(e.attr@, 0).0;
    proof {
        assert(out@ =~= head);
    }
    let n = store.element(id).children.len();
    if n == 0 {
        vstd::string::StringExecFns::append(out, "/>");
        proof {
            assert(final(out)@ =~= old(out)@ + xml_compact(store@, id.0 as int, ns_view(*parent_ns)));
        }
        return ;
    }
    strutil::push_char(out, '>');
    let mut j: usize = 0;
    proof {
        assert(out@ =~= head + seq!['>'] + xml_nodes(store@, id.0 as int, nsr.1, 0));
    }
    while j < n
        invariant
            j <= n,
            out@ == head + seq!['>'] + xml_nodes(store@, id.0 as int, nsr.1, j as int),
        decreases n - j,
    {
        let ghost before = out@;
        match store.element(id).children.get(j) {
            Some(Node::Text(t)) => {
                let tcopy = t.clone();
                escape(out, tcopy.as_str());
            },
            Some(Node::Element(c)) => {
                let cc = *c;
                proof {
                    assert(tree::wf_node(store@.len() as int, store@[id.0 as int].children.all@[j as int]));
                    assert(tree::is_edge(store@, id.0 as int, cc.0 as int));
                    tree::lemma_height_child_lt(store@, id.0 as int, cc.0 as int);
                }
                format_compact(store, cc, &assumed, out);
            },
            None => {
                proof {
                    assert(false);
                }
            },
        }
        proof {
            assert(out@ =~= head + seq!['>'] + xml_nodes(store@, id.0 as int, nsr.1, j + 1));
        }
        j = j + 1;
    }
    vstd::string::StringExecFns::append(out, "</");
    vstd::string::StringExecFns::append(out, store.element(id).localname.as_str());
    strutil::push_char(out, '>');
    proof {
        assert(final(out)@ =~= old(out)@ + xml_compact(store@, id.0 as int, ns_view(*parent_ns)));
    }
}

/// The opening tag alone: name, namespace declaration if any, attributes,
/// and the closing `>`.
pub open spec fn head_str(e: Element) -> Seq<char> {
    let nsch = match ns_view(e.nsuri) {
        Option::Some(u) => xmlns_chunk(u),
        Option::None => Seq::<char>::empty(),
    };
    seq!['<'] + e.localname@ + nsch + attrs_chunk(e.attr@, 0).0 + seq!['>']
}

/// Serializes only the opening tag of the element, used to reproduce a
/// stream header on the wire.
pub fn head_as_str(store: &ElementStore, el: ElementPtr) -> (r: String)
    requires
        store.wf(),
        store.valid(el),
    ensures
        r@ == head_str(store@[el.0 as int]),
{
    let mut out = String::new();
    strutil::push_char(&mut out, '<');
    vstd::string::StringExecFns::append(&mut out, store.element(el).localname.as_str());
    match &store.element(el).nsuri {
        Some(u) => {
            emit_xmlns(&mut out, u.as_str());
        },
        None => {},
    }
    let mut nsid: usize = 0;
    let attr_count = store.element(el).attr.len();
    proof {
        assert(store@[el.0 as int].attr@.len() == attr_count);
    }
    attrs_escape(&mut out, &store.element(el).attr, &mut nsid);
    strutil::push_char(&mut out, '>');
    proof {
        assert(out@ =~= head_str(store@[el.0 as int]));
    }
    out
}

/// The Unicode White_Space code points: the characters the indented
/// formatter treats as layout when a text child holds nothing else.
pub open spec fn is_whitespace_char(c: char) -> bool {
    let v = c as u32;
    (0x9 <= v <= 0xd) || v == 0x20 || v == 0x85 || v == 0xa0 || v == 0x1680 || (0x2000 <= v
        <= 0x200a) || v == 0x2028 || v == 0x2029 || v == 0x202f || v == 0x205f || v == 0x3000
}

/// Checks one character against the White_Space set.
fn char_is_whitespace(c: char) -> (r: bool)
    ensures
        r == is_whitespace_char(c),
{
    let v = c as u32;
    (0x9 <= v && v <= 0xd) || v == 0x20 || v == 0x85 || v == 0xa0 || v == 0x1680 || (0x2000 <= v
        && v <= 0x200a) || v == 0x2028 || v == 0x2029 || v == 0x202f || v == 0x205f || v == 0x3000
}

/// `s` repeated `n` times.
pub open spec fn rep(s: Seq<char>, n: nat) -> Seq<char>
    decreases n,
{
    if n == 0 {
        Seq::empty()
    } else {
        rep(s, (n - 1) as nat) + s
    }
}

/// Repeats a string `n` times.
#[verifier::loop_isolation(false)]
fn repeat_str(s: &str, n: usize) -> (r: String)
    ensures
        r@ == rep(s@, n as nat),
{
    let mut r = String::new();
    proof {
        assert(r@ =~= rep(s@, 0));
    }
    let mut i: usize = 0;
    while i < n
        invariant
            i <= n,
            r@ == rep(s@, i as nat),
        decreases n - i,
    {
        vstd::string::StringExecFns::append(&mut r, s);
        i = i + 1;
    }
    r
}

/// Every character of the run is whitespace.
pub open spec fn ws_only(s: Seq<char>) -> bool {
    forall|i: int| 0 <= i < s.len() ==> is_whitespace_char(#[trigger] s[i])
}

/// The indented serialization of the element: the opening tag as in the
/// compact form; an only-text child stays inline and is written verbatim,
/// without escaping; otherwise each child that is not whitespace-only text
/// goes on a fresh line, one indent step deeper, with the closing tag
/// dedented. The indent depth saturates at the machine limit.
pub open spec fn xml_indented(
    s: Seq<Element>,
    id: int,
    parent_ns: Option<Seq<char>>,
    indent: Seq<char>,
    newline: Seq<char>,
    depth: int,
) -> Seq<char>
    decreases tree::height(s, id), s[id].children.all@.len() + 1,
    when tree::wf_local(s) && tree::acyclic(s) && tree::valid_id(s, id)
    via xml_indented_decreases
{
    let e = s[id];
    let nsr = ns_chunk(ns_view(e.nsuri), parent_ns);
    let head = seq!['<'] + e.localname@ + nsr.0 + attrs_chunk(e.attr@, 0).0;
    if e.children.all@.len() == 0 {
        head + seq!['/', '>']
    } else if e.children.all@.len() == 1 && e.children.all@[0] is Text {
        head + seq!['>'] + e.children.all@[0]->Text_0@ + seq!['<', '/'] + e.localname@ + seq!['>']
    } else {
        head + seq!['>'] + xml_ind_nodes(
            s,
            id,
            nsr.1,
            indent,
            newline,
            depth,
            e.children.all@.len() as int,
        ) + newline + rep(indent, depth as nat) + seq!['<', '/'] + e.localname@ + seq!['>']
    }
}

/// The indented rendering of the first `k` children; whitespace-only text
/// children are skipped.
pub open spec fn xml_ind_nodes(
    s: Seq<Element>,
    id: int,
    assumed: Option<Seq<char>>,
    indent: Seq<char>,
    newline: Seq<char>,
    depth: int,
    k: int,
) -> Seq<char>
    decreases tree::height(s, id), k,
    when tree::wf_local(s) && tree::acyclic(s) && tree::valid_id(s, id) && k
        <= s[id].children.all@.len()
    via xml_ind_nodes_decreases
{
    if k <= 0 {
        Seq::empty()
    } else {
        let nd = if depth < usize::MAX {
            depth + 1
        } else {
            depth
        };
        xml_ind_nodes(s, id, assumed, indent, newline, depth, k - 1) + match s[id].children.all@[k
            - 1] {
            Node::Text(t) => if ws_only(t@) {
                Seq::empty()
            } else {
                newline + rep(indent, nd as nat) + escaped(t@)
            },
            Node::Element(c) => newline + rep(indent, nd as nat) + xml_indented(
                s,
                c.0 as int,
                assumed,
                indent,
                newline,
                nd,
            ),
        }
    }
}

#[via_fn]
proof fn xml_indented_decreases(
    s: Seq<Element>,
    id: int,
    parent_ns: Option<Seq<char>>,
    indent: Seq<char>,
    newline: Seq<char>,
    depth: int,
) {
}

#[via_fn]
proof fn xml_ind_nodes_decreases(
    s: Seq<Element>,
    id: int,
    assumed: Option<Seq<char>>,
    indent: Seq<char>,
    newline: Seq<char>,
    depth: int,
    k: int,
) {
    if k > 0 {
        match s[id].children.all@[k - 1] {
            Node::Element(c) => {
                assert(tree::is_edge(s, id, c.0 as int));
                tree::lemma_height_child_lt(s, id, c.0 as int);
            },
            _ => {},
        }
    }
}

/// An indent-aware serializer. Without an indent string it writes the
/// compact form; with one, children move to fresh, indented lines, except
/// an only-text child, which stays inline and unescaped.
#[derive(Debug)]
pub struct Formatter {
    pub indent: Option<String>,
    pub initial_level: usize,
}

/// The newline prefix the indented mode uses between children: a line
/// break followed by the indent repeated for the configured initial level.
pub open spec fn initial_newline(indent: Seq<char>, initial_level: int) -> Seq<char> {
    seq!['\n'] + rep(
        indent,
        if initial_level <= 1 {
            0nat
        } else {
            (initial_level - 1) as nat
        },
    )
}

impl Formatter {
    /// Appends the serialized element to `out`: the canonical compact form
    /// without an indent string, the indented form with one.
    pub fn format_into(&self, store: &ElementStore, el: ElementPtr, out: &mut String)
        requires
            store.wf(),
            store.valid(el),
        ensures
            self.indent is None ==> final(out)@ == old(out)@ + xml_compact(
                store@,
                el.0 as int,
                None,
            ),
            self.indent matches Some(ind) ==> final(out)@ == old(out)@ + xml_indented(
                store@,
                el.0 as int,
                None,
                ind@,
                initial_newline(ind@, self.initial_level as int),
                0,
            ),
    {
        match &self.indent {
            None => {
                format_compact(store, el, &None, out);
            },
            Some(ind) => {
                let level = if self.initial_level <= 1 {
                    0
                } else {
                    self.initial_level - 1
                };
                let mut newline = String::new();
                strutil::push_char(&mut newline, '\n');
                let stepin = repeat_str(ind.as_str(), level);
                vstd::string::StringExecFns::append(&mut newline, stepin.as_str());
                proof {
                    assert(newline@ =~= initial_newline(ind@, self.initial_level as int));
                }
                format_indented(store, el, &None, ind, &newline, 0, out);
            },
        }
    }

    /// The serialized element as a string: compact or indented per the
    /// configuration.
    pub fn format(&self, store: &ElementStore, el: ElementPtr) -> (r: String)
        requires
            store.wf(),
            store.valid(el),
        ensures
            self.indent is None ==> r@ == xml_compact(store@, el.0 as int, None),
            self.indent matches Some(ind) ==> r@ == xml_indented(
                store@,
                el.0 as int,
                None,
                ind@,
                initial_newline(ind@, self.initial_level as int),
                0,
            ),
    {
        let mut buf = String::new();
        self.format_into(store, el, &mut buf);
        buf
    }
}

/// Writes the indented serialization of the element under the given
/// namespace context.
#[verifier::loop_isolation(false)]
#[verifier::rlimit(60)]
fn format_indented(
    store: &ElementStore,
    id: ElementPtr,
    parent_ns: &Option<String>,
    indent: &str,
    newline: &str,
    depth: usize,
    out: &mut String,
)
    requires
        store.wf(),
        store.valid(id),
    ensures
        final(out)@ == old(out)@ + xml_indented(
            store@,
            id.0 as int,
            ns_view(*parent_ns),
            indent@,
            newline@,
            depth as int,
        ),
    decreases tree::height(store@, id.0 as int), 1int,
{
    proof {
        lemma_xml_literals();
        assert(tree::wf_element(store@.len() as int, store@[id.0 as int]));
    }
    let ghost e = store@[id.0 as int];
    let ghost nsr = ns_chunk(ns_view(e.nsuri), ns_view(*parent_ns));
    let assumed = emit_tag_open(store, id, parent_ns, out);
    let ghost head = old(out)@ + seq!['<'] + e.localname@ + nsr.0 + attrs_chunk(e.attr@, 0).0;
    proof {
        assert(out@ =~= head);
    }
    let n = store.element(id).children.len();
    if n == 0 {
        vstd::string::StringExecFns::append(out, "/>");
        proof {
            assert(final(out)@ =~= old(out)@ + xml_indented(
                store@,
                id.0 as int,
                ns_view(*parent_ns),
                indent@,
                newline@,
                depth as int,
            ));
        }
        return ;
    }
    strutil::push_char(out, '>');
    let single_text = n == 1 && store.element(id).children.element_indices.len() == 0;
    if single_text {
        match store.element(id).children.get(0) {
            Some(Node::Text(t)) => {
                let tcopy = t.clone();
                vstd::string::StringExecFns::append(out, tcopy.as_str());
                proof {
                    assert(out@ =~= head + seq!['>'] + e.children.all@[0]->Text_0@);
                }
            },
            _ => {
                proof {
                    lemma_single_text(store@, id.0 as int);
                    assert(false);
                }
            },
        }
        vstd::string::StringExecFns::append(out, "</");
        vstd::string::StringExecFns::append(out, store.element(id).localname.as_str());
        strutil::push_char(out, '>');
        proof {
            assert(final(out)@ =~= old(out)@ + xml_indented(
                store@,
                id.0 as int,
                ns_view(*parent_ns),
                indent@,
                newline@,
                depth as int,
            ));
        }
        return ;
    }
    proof {
        // more than one child, or the only child is an element
        if n == 1 && e.children.all@[0] is Text {
            assert(e.children.all@.drop_last() =~= Seq::<Node>::empty());
            assert(tree::elem_positions(Seq::<Node>::empty()) =~= Seq::<usize>::empty());
            assert(e.children.all@.last() == e.children.all@[0]);
            assert(tree::elem_positions(e.children.all@) =~= Seq::<usize>::empty());
            assert(false);
        }
    }
    format_indented_nodes(store, id, &assumed, indent, newline, depth, out);
    vstd::string::StringExecFns::append(out, newline);
    let dedent = repeat_str(indent, depth);
    vstd::string::StringExecFns::append(out, dedent.as_str());
    proof {
        assert(out@ =~= head + seq!['>'] + xml_ind_nodes(
            store@,
            id.0 as int,
            nsr.1,
            indent@,
            newline@,
            depth as int,
            e.children.all@.len() as int,
        ) + newline@ + rep(indent@, depth as nat));
    }
    vstd::string::StringExecFns::append(out, "</");
    vstd::string::StringExecFns::append(out, store.element(id).localname.as_str());
    strutil::push_char(out, '>');
    proof {
        assert(final(out)@ =~= old(out)@ + xml_indented(
            store@,
            id.0 as int,
            ns_view(*parent_ns),
            indent@,
            newline@,
            depth as int,
        ));
    }
}

/// Writes the indented rendering of every child of the element.
#[verifier::loop_isolation(false)]
#[verifier::rlimit(80)]
fn format_indented_nodes(
    store: &ElementStore,
    id: ElementPtr,
    assumed: &Option<String>,
    indent: &str,
    newline: &str,
    depth: usize,
    out: &mut String,
)
    requires
        store.wf(),
        store.valid(id),
    ensures
        final(out)@ == old(out)@ + xml_ind_nodes(
            store@,
            id.0 as int,
            ns_view(*assumed),
            indent@,
            newline@,
            depth as int,
            store@[id.0 as int].children.all@.len() as int,
        ),
    decreases tree::height(store@, id.0 as int), 0int,
{
    proof {
        assert(tree::wf_element(store@.len() as int, store@[id.0 as int]));
    }
    let next_depth = if depth < usize::MAX {
        depth + 1
    } else {
        depth
    };
    let n = store.element(id).children.len();
    let mut j: usize = 0;
    let ghost base = out@;
    proof {
        assert(out@ =~= base + xml_ind_nodes(
            store@,
            id.0 as int,
            ns_view(*assumed),
            indent@,
            newline@,
            depth as int,
            0,
        ));
    }
    while j < n
        invariant
            j <= n,
            out@ == base + xml_ind_nodes(
                store@,
                id.0 as int,
                ns_view(*assumed),
                indent@,
                newline@,
                depth as int,
                j as int,
            ),
        decreases n - j,
    {
        let mut skip = false;
        match store.element(id).children.get(j) {
            Some(Node::Text(t)) => {
                skip = all_whitespace(t.as_str());
            },
            _ => {},
        }
        if !skip {
            vstd::string::StringExecFns::append(out, newline);
            let stepin = repeat_str(indent, next_depth);
            vstd::string::StringExecFns::append(out, stepin.as_str());
            match store.element(id).children.get(j) {
                Some(Node::Text(t)) => {
                    let tcopy = t.clone();
                    escape(out, tcopy.as_str());
                },
                Some(Node::Element(c)) => {
                    let cc = *c;
                    proof {
                        assert(tree::wf_node(
                            store@.len() as int,
                            store@[id.0 as int].children.all@[j as int],
                        ));
                        assert(tree::is_edge(store@, id.0 as int, cc.0 as int));
                        tree::lemma_height_child_lt(store@, id.0 as int, cc.0 as int);
                    }
                    format_indented(store, cc, assumed, indent, newline, next_depth, out);
                },
                None => {
                    proof {
                        assert(false);
                    }
                },
            }
        }
        proof {
            assert(out@ =~= base + xml_ind_nodes(
                store@,
                id.0 as int,
                ns_view(*assumed),
                indent@,
                newline@,
                depth as int,
                j + 1,
            ));
        }
        j = j + 1;
    }
}

/// With no recorded element positions, the only child of a well-formed
/// child list is a text node.
proof fn lemma_single_text(s: Seq<Element>, id: int)
    requires
        tree::wf_local(s),
        tree::valid_id(s, id),
        s[id].children.all@.len() == 1,
        s[id].children.element_indices@.len() == 0,
    ensures
        s[id].children.all@[0] is Text,
{
    assert(tree::wf_element(s.len() as int, s[id]));
    tree::lemma_elem_positions(s[id].children.all@);
    if s[id].children.all@[0] is Element {
        let i = choose|i: int|
            0 <= i < tree::elem_positions(s[id].children.all@).len() && (
            #[trigger] tree::elem_positions(s[id].children.all@)[i]) == 0;
        assert(false);
    }
}

/// True when every character of the string is whitespace.
#[verifier::loop_isolation(false)]
fn all_whitespace(s: &str) -> (r: bool)
    ensures
        r == (forall|i: int| 0 <= i < s@.len() ==> is_whitespace_char(#[trigger] s@[i])),
{
    let cs = strutil::str_chars(s);
    let mut i: usize = 0;
    while i < cs.len()
        invariant
            i <= s@.len(),
            cs@ == s@,
            forall|j: int| 0 <= j < i ==> is_whitespace_char(#[trigger] s@[j]),
        decreases s@.len() - i,
    {
        if !char_is_whitespace(cs[i]) {
            return false;
        }
        i = i + 1;
    }
    true
}

} // verus!
