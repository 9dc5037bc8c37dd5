//! Attribute keys and the attribute mapping of an element.
//!
//! An attribute key is stored in "storage form": either a bare local name,
//! or `<namespace-uri>\x01<local-name>` with the single byte 0x01 as the
//! delimiter. Keys starting with `xml:` or `xmlns:` get special treatment
//! for compatibility with prosody's conventions.
use vstd::prelude::*;

use crate::strutil;
use crate::validation;

verus! {

/// The namespace URI that `xml:` prefixed attribute keys stand for.
pub const XMLNS_XML: &'static str = "http://www.w3.org/XML/1998/namespace";

/// First index at which the key sequence `s` holds the 0x01 delimiter, or
/// -1 when there is none.
pub open spec fn find_delim(s: Seq<char>) -> int
    decreases s.len(),
{
    if s.len() == 0 {
        -1
    } else if s[0] == '\u{1}' {
        0
    } else {
        let r = find_delim(s.drop_first());
        if r < 0 {
            -1
        } else {
            r + 1
        }
    }
}

pub proof fn lemma_find_delim(s: Seq<char>)
    ensures
        find_delim(s) == -1 ==> (forall|i: int| 0 <= i < s.len() ==> s[i] != '\u{1}'),
        find_delim(s) >= 0 ==> {
            &&& find_delim(s) < s.len()
            &&& s[find_delim(s)] == '\u{1}'
            &&& forall|i: int| 0 <= i < find_delim(s) ==> s[i] != '\u{1}'
        },
    decreases s.len(),
{
    if s.len() > 0 && s[0] != '\u{1}' {
        lemma_find_delim(s.drop_first());
        assert forall|i: int| 1 <= i < s.len() implies s.drop_first()[i - 1] == s[i] by {}
    }
}

/// Well-formed storage form of an attribute key: either a bare XML name, or
/// a namespace URI (character data), the 0x01 delimiter, and an XML name.
pub open spec fn valid_attr_storage(s: Seq<char>) -> bool {
    if find_delim(s) < 0 {
        validation::valid_name(s)
    } else {
        let d = find_delim(s);
        &&& validation::valid_cdata(s.take(d))
        &&& validation::valid_name(s.skip(d + 1))
        &&& find_delim(s.skip(d + 1)) < 0
    }
}

/// An attribute mapping: an association list from storage-form keys to
/// values, with pairwise distinct keys, in insertion order.
#[derive(Debug, Clone)]
pub struct AttributeMap {
    pub entries: Vec<(String, String)>,
}

/// Index of the first entry with key `k`, or -1.
pub open spec fn find_key(s: Seq<(String, String)>, k: Seq<char>) -> int
    decreases s.len(),
{
    if s.len() == 0 {
        -1
    } else if s[0].0@ == k {
        0
    } else {
        let r = find_key(s.drop_first(), k);
        if r < 0 {
            -1
        } else {
            r + 1
        }
    }
}

pub proof fn lemma_find_key(s: Seq<(String, String)>, k: Seq<char>)
    ensures
        find_key(s, k) == -1 ==> (forall|i: int| 0 <= i < s.len() ==> (#[trigger] s[i]).0@ != k),
        find_key(s, k) >= 0 ==> {
            &&& find_key(s, k) < s.len()
            &&& s[find_key(s, k)].0@ == k
            &&& forall|i: int| 0 <= i < find_key(s, k) ==> (#[trigger] s[i]).0@ != k
        },
    decreases s.len(),
{
    if s.len() > 0 && s[0].0@ != k {
        lemma_find_key(s.drop_first(), k);
        assert forall|i: int| 1 <= i < s.len() implies s.drop_first()[i - 1] == s[i] by {}
    }
}

/// The value stored under key `k`, if any.
pub open spec fn attr_get(s: Seq<(String, String)>, k: Seq<char>) -> Option<Seq<char>> {
    if find_key(s, k) >= 0 {
        Some(s[find_key(s, k)].1@)
    } else {
        None
    }
}

/// The keys of `s` are pairwise distinct.
pub open spec fn unique_keys(s: Seq<(String, String)>) -> bool {
    forall|i: int, j: int|
        0 <= i < j < s.len() ==> (#[trigger] s[i]).0@ != (#[trigger] s[j]).0@
}

/// Every key of `s` is in well-formed storage form.
pub open spec fn attr_keys_valid(s: Seq<(String, String)>) -> bool {
    forall|i: int| 0 <= i < s.len() ==> valid_attr_storage((#[trigger] s[i]).0@)
}

impl View for AttributeMap {
    type V = Seq<(String, String)>;

    open spec fn view(&self) -> Seq<(String, String)> {
        self.entries@
    }
}

impl AttributeMap {
    /// Structural well-formedness of the mapping.
    pub open spec fn wf(self) -> bool {
        unique_keys(self@) && attr_keys_valid(self@)
    }

    /// The value under key `k`, as a specification-level lookup.
    pub open spec fn spec_get(self, k: Seq<char>) -> Option<Seq<char>> {
        attr_get(self@, k)
    }

    /// True when the mapping holds key `k`.
    pub open spec fn contains_key(self, k: Seq<char>) -> bool {
        find_key(self@, k) >= 0
    }

    /// An empty mapping.
    pub fn new() -> (r: AttributeMap)
        ensures
            r@ =~= Seq::<(String, String)>::empty(),
            r.wf(),
    {
        AttributeMap { entries: Vec::new() }
    }

    /// Number of entries.
    pub fn len(&self) -> (r: usize)
        ensures
            r == self@.len(),
    {
        self.entries.len()
    }

    /// True when there is no entry.
    pub fn is_empty(&self) -> (r: bool)
        ensures
            r == (self@.len() == 0),
    {
        self.entries.len() == 0
    }

    /// The key of the entry at position `i`.
    pub fn key_at(&self, i: usize) -> (r: &String)
        requires
            i < self@.len(),
        ensures
            r == self@[i as int].0,
    {
        &self.entries[i].0
    }

    /// The value of the entry at position `i`.
    pub fn value_at(&self, i: usize) -> (r: &String)
        requires
            i < self@.len(),
        ensures
            r == self@[i as int].1,
    {
        &self.entries[i].1
    }

    /// An equal copy of this mapping.
    #[verifier::loop_isolation(false)]
    pub fn duplicate(&self) -> (r: AttributeMap)
        ensures
            r@ == self@,
    {
        let mut entries: Vec<(String, String)> = Vec::new();
        let mut i: usize = 0;
        while i < self.entries.len()
            invariant
                i <= self@.len(),
                entries@ =~= self@.take(i as int),
            decreases self@.len() - i,
        {
            entries.push((self.entries[i].0.clone(), self.entries[i].1.clone()));
            i = i + 1;
        }
        proof {
            assert(self@.take(self@.len() as int) =~= self@);
        }
        AttributeMap { entries }
    }

    /// Looks the key up and returns the stored value, if any.
    #[verifier::loop_isolation(false)]
    pub fn get(&self, k: &str) -> (r: Option<&String>)
        ensures
            match r {
                Option::Some(v) => self.spec_get(k@) == Some(v@),
                Option::None => self.spec_get(k@) is None,
            },
    {
        let n = self.entries.len();
        let mut i: usize = 0;
        while i < n
            invariant
                i <= n,
                forall|j: int| 0 <= j < i ==> (#[trigger] self@[j]).0@ != k@,
            decreases n - i,
        {
            if strutil::str_eq(self.entries[i].0.as_str(), k) {
                proof {
                    lemma_find_key_unique(self@, k@, i as int);
                }
                return Some(&self.entries[i].1);
            }
            i = i + 1;
        }
        proof {
            lemma_find_key(self@, k@);
        }
        None
    }

    /// Inserts or replaces the value under key `k`. An existing entry keeps
    /// its position; a new key is appended at the end.
    #[verifier::loop_isolation(false)]
    pub fn insert(&mut self, k: String, v: String)
        requires
            old(self).wf(),
            valid_attr_storage(k@),
        ensures
            final(self).wf(),
            final(self).spec_get(k@) == Some(v@),
            forall|k2: Seq<char>|
                k2 != k@ ==> #[trigger] final(self).spec_get(k2) == old(self).spec_get(k2),
            if old(self).contains_key(k@) {
                final(self)@.len() == old(self)@.len() && final(self)@ =~= old(self)@.update(
                    find_key(old(self)@, k@),
                    (k, v),
                )
            } else {
                final(self)@ =~= old(self)@.push((k, v))
            },
    {
        let ghost s0 = self@;
        let ghost kv = k@;
        let n = self.entries.len();
        let mut i: usize = 0;
        while i < n
            invariant
                self@ == s0,
                i <= n,
                forall|j: int| 0 <= j < i ==> (#[trigger] self@[j]).0@ != kv,
            decreases n - i,
        {
            if strutil::str_eq(self.entries[i].0.as_str(), k.as_str()) {
                proof {
                    lemma_find_key_unique(s0, kv, i as int);
                }
                let _ = self.entries.remove(i);
                self.entries.insert(i, (k, v));
                proof {
                    let s1 = self@;
                    assert(s1 =~= s0.update(i as int, s1[i as int]));
                    assert(s1[i as int].0@ == kv);
                    lemma_update_preserves(s0, s1, i as int, kv);
                    assert(attr_keys_valid(s1)) by {
                        assert forall|j: int| 0 <= j < s1.len() implies valid_attr_storage(
                            (#[trigger] s1[j]).0@,
                        ) by {
                            if j != i {
                                assert(s1[j] == s0[j]);
                            } else {
                                assert(s1[j].0@ == kv);
                            }
                        }
                    }
                }
                return ;
            }
            i = i + 1;
        }
        proof {
            lemma_find_key(s0, kv);
        }
        self.entries.push((k, v));
        proof {
            let s1 = self@;
            assert(s1 =~= s0.push((k, v)));
            lemma_append_one(s0, (k, v));
            assert(unique_keys(s1)) by {
                assert forall|a: int, b: int| 0 <= a < b < s1.len() implies (
                #[trigger] s1[a]).0@ != (#[trigger] s1[b]).0@ by {
                    if b == s1.len() - 1 {
                        assert(s1[a] == s0[a]);
                        assert(s1[b].0@ == kv);
                    } else {
                        assert(s1[a] == s0[a] && s1[b] == s0[b]);
                    }
                }
            }
            assert(attr_keys_valid(s1)) by {
                assert forall|j: int| 0 <= j < s1.len() implies valid_attr_storage(
                    (#[trigger] s1[j]).0@,
                ) by {
                    if j < s1.len() - 1 {
                        assert(s1[j] == s0[j]);
                    }
                }
            }
        }
    }
}

/// When all keys before `i` differ from `k` and `s[i]` has key `k`, then
/// `find_key` lands exactly on `i`.
pub proof fn lemma_find_key_unique(s: Seq<(String, String)>, k: Seq<char>, i: int)
    requires
        0 <= i < s.len(),
        s[i].0@ == k,
        forall|j: int| 0 <= j < i ==> (#[trigger] s[j]).0@ != k,
    ensures
        find_key(s, k) == i,
    decreases i,
{
    if i == 0 {
    } else {
        assert(s[0].0@ != k);
        assert forall|j: int| 0 <= j < i - 1 implies (#[trigger] s.drop_first()[j]).0@ != k by {
            assert(s.drop_first()[j] == s[j + 1]);
        }
        assert(s.drop_first()[i - 1] == s[i]);
        lemma_find_key_unique(s.drop_first(), k, i - 1);
    }
}

/// Updating the entry at the position of key `k` keeps every other lookup.
proof fn lemma_update_preserves(s0: Seq<(String, String)>, s1: Seq<(String, String)>, i: int, k: Seq<char>)
    requires
        0 <= i < s0.len(),
        s1 =~= s0.update(i, s1[i]),
        s1.len() == s0.len(),
        s0[i].0@ == k,
        s1[i].0@ == k,
        unique_keys(s0),
    ensures
        unique_keys(s1),
        find_key(s1, k) == i,
        forall|k2: Seq<char>| k2 != k ==> attr_get(s1, k2) == attr_get(s0, k2),
    decreases s0.len(),
{
    assert forall|a: int, b: int| 0 <= a < b < s1.len() implies (#[trigger] s1[a]).0@ != (
    #[trigger] s1[b]).0@ by {
        assert(s0[a].0@ != s0[b].0@);
    }
    lemma_find_key(s0, k);
    assert forall|j: int| 0 <= j < i implies (#[trigger] s1[j]).0@ != k by {
        assert(s0[j].0@ != s0[i].0@);
    }
    lemma_find_key_unique(s1, k, i);
    assert forall|k2: Seq<char>| k2 != k implies attr_get(s1, k2) == attr_get(s0, k2) by {
        lemma_find_key_same(s0, s1, k2, i);
    }
}

/// Two equal-length lists that differ only at position `i`, where both hold
/// key `k` (different from `k2`), agree on the lookup of `k2`.
proof fn lemma_find_key_same(s0: Seq<(String, String)>, s1: Seq<(String, String)>, k2: Seq<char>, i: int)
    requires
        s0.len() == s1.len(),
        0 <= i < s0.len(),
        forall|j: int| 0 <= j < s0.len() && j != i ==> s0[j] == s1[j],
        s0[i].0@ == s1[i].0@,
        s0[i].0@ != k2,
    ensures
        attr_get(s1, k2) == attr_get(s0, k2),
    decreases s0.len(),
{
    if s0.len() > 0 {
        if i == 0 {
            assert(s0[0].0@ != k2);
            assert(s1[0].0@ != k2);
            assert forall|j: int| 0 <= j < s0.drop_first().len() implies s0.drop_first()[j]
                == s1.drop_first()[j] by {
                assert(s0.drop_first()[j] == s0[j + 1]);
                assert(s1.drop_first()[j] == s1[j + 1]);
            }
            assert(s0.drop_first() =~= s1.drop_first());
            lemma_step(s0, k2);
            lemma_step(s1, k2);
        } else {
            assert(s0[0] == s1[0]);
            if s0[0].0@ == k2 {
            } else {
                assert forall|j: int|
                    0 <= j < s0.drop_first().len() && j != i - 1 implies s0.drop_first()[j]
                    == s1.drop_first()[j] by {
                    assert(s0.drop_first()[j] == s0[j + 1]);
                    assert(s1.drop_first()[j] == s1[j + 1]);
                }
                assert(s0.drop_first()[i - 1] == s0[i]);
                assert(s1.drop_first()[i - 1] == s1[i]);
                lemma_find_key_same(s0.drop_first(), s1.drop_first(), k2, i - 1);
                lemma_step(s0, k2);
                lemma_step(s1, k2);
            }
        }
    }
}

/// Unfolds one lookup step for a non-matching head.
proof fn lemma_step(s: Seq<(String, String)>, k: Seq<char>)
    requires
        s.len() > 0,
        s[0].0@ != k,
    ensures
        attr_get(s, k) == attr_get(s.drop_first(), k),
{
    lemma_find_key(s.drop_first(), k);
}

/// Appending a fresh key keeps all other lookups and stores the new value.
proof fn lemma_append_one(s: Seq<(String, String)>, p: (String, String))
    requires
        find_key(s, p.0@) == -1,
    ensures
        find_key(s.push(p), p.0@) == s.len(),
        forall|k2: Seq<char>| k2 != p.0@ ==> attr_get(s.push(p), k2) == attr_get(s, k2),
    decreases s.len(),
{
    if s.len() == 0 {
        assert(s.push(p)[0] == p);
        assert forall|k2: Seq<char>| k2 != p.0@ implies attr_get(s.push(p), k2) == attr_get(
            s,
            k2,
        ) by {
            assert(find_key(s.push(p).drop_first(), k2) == -1) by {
                assert(s.push(p).drop_first().len() == 0);
            }
        }
    } else {
        assert(s.push(p)[0] == s[0]);
        assert(s.push(p).drop_first() =~= s.drop_first().push(p));
        if s[0].0@ == p.0@ {
            assert(find_key(s, p.0@) == 0);
        } else {
            lemma_append_one(s.drop_first(), p);
            assert forall|k2: Seq<char>| k2 != p.0@ implies attr_get(s.push(p), k2) == attr_get(
                s,
                k2,
            ) by {
                if s[0].0@ == k2 {
                } else {
                    lemma_step(s.push(p), k2);
                    lemma_step(s, k2);
                }
            }
        }
    }
}

} // verus!

verus! {

/// The attribute lookups of the two entry lists coincide on every key.
pub open spec fn attrs_equiv(x: Seq<(String, String)>, y: Seq<(String, String)>) -> bool {
    forall|k: Seq<char>| attr_get(x, k) == attr_get(y, k)
}

/// With pairwise distinct keys, the entry at `j` is what lookup finds.
pub proof fn lemma_attr_get_at(s: Seq<(String, String)>, j: int)
    requires
        unique_keys(s),
        0 <= j < s.len(),
    ensures
        attr_get(s, s[j].0@) == Some(s[j].1@),
        find_key(s, s[j].0@) == j,
{
    assert forall|i: int| 0 <= i < j implies (#[trigger] s[i]).0@ != s[j].0@ by {}
    lemma_find_key_unique(s, s[j].0@, j);
}

/// Compares two attribute mappings as mappings: same keys, same values,
/// whatever the entry order.
#[verifier::loop_isolation(false)]
pub fn attrs_equal(x: &AttributeMap, y: &AttributeMap) -> (r: bool)
    requires
        x.wf(),
        y.wf(),
    ensures
        r == attrs_equiv(x@, y@),
{
    let mut i: usize = 0;
    while i < x.entries.len()
        invariant
            i <= x@.len(),
            forall|i2: int| 0 <= i2 < i ==> attr_get(y@, (#[trigger] x@[i2]).0@) == Some(x@[i2].1@),
        decreases x@.len() - i,
    {
        proof {
            lemma_attr_get_at(x@, i as int);
        }
        match y.get(x.entries[i].0.as_str()) {
            Some(v) => {
                if !crate::strutil::str_eq(v.as_str(), x.entries[i].1.as_str()) {
                    proof {
                        assert(attr_get(x@, x@[i as int].0@) == Some(x@[i as int].1@));
                        assert(attr_get(y@, x@[i as int].0@) != attr_get(x@, x@[i as int].0@));
                    }
                    return false;
                }
            },
            None => {
                proof {
                    assert(attr_get(x@, x@[i as int].0@) == Some(x@[i as int].1@));
                    assert(attr_get(y@, x@[i as int].0@) is None);
                }
                return false;
            },
        }
        i = i + 1;
    }
    let mut j: usize = 0;
    while j < y.entries.len()
        invariant
            j <= y@.len(),
            forall|i2: int| 0 <= i2 < x@.len() ==> attr_get(y@, (#[trigger] x@[i2]).0@) == Some(
                x@[i2].1@,
            ),
            forall|j2: int| 0 <= j2 < j ==> attr_get(x@, (#[trigger] y@[j2]).0@) == Some(y@[j2].1@),
        decreases y@.len() - j,
    {
        proof {
            lemma_attr_get_at(y@, j as int);
        }
        match x.get(y.entries[j].0.as_str()) {
            Some(v) => {
                if !crate::strutil::str_eq(v.as_str(), y.entries[j].1.as_str()) {
                    proof {
                        assert(attr_get(y@, y@[j as int].0@) == Some(y@[j as int].1@));
                        assert(attr_get(x@, y@[j as int].0@) != attr_get(y@, y@[j as int].0@));
                    }
                    return false;
                }
            },
            None => {
                proof {
                    assert(attr_get(y@, y@[j as int].0@) == Some(y@[j as int].1@));
                    assert(attr_get(x@, y@[j as int].0@) is None);
                }
                return false;
            },
        }
        j = j + 1;
    }
    proof {
        assert forall|k: Seq<char>| attr_get(x@, k) == attr_get(y@, k) by {
            lemma_find_key(x@, k);
            lemma_find_key(y@, k);
            if find_key(x@, k) >= 0 {
                let i2 = find_key(x@, k);
                assert(attr_get(y@, x@[i2].0@) == Some(x@[i2].1@));
            } else {
                if find_key(y@, k) >= 0 {
                    let j2 = find_key(y@, k);
                    assert(attr_get(x@, y@[j2].0@) == Some(y@[j2].1@));
                    assert(false);
                }
            }
        }
    }
    true
}

} // verus!

verus! {

/// An NCName: an XML name without colons.
pub open spec fn valid_ncname(s: Seq<char>) -> bool {
    validation::valid_name(s) && (forall|i: int| 0 <= i < s.len() ==> s[i] != ':')
}

/// A well-formed XML name never holds the 0x01 delimiter.
pub proof fn lemma_name_no_delim(s: Seq<char>)
    requires
        validation::valid_name(s),
    ensures
        find_delim(s) == -1,
{
    lemma_find_delim(s);
    if find_delim(s) >= 0 {
        let d = find_delim(s);
        if d == 0 {
            assert(validation::valid_name_start_char(s[0]));
        } else {
            assert(validation::valid_name_char(s[d]));
        }
    }
}

/// Well-formed character data never holds the 0x01 delimiter.
pub proof fn lemma_cdata_no_delim(s: Seq<char>)
    requires
        validation::valid_cdata(s),
    ensures
        find_delim(s) == -1,
{
    lemma_find_delim(s);
    if find_delim(s) >= 0 {
        assert(validation::valid_cdata_char(s[find_delim(s)]));
    }
}

/// When the delimiter first occurs at `d`, `find_delim` lands on it.
pub proof fn lemma_find_delim_at(s: Seq<char>, d: int)
    requires
        0 <= d < s.len(),
        s[d] == '\u{1}',
        forall|i: int| 0 <= i < d ==> s[i] != '\u{1}',
    ensures
        find_delim(s) == d,
    decreases d,
{
    if d == 0 {
    } else {
        assert forall|i: int| 0 <= i < d - 1 implies s.drop_first()[i] != '\u{1}' by {
            assert(s.drop_first()[i] == s[i + 1]);
        }
        assert(s.drop_first()[d - 1] == s[d]);
        lemma_find_delim_at(s.drop_first(), d - 1);
    }
}

/// The storage form produced by parsing an attribute key string:
/// `xml:`-prefixed keys map to the XML namespace with the delimiter,
/// `xmlns:`-prefixed keys and keys already in delimiter form stay as they
/// are, bare names stay bare. Ill-formed components give nothing.
pub open spec fn spec_attr_parse(s: Seq<char>) -> Option<Seq<char>> {
    if s.len() >= 4 && s.take(4) == seq!['x', 'm', 'l', ':'] {
        if valid_ncname(s.skip(4)) {
            Some(XMLNS_XML@ + seq!['\u{1}'] + s.skip(4))
        } else {
            None
        }
    } else if s.len() >= 6 && s.take(6) == seq!['x', 'm', 'l', 'n', 's', ':'] {
        if valid_ncname(s.skip(6)) {
            Some(s)
        } else {
            None
        }
    } else if find_delim(s) >= 0 {
        let d = find_delim(s);
        if s.len() - d <= 1 {
            None
        } else if validation::valid_cdata(s.take(d)) && valid_ncname(s.skip(d + 1)) {
            Some(s)
        } else {
            None
        }
    } else {
        if valid_ncname(s) {
            Some(s)
        } else {
            None
        }
    }
}

/// The XML-namespace URI is well-formed character data.
pub proof fn lemma_xmlns_xml_cdata()
    ensures
        validation::valid_cdata(XMLNS_XML@),
        find_delim(XMLNS_XML@) == -1,
{
    reveal_strlit("http://www.w3.org/XML/1998/namespace");
    assert forall|i: int|
        0 <= i < XMLNS_XML@.len() implies validation::valid_cdata_char(#[trigger] XMLNS_XML@[i]) by {}
    lemma_cdata_no_delim(XMLNS_XML@);
}

/// A libexpat-compatible attribute key: an XML name, optionally prefixed
/// with a namespace URI and the 0x01 delimiter.
#[derive(Debug, Clone, Hash)]
pub struct AttrName(pub String);

impl AttrName {
    /// The storage form is well formed.
    pub open spec fn wf(self) -> bool {
        valid_attr_storage(self.0@)
    }

    /// Joins a namespace URI and a local name into storage form. Both
    /// arguments are trusted validated tokens.
    pub fn compose(ns: Option<&str>, name: &str) -> (r: AttrName)
        requires
            validation::valid_name(name@),
            match ns {
                Option::Some(n) => validation::valid_cdata(n@),
                Option::None => true,
            },
        ensures
            r.0@ == match ns {
                Option::Some(n) => n@ + seq!['\u{1}'] + name@,
                Option::None => name@,
            },
            r.wf(),
    {
        match ns {
            Some(n) => {
                let mut buf = String::new();
                vstd::string::StringExecFns::append(&mut buf, n);
                strutil::push_char(&mut buf, '\u{1}');
                vstd::string::StringExecFns::append(&mut buf, name);
                proof {
                    let s = buf@;
                    assert(s =~= n@ + seq!['\u{1}'] + name@);
                    lemma_cdata_no_delim(n@);
                    assert forall|i: int| 0 <= i < n@.len() implies s[i] != '\u{1}' by {
                        assert(s[i] == n@[i]);
                    }
                    lemma_find_delim_at(s, n@.len() as int);
                    assert(s.take(n@.len() as int) =~= n@);
                    assert(s.skip(n@.len() as int + 1) =~= name@);
                    lemma_name_no_delim(name@);
                }
                AttrName(buf)
            },
            None => {
                proof {
                    lemma_name_no_delim(name@);
                }
                AttrName(name.to_owned())
            },
        }
    }

    /// Wraps a bare local name. The argument is a trusted validated token.
    pub fn local_only(name: &str) -> (r: AttrName)
        requires
            validation::valid_name(name@),
        ensures
            r.0@ == name@,
            r.wf(),
    {
        proof {
            lemma_name_no_delim(name@);
        }
        AttrName(name.to_owned())
    }

    /// Splits the storage form back into namespace URI and local name.
    #[verifier::loop_isolation(false)]
    pub fn decompose(&self) -> (r: (Option<String>, String))
        ensures
            if find_delim(self.0@) < 0 {
                r.0 is None && r.1@ == self.0@
            } else {
                &&& r.0 matches Some(ns) && ns@ == self.0@.take(find_delim(self.0@))
                &&& r.1@ == self.0@.skip(find_delim(self.0@) + 1)
            },
    {
        let cs = strutil::str_chars(self.0.as_str());
        let n = cs.len();
        match find_delim_exec(&cs) {
            Some(i) => {
                proof {
                    lemma_find_delim(self.0@);
                }
                let ns = strutil::chars_range_to_string(&cs, 0, i);
                let local = strutil::chars_range_to_string(&cs, i + 1, n);
                proof {
                    assert(ns@ =~= self.0@.take(i as int));
                    assert(local@ =~= self.0@.skip(i + 1));
                }
                (Some(ns), local)
            },
            None => (None, self.0.clone()),
        }
    }

    /// The raw storage form.
    pub fn as_string(self) -> (r: String)
        ensures
            r@ == self.0@,
    {
        self.0
    }

    /// Parses a key from its external string form, validating every
    /// component.
    #[verifier::loop_isolation(false)]
    pub fn try_from(s: &str) -> (r: Result<AttrName, &'static str>)
        ensures
            match r {
                Result::Ok(a) => spec_attr_parse(s@) == Some(a.0@) && a.wf(),
                Result::Err(_) => spec_attr_parse(s@) is None,
            },
    {
        let cs = strutil::str_chars(s);
        let n = cs.len();
        if n >= 4 && cs[0] == 'x' && cs[1] == 'm' && cs[2] == 'l' && cs[3] == ':' {
            proof {
                assert(s@.take(4) =~= seq!['x', 'm', 'l', ':']);
            }
            let local = strutil::chars_range_to_string(&cs, 4, n);
            proof {
                assert(local@ =~= s@.skip(4));
            }
            if check_ncname(local.as_str()) {
                proof {
                    lemma_xmlns_xml_cdata();
                }
                return Ok(Self::compose(Some(XMLNS_XML), local.as_str()));
            }
            return Err("local name is not well formed");
        }
        if n >= 6 && cs[0] == 'x' && cs[1] == 'm' && cs[2] == 'l' && cs[3] == 'n' && cs[4] == 's'
            && cs[5] == ':' {
            proof {
                assert(s@.take(4) != seq!['x', 'm', 'l', ':']) by {
                    assert(s@.take(4)[3] == 'n');
                }
                assert(s@.take(6) =~= seq!['x', 'm', 'l', 'n', 's', ':']);
            }
            let local = strutil::chars_range_to_string(&cs, 6, n);
            proof {
                assert(local@ =~= s@.skip(6));
            }
            if check_ncname(local.as_str()) {
                proof {
                    // the storage form is a bare, valid name: `xmlns:` keys
                    // stay verbatim
                    lemma_xmlns_key_valid(s@);
                }
                return Ok(AttrName(s.to_owned()));
            }
            return Err("namespace prefix is not well formed");
        }
        let ghost is_xml = s@.len() >= 4 && s@.take(4) == seq!['x', 'm', 'l', ':'];
        let ghost is_xmlns = s@.len() >= 6 && s@.take(6) == seq!['x', 'm', 'l', 'n', 's', ':'];
        proof {
            if is_xml {
                assert(s@[0] == 'x' && s@[1] == 'm' && s@[2] == 'l' && s@[3] == ':') by {
                    assert(s@.take(4)[0] == s@[0] && s@.take(4)[1] == s@[1] && s@.take(4)[2]
                        == s@[2] && s@.take(4)[3] == s@[3]);
                }
                assert(false);
            }
            if is_xmlns {
                assert(s@[0] == 'x' && s@[1] == 'm' && s@[2] == 'l' && s@[3] == 'n' && s@[4] == 's'
                    && s@[5] == ':') by {
                    assert(s@.take(6)[0] == s@[0] && s@.take(6)[1] == s@[1] && s@.take(6)[2]
                        == s@[2] && s@.take(6)[3] == s@[3] && s@.take(6)[4] == s@[4] && s@.take(6)[5]
                        == s@[5]);
                }
                assert(false);
            }
        }
        let delim = find_delim_exec(&cs);
        if let Some(d) = delim {
            proof {
                lemma_find_delim(s@);
            }
            if n - d <= 1 {
                return Err("local name (following \\1 separator) is empty");
            }
            let nsuri = strutil::chars_range_to_string(&cs, 0, d);
            let local = strutil::chars_range_to_string(&cs, d + 1, n);
            proof {
                assert(nsuri@ =~= s@.take(d as int));
                assert(local@ =~= s@.skip(d + 1));
            }
            if check_xml_cdata_ok(nsuri.as_str()) {
                if check_ncname(local.as_str()) {
                    let r = Self::compose(Some(nsuri.as_str()), local.as_str());
                    proof {
                        assert(r.0@ =~= s@) by {
                            assert(r.0@ == s@.take(find_delim(s@)) + seq!['\u{1}'] + s@.skip(
                                find_delim(s@) + 1,
                            ));
                        }
                    }
                    return Ok(r);
                }
                return Err("local name is not well formed");
            }
            return Err("nsuri is not well formed");
        }
        if check_ncname(s) {
            proof {
                lemma_name_no_delim(s@);
            }
            return Ok(AttrName(s.to_owned()));
        }
        Err("local name is not well formed")
    }

    /// Parses a key from an owned string.
    pub fn from_string(s: String) -> (r: Result<AttrName, &'static str>)
        ensures
            match r {
                Result::Ok(a) => spec_attr_parse(s@) == Some(a.0@) && a.wf(),
                Result::Err(_) => spec_attr_parse(s@) is None,
            },
    {
        Self::try_from(s.as_str())
    }
}

/// A verbatim `xmlns:<ncname>` key is a well-formed bare name.
proof fn lemma_xmlns_key_valid(s: Seq<char>)
    requires
        s.len() >= 6,
        s.take(6) == seq!['x', 'm', 'l', 'n', 's', ':'],
        valid_ncname(s.skip(6)),
    ensures
        validation::valid_name(s),
        find_delim(s) == -1,
        valid_attr_storage(s),
{
    assert(s[0] == 'x' && s[1] == 'm' && s[2] == 'l' && s[3] == 'n' && s[4] == 's' && s[5] == ':')
        by {
        assert(s.take(6)[0] == s[0] && s.take(6)[1] == s[1] && s.take(6)[2] == s[2] && s.take(6)[3]
            == s[3] && s.take(6)[4] == s[4] && s.take(6)[5] == s[5]);
    }
    assert(validation::valid_name_start_char('x'));
    assert forall|i: int| 1 <= i < s.len() implies validation::valid_name_char(#[trigger] s[i]) by {
        if i >= 6 {
            assert(s.skip(6)[i - 6] == s[i]);
            if i == 6 {
                assert(validation::valid_name_start_char(s.skip(6)[0]));
                validation::lemma_start_is_name_char(s[i]);
            }
        }
    }
    lemma_name_no_delim(s);
}

/// Scans for the first 0x01 delimiter.
#[verifier::loop_isolation(false)]
pub fn find_delim_exec(cs: &Vec<char>) -> (r: Option<usize>)
    ensures
        match r {
            Option::Some(d) => find_delim(cs@) == d,
            Option::None => find_delim(cs@) == -1,
        },
{
    let mut i: usize = 0;
    while i < cs.len()
        invariant
            i <= cs@.len(),
            forall|j: int| 0 <= j < i ==> cs@[j] != '\u{1}',
        decreases cs@.len() - i,
    {
        if cs[i] == '\u{1}' {
            proof {
                lemma_find_delim_at(cs@, i as int);
            }
            return Some(i);
        }
        i = i + 1;
    }
    proof {
        lemma_find_delim(cs@);
    }
    None
}

/// Checks a whole string against the NCName production: a name with no
/// colon.
pub fn check_ncname(s: &str) -> (r: bool)
    ensures
        r == valid_ncname(s@),
{
    match validation::check_xml_element_name(s, false) {
        Some(_) => {
            proof {
                validation::lemma_valid_name_hack_plain(s@);
            }
            false
        },
        None => {
            proof {
                validation::lemma_valid_name_hack_plain(s@);
            }
            no_colon(s)
        },
    }
}

/// Checks that the string holds no colon.
#[verifier::loop_isolation(false)]
fn no_colon(s: &str) -> (r: bool)
    ensures
        r == (forall|i: int| 0 <= i < s@.len() ==> s@[i] != ':'),
{
    let cs = strutil::str_chars(s);
    let mut i: usize = 0;
    while i < cs.len()
        invariant
            i <= s@.len(),
            cs@ == s@,
            forall|j: int| 0 <= j < i ==> s@[j] != ':',
        decreases s@.len() - i,
    {
        if cs[i] == ':' {
            return false;
        }
        i = i + 1;
    }
    true
}

/// True when the whole string is well-formed character data.
pub fn check_xml_cdata_ok(s: &str) -> (r: bool)
    ensures
        r == validation::valid_cdata(s@),
{
    match validation::check_xml_cdata(s) {
        Some(_) => false,
        None => true,
    }
}

} // verus!

verus! {

/// Parsing keeps every accepted key verbatim, except for the `xml:`
/// compatibility prefix, which is rewritten to the XML namespace in
/// storage form.
pub proof fn lemma_attr_parse_roundtrip(s: Seq<char>)
    requires
        spec_attr_parse(s) is Some,
        !(s.len() >= 4 && s.take(4) == seq!['x', 'm', 'l', ':']),
    ensures
        spec_attr_parse(s) == Some(s),
{
}

} // verus!
